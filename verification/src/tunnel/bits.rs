//! Byte strings read as bit strings, most significant bit first. The text codecs (base32 for query
//! names, base64 for keys and icons) are stated over the bits of their input.
use vstd::prelude::*;

verus! {

/// Bit `k` of a byte, counted from the most significant (`k` is 0 to 7).
pub open spec fn byte_bit(b: u8, k: int) -> u8 {
    (b >> ((7 - k) as u8)) & 1
}

/// Bit `k` of a byte string; zero past its end.
pub open spec fn data_bit(data: Seq<u8>, k: int) -> u8 {
    if 0 <= k < 8 * data.len() {
        byte_bit(data[k / 8], k % 8)
    } else {
        0
    }
}

/// The value of the `width` bits of `data` that start at bit `from`.
pub open spec fn data_bits(data: Seq<u8>, from: int, width: nat) -> int
    decreases width,
{
    if width == 0 {
        0
    } else {
        2 * data_bits(data, from, (width - 1) as nat) + data_bit(data, from + width - 1)
    }
}

/// The byte at `i`, or zero past the end.
pub open spec fn byte_or_zero(data: Seq<u8>, i: int) -> u8 {
    if 0 <= i < data.len() {
        data[i]
    } else {
        0
    }
}

/// The byte at `i`, or zero past the end.
pub fn get_or_zero(data: &[u8], i: usize) -> (b: u8)
    ensures
        b == byte_or_zero(data@, i as int),
{
    if i < data.len() {
        data[i]
    } else {
        0
    }
}

proof fn lemma_byte_bits(b: u8)
    by (bit_vector)
    ensures
        b == 128 * ((b >> 7u8) & 1) + 64 * ((b >> 6u8) & 1) + 32 * ((b >> 5u8) & 1) + 16 * ((b
            >> 4u8) & 1) + 8 * ((b >> 3u8) & 1) + 4 * ((b >> 2u8) & 1) + 2 * ((b >> 1u8) & 1) + ((b
            >> 0u8) & 1),
        forall|s: u8| #![auto] (b >> s) & 1 == 0 || (b >> s) & 1 == 1,
{
}

/// A bit is zero or one.
pub proof fn lemma_data_bit_binary(data: Seq<u8>, k: int)
    ensures
        data_bit(data, k) <= 1,
{
    if 0 <= k < 8 * data.len() {
        lemma_byte_bits(data[k / 8]);
    }
}

/// A byte is the value of its own eight bits.
pub proof fn lemma_byte_is_its_bits(data: Seq<u8>, j: int)
    requires
        0 <= j < data.len(),
    ensures
        data_bits(data, 8 * j, 8) == data[j],
{
    reveal_with_fuel(data_bits, 9);
    lemma_byte_bits(data[j]);
    assert forall|k: int| 0 <= k < 8 implies data_bit(data, 8 * j + k) == byte_bit(data[j], k) by {
        assert((8 * j + k) / 8 == j && (8 * j + k) % 8 == k);
    }
    assert(data_bit(data, 8 * j + 0) == byte_bit(data[j], 0));
    assert(data_bit(data, 8 * j + 1) == byte_bit(data[j], 1));
    assert(data_bit(data, 8 * j + 2) == byte_bit(data[j], 2));
    assert(data_bit(data, 8 * j + 3) == byte_bit(data[j], 3));
    assert(data_bit(data, 8 * j + 4) == byte_bit(data[j], 4));
    assert(data_bit(data, 8 * j + 5) == byte_bit(data[j], 5));
    assert(data_bit(data, 8 * j + 6) == byte_bit(data[j], 6));
    assert(data_bit(data, 8 * j + 7) == byte_bit(data[j], 7));
}

/// Bit `k` of a string of `width`-bit symbols.
pub open spec fn symbol_bit(symbols: Seq<u8>, width: nat, k: int) -> u8 {
    (symbols[k / (width as int)] >> ((width - 1 - k % (width as int)) as u8)) & 1
}

/// The value of the `count` bits of a string of `width`-bit symbols that start at bit `from`.
pub open spec fn symbol_bits(symbols: Seq<u8>, width: nat, from: int, count: nat) -> int
    decreases count,
{
    if count == 0 {
        0
    } else {
        2 * symbol_bits(symbols, width, from, (count - 1) as nat) + symbol_bit(
            symbols,
            width,
            from + count - 1,
        )
    }
}

/// The whole bytes held by a string of `width`-bit symbols; bits past the last whole byte are
/// dropped.
pub open spec fn symbol_bytes(symbols: Seq<u8>, width: nat) -> Seq<u8> {
    Seq::new(
        (symbols.len() * width) / 8,
        |j: int| symbol_bits(symbols, width, 8 * j, 8) as u8,
    )
}

/// `symbols` spells `data` in groups of `width` bits, the last group filled up with zero bits.
pub open spec fn spells(symbols: Seq<u8>, width: nat, data: Seq<u8>) -> bool {
    &&& symbols.len() == group_count(data.len(), width)
    &&& forall|i: int|
        0 <= i < symbols.len() ==> #[trigger] symbols[i] == data_bits(data, width * i, width)
}

/// How many groups of `width` bits it takes to hold `len` bytes.
pub open spec fn group_count(len: nat, width: nat) -> nat {
    ((8 * len + width - 1) / (width as int)) as nat
}

proof fn lemma_window_step(w: u16, r: u16, width: u16)
    by (bit_vector)
    requires
        1 <= width <= 8,
        r <= 7,
    ensures
        (w >> ((16 - width - r) as u16)) & (((1u16 << width) - 1) as u16) == 2 * ((w >> ((17 - width
            - r) as u16)) & (((1u16 << ((width - 1) as u16)) - 1) as u16)) + ((w >> ((16 - width
            - r) as u16)) & 1),
{
}

proof fn lemma_window_empty(w: u16, r: u16)
    by (bit_vector)
    requires
        r <= 7,
    ensures
        (w >> ((16 - r) as u16)) & (((1u16 << 0u16) - 1) as u16) == 0,
{
}

proof fn lemma_pair_bit(hi: u8, lo: u8, k: u16)
    by (bit_vector)
    requires
        k < 16,
    ensures
        ((((hi as u16) << 8u16) | (lo as u16)) >> ((15 - k) as u16)) & 1 == if k < 8 {
            ((hi >> ((7 - k) as u8)) & 1) as u16
        } else {
            ((lo >> ((15 - k) as u8)) & 1) as u16
        },
        (0u8 >> ((7 - k) as u8)) & 1 == 0,
        (0u8 >> ((15 - k) as u8)) & 1 == 0,
{
}

/// The window of `width` bits cut out of two neighbouring bytes is what `data_bits` says.
proof fn lemma_window(data: Seq<u8>, from: int, width: nat)
    requires
        0 <= from,
        width <= 8,
    ensures
        ({
            let hi = byte_or_zero(data, from / 8);
            let lo = byte_or_zero(data, from / 8 + 1);
            let w = ((hi as u16) << 8u16) | (lo as u16);
            let r = from % 8;
            (w >> ((16 - width - r) as u16)) & (((1u16 << (width as u16)) - 1) as u16) == data_bits(
                data,
                from,
                width,
            )
        }),
    decreases width,
{
    let hi = byte_or_zero(data, from / 8);
    let lo = byte_or_zero(data, from / 8 + 1);
    let w = ((hi as u16) << 8u16) | (lo as u16);
    let r = (from % 8) as u16;
    if width == 0 {
        lemma_window_empty(w, r);
    } else {
        lemma_window(data, from, (width - 1) as nat);
        lemma_window_step(w, r, width as u16);
        let k = (r + width - 1) as u16;
        lemma_pair_bit(hi, lo, k);
        let at = from + width - 1;
        assert(at / 8 == from / 8 + k as int / 8 && at % 8 == k as int % 8);
        assert(data_bit(data, at) == (w >> ((15 - k) as u16)) & 1);
    }
}

/// The value of the `width` bits of `data` that start at bit `from`.
pub fn read_bits(data: &[u8], from: u128, width: u8) -> (v: u8)
    requires
        1 <= width <= 8,
        from < 8 * data.len(),
    ensures
        v == data_bits(data@, from as int, width as nat),
{
    let i: usize = (from / 8) as usize;
    let hi: u8 = get_or_zero(data, i);
    let lo: u8 = get_or_zero(data, i + 1);
    let w: u16 = ((hi as u16) << 8u16) | (lo as u16);
    let r: u16 = (from % 8) as u16;
    let wide: u16 = width as u16;
    proof {
        lemma_window(data@, from as int, width as nat);
        assert((1u16 << wide) >= 1 && 0 <= (w >> ((16 - wide - r) as u16)) & (((1u16 << wide) - 1) as u16) <= 255)
            by (bit_vector)
            requires
                wide <= 8,
        ;
    }
    ((w >> (16 - wide - r)) & ((1u16 << wide) - 1)) as u8
}

proof fn lemma_shifted_pair(high: u8, low: u8, s: u8)
    by (bit_vector)
    requires
        high < 128,
        low <= 1,
    ensures
        (((2 * high + low) as u8) >> 0u8) & 1 == low,
        1 <= s <= 7 ==> (((2 * high + low) as u8) >> s) & 1 == (high >> ((s - 1) as u8)) & 1,
{
}

spec fn two_to(n: nat) -> int
    decreases n,
{
    if n == 0 {
        1
    } else {
        2 * two_to((n - 1) as nat)
    }
}

proof fn lemma_data_bits_below(data: Seq<u8>, from: int, width: nat)
    ensures
        0 <= data_bits(data, from, width) < two_to(width),
    decreases width,
{
    if width > 0 {
        lemma_data_bits_below(data, from, (width - 1) as nat);
        lemma_data_bit_binary(data, from + width - 1);
    }
}

/// The value of a group of bits is below two to the power of its width.
pub proof fn lemma_data_bits_bound(data: Seq<u8>, from: int, width: nat)
    requires
        width <= 8,
    ensures
        0 <= data_bits(data, from, width) <= 255,
        width <= 7 ==> data_bits(data, from, width) <= 127,
        width <= 6 ==> data_bits(data, from, width) <= 63,
        width <= 5 ==> data_bits(data, from, width) <= 31,
{
    reveal_with_fuel(two_to, 9);
    lemma_data_bits_below(data, from, width);
}

/// Bit `t` of a group is bit `from + t` of the data it was cut from.
proof fn lemma_group_bit(data: Seq<u8>, from: int, width: nat, t: int)
    requires
        0 <= t < width <= 8,
    ensures
        ((data_bits(data, from, width) as u8) >> ((width - 1 - t) as u8)) & 1 == data_bit(
            data,
            from + t,
        ),
    decreases width,
{
    let high = data_bits(data, from, (width - 1) as nat);
    let low = data_bit(data, from + width - 1);
    lemma_data_bits_bound(data, from, (width - 1) as nat);
    lemma_data_bits_bound(data, from, width);
    lemma_data_bit_binary(data, from + width - 1);
    lemma_shifted_pair(high as u8, low, (width - 1 - t) as u8);
    if t < width - 1 {
        lemma_group_bit(data, from, (width - 1) as nat, t);
    }
}

proof fn lemma_spelled_bits(symbols: Seq<u8>, width: nat, data: Seq<u8>, from: int, count: nat)
    requires
        spells(symbols, width, data),
        1 <= width <= 8,
        0 <= from,
        from + count <= 8 * data.len(),
    ensures
        symbol_bits(symbols, width, from, count) == data_bits(data, from, count),
    decreases count,
{
    if count > 0 {
        lemma_spelled_bits(symbols, width, data, from, (count - 1) as nat);
        let k = from + count - 1;
        let i = k / (width as int);
        let t = k % (width as int);
        vstd::arithmetic::div_mod::lemma_fundamental_div_mod(k, width as int);
        assert(k < 8 * data.len());
        assert(i < symbols.len()) by {
            vstd::arithmetic::div_mod::lemma_div_is_ordered(
                k + width,
                8 * data.len() + width - 1,
                width as int,
            );
            vstd::arithmetic::div_mod::lemma_div_plus_one(k, width as int);
        }
        assert(i >= 0) by {
            vstd::arithmetic::div_mod::lemma_div_pos_is_pos(k, width as int);
        }
        lemma_group_bit(data, width * i, width, t);
        lemma_data_bits_bound(data, width * i, width);
    }
}

/// Bytes spelled in groups are read back unchanged.
pub proof fn lemma_spelled_bytes(symbols: Seq<u8>, width: nat, data: Seq<u8>)
    requires
        spells(symbols, width, data),
        1 <= width <= 7,
    ensures
        symbol_bytes(symbols, width) == data,
{
    let n = data.len() as int;
    let w = width as int;
    let c = symbols.len() as int;
    vstd::arithmetic::div_mod::lemma_fundamental_div_mod(8 * n + w - 1, w);
    assert(8 * n <= w * c <= 8 * n + w - 1);
    assert(c * w == w * c) by (nonlinear_arith);
    assert((c * w) / 8 == n);
    assert forall|j: int| 0 <= j < n implies symbol_bytes(symbols, width)[j] == data[j] by {
        lemma_spelled_bits(symbols, width, data, 8 * j, 8);
        lemma_byte_is_its_bits(data, j);
    }
    assert(symbol_bytes(symbols, width) =~= data);
}

proof fn lemma_symbol_bits_below(symbols: Seq<u8>, width: nat, from: int, count: nat)
    ensures
        0 <= symbol_bits(symbols, width, from, count) < two_to(count),
    decreases count,
{
    if count > 0 {
        lemma_symbol_bits_below(symbols, width, from, (count - 1) as nat);
        lemma_byte_bits(symbols[(from + count - 1) / (width as int)]);
    }
}

proof fn lemma_symbol_bits_bound(symbols: Seq<u8>, width: nat, from: int, count: nat)
    requires
        count <= 8,
    ensures
        0 <= symbol_bits(symbols, width, from, count) <= 255,
        count <= 7 ==> symbol_bits(symbols, width, from, count) <= 127,
{
    reveal_with_fuel(two_to, 9);
    lemma_symbol_bits_below(symbols, width, from, count);
}

/// The whole bytes held by a string of `width`-bit symbols.
pub fn bytes_of_symbols(symbols: &[u8], width: u8) -> (out: Vec<u8>)
    requires
        1 <= width <= 8,
    ensures
        out@ == symbol_bytes(symbols@, width as nat),
{
    let mut out: Vec<u8> = Vec::new();
    let w: u128 = width as u128;
    let len: u128 = symbols.len() as u128;
    assert(len * w <= len * 8) by (nonlinear_arith)
        requires
            w <= 8,
    ;
    let count: u128 = len * w / 8;
    let mut j: u128 = 0;
    while j < count
        invariant
            w == width,
            1 <= width <= 8,
            len == symbols.len(),
            len * w <= len * 8,
            count == len * w / 8,
            j <= count,
            out@.len() == j,
            forall|i: int|
                0 <= i < j ==> #[trigger] out@[i] == symbol_bits(
                    symbols@,
                    width as nat,
                    8 * i,
                    8,
                ) as u8,
        decreases count - j,
    {
        let mut byte: u8 = 0;
        let mut t: u128 = 0;
        while t < 8
            invariant
                w == width,
                1 <= width <= 8,
                len == symbols.len(),
                len * w <= len * 8,
                count == len * w / 8,
                j < count,
                t <= 8,
                byte == symbol_bits(symbols@, width as nat, 8 * j, t as nat),
            decreases 8 - t,
        {
            let k: u128 = 8 * j + t;
            proof {
                vstd::arithmetic::div_mod::lemma_fundamental_div_mod(k as int, w as int);
                assert(k < len * w);
                assert((k as int) / (w as int) < len) by (nonlinear_arith)
                    requires
                        k < len * w,
                        1 <= w,
                        k as int == w as int * (k as int / w as int) + k as int % w as int,
                        0 <= k as int % w as int,
                ;
                lemma_symbol_bits_bound(symbols@, width as nat, 8 * j, t as nat);
                lemma_symbol_bits_bound(symbols@, width as nat, 8 * j, (t + 1) as nat);
            }
            let bit: u8 = (symbols[(k / w) as usize] >> ((w - 1 - k % w) as u8)) & 1;
            byte = 2 * byte + bit;
            t = t + 1;
        }
        out.push(byte);
        j = j + 1;
    }
    assert(out@ =~= symbol_bytes(symbols@, width as nat));
    out
}

} // verus!
