//! A minimal DNS codec for the tunnel: TXT queries carry uplink bytes in base32 labels of the query
//! name, TXT answers carry downlink bytes in their character-strings, and an EDNS0 OPT record
//! advertises the UDP size so that answers may exceed 512 bytes.
//!
//! Only the shapes the tunnel uses are supported: one question, TXT/IN, and TXT answers whose
//! character-strings are concatenated. Names are read tolerantly: a compression pointer ends a name
//! and is not followed. Base32 is written in lower case and read in either case, because a resolver
//! may randomize the case of a query name.
use vstd::prelude::*;
use vstd::slice::slice_subrange;

use crate::tunnel::bits::{bytes_of_symbols, read_bits};
use crate::tunnel::wire::{get16, get32, put, put16, put32};

verus! {

broadcast use vstd::slice::group_slice_axioms;

/// TXT record type.
pub const TYPE_TXT: u16 = 16;

/// SOA record type.
pub const TYPE_SOA: u16 = 6;

/// EDNS0 OPT pseudo-record type.
pub const TYPE_OPT: u16 = 41;

/// IN class.
pub const CLASS_IN: u16 = 1;

/// Maximum total encoded domain-name length.
pub const MAX_NAME_LEN: usize = 255;

/// Maximum single-label length.
pub const MAX_LABEL_LEN: usize = 63;

/// Maximum TXT character-string length.
pub const MAX_CHAR_STRING: usize = 255;

/// The fixed DNS header length.
pub const HEADER_LEN: usize = 12;

/// Errors from DNS (de)serialization.
#[derive(Debug, Clone, Copy, PartialEq, Eq, Structural)]
pub enum DnsError {
    /// The buffer ended before a required field.
    Truncated,
    /// A label exceeded 63 bytes or the name exceeded 255.
    NameTooLong,
    /// The base32 payload in the query name did not decode.
    BadBase32,
    /// The query name was not under the expected tunnel zone.
    WrongZone,
    /// The message had no question where one was required.
    NoQuestion,
    /// A name compression pointer was malformed.
    BadPointer,
}

impl DnsError {
    /// The message shown for this error.
    pub fn message(&self) -> (m: &'static str)
        ensures
            m@ == dns_error_message(*self),
    {
        match self {
            DnsError::Truncated => "DNS message truncated",
            DnsError::NameTooLong => "DNS name too long",
            DnsError::BadBase32 => "bad base32 in QNAME",
            DnsError::WrongZone => "QNAME not under tunnel zone",
            DnsError::NoQuestion => "DNS message has no question",
            DnsError::BadPointer => "bad name compression pointer",
        }
    }
}

/// The message shown for an error.
pub open spec fn dns_error_message(e: DnsError) -> Seq<char> {
    match e {
        DnsError::Truncated => "DNS message truncated"@,
        DnsError::NameTooLong => "DNS name too long"@,
        DnsError::BadBase32 => "bad base32 in QNAME"@,
        DnsError::WrongZone => "QNAME not under tunnel zone"@,
        DnsError::NoQuestion => "DNS message has no question"@,
        DnsError::BadPointer => "bad name compression pointer"@,
    }
}

// ---- base32 (lower case, no padding) ----

/// The character that stands for a five-bit value.
pub open spec fn b32_char(v: int) -> u8 {
    if v < 26 {
        (0x61 + v) as u8
    } else {
        (0x32 + v - 26) as u8
    }
}

/// The value of a base32 character in either case, or `None`.
pub open spec fn b32_value(c: u8) -> Option<u8> {
    if 0x61 <= c <= 0x7a {
        Some((c - 0x61) as u8)
    } else if 0x41 <= c <= 0x5a {
        Some((c - 0x41) as u8)
    } else if 0x32 <= c <= 0x37 {
        Some((c - 0x32 + 26) as u8)
    } else {
        None
    }
}

/// The base32 text of `data`: one character for each group of five bits, the last group filled up
/// with zero bits.
pub open spec fn b32_text(data: Seq<u8>) -> Seq<u8> {
    Seq::new(
        crate::tunnel::bits::group_count(data.len(), 5),
        |i: int| b32_char(crate::tunnel::bits::data_bits(data, 5 * i, 5)),
    )
}

/// Every character is a base32 character.
pub open spec fn b32_valid(s: Seq<u8>) -> bool {
    forall|i: int| 0 <= i < s.len() ==> b32_value(#[trigger] s[i]) is Some
}

/// The five-bit values of base32 characters.
pub open spec fn b32_values(s: Seq<u8>) -> Seq<u8> {
    Seq::new(s.len(), |i: int| b32_value(s[i])->0)
}

/// The bytes that base32 text stands for; bits past the last whole byte are dropped.
pub open spec fn b32_data(s: Seq<u8>) -> Seq<u8> {
    crate::tunnel::bits::symbol_bytes(b32_values(s), 5)
}

/// Encodes bytes as base32 in lower case.
pub fn b32_encode(data: &[u8]) -> (out: Vec<u8>)
    requires
        (data.len() + 4) / 5 * 8 <= usize::MAX,
    ensures
        out@ == b32_text(data@),
{
    let count: usize = ((8 * data.len() as u128 + 4) / 5) as usize;
    let mut out: Vec<u8> = Vec::with_capacity(count);
    let mut i: usize = 0;
    while i < count
        invariant
            count == (8 * data.len() + 4) / 5,
            i <= count,
            out@.len() == i,
            forall|j: int| 0 <= j < i ==> #[trigger] out@[j] == b32_text(data@)[j],
        decreases count - i,
    {
        let v: u8 = read_bits(data, 5 * i as u128, 5);
        proof {
            crate::tunnel::bits::lemma_data_bits_bound(data@, 5 * i, 5);
        }
        let c: u8 = if v < 26 {
            0x61 + v
        } else {
            0x32 + (v - 26)
        };
        out.push(c);
        i = i + 1;
    }
    assert(out@ =~= b32_text(data@));
    out
}

/// The value of a base32 character in either case, or `None`.
pub fn b32_val(c: u8) -> (v: Option<u8>)
    ensures
        v == b32_value(c),
{
    if 0x61 <= c && c <= 0x7a {
        Some(c - 0x61)
    } else if 0x41 <= c && c <= 0x5a {
        Some(c - 0x41)
    } else if 0x32 <= c && c <= 0x37 {
        Some(c - 0x32 + 26)
    } else {
        None
    }
}

/// Decodes base32 text in either case, or `None` if a character is not base32. Left-over bits are
/// not looked at.
pub fn b32_decode(s: &[u8]) -> (out: Option<Vec<u8>>)
    ensures
        out is Some <==> b32_valid(s@),
        out matches Some(data) ==> data@ == b32_data(s@),
{
    let mut values: Vec<u8> = Vec::with_capacity(s.len());
    let mut i: usize = 0;
    while i < s.len()
        invariant
            i <= s.len(),
            values@.len() == i,
            forall|j: int|
                0 <= j < i ==> b32_value(#[trigger] s@[j]) == Some(values@[j]),
        decreases s.len() - i,
    {
        match b32_val(s[i]) {
            None => {
                assert(b32_value(s@[i as int]) is None);
                return None;
            },
            Some(v) => {
                values.push(v);
            },
        }
        i = i + 1;
    }
    assert(values@ =~= b32_values(s@));
    Some(bytes_of_symbols(values.as_slice(), 5))
}

/// Base32 text decodes to the bytes it was made from.
pub proof fn lemma_b32_round_trip(data: Seq<u8>)
    ensures
        b32_valid(b32_text(data)),
        b32_data(b32_text(data)) == data,
{
    let text = b32_text(data);
    assert forall|i: int| 0 <= i < text.len() implies b32_value(#[trigger] text[i]) == Some(
        crate::tunnel::bits::data_bits(data, 5 * i, 5) as u8,
    ) by {
        crate::tunnel::bits::lemma_data_bits_bound(data, 5 * i, 5);
    }
    let values = b32_values(text);
    assert forall|i: int| 0 <= i < values.len() implies #[trigger] values[i]
        == crate::tunnel::bits::data_bits(data, 5 * i, 5) by {
        assert(b32_value(text[i]) is Some);
        crate::tunnel::bits::lemma_data_bits_bound(data, 5 * i, 5);
    }
    crate::tunnel::bits::lemma_spelled_bytes(values, 5, data);
}

/// The same byte up to the case of an ASCII letter.
pub open spec fn same_letter(a: u8, b: u8) -> bool {
    lower(a) == lower(b)
}

/// An ASCII capital made small; any other byte as it is.
pub open spec fn lower(c: u8) -> u8 {
    if 0x41 <= c <= 0x5a {
        (c + 0x20) as u8
    } else {
        c
    }
}

/// The same bytes up to the case of ASCII letters.
pub open spec fn same_text(a: Seq<u8>, b: Seq<u8>) -> bool {
    &&& a.len() == b.len()
    &&& forall|i: int| 0 <= i < a.len() ==> same_letter(#[trigger] a[i], b[i])
}

/// The case of base32 text does not matter.
pub proof fn lemma_b32_ignores_case(a: Seq<u8>, b: Seq<u8>)
    requires
        same_text(a, b),
    ensures
        b32_valid(a) == b32_valid(b),
        b32_valid(a) ==> b32_data(a) == b32_data(b),
{
    assert forall|i: int| 0 <= i < a.len() implies b32_value(#[trigger] a[i]) == b32_value(b[i]) by {
        assert(same_letter(a[i], b[i]));
    }
    if b32_valid(a) {
        assert forall|i: int| 0 <= i < b.len() implies b32_value(#[trigger] b[i]) is Some by {
            assert(b32_value(a[i]) is Some);
        }
        assert(b32_values(a) =~= b32_values(b));
    }
    if b32_valid(b) {
        assert forall|i: int| 0 <= i < a.len() implies b32_value(#[trigger] a[i]) is Some by {
            assert(b32_value(b[i]) is Some);
        }
    }
}

// ---- names ----

/// A dotted name without the dot at its end that stands for the root, if it has one.
pub open spec fn without_root_dot(b: Seq<u8>) -> Seq<u8> {
    if b.len() > 0 && b.last() == 0x2e {
        b.drop_last()
    } else {
        b
    }
}

/// The pieces of a byte string between its dots; there is always at least one.
pub open spec fn split_dots(b: Seq<u8>) -> Seq<Seq<u8>>
    decreases b.len(),
{
    if b.len() == 0 {
        seq![Seq::<u8>::empty()]
    } else {
        let front = split_dots(b.drop_last());
        if b.last() == 0x2e {
            front.push(Seq::<u8>::empty())
        } else {
            front.drop_last().push(front.last().push(b.last()))
        }
    }
}

/// A label that a name may hold: one to 63 bytes.
pub open spec fn label_ok(label: Seq<u8>) -> bool {
    1 <= label.len() <= MAX_LABEL_LEN
}

/// Labels that a name may hold.
pub open spec fn labels_ok(labels: Seq<Seq<u8>>) -> bool {
    forall|i: int| 0 <= i < labels.len() ==> label_ok(#[trigger] labels[i])
}

/// The labels that a dotted name stands for. The root has none.
pub open spec fn dotted_labels(b: Seq<u8>) -> Seq<Seq<u8>> {
    if without_root_dot(b).len() == 0 {
        Seq::empty()
    } else {
        split_dots(without_root_dot(b))
    }
}

/// Labels on the wire, each behind its length, without the terminating zero.
pub open spec fn wire_labels(labels: Seq<Seq<u8>>) -> Seq<u8>
    decreases labels.len(),
{
    if labels.len() == 0 {
        Seq::empty()
    } else {
        wire_labels(labels.drop_last()) + seq![labels.last().len() as u8] + labels.last()
    }
}

/// How many bytes labels take on the wire, without the terminating zero.
pub open spec fn labels_wire_len(labels: Seq<Seq<u8>>) -> nat
    decreases labels.len(),
{
    if labels.len() == 0 {
        0
    } else {
        labels_wire_len(labels.drop_last()) + 1 + labels.last().len()
    }
}

/// The contents of byte vectors.
pub open spec fn views(v: Seq<Vec<u8>>) -> Seq<Seq<u8>> {
    Seq::new(v.len(), |i: int| v[i]@)
}

/// A parsed domain name (the tunnel zone), as a list of labels of one to 63 bytes.
#[derive(Debug, Clone, PartialEq, Eq)]
pub struct Name {
    labels: Vec<Vec<u8>>,
}

impl View for Name {
    type V = Seq<Seq<u8>>;

    closed spec fn view(&self) -> Seq<Seq<u8>> {
        views(self.labels@)
    }
}

impl Name {
    /// Parses a dotted name like `t.example.com`; one dot at its end stands for the root and is ignored.
    /// Empty and over-long labels are rejected.
    pub fn parse(s: &str) -> (r: Result<Name, DnsError>)
        ensures
            match r {
                Ok(name) => name@ == dotted_labels(vstd::utf8::encode_utf8(s@)) && labels_ok(name@),
                Err(e) => e == DnsError::NameTooLong && !labels_ok(dotted_labels(vstd::utf8::encode_utf8(s@))),
            },
    {
        let bytes: &[u8] = s.as_bytes();
        let mut end: usize = bytes.len();
        if end > 0 && bytes[end - 1] == 0x2e {
            end = end - 1;
        }
        let ghost trimmed = bytes@.subrange(0, end as int);
        assert(without_root_dot(bytes@) =~= trimmed);
        let mut labels: Vec<Vec<u8>> = Vec::new();
        if end == 0 {
            assert(views(labels@) =~= Seq::<Seq<u8>>::empty());
            return Ok(Name { labels });
        }
        let mut current: Vec<u8> = Vec::new();
        let mut i: usize = 0;
        assert(trimmed.subrange(0, 0) =~= Seq::<u8>::empty());
        assert(views(labels@).push(current@) =~= seq![Seq::<u8>::empty()]);
        while i < end
            invariant
                i <= end <= bytes.len(),
                trimmed == bytes@.subrange(0, end as int),
                dotted_labels(bytes@) == split_dots(trimmed),
                bytes@ == vstd::utf8::encode_utf8(s@),
                split_dots(trimmed.subrange(0, i as int)) == views(labels@).push(current@),
                labels_ok(views(labels@)),
                current@.len() <= MAX_LABEL_LEN,
            decreases end - i,
        {
            let c: u8 = bytes[i];
            let ghost before = views(labels@);
            let ghost piece = current@;
            proof {
                let upto = trimmed.subrange(0, i + 1);
                assert(upto.drop_last() =~= trimmed.subrange(0, i as int));
                assert(upto.last() == c);
                assert(before.push(piece).drop_last() =~= before);
            }
            if c == 0x2e {
                if current.len() == 0 {
                    proof {
                        lemma_split_keeps(trimmed, i as int, before.len() as int);
                    }
                    return Err(DnsError::NameTooLong);
                }
                labels.push(current);
                current = Vec::new();
                assert(views(labels@) =~= before.push(piece));
            } else {
                if current.len() == MAX_LABEL_LEN {
                    proof {
                        lemma_split_grows(trimmed, i + 1, before.len() as int);
                    }
                    return Err(DnsError::NameTooLong);
                }
                current.push(c);
            }
            i = i + 1;
        }
        assert(trimmed.subrange(0, end as int) =~= trimmed);
        if current.len() == 0 {
            proof {
                let all = split_dots(trimmed);
                assert(all[all.len() - 1].len() == 0);
                assert(!label_ok(all[all.len() - 1]));
            }
            return Err(DnsError::NameTooLong);
        }
        let ghost before = views(labels@);
        let ghost piece = current@;
        labels.push(current);
        assert(views(labels@) =~= before.push(piece));
        Ok(Name { labels })
    }

    /// Wire length with the terminating zero, saturating at the largest `usize`.
    pub fn wire_len(&self) -> (n: usize)
        ensures
            n == if labels_wire_len(self@) + 1 <= usize::MAX {
                labels_wire_len(self@) + 1
            } else {
                usize::MAX as nat
            },
    {
        let mut n: usize = 1;
        let mut i: usize = 0;
        assert(self@.subrange(0, 0) =~= Seq::<Seq<u8>>::empty());
        while i < self.labels.len()
            invariant
                i <= self.labels.len(),
                n == if labels_wire_len(self@.subrange(0, i as int)) + 1 <= usize::MAX {
                    labels_wire_len(self@.subrange(0, i as int)) + 1
                } else {
                    usize::MAX as nat
                },
            decreases self.labels.len() - i,
        {
            assert(self@.subrange(0, i + 1).drop_last() =~= self@.subrange(0, i as int));
            assert(self@.subrange(0, i + 1).last() == self.labels@[i as int]@);
            n = n.saturating_add(1).saturating_add(self.labels[i].len());
            i = i + 1;
        }
        assert(self@.subrange(0, i as int) =~= self@);
        n
    }
}

/// A piece that a later dot has closed stays as it is.
proof fn lemma_split_keeps(b: Seq<u8>, at: int, k: int)
    requires
        0 <= at < b.len(),
        b[at] == 0x2e,
        split_dots(b.subrange(0, at)).len() == k + 1,
        split_dots(b.subrange(0, at)).last().len() == 0,
    ensures
        !labels_ok(split_dots(b)),
    decreases b.len() - at,
{
    let upto = b.subrange(0, at + 1);
    assert(upto.drop_last() =~= b.subrange(0, at));
    lemma_split_prefix(b, at + 1, k);
    assert(split_dots(upto)[k].len() == 0);
    assert(!label_ok(split_dots(b)[k]));
}

/// The first pieces of a prefix are the first pieces of the whole.
proof fn lemma_split_prefix(b: Seq<u8>, at: int, k: int)
    requires
        0 <= at <= b.len(),
        0 <= k,
        split_dots(b.subrange(0, at)).len() > k + 1,
    ensures
        split_dots(b).len() > k + 1,
        split_dots(b)[k] == split_dots(b.subrange(0, at))[k],
    decreases b.len() - at,
{
    if at == b.len() {
        assert(b.subrange(0, at) =~= b);
    } else {
        let upto = b.subrange(0, at + 1);
        assert(upto.drop_last() =~= b.subrange(0, at));
        lemma_split_prefix(b, at + 1, k);
    }
}

/// A piece only grows as the string goes on.
proof fn lemma_split_grows(b: Seq<u8>, at: int, k: int)
    requires
        0 <= at <= b.len(),
        split_dots(b.subrange(0, at)).len() == k + 1,
        split_dots(b.subrange(0, at)).last().len() > MAX_LABEL_LEN,
    ensures
        !labels_ok(split_dots(b)),
    decreases b.len() - at,
{
    if at == b.len() {
        assert(b.subrange(0, at) =~= b);
        assert(!label_ok(split_dots(b)[k]));
    } else {
        let upto = b.subrange(0, at + 1);
        assert(upto.drop_last() =~= b.subrange(0, at));
        if b[at] == 0x2e {
            lemma_split_prefix(b, at + 1, k);
            assert(!label_ok(split_dots(b)[k]));
        } else {
            lemma_split_grows(b, at + 1, k);
        }
    }
}

/// The same bytes up to the case of ASCII letters.
pub fn eq_ci(a: &[u8], b: &[u8]) -> (r: bool)
    ensures
        r == same_text(a@, b@),
{
    if a.len() != b.len() {
        return false;
    }
    let mut i: usize = 0;
    while i < a.len()
        invariant
            a.len() == b.len(),
            i <= a.len(),
            forall|j: int| 0 <= j < i ==> same_letter(#[trigger] a@[j], b@[j]),
        decreases a.len() - i,
    {
        if to_lower(a[i]) != to_lower(b[i]) {
            assert(!same_letter(a@[i as int], b@[i as int]));
            return false;
        }
        i = i + 1;
    }
    true
}

/// An ASCII capital made small; any other byte as it is.
fn to_lower(c: u8) -> (l: u8)
    ensures
        l == lower(c),
{
    if 0x41 <= c && c <= 0x5a {
        c + 0x20
    } else {
        c
    }
}

// ---- reading ----

/// What reading a name at `pos` gives: its labels and where it ends. `total` bytes of the name have
/// been read before. A compression pointer ends the name and is not followed.
pub open spec fn name_at(buf: Seq<u8>, pos: int, total: int) -> Result<
    (Seq<Seq<u8>>, int),
    DnsError,
>
    decreases buf.len() - pos,
{
    if pos < 0 || pos >= buf.len() {
        Err(DnsError::Truncated)
    } else if buf[pos] == 0 {
        Ok((Seq::empty(), pos + 1))
    } else if buf[pos] < 64 {
        let end = pos + 1 + buf[pos];
        if end > buf.len() {
            Err(DnsError::Truncated)
        } else if total + 1 + buf[pos] > MAX_NAME_LEN {
            Err(DnsError::NameTooLong)
        } else {
            match name_at(buf, end, total + 1 + buf[pos]) {
                Ok((rest, stop)) => Ok((seq![buf.subrange(pos + 1, end)] + rest, stop)),
                Err(e) => Err(e),
            }
        }
    } else if buf[pos] >= 192 {
        if pos + 2 > buf.len() {
            Err(DnsError::Truncated)
        } else {
            Ok((Seq::empty(), pos + 2))
        }
    } else {
        Err(DnsError::BadPointer)
    }
}

/// Where the name at `pos` ends.
pub open spec fn name_end(buf: Seq<u8>, pos: int) -> Result<int, DnsError>
    decreases buf.len() - pos,
{
    if pos < 0 || pos >= buf.len() {
        Err(DnsError::Truncated)
    } else if buf[pos] == 0 {
        Ok(pos + 1)
    } else if buf[pos] < 64 {
        if pos + 1 + buf[pos] > buf.len() {
            Err(DnsError::Truncated)
        } else {
            name_end(buf, pos + 1 + buf[pos])
        }
    } else if buf[pos] >= 192 {
        if pos + 2 > buf.len() {
            Err(DnsError::Truncated)
        } else {
            Ok(pos + 2)
        }
    } else {
        Err(DnsError::BadPointer)
    }
}

/// A bounds-checked DNS message reader.
struct Reader<'a> {
    buf: &'a [u8],
    pos: usize,
}

impl<'a> Reader<'a> {
    spec fn wf(&self) -> bool {
        self.pos <= self.buf@.len()
    }

    fn new(buf: &'a [u8]) -> (r: Self)
        ensures
            r.wf(),
            r.buf == buf,
            r.pos == 0,
    {
        Reader { buf, pos: 0 }
    }

    fn take(&mut self, n: usize) -> (r: Result<&'a [u8], DnsError>)
        requires
            old(self).wf(),
        ensures
            final(self).wf(),
            final(self).buf == old(self).buf,
            match r {
                Ok(s) => {
                    &&& old(self).pos + n <= old(self).buf@.len()
                    &&& final(self).pos == old(self).pos + n
                    &&& s@ == old(self).buf@.subrange(old(self).pos as int, old(self).pos + n)
                },
                Err(e) => {
                    &&& e == DnsError::Truncated
                    &&& old(self).pos + n > old(self).buf@.len()
                },
            },
    {
        if n > self.buf.len() - self.pos {
            return Err(DnsError::Truncated);
        }
        let s: &'a [u8] = slice_subrange(self.buf, self.pos, self.pos + n);
        self.pos = self.pos + n;
        Ok(s)
    }

    fn skip(&mut self, n: usize) -> (r: Result<(), DnsError>)
        requires
            old(self).wf(),
        ensures
            final(self).wf(),
            final(self).buf == old(self).buf,
            match r {
                Ok(_) => {
                    &&& old(self).pos + n <= old(self).buf@.len()
                    &&& final(self).pos == old(self).pos + n
                },
                Err(e) => {
                    &&& e == DnsError::Truncated
                    &&& old(self).pos + n > old(self).buf@.len()
                },
            },
    {
        match self.take(n) {
            Ok(_) => Ok(()),
            Err(e) => Err(e),
        }
    }

    fn u8(&mut self) -> (r: Result<u8, DnsError>)
        requires
            old(self).wf(),
        ensures
            final(self).wf(),
            final(self).buf == old(self).buf,
            match r {
                Ok(b) => {
                    &&& old(self).pos + 1 <= old(self).buf@.len()
                    &&& final(self).pos == old(self).pos + 1
                    &&& b == old(self).buf@[old(self).pos as int]
                },
                Err(e) => {
                    &&& e == DnsError::Truncated
                    &&& old(self).pos + 1 > old(self).buf@.len()
                },
            },
    {
        let at: usize = self.pos;
        match self.skip(1) {
            Ok(_) => Ok(self.buf[at]),
            Err(e) => Err(e),
        }
    }

    fn u16(&mut self) -> (r: Result<u16, DnsError>)
        requires
            old(self).wf(),
        ensures
            final(self).wf(),
            final(self).buf == old(self).buf,
            match r {
                Ok(x) => {
                    &&& old(self).pos + 2 <= old(self).buf@.len()
                    &&& final(self).pos == old(self).pos + 2
                    &&& x == crate::tunnel::wire::be16_at(old(self).buf@, old(self).pos as int)
                },
                Err(e) => {
                    &&& e == DnsError::Truncated
                    &&& old(self).pos + 2 > old(self).buf@.len()
                },
            },
    {
        let at: usize = self.pos;
        match self.skip(2) {
            Ok(_) => Ok(get16(self.buf, at)),
            Err(e) => Err(e),
        }
    }

    fn u32(&mut self) -> (r: Result<u32, DnsError>)
        requires
            old(self).wf(),
        ensures
            final(self).wf(),
            final(self).buf == old(self).buf,
            match r {
                Ok(x) => {
                    &&& old(self).pos + 4 <= old(self).buf@.len()
                    &&& final(self).pos == old(self).pos + 4
                    &&& x == crate::tunnel::wire::be32_at(old(self).buf@, old(self).pos as int)
                },
                Err(e) => {
                    &&& e == DnsError::Truncated
                    &&& old(self).pos + 4 > old(self).buf@.len()
                },
            },
    {
        let at: usize = self.pos;
        match self.skip(4) {
            Ok(_) => Ok(get32(self.buf, at)),
            Err(e) => Err(e),
        }
    }

    /// Reads a name as its labels.
    fn read_labels(&mut self) -> (r: Result<Vec<Vec<u8>>, DnsError>)
        requires
            old(self).wf(),
        ensures
            final(self).wf(),
            final(self).buf == old(self).buf,
            match r {
                Ok(labels) => name_at(old(self).buf@, old(self).pos as int, 0) == Ok::<
                    (Seq<Seq<u8>>, int),
                    DnsError,
                >((views(labels@), final(self).pos as int)),
                Err(e) => name_at(old(self).buf@, old(self).pos as int, 0) == Err::<
                    (Seq<Seq<u8>>, int),
                    DnsError,
                >(e),
            },
    {
        let mut labels: Vec<Vec<u8>> = Vec::new();
        let mut total: usize = 0;
        let ghost whole = name_at(self.buf@, self.pos as int, 0);
        proof {
            match whole {
                Ok((rest, stop)) => {
                    assert(views(labels@) + rest =~= rest);
                },
                Err(_) => {},
            }
        }
        loop
            invariant
                self.wf(),
                self.buf == old(self).buf,
                whole == name_at(old(self).buf@, old(self).pos as int, 0),
                total <= MAX_NAME_LEN,
                whole == match name_at(self.buf@, self.pos as int, total as int) {
                    Ok((rest, stop)) => Ok::<(Seq<Seq<u8>>, int), DnsError>(
                        (views(labels@) + rest, stop),
                    ),
                    Err(e) => Err(e),
                },
            decreases self.buf@.len() - self.pos,
        {
            let len: u8 = match self.u8() {
                Ok(b) => b,
                Err(e) => {
                    return Err(e);
                },
            };
            if len == 0 {
                assert(views(labels@) + Seq::<Seq<u8>>::empty() =~= views(labels@));
                return Ok(labels);
            } else if len < 64 {
                let l: &[u8] = match self.take(len as usize) {
                    Ok(l) => l,
                    Err(e) => {
                        return Err(e);
                    },
                };
                total = total + 1 + l.len();
                if total > MAX_NAME_LEN {
                    return Err(DnsError::NameTooLong);
                }
                let ghost before = views(labels@);
                labels.push(vstd::slice::slice_to_vec(l));
                proof {
                    assert(views(labels@) =~= before.push(l@));
                    match name_at(self.buf@, self.pos as int, total as int) {
                        Ok((rest, stop)) => {
                            assert(before + (seq![l@] + rest) =~= before.push(l@) + rest);
                        },
                        Err(_) => {},
                    }
                }
            } else if len >= 192 {
                match self.skip(1) {
                    Ok(_) => {},
                    Err(e) => {
                        return Err(e);
                    },
                }
                assert(views(labels@) + Seq::<Seq<u8>>::empty() =~= views(labels@));
                return Ok(labels);
            } else {
                return Err(DnsError::BadPointer);
            }
        }
    }

    /// Skips a name.
    fn skip_name(&mut self) -> (r: Result<(), DnsError>)
        requires
            old(self).wf(),
        ensures
            final(self).wf(),
            final(self).buf == old(self).buf,
            match r {
                Ok(_) => name_end(old(self).buf@, old(self).pos as int) == Ok::<int, DnsError>(
                    final(self).pos as int,
                ),
                Err(e) => name_end(old(self).buf@, old(self).pos as int) == Err::<int, DnsError>(e),
            },
    {
        loop
            invariant
                self.wf(),
                self.buf == old(self).buf,
                name_end(self.buf@, self.pos as int) == name_end(
                    old(self).buf@,
                    old(self).pos as int,
                ),
            decreases self.buf@.len() - self.pos,
        {
            let len: u8 = match self.u8() {
                Ok(b) => b,
                Err(e) => {
                    return Err(e);
                },
            };
            if len == 0 {
                return Ok(());
            } else if len < 64 {
                match self.skip(len as usize) {
                    Ok(_) => {},
                    Err(e) => {
                        return Err(e);
                    },
                }
            } else if len >= 192 {
                return self.skip(1);
            } else {
                return Err(DnsError::BadPointer);
            }
        }
    }
}

// ---- messages ----

/// A DNS header: id, two flag bytes, and the four record counts.
pub open spec fn header(txn_id: u16, flags: Seq<u8>, qd: u16, an: u16, ns: u16, ar: u16) -> Seq<
    u8,
> {
    crate::tunnel::wire::be16(txn_id) + flags + crate::tunnel::wire::be16(qd)
        + crate::tunnel::wire::be16(an) + crate::tunnel::wire::be16(ns)
        + crate::tunnel::wire::be16(ar)
}

/// An EDNS0 OPT record: root name, OPT, the UDP size in place of the class, TTL 0, no data.
pub open spec fn opt_record(edns_udp: u16) -> Seq<u8> {
    seq![0u8] + crate::tunnel::wire::be16(TYPE_OPT) + crate::tunnel::wire::be16(edns_udp)
        + crate::tunnel::wire::be32(0) + crate::tunnel::wire::be16(0)
}

/// A byte string cut into pieces of `n` bytes, the last one as long as what is left.
pub open spec fn chunks(s: Seq<u8>, n: nat) -> Seq<Seq<u8>>
    decreases s.len(),
{
    if s.len() == 0 || n == 0 {
        Seq::empty()
    } else if s.len() <= n {
        seq![s]
    } else {
        seq![s.subrange(0, n as int)] + chunks(s.subrange(n as int, s.len() as int), n)
    }
}

/// The labels of the query name that carries `data` under `zone`.
pub open spec fn query_labels(data: Seq<u8>, zone: Seq<Seq<u8>>) -> Seq<Seq<u8>> {
    chunks(b32_text(data), MAX_LABEL_LEN as nat) + zone
}

/// How long the query name that carries `data` under `zone` is on the wire.
pub open spec fn query_name_len(data: Seq<u8>, zone: Seq<Seq<u8>>) -> nat {
    labels_wire_len(query_labels(data, zone)) + 1
}

/// A TXT/IN question.
pub open spec fn question(labels: Seq<Seq<u8>>) -> Seq<u8> {
    wire_labels(labels) + seq![0u8] + crate::tunnel::wire::be16(TYPE_TXT)
        + crate::tunnel::wire::be16(CLASS_IN)
}

/// The query that carries `data` under `zone`.
pub open spec fn query_message(
    txn_id: u16,
    data: Seq<u8>,
    zone: Seq<Seq<u8>>,
    edns_udp: u16,
) -> Seq<u8> {
    header(txn_id, seq![0x01u8, 0x00u8], 1, 0, 0, 1) + question(query_labels(data, zone))
        + opt_record(edns_udp)
}

/// Appends a header.
fn put_header(out: &mut Vec<u8>, txn_id: u16, hi: u8, lo: u8, qd: u16, an: u16, ns: u16, ar: u16)
    ensures
        final(out)@ == old(out)@ + header(txn_id, seq![hi, lo], qd, an, ns, ar),
{
    put16(out, txn_id);
    out.push(hi);
    out.push(lo);
    put16(out, qd);
    put16(out, an);
    put16(out, ns);
    put16(out, ar);
    assert(out@ =~= old(out)@ + header(txn_id, seq![hi, lo], qd, an, ns, ar));
}

/// Appends an EDNS0 OPT record.
fn put_opt(out: &mut Vec<u8>, edns_udp: u16)
    ensures
        final(out)@ == old(out)@ + opt_record(edns_udp),
{
    out.push(0);
    put16(out, TYPE_OPT);
    put16(out, edns_udp);
    put32(out, 0);
    put16(out, 0);
    assert(out@ =~= old(out)@ + opt_record(edns_udp));
}

/// Appends the labels of a name.
fn put_name(out: &mut Vec<u8>, name: &Name)
    ensures
        final(out)@ == old(out)@ + wire_labels(name@),
{
    let mut i: usize = 0;
    assert(name@.subrange(0, 0) =~= Seq::<Seq<u8>>::empty());
    assert(out@ =~= old(out)@ + wire_labels(name@.subrange(0, 0)));
    while i < name.labels.len()
        invariant
            i <= name.labels.len(),
            out@ == old(out)@ + wire_labels(name@.subrange(0, i as int)),
        decreases name.labels.len() - i,
    {
        let ghost before = out@;
        let l: &Vec<u8> = &name.labels[i];
        out.push(l.len() as u8);
        put(out, l.as_slice());
        proof {
            let upto = name@.subrange(0, i + 1);
            assert(upto.drop_last() =~= name@.subrange(0, i as int));
            assert(upto.last() == l@);
            assert(out@ =~= before + seq![l@.len() as u8] + l@);
            assert(out@ =~= old(out)@ + wire_labels(upto));
        }
        i = i + 1;
    }
    assert(name@.subrange(0, i as int) =~= name@);
}

/// How many bytes `len` bytes take when cut into pieces of at most `n`, each behind a length byte.
pub open spec fn chunked_len(len: int, n: int) -> int {
    len + (len + n - 1) / n
}

proof fn lemma_labels_append(a: Seq<Seq<u8>>, b: Seq<Seq<u8>>)
    ensures
        labels_wire_len(a + b) == labels_wire_len(a) + labels_wire_len(b),
        wire_labels(a + b) == wire_labels(a) + wire_labels(b),
    decreases b.len(),
{
    if b.len() == 0 {
        assert(a + b =~= a);
        assert(wire_labels(a) + wire_labels(b) =~= wire_labels(a));
    } else {
        lemma_labels_append(a, b.drop_last());
        assert((a + b).drop_last() =~= a + b.drop_last());
        assert((a + b).last() == b.last());
        assert(wire_labels(a + b) =~= wire_labels(a) + wire_labels(b));
    }
}

proof fn lemma_one_label(l: Seq<u8>)
    ensures
        labels_wire_len(seq![l]) == 1 + l.len(),
        wire_labels(seq![l]) == seq![l.len() as u8] + l,
{
    reveal_with_fuel(labels_wire_len, 2);
    reveal_with_fuel(wire_labels, 2);
    assert(seq![l].drop_last() =~= Seq::<Seq<u8>>::empty());
    assert(wire_labels(seq![l]) =~= seq![l.len() as u8] + l);
}

proof fn lemma_chunks_wire_len(s: Seq<u8>, n: nat)
    requires
        n > 0,
    ensures
        labels_wire_len(chunks(s, n)) == chunked_len(s.len() as int, n as int),
    decreases s.len(),
{
    let w = n as int;
    let len = s.len() as int;
    if len == 0 {
        vstd::arithmetic::div_mod::lemma_basic_div(w - 1, w);
    } else if len <= w {
        lemma_one_label(s);
        vstd::arithmetic::div_mod::lemma_basic_div(len - 1, w);
        vstd::arithmetic::div_mod::lemma_div_plus_one(len - 1, w);
    } else {
        let rest = s.subrange(w, len);
        lemma_chunks_wire_len(rest, n);
        lemma_one_label(s.subrange(0, w));
        lemma_labels_append(seq![s.subrange(0, w)], chunks(rest, n));
        vstd::arithmetic::div_mod::lemma_div_plus_one(len - 1, w);
        assert((len + w - 1) / w == (len - 1) / w + 1);
        assert(rest.len() + w - 1 == len - 1);
    }
}

/// Appends bytes in pieces of at most `n`, each behind its length.
fn put_chunks(out: &mut Vec<u8>, data: &[u8], n: usize)
    requires
        0 < n <= 255,
    ensures
        final(out)@ == old(out)@ + wire_labels(chunks(data@, n as nat)),
{
    let mut at: usize = 0;
    assert(data@.subrange(0, data@.len() as int) =~= data@);
    while at < data.len()
        invariant
            0 < n <= 255,
            at <= data.len(),
            old(out)@ + wire_labels(chunks(data@, n as nat)) == out@ + wire_labels(
                chunks(data@.subrange(at as int, data@.len() as int), n as nat),
            ),
        decreases data.len() - at,
    {
        let ghost rest = data@.subrange(at as int, data@.len() as int);
        let ghost before = out@;
        let len: usize = if data.len() - at <= n {
            data.len() - at
        } else {
            n
        };
        let piece: &[u8] = slice_subrange(data, at, at + len);
        out.push(len as u8);
        put(out, piece);
        proof {
            let tail = data@.subrange(at + len, data@.len() as int);
            assert(out@ =~= before + (seq![piece@.len() as u8] + piece@));
            lemma_one_label(piece@);
            assert(rest.subrange(0, len as int) =~= piece@);
            assert(rest.subrange(len as int, rest.len() as int) =~= tail);
            lemma_labels_append(seq![piece@], chunks(tail, n as nat));
            assert(chunks(rest, n as nat) =~= seq![piece@] + chunks(tail, n as nat)) by {
                if rest.len() <= n {
                    assert(rest =~= piece@);
                }
            }
            assert(before + (wire_labels(seq![piece@]) + wire_labels(chunks(tail, n as nat)))
                =~= out@ + wire_labels(chunks(tail, n as nat)));
        }
        at = at + len;
    }
    proof {
        assert(data@.subrange(at as int, data@.len() as int) =~= Seq::<u8>::empty());
        assert(out@ + Seq::<u8>::empty() =~= out@);
    }
}

/// Builds a TXT query that carries `data` in base32 labels under `zone`, with an EDNS0 OPT record
/// that advertises `edns_udp` bytes. Errs exactly when the name would exceed 255 bytes.
pub fn build_query(txn_id: u16, data: &[u8], zone: &Name, edns_udp: u16) -> (r: Result<
    Vec<u8>,
    DnsError,
>)
    ensures
        match r {
            Ok(msg) => {
                &&& msg@ == query_message(txn_id, data@, zone@, edns_udp)
                &&& query_name_len(data@, zone@) <= MAX_NAME_LEN
            },
            Err(e) => e == DnsError::NameTooLong && query_name_len(data@, zone@) > MAX_NAME_LEN,
        },
{
    proof {
        lemma_labels_append(chunks(b32_text(data@), MAX_LABEL_LEN as nat), zone@);
        lemma_chunks_wire_len(b32_text(data@), MAX_LABEL_LEN as nat);
        assert(b32_text(data@).len() == (8 * data@.len() + 4) / 5);
    }
    if data.len() > MAX_NAME_LEN {
        return Err(DnsError::NameTooLong);
    }
    let enc: Vec<u8> = b32_encode(data);
    let chars: usize = enc.len();
    let data_len: usize = chars + (chars + (MAX_LABEL_LEN - 1)) / MAX_LABEL_LEN;
    let name_len: usize = zone.wire_len().saturating_add(data_len);
    if name_len > MAX_NAME_LEN {
        return Err(DnsError::NameTooLong);
    }
    let mut msg: Vec<u8> = Vec::with_capacity(HEADER_LEN + name_len + 4 + 11);
    put_header(&mut msg, txn_id, 0x01, 0x00, 1, 0, 0, 1);
    put_chunks(&mut msg, enc.as_slice(), MAX_LABEL_LEN);
    put_name(&mut msg, zone);
    msg.push(0);
    put16(&mut msg, TYPE_TXT);
    put16(&mut msg, CLASS_IN);
    put_opt(&mut msg, edns_udp);
    assert(msg@ =~= query_message(txn_id, data@, zone@, edns_udp));
    Ok(msg)
}

/// A parsed tunnel query: the transaction id (to echo in the answer) and the recovered uplink bytes.
#[derive(Debug, Clone, PartialEq, Eq)]
pub struct Query {
    /// DNS transaction id.
    pub txn_id: u16,
    /// The uplink payload recovered from the query name.
    pub data: Vec<u8>,
}

/// All labels one after another.
pub open spec fn joined(labels: Seq<Seq<u8>>) -> Seq<u8>
    decreases labels.len(),
{
    if labels.len() == 0 {
        Seq::empty()
    } else {
        joined(labels.drop_last()) + labels.last()
    }
}

/// `labels` end with the labels of `zone`, in either case.
pub open spec fn under_zone(labels: Seq<Seq<u8>>, zone: Seq<Seq<u8>>) -> bool {
    &&& labels.len() >= zone.len()
    &&& forall|i: int|
        0 <= i < zone.len() ==> same_text(
            labels[labels.len() - zone.len() + i],
            #[trigger] zone[i],
        )
}

/// What parsing a tunnel query gives: its transaction id and its uplink bytes.
pub open spec fn query_of(buf: Seq<u8>, zone: Seq<Seq<u8>>) -> Result<(u16, Seq<u8>), DnsError> {
    if buf.len() < HEADER_LEN {
        Err(DnsError::Truncated)
    } else if crate::tunnel::wire::be16_at(buf, 4) < 1 {
        Err(DnsError::NoQuestion)
    } else {
        match name_at(buf, HEADER_LEN as int, 0) {
            Err(e) => Err(e),
            Ok((labels, _)) => if !under_zone(labels, zone) {
                Err(DnsError::WrongZone)
            } else {
                let text = joined(labels.subrange(0, labels.len() - zone.len()));
                if b32_valid(text) {
                    Ok((crate::tunnel::wire::be16_at(buf, 0), b32_data(text)))
                } else {
                    Err(DnsError::BadBase32)
                }
            },
        }
    }
}

/// Labels read from a message are at most 63 bytes each and 255 in all.
proof fn lemma_name_at_small(buf: Seq<u8>, pos: int, total: int)
    requires
        0 <= total <= MAX_NAME_LEN,
    ensures
        name_at(buf, pos, total) matches Ok((labels, end)) ==> {
            &&& labels_ok(labels)
            &&& total + labels_wire_len(labels) <= MAX_NAME_LEN
            &&& pos < end <= buf.len()
        },
    decreases buf.len() - pos,
{
    if 0 <= pos < buf.len() && 0 < buf[pos] < 64 {
        let end = pos + 1 + buf[pos];
        if end <= buf.len() && total + 1 + buf[pos] <= MAX_NAME_LEN {
            lemma_name_at_small(buf, end, total + 1 + buf[pos]);
            match name_at(buf, end, total + 1 + buf[pos]) {
                Ok((rest, stop)) => {
                    let first = buf.subrange(pos + 1, end);
                    lemma_labels_append(seq![first], rest);
                    lemma_one_label(first);
                    let labels = seq![first] + rest;
                    assert forall|i: int| 0 <= i < labels.len() implies label_ok(
                        #[trigger] labels[i],
                    ) by {
                        if i > 0 {
                            assert(labels[i] == rest[i - 1]);
                        }
                    }
                },
                Err(_) => {},
            }
        }
    }
}

proof fn lemma_joined_len(labels: Seq<Seq<u8>>, k: int)
    requires
        0 <= k <= labels.len(),
    ensures
        joined(labels.subrange(0, k)).len() <= labels_wire_len(labels),
    decreases labels.len(),
{
    if k < labels.len() {
        lemma_joined_len(labels.drop_last(), k);
        assert(labels.drop_last().subrange(0, k) =~= labels.subrange(0, k));
    } else if k > 0 {
        lemma_joined_len(labels.drop_last(), k - 1);
        assert(labels.drop_last().subrange(0, k - 1) =~= labels.drop_last());
        assert(labels.subrange(0, k) =~= labels);
    }
}

/// Parses a tunnel query: reads the query name, checks that it is under `zone`, and decodes the
/// labels in front of the zone.
pub fn parse_query(buf: &[u8], zone: &Name) -> (r: Result<Query, DnsError>)
    ensures
        match r {
            Ok(q) => query_of(buf@, zone@) == Ok::<(u16, Seq<u8>), DnsError>((q.txn_id, q.data@)),
            Err(e) => query_of(buf@, zone@) == Err::<(u16, Seq<u8>), DnsError>(e),
        },
{
    let mut r: Reader = Reader::new(buf);
    match r.skip(HEADER_LEN) {
        Ok(_) => {},
        Err(e) => {
            return Err(e);
        },
    }
    let txn_id: u16 = get16(buf, 0);
    let qd: u16 = get16(buf, 4);
    if qd < 1 {
        return Err(DnsError::NoQuestion);
    }
    let labels: Vec<Vec<u8>> = match r.read_labels() {
        Ok(labels) => labels,
        Err(e) => {
            return Err(e);
        },
    };
    let ghost view = views(labels@);
    proof {
        lemma_name_at_small(buf@, HEADER_LEN as int, 0);
    }
    if labels.len() < zone.labels.len() {
        return Err(DnsError::WrongZone);
    }
    let split: usize = labels.len() - zone.labels.len();
    let mut i: usize = 0;
    while i < zone.labels.len()
        invariant
            view == views(labels@),
            split == labels.len() - zone.labels.len(),
            i <= zone.labels.len(),
            forall|j: int| 0 <= j < i ==> same_text(view[split + j], #[trigger] zone@[j]),
            name_at(buf@, HEADER_LEN as int, 0) matches Ok((ls, _)) && ls == view,
            buf@.len() >= HEADER_LEN,
            crate::tunnel::wire::be16_at(buf@, 4) >= 1,
        decreases zone.labels.len() - i,
    {
        if !eq_ci(labels[split + i].as_slice(), zone.labels[i].as_slice()) {
            assert(!same_text(view[split + i], zone@[i as int]));
            return Err(DnsError::WrongZone);
        }
        i = i + 1;
    }
    assert(under_zone(view, zone@));
    let mut enc: Vec<u8> = Vec::new();
    let mut k: usize = 0;
    assert(view.subrange(0, 0) =~= Seq::<Seq<u8>>::empty());
    while k < split
        invariant
            view == views(labels@),
            k <= split <= labels.len(),
            enc@ == joined(view.subrange(0, k as int)),
        decreases split - k,
    {
        proof {
            let upto = view.subrange(0, k + 1);
            assert(upto.drop_last() =~= view.subrange(0, k as int));
            assert(upto.last() == labels@[k as int]@);
        }
        put(&mut enc, labels[k].as_slice());
        k = k + 1;
    }
    proof {
        lemma_joined_len(view, split as int);
    }
    match b32_decode(enc.as_slice()) {
        None => Err(DnsError::BadBase32),
        Some(data) => Ok(Query { txn_id, data }),
    }
}

/// Where the question section of a message with one question ends.
pub open spec fn question_end_of(buf: Seq<u8>) -> Result<int, DnsError> {
    if buf.len() < HEADER_LEN {
        Err(DnsError::Truncated)
    } else if crate::tunnel::wire::be16_at(buf, 4) < 1 {
        Err(DnsError::NoQuestion)
    } else {
        match name_end(buf, HEADER_LEN as int) {
            Err(e) => Err(e),
            Ok(end) => if end + 4 > buf.len() {
                Err(DnsError::Truncated)
            } else {
                Ok(end + 4)
            },
        }
    }
}

proof fn lemma_name_end_bounds(buf: Seq<u8>, pos: int)
    ensures
        name_end(buf, pos) matches Ok(end) ==> pos < end <= buf.len(),
    decreases buf.len() - pos,
{
    if 0 <= pos < buf.len() && 0 < buf[pos] < 64 && pos + 1 + buf[pos] <= buf.len() {
        lemma_name_end_bounds(buf, pos + 1 + buf[pos]);
    }
}

/// The offset one past the first question, for echoing it.
pub fn question_end(buf: &[u8]) -> (r: Result<usize, DnsError>)
    ensures
        match r {
            Ok(end) => {
                &&& question_end_of(buf@) == Ok::<int, DnsError>(end as int)
                &&& HEADER_LEN < end <= buf.len()
            },
            Err(e) => question_end_of(buf@) == Err::<int, DnsError>(e),
        },
{
    let mut r: Reader = Reader::new(buf);
    match r.skip(HEADER_LEN) {
        Ok(_) => {},
        Err(e) => {
            return Err(e);
        },
    }
    let qd: u16 = get16(buf, 4);
    if qd < 1 {
        return Err(DnsError::NoQuestion);
    }
    proof {
        lemma_name_end_bounds(buf@, HEADER_LEN as int);
    }
    match r.skip_name() {
        Ok(_) => {},
        Err(e) => {
            return Err(e);
        },
    }
    match r.skip(4) {
        Ok(_) => Ok(r.pos),
        Err(e) => Err(e),
    }
}

/// TXT data: character-strings of at most 255 bytes, each behind its length. No bytes at all are one
/// empty character-string.
pub open spec fn txt_data(downlink: Seq<u8>) -> Seq<u8> {
    if downlink.len() == 0 {
        seq![0u8]
    } else {
        wire_labels(chunks(downlink, MAX_CHAR_STRING as nat))
    }
}

/// A TXT record for the name of the question: a pointer to offset 12, TXT, IN, TTL 0. The length
/// field holds the low 16 bits of the data's length.
pub open spec fn txt_record(downlink: Seq<u8>) -> Seq<u8> {
    seq![0xC0u8, 0x0Cu8] + crate::tunnel::wire::be16(TYPE_TXT) + crate::tunnel::wire::be16(CLASS_IN)
        + crate::tunnel::wire::be32(0) + crate::tunnel::wire::be16(
        txt_data(downlink).len() as usize as u16,
    ) + txt_data(downlink)
}

/// The answer to `request` that carries `downlink`; the question is echoed up to `qend`.
pub open spec fn answer_message(
    request: Seq<u8>,
    qend: int,
    downlink: Seq<u8>,
    edns_udp: u16,
) -> Seq<u8> {
    header(crate::tunnel::wire::be16_at(request, 0), seq![0x81u8, 0x80u8], 1, 1, 0, 1)
        + request.subrange(HEADER_LEN as int, qend) + txt_record(downlink) + opt_record(edns_udp)
}

/// Builds a TXT answer to `request` that carries `downlink`, with the request's transaction id and
/// question, and an EDNS0 OPT record that advertises `edns_udp`. Errs as the request's question
/// cannot be read.
pub fn build_answer(request: &[u8], downlink: &[u8], edns_udp: u16) -> (r: Result<
    Vec<u8>,
    DnsError,
>)
    ensures
        match r {
            Ok(msg) => {
                &&& question_end_of(request@) is Ok
                &&& msg@ == answer_message(
                    request@,
                    question_end_of(request@)->Ok_0,
                    downlink@,
                    edns_udp,
                )
            },
            Err(e) => question_end_of(request@) == Err::<int, DnsError>(e),
        },
{
    let qend: usize = match question_end(request) {
        Ok(end) => end,
        Err(e) => {
            return Err(e);
        },
    };
    let txn_id: u16 = get16(request, 0);
    let mut rdata: Vec<u8> = Vec::new();
    if downlink.len() == 0 {
        rdata.push(0);
    } else {
        put_chunks(&mut rdata, downlink, MAX_CHAR_STRING);
    }
    assert(rdata@ =~= txt_data(downlink@));
    let mut msg: Vec<u8> = Vec::new();
    put_header(&mut msg, txn_id, 0x81, 0x80, 1, 1, 0, 1);
    put(&mut msg, slice_subrange(request, HEADER_LEN, qend));
    msg.push(0xC0);
    msg.push(0x0C);
    put16(&mut msg, TYPE_TXT);
    put16(&mut msg, CLASS_IN);
    put32(&mut msg, 0);
    put16(&mut msg, rdata.len() as u16);
    put(&mut msg, rdata.as_slice());
    put_opt(&mut msg, edns_udp);
    assert(msg@ =~= answer_message(request@, qend as int, downlink@, edns_udp));
    Ok(msg)
}

/// The SOA record that a benign empty answer carries: the zone names itself as server and mailbox,
/// serial 1, and every timer is zero so that nothing is cached.
pub open spec fn soa_record(zone: Seq<Seq<u8>>) -> Seq<u8> {
    let name = wire_labels(zone) + seq![0u8];
    let data = name + name + crate::tunnel::wire::be32(1) + crate::tunnel::wire::be32(0)
        + crate::tunnel::wire::be32(0) + crate::tunnel::wire::be32(0) + crate::tunnel::wire::be32(
        0,
    );
    name + crate::tunnel::wire::be16(TYPE_SOA) + crate::tunnel::wire::be16(CLASS_IN)
        + crate::tunnel::wire::be32(0) + crate::tunnel::wire::be16(data.len() as usize as u16)
        + data
}

/// The benign empty answer to `request`: no error, no records, the zone's SOA as authority.
pub open spec fn nodata_message(
    request: Seq<u8>,
    qend: int,
    zone: Seq<Seq<u8>>,
    edns_udp: u16,
) -> Seq<u8> {
    header(crate::tunnel::wire::be16_at(request, 0), seq![0x81u8, 0x80u8], 1, 0, 1, 1)
        + request.subrange(HEADER_LEN as int, qend) + soa_record(zone) + opt_record(edns_udp)
}

/// Builds the benign empty answer to `request`, so that a resolver that probes the zone goes on.
/// Errs as the request's question cannot be read.
pub fn build_nodata(request: &[u8], zone: &Name, edns_udp: u16) -> (r: Result<Vec<u8>, DnsError>)
    ensures
        match r {
            Ok(msg) => {
                &&& question_end_of(request@) is Ok
                &&& msg@ == nodata_message(
                    request@,
                    question_end_of(request@)->Ok_0,
                    zone@,
                    edns_udp,
                )
            },
            Err(e) => question_end_of(request@) == Err::<int, DnsError>(e),
        },
{
    let qend: usize = match question_end(request) {
        Ok(end) => end,
        Err(e) => {
            return Err(e);
        },
    };
    let txn_id: u16 = get16(request, 0);
    let mut data: Vec<u8> = Vec::new();
    put_name(&mut data, zone);
    data.push(0);
    put_name(&mut data, zone);
    data.push(0);
    put32(&mut data, 1);
    put32(&mut data, 0);
    put32(&mut data, 0);
    put32(&mut data, 0);
    put32(&mut data, 0);
    let ghost name = wire_labels(zone@) + seq![0u8];
    assert(data@ =~= name + name + crate::tunnel::wire::be32(1) + crate::tunnel::wire::be32(0)
        + crate::tunnel::wire::be32(0) + crate::tunnel::wire::be32(0) + crate::tunnel::wire::be32(
        0,
    ));
    let mut msg: Vec<u8> = Vec::new();
    put_header(&mut msg, txn_id, 0x81, 0x80, 1, 0, 1, 1);
    put(&mut msg, slice_subrange(request, HEADER_LEN, qend));
    put_name(&mut msg, zone);
    msg.push(0);
    put16(&mut msg, TYPE_SOA);
    put16(&mut msg, CLASS_IN);
    put32(&mut msg, 0);
    put16(&mut msg, data.len() as u16);
    put(&mut msg, data.as_slice());
    put_opt(&mut msg, edns_udp);
    assert(msg@ =~= nodata_message(request@, qend as int, zone@, edns_udp));
    Ok(msg)
}

/// A parsed tunnel answer: the transaction id and the recovered downlink bytes.
#[derive(Debug, Clone, PartialEq, Eq)]
pub struct Answer {
    /// DNS transaction id.
    pub txn_id: u16,
    /// The downlink payload recovered from the TXT data.
    pub data: Vec<u8>,
}

/// Where `n` questions that start at `pos` end.
pub open spec fn questions_end(buf: Seq<u8>, pos: int, n: nat) -> Result<int, DnsError>
    decreases n,
{
    if n == 0 {
        Ok(pos)
    } else {
        match name_end(buf, pos) {
            Err(e) => Err(e),
            Ok(end) => if end + 4 > buf.len() {
                Err(DnsError::Truncated)
            } else {
                questions_end(buf, end + 4, (n - 1) as nat)
            },
        }
    }
}

/// The character-strings of TXT data from `i` on, one after another.
pub open spec fn txt_strings(rdata: Seq<u8>, i: int) -> Result<Seq<u8>, DnsError>
    decreases rdata.len() - i,
{
    if i < 0 || i >= rdata.len() {
        Ok(Seq::empty())
    } else {
        let end = i + 1 + rdata[i];
        if end > rdata.len() {
            Err(DnsError::Truncated)
        } else {
            match txt_strings(rdata, end) {
                Ok(rest) => Ok(rdata.subrange(i + 1, end) + rest),
                Err(e) => Err(e),
            }
        }
    }
}

/// The TXT data of `n` records that start at `pos`, one after another.
pub open spec fn records_data(buf: Seq<u8>, pos: int, n: nat) -> Result<Seq<u8>, DnsError>
    decreases n,
{
    if n == 0 {
        Ok(Seq::empty())
    } else {
        match name_end(buf, pos) {
            Err(e) => Err(e),
            Ok(at) => if at + 10 > buf.len() {
                Err(DnsError::Truncated)
            } else {
                let end = at + 10 + crate::tunnel::wire::be16_at(buf, at + 8);
                if end > buf.len() {
                    Err(DnsError::Truncated)
                } else {
                    let own = if crate::tunnel::wire::be16_at(buf, at) == TYPE_TXT {
                        txt_strings(buf.subrange(at + 10, end), 0)
                    } else {
                        Ok(Seq::empty())
                    };
                    match own {
                        Err(e) => Err(e),
                        Ok(first) => match records_data(buf, end, (n - 1) as nat) {
                            Err(e) => Err(e),
                            Ok(rest) => Ok(first + rest),
                        },
                    }
                }
            },
        }
    }
}

/// What parsing a tunnel answer gives: its transaction id and its downlink bytes.
pub open spec fn answer_of(buf: Seq<u8>) -> Result<(u16, Seq<u8>), DnsError> {
    if buf.len() < HEADER_LEN {
        Err(DnsError::Truncated)
    } else {
        match questions_end(
            buf,
            HEADER_LEN as int,
            crate::tunnel::wire::be16_at(buf, 4) as nat,
        ) {
            Err(e) => Err(e),
            Ok(pos) => match records_data(buf, pos, crate::tunnel::wire::be16_at(buf, 6) as nat) {
                Err(e) => Err(e),
                Ok(data) => Ok((crate::tunnel::wire::be16_at(buf, 0), data)),
            },
        }
    }
}

/// Appends the character-strings of TXT data.
fn put_txt_strings(out: &mut Vec<u8>, rdata: &[u8]) -> (r: Result<(), DnsError>)
    ensures
        match r {
            Ok(_) => txt_strings(rdata@, 0) is Ok && final(out)@ == old(out)@ + txt_strings(
                rdata@,
                0,
            )->Ok_0,
            Err(e) => txt_strings(rdata@, 0) == Err::<Seq<u8>, DnsError>(e),
        },
{
    let mut i: usize = 0;
    let ghost mut done = Seq::<u8>::empty();
    proof {
        assert(old(out)@ + done =~= old(out)@);
        match txt_strings(rdata@, 0) {
            Ok(rest) => {
                assert(done + rest =~= rest);
            },
            Err(_) => {},
        }
    }
    while i < rdata.len()
        invariant
            i <= rdata.len(),
            out@ == old(out)@ + done,
            txt_strings(rdata@, 0) == match txt_strings(rdata@, i as int) {
                Ok(rest) => Ok::<Seq<u8>, DnsError>(done + rest),
                Err(e) => Err(e),
            },
        decreases rdata.len() - i,
    {
        let clen: usize = rdata[i] as usize;
        if clen > rdata.len() - i - 1 {
            return Err(DnsError::Truncated);
        }
        let piece: &[u8] = slice_subrange(rdata, i + 1, i + 1 + clen);
        put(out, piece);
        proof {
            assert(old(out)@ + done + piece@ =~= old(out)@ + (done + piece@));
            match txt_strings(rdata@, i + 1 + clen) {
                Ok(rest) => {
                    assert(done + (piece@ + rest) =~= done + piece@ + rest);
                },
                Err(_) => {},
            }
            done = done + piece@;
        }
        i = i + 1 + clen;
    }
    assert(done + Seq::<u8>::empty() =~= done);
    Ok(())
}

/// Parses a tunnel answer: skips the question section, then gathers the character-strings of every
/// TXT record.
pub fn parse_answer(buf: &[u8]) -> (r: Result<Answer, DnsError>)
    ensures
        match r {
            Ok(a) => answer_of(buf@) == Ok::<(u16, Seq<u8>), DnsError>((a.txn_id, a.data@)),
            Err(e) => answer_of(buf@) == Err::<(u16, Seq<u8>), DnsError>(e),
        },
{
    let mut r: Reader = Reader::new(buf);
    match r.skip(HEADER_LEN) {
        Ok(_) => {},
        Err(e) => {
            return Err(e);
        },
    }
    let txn_id: u16 = get16(buf, 0);
    let qd: u16 = get16(buf, 4);
    let an: u16 = get16(buf, 6);
    let mut left: u16 = qd;
    while left > 0
        invariant
            r.wf(),
            r.buf == buf,
            buf@.len() >= HEADER_LEN,
            qd == crate::tunnel::wire::be16_at(buf@, 4),
            questions_end(buf@, r.pos as int, left as nat) == questions_end(
                buf@,
                HEADER_LEN as int,
                qd as nat,
            ),
        decreases left,
    {
        match r.skip_name() {
            Ok(_) => {},
            Err(e) => {
                return Err(e);
            },
        }
        match r.skip(4) {
            Ok(_) => {},
            Err(e) => {
                return Err(e);
            },
        }
        left = left - 1;
    }
    let ghost start = r.pos as int;
    let mut data: Vec<u8> = Vec::new();
    let mut more: u16 = an;
    proof {
        match records_data(buf@, start, an as nat) {
            Ok(rest) => {
                assert(data@ + rest =~= rest);
            },
            Err(_) => {},
        }
    }
    while more > 0
        invariant
            r.wf(),
            r.buf == buf,
            buf@.len() >= HEADER_LEN,
            an == crate::tunnel::wire::be16_at(buf@, 6),
            questions_end(
                buf@,
                HEADER_LEN as int,
                crate::tunnel::wire::be16_at(buf@, 4) as nat,
            ) == Ok::<int, DnsError>(start),
            records_data(buf@, start, an as nat) == match records_data(
                buf@,
                r.pos as int,
                more as nat,
            ) {
                Ok(rest) => Ok::<Seq<u8>, DnsError>(data@ + rest),
                Err(e) => Err(e),
            },
        decreases more,
    {
        let ghost at0 = r.pos as int;
        match r.skip_name() {
            Ok(_) => {},
            Err(e) => {
                return Err(e);
            },
        }
        let ghost at = r.pos as int;
        match r.skip(10) {
            Ok(_) => {},
            Err(e) => {
                return Err(e);
            },
        }
        let rtype: u16 = get16(buf, r.pos - 10);
        let rdlen: u16 = get16(buf, r.pos - 2);
        let rdata: &[u8] = match r.take(rdlen as usize) {
            Ok(s) => s,
            Err(e) => {
                return Err(e);
            },
        };
        let ghost before = data@;
        let ghost mut own = Seq::<u8>::empty();
        if rtype == TYPE_TXT {
            match put_txt_strings(&mut data, rdata) {
                Ok(_) => {},
                Err(e) => {
                    return Err(e);
                },
            }
            proof {
                own = txt_strings(rdata@, 0)->Ok_0;
            }
        } else {
            assert(before + own =~= before);
        }
        proof {
            assert(data@ == before + own);
            match records_data(buf@, r.pos as int, (more - 1) as nat) {
                Ok(rest) => {
                    assert(before + (own + rest) =~= data@ + rest);
                },
                Err(_) => {},
            }
        }
        more = more - 1;
    }
    assert(data@ + Seq::<u8>::empty() =~= data@);
    Ok(Answer { txn_id, data })
}

// ---- laws ----

proof fn lemma_wire_labels_len(labels: Seq<Seq<u8>>)
    ensures
        wire_labels(labels).len() == labels_wire_len(labels),
    decreases labels.len(),
{
    if labels.len() > 0 {
        lemma_wire_labels_len(labels.drop_last());
    }
}

/// The bytes of `part` stand in `buf` at `pos`.
pub open spec fn stands_at(buf: Seq<u8>, pos: int, part: Seq<u8>) -> bool {
    &&& 0 <= pos
    &&& pos + part.len() <= buf.len()
    &&& forall|i: int| 0 <= i < part.len() ==> buf[pos + i] == #[trigger] part[i]
}

/// Labels written on the wire are read back.
proof fn lemma_labels_read_back(buf: Seq<u8>, pos: int, labels: Seq<Seq<u8>>, total: int)
    requires
        labels_ok(labels),
        0 <= total,
        total + labels_wire_len(labels) <= MAX_NAME_LEN,
        stands_at(buf, pos, wire_labels(labels) + seq![0u8]),
    ensures
        name_at(buf, pos, total) == Ok::<(Seq<Seq<u8>>, int), DnsError>(
            (labels, pos + labels_wire_len(labels) + 1),
        ),
        name_end(buf, pos) == Ok::<int, DnsError>(pos + labels_wire_len(labels) + 1),
    decreases labels.len(),
{
    let wire = wire_labels(labels) + seq![0u8];
    lemma_wire_labels_len(labels);
    if labels.len() == 0 {
        assert(wire[0] == 0u8);
        assert(buf[pos + 0] == 0u8);
        assert(labels =~= Seq::<Seq<u8>>::empty());
    } else {
        let first = labels[0];
        let rest = labels.subrange(1, labels.len() as int);
        assert(labels =~= seq![first] + rest);
        lemma_labels_append(seq![first], rest);
        lemma_one_label(first);
        lemma_wire_labels_len(rest);
        let tail = wire_labels(rest) + seq![0u8];
        assert(wire =~= seq![first.len() as u8] + first + tail);
        assert(label_ok(labels[0]));
        assert(wire[0] == first.len());
        assert(buf[pos + 0] == first.len());
        let end = pos + 1 + first.len();
        assert forall|i: int| 0 <= i < first.len() implies buf[pos + 1 + i] == #[trigger] first[i] by {
            assert(wire[1 + i] == first[i]);
            assert(buf[pos + (1 + i)] == wire[1 + i]);
        }
        assert(buf.subrange(pos + 1, end) =~= first);
        assert forall|i: int| 0 <= i < tail.len() implies buf[end + i] == #[trigger] tail[i] by {
            assert(wire[1 + first.len() + i] == tail[i]);
            assert(buf[pos + (1 + first.len() + i)] == wire[1 + first.len() + i]);
        }
        assert forall|i: int| 0 <= i < rest.len() implies label_ok(#[trigger] rest[i]) by {
            assert(label_ok(labels[i + 1]));
        }
        lemma_labels_read_back(buf, end, rest, total + 1 + first.len());
    }
}

proof fn lemma_chunks_ok(s: Seq<u8>, n: nat)
    requires
        n > 0,
    ensures
        forall|i: int| 0 <= i < chunks(s, n).len() ==> 1 <= (#[trigger] chunks(s, n)[i]).len() <= n,
        joined(chunks(s, n)) == s,
    decreases s.len(),
{
    if s.len() == 0 {
        assert(joined(chunks(s, n)) =~= s);
    } else if s.len() <= n {
        reveal_with_fuel(joined, 2);
        assert(seq![s].drop_last() =~= Seq::<Seq<u8>>::empty());
        assert(joined(chunks(s, n)) =~= s);
    } else {
        let head = s.subrange(0, n as int);
        let tail = s.subrange(n as int, s.len() as int);
        lemma_chunks_ok(tail, n);
        lemma_joined_append(seq![head], chunks(tail, n));
        reveal_with_fuel(joined, 2);
        assert(seq![head].drop_last() =~= Seq::<Seq<u8>>::empty());
        assert(joined(seq![head]) =~= head);
        assert(joined(chunks(s, n)) =~= s);
    }
}

proof fn lemma_joined_append(a: Seq<Seq<u8>>, b: Seq<Seq<u8>>)
    ensures
        joined(a + b) == joined(a) + joined(b),
    decreases b.len(),
{
    if b.len() == 0 {
        assert(a + b =~= a);
        assert(joined(a) + joined(b) =~= joined(a));
    } else {
        lemma_joined_append(a, b.drop_last());
        assert((a + b).drop_last() =~= a + b.drop_last());
        assert(joined(a + b) =~= joined(a) + joined(b));
    }
}

proof fn lemma_header_fields(
    buf: Seq<u8>,
    txn_id: u16,
    flags: Seq<u8>,
    qd: u16,
    an: u16,
    ns: u16,
    ar: u16,
)
    requires
        flags.len() == 2,
        stands_at(buf, 0, header(txn_id, flags, qd, an, ns, ar)),
    ensures
        crate::tunnel::wire::be16_at(buf, 0) == txn_id,
        crate::tunnel::wire::be16_at(buf, 4) == qd,
        crate::tunnel::wire::be16_at(buf, 6) == an,
        header(txn_id, flags, qd, an, ns, ar).len() == HEADER_LEN,
{
    let h = header(txn_id, flags, qd, an, ns, ar);
    assert(buf[0int + 0] == h[0] && buf[0int + 1] == h[1]);
    assert(buf[0int + 4] == h[4] && buf[0int + 5] == h[5]);
    assert(buf[0int + 6] == h[6] && buf[0int + 7] == h[7]);
}

proof fn lemma_query_name(txn_id: u16, data: Seq<u8>, zone: Seq<Seq<u8>>, edns_udp: u16)
    requires
        labels_ok(zone),
        query_name_len(data, zone) <= MAX_NAME_LEN,
    ensures
        ({
            let buf = query_message(txn_id, data, zone, edns_udp);
            let labels = query_labels(data, zone);
            &&& buf.len() >= HEADER_LEN + query_name_len(data, zone) + 4
            &&& crate::tunnel::wire::be16_at(buf, 0) == txn_id
            &&& crate::tunnel::wire::be16_at(buf, 4) == 1
            &&& name_at(buf, HEADER_LEN as int, 0) == Ok::<(Seq<Seq<u8>>, int), DnsError>(
                (labels, HEADER_LEN + query_name_len(data, zone)),
            )
            &&& name_end(buf, HEADER_LEN as int) == Ok::<int, DnsError>(
                HEADER_LEN + query_name_len(data, zone),
            )
            &&& labels_ok(labels)
            &&& stands_at(buf, HEADER_LEN as int, wire_labels(labels) + seq![0u8])
            &&& (wire_labels(labels) + seq![0u8]).len() == query_name_len(data, zone)
        }),
{
    let buf = query_message(txn_id, data, zone, edns_udp);
    let labels = query_labels(data, zone);
    let text = b32_text(data);
    lemma_chunks_ok(text, MAX_LABEL_LEN as nat);
    assert forall|i: int| 0 <= i < labels.len() implies label_ok(#[trigger] labels[i]) by {
        let n = chunks(text, MAX_LABEL_LEN as nat).len();
        if i < n {
            assert(labels[i] == chunks(text, MAX_LABEL_LEN as nat)[i]);
        } else {
            assert(labels[i] == zone[i - n]);
        }
    }
    lemma_wire_labels_len(labels);
    let h = header(txn_id, seq![0x01u8, 0x00u8], 1, 0, 0, 1);
    let wire = wire_labels(labels) + seq![0u8];
    let tail = crate::tunnel::wire::be16(TYPE_TXT) + crate::tunnel::wire::be16(CLASS_IN)
        + opt_record(edns_udp);
    assert(buf =~= h + wire + tail);
    assert(stands_at(buf, 0, h));
    lemma_header_fields(buf, txn_id, seq![0x01u8, 0x00u8], 1, 0, 0, 1);
    assert forall|i: int| 0 <= i < wire.len() implies buf[HEADER_LEN + i] == #[trigger] wire[i] by {
        assert(buf[h.len() + i] == wire[i]);
    }
    lemma_labels_read_back(buf, HEADER_LEN as int, labels, 0);
}

/// A query parses back to the transaction id and the bytes it was built from.
#[verifier::spinoff_prover]
#[verifier::rlimit(50)]
pub proof fn lemma_query_round_trip(txn_id: u16, data: Seq<u8>, zone: Seq<Seq<u8>>, edns_udp: u16)
    requires
        labels_ok(zone),
        query_name_len(data, zone) <= MAX_NAME_LEN,
    ensures
        query_of(query_message(txn_id, data, zone, edns_udp), zone) == Ok::<
            (u16, Seq<u8>),
            DnsError,
        >((txn_id, data)),
{
    lemma_query_name(txn_id, data, zone, edns_udp);
    let text = b32_text(data);
    let labels = query_labels(data, zone);
    lemma_chunks_ok(text, MAX_LABEL_LEN as nat);
    assert(labels.subrange(0, labels.len() - zone.len()) =~= chunks(text, MAX_LABEL_LEN as nat));
    assert forall|i: int| 0 <= i < zone.len() implies same_text(
        labels[labels.len() - zone.len() + i],
        #[trigger] zone[i],
    ) by {
        assert(labels[labels.len() - zone.len() + i] == zone[i]);
    }
    lemma_b32_round_trip(data);
}

/// A query holds a question, and its transaction id stands first.
pub proof fn lemma_query_has_question(
    txn_id: u16,
    data: Seq<u8>,
    zone: Seq<Seq<u8>>,
    edns_udp: u16,
)
    requires
        labels_ok(zone),
        query_name_len(data, zone) <= MAX_NAME_LEN,
    ensures
        question_end_of(query_message(txn_id, data, zone, edns_udp)) is Ok,
        crate::tunnel::wire::be16_at(query_message(txn_id, data, zone, edns_udp), 0) == txn_id,
{
    lemma_query_name(txn_id, data, zone, edns_udp);
}

/// Two messages of one length agree up to the case of letters from `from` to `to`, and byte for byte
/// elsewhere.
pub open spec fn same_message(a: Seq<u8>, b: Seq<u8>, from: int, to: int) -> bool {
    &&& a.len() == b.len()
    &&& forall|i: int|
        0 <= i < a.len() ==> if from <= i < to {
            same_letter(#[trigger] a[i], b[i])
        } else {
            a[i] == b[i]
        }
}

/// A name whose letters have changed case is read as the same labels in that other case.
proof fn lemma_name_ignores_case(
    a: Seq<u8>,
    b: Seq<u8>,
    from: int,
    to: int,
    pos: int,
    labels: Seq<Seq<u8>>,
    total: int,
)
    requires
        same_message(a, b, from, to),
        labels_ok(labels),
        0 <= total,
        total + labels_wire_len(labels) <= MAX_NAME_LEN,
        stands_at(a, pos, wire_labels(labels) + seq![0u8]),
    ensures
        name_at(b, pos, total) matches Ok((other, _)) && {
            &&& other.len() == labels.len()
            &&& forall|i: int| 0 <= i < labels.len() ==> same_text(#[trigger] other[i], labels[i])
        },
    decreases labels.len(),
{
    let wire = wire_labels(labels) + seq![0u8];
    lemma_wire_labels_len(labels);
    assert(same_letter(a[pos], b[pos]));
    if labels.len() == 0 {
        assert(wire[0] == 0u8);
        assert(a[pos + 0] == 0u8);
    } else {
        let first = labels[0];
        let rest = labels.subrange(1, labels.len() as int);
        assert(labels =~= seq![first] + rest);
        lemma_labels_append(seq![first], rest);
        lemma_one_label(first);
        lemma_wire_labels_len(rest);
        let tail = wire_labels(rest) + seq![0u8];
        assert(wire =~= seq![first.len() as u8] + first + tail);
        assert(label_ok(labels[0]));
        assert(wire[0] == first.len());
        assert(a[pos + 0] == first.len());
        assert(b[pos] == first.len());
        let end = pos + 1 + first.len();
        let own = b.subrange(pos + 1, end);
        assert forall|i: int| 0 <= i < own.len() implies same_letter(#[trigger] own[i], first[i]) by {
            assert(wire[1 + i] == first[i]);
            assert(a[pos + (1 + i)] == wire[1 + i]);
            assert(same_letter(a[pos + 1 + i], b[pos + 1 + i]));
        }
        assert forall|i: int| 0 <= i < tail.len() implies a[end + i] == #[trigger] tail[i] by {
            assert(wire[1 + first.len() + i] == tail[i]);
            assert(a[pos + (1 + first.len() + i)] == wire[1 + first.len() + i]);
        }
        assert forall|i: int| 0 <= i < rest.len() implies label_ok(#[trigger] rest[i]) by {
            assert(label_ok(labels[i + 1]));
        }
        lemma_name_ignores_case(a, b, from, to, end, rest, total + 1 + first.len());
        let other = name_at(b, end, total + 1 + first.len())->Ok_0.0;
        let all = seq![own] + other;
        assert forall|i: int| 0 <= i < labels.len() implies same_text(
            #[trigger] all[i],
            labels[i],
        ) by {
            if i > 0 {
                assert(all[i] == other[i - 1]);
                assert(labels[i] == rest[i - 1]);
            }
        }
    }
}

proof fn lemma_joined_same_text(a: Seq<Seq<u8>>, b: Seq<Seq<u8>>)
    requires
        a.len() == b.len(),
        forall|i: int| 0 <= i < a.len() ==> same_text(#[trigger] a[i], b[i]),
    ensures
        same_text(joined(a), joined(b)),
    decreases a.len(),
{
    if a.len() > 0 {
        let pa = a.drop_last();
        let pb = b.drop_last();
        assert forall|i: int| 0 <= i < pa.len() implies same_text(#[trigger] pa[i], pb[i]) by {
            assert(same_text(a[i], b[i]));
        }
        lemma_joined_same_text(pa, pb);
        assert(same_text(a[a.len() - 1], b[b.len() - 1]));
        let ja = joined(a);
        let jb = joined(b);
        assert forall|i: int| 0 <= i < ja.len() implies same_letter(#[trigger] ja[i], jb[i]) by {
            let n = joined(pa).len();
            if i < n {
                assert(ja[i] == joined(pa)[i] && jb[i] == joined(pb)[i]);
            } else {
                assert(ja[i] == a.last()[i - n] && jb[i] == b.last()[i - n]);
            }
        }
    }
}

/// A query whose name a resolver has put in another case still parses to what it was built from.
pub proof fn lemma_query_ignores_case(
    txn_id: u16,
    data: Seq<u8>,
    zone: Seq<Seq<u8>>,
    edns_udp: u16,
    received: Seq<u8>,
)
    requires
        labels_ok(zone),
        query_name_len(data, zone) <= MAX_NAME_LEN,
        same_message(
            query_message(txn_id, data, zone, edns_udp),
            received,
            HEADER_LEN as int,
            HEADER_LEN + query_name_len(data, zone),
        ),
    ensures
        query_of(received, zone) == Ok::<(u16, Seq<u8>), DnsError>((txn_id, data)),
{
    let sent = query_message(txn_id, data, zone, edns_udp);
    let end = HEADER_LEN + query_name_len(data, zone);
    lemma_query_name(txn_id, data, zone, edns_udp);
    let labels = query_labels(data, zone);
    lemma_name_ignores_case(sent, received, HEADER_LEN as int, end, HEADER_LEN as int, labels, 0);
    let other = name_at(received, HEADER_LEN as int, 0)->Ok_0.0;
    assert(received[0] == sent[0] && received[1] == sent[1] && received[4] == sent[4] && received[5]
        == sent[5]);
    assert forall|i: int| 0 <= i < zone.len() implies same_text(
        other[other.len() - zone.len() + i],
        #[trigger] zone[i],
    ) by {
        let k = labels.len() - zone.len() + i;
        assert(same_text(other[k], labels[k]));
        assert(labels[k] == zone[i]);
    }
    let n = labels.len() - zone.len();
    let text = b32_text(data);
    let front = other.subrange(0, n);
    let back = labels.subrange(0, n);
    assert(back =~= chunks(text, MAX_LABEL_LEN as nat));
    lemma_chunks_ok(text, MAX_LABEL_LEN as nat);
    assert forall|i: int| 0 <= i < front.len() implies same_text(#[trigger] front[i], back[i]) by {
        assert(same_text(other[i], labels[i]));
    }
    lemma_joined_same_text(front, back);
    lemma_b32_ignores_case(joined(front), text);
    lemma_b32_round_trip(data);
}

/// A name that ends inside the part two messages share ends there in both.
proof fn lemma_name_end_shared(a: Seq<u8>, b: Seq<u8>, pos: int)
    requires
        name_end(a, pos) is Ok,
        name_end(a, pos)->Ok_0 <= b.len(),
        forall|i: int| pos <= i < name_end(a, pos)->Ok_0 ==> #[trigger] b[i] == a[i],
    ensures
        name_end(b, pos) == name_end(a, pos),
    decreases a.len() - pos,
{
    lemma_name_end_bounds(a, pos);
    assert(b[pos] == a[pos]);
    if 0 < a[pos] < 64 {
        lemma_name_end_bounds(a, pos + 1 + a[pos]);
        lemma_name_end_shared(a, b, pos + 1 + a[pos]);
    }
}

proof fn lemma_txt_strings_read_back(rdata: Seq<u8>, i: int, pieces: Seq<Seq<u8>>)
    requires
        0 <= i,
        forall|k: int| 0 <= k < pieces.len() ==> (#[trigger] pieces[k]).len() <= MAX_CHAR_STRING,
        stands_at(rdata, i, wire_labels(pieces)),
        i + labels_wire_len(pieces) == rdata.len(),
    ensures
        txt_strings(rdata, i) == Ok::<Seq<u8>, DnsError>(joined(pieces)),
    decreases pieces.len(),
{
    lemma_wire_labels_len(pieces);
    if pieces.len() == 0 {
        assert(joined(pieces) =~= Seq::<u8>::empty());
    } else {
        let first = pieces[0];
        let rest = pieces.subrange(1, pieces.len() as int);
        assert(pieces =~= seq![first] + rest);
        lemma_labels_append(seq![first], rest);
        lemma_one_label(first);
        lemma_wire_labels_len(rest);
        lemma_joined_append(seq![first], rest);
        reveal_with_fuel(joined, 2);
        assert(seq![first].drop_last() =~= Seq::<Seq<u8>>::empty());
        assert(joined(seq![first]) =~= first);
        let wire = wire_labels(pieces);
        let tail = wire_labels(rest);
        assert(wire =~= seq![first.len() as u8] + first + tail);
        assert(pieces[0].len() <= MAX_CHAR_STRING);
        assert(wire[0] == first.len());
        assert(rdata[i + 0] == first.len());
        let end = i + 1 + first.len();
        assert forall|k: int| 0 <= k < first.len() implies rdata[i + 1 + k] == #[trigger] first[k] by {
            assert(wire[1 + k] == first[k]);
            assert(rdata[i + (1 + k)] == wire[1 + k]);
        }
        assert(rdata.subrange(i + 1, end) =~= first);
        assert forall|k: int| 0 <= k < tail.len() implies rdata[end + k] == #[trigger] tail[k] by {
            assert(wire[1 + first.len() + k] == tail[k]);
            assert(rdata[i + (1 + first.len() + k)] == wire[1 + first.len() + k]);
        }
        assert forall|k: int| 0 <= k < rest.len() implies (#[trigger] rest[k]).len()
            <= MAX_CHAR_STRING by {
            assert(pieces[k + 1].len() <= MAX_CHAR_STRING);
        }
        lemma_txt_strings_read_back(rdata, end, rest);
    }
}

proof fn lemma_txt_data(downlink: Seq<u8>)
    ensures
        txt_strings(txt_data(downlink), 0) == Ok::<Seq<u8>, DnsError>(downlink),
        txt_data(downlink).len() == if downlink.len() == 0 {
            1
        } else {
            chunked_len(downlink.len() as int, MAX_CHAR_STRING as int)
        },
{
    let rdata = txt_data(downlink);
    if downlink.len() == 0 {
        reveal_with_fuel(txt_strings, 2);
        assert(rdata.subrange(1, 1) + Seq::<u8>::empty() =~= downlink);
    } else {
        let pieces = chunks(downlink, MAX_CHAR_STRING as nat);
        lemma_chunks_ok(downlink, MAX_CHAR_STRING as nat);
        lemma_wire_labels_len(pieces);
        lemma_chunks_wire_len(downlink, MAX_CHAR_STRING as nat);
        lemma_txt_strings_read_back(rdata, 0, pieces);
    }
}

/// How many bytes `downlink` takes as TXT data.
pub open spec fn txt_data_len(downlink: Seq<u8>) -> int {
    txt_data(downlink).len() as int
}

/// An answer parses back to the transaction id of its request and the bytes it was built from, as
/// long as the record's length field can hold the length of its data.
pub proof fn lemma_answer_round_trip(request: Seq<u8>, downlink: Seq<u8>, edns_udp: u16)
    requires
        question_end_of(request) is Ok,
        txt_data_len(downlink) <= 0xffff,
    ensures
        answer_of(
            answer_message(request, question_end_of(request)->Ok_0, downlink, edns_udp),
        ) == Ok::<(u16, Seq<u8>), DnsError>(
            (crate::tunnel::wire::be16_at(request, 0), downlink),
        ),
{
    let qend = question_end_of(request)->Ok_0;
    let buf = answer_message(request, qend, downlink, edns_udp);
    let id = crate::tunnel::wire::be16_at(request, 0);
    let h = header(id, seq![0x81u8, 0x80u8], 1, 1, 0, 1);
    let echo = request.subrange(HEADER_LEN as int, qend);
    let record = txt_record(downlink);
    let opt = opt_record(edns_udp);
    lemma_name_end_bounds(request, HEADER_LEN as int);
    assert(stands_at(buf, 0, h));
    lemma_header_fields(buf, id, seq![0x81u8, 0x80u8], 1, 1, 0, 1);
    assert forall|i: int| HEADER_LEN <= i < qend implies #[trigger] buf[i] == request[i] by {
        assert(buf[i] == (h + echo)[i]);
        assert((h + echo)[i] == echo[i - HEADER_LEN]);
    }
    lemma_name_end_shared(request, buf, HEADER_LEN as int);
    assert(buf.len() == qend + record.len() + opt.len());
    reveal_with_fuel(questions_end, 2);
    assert(questions_end(buf, HEADER_LEN as int, 1) == Ok::<int, DnsError>(qend));
    let rdata = txt_data(downlink);
    assert forall|i: int| 0 <= i < record.len() implies buf[qend + i] == #[trigger] record[i] by {
        assert(buf[qend + i] == (h + echo + record)[qend + i]);
    }
    assert(record[0] == 0xC0u8);
    assert(buf[qend + 0] == record[0]);
    assert(name_end(buf, qend) == Ok::<int, DnsError>(qend + 2));
    let at = qend + 2;
    assert(record[2] == 0u8 && record[3] == 16u8);
    assert(buf[qend + 2] == record[2] && buf[qend + 3] == record[3]);
    assert(crate::tunnel::wire::be16_at(buf, at) == TYPE_TXT);
    let n = rdata.len() as usize as u16;
    assert(n == rdata.len());
    assert(record[10] == crate::tunnel::wire::be16(n)[0] && record[11]
        == crate::tunnel::wire::be16(n)[1]);
    assert(buf[qend + 10] == record[10] && buf[qend + 11] == record[11]);
    assert(crate::tunnel::wire::be16_at(buf, at + 8) == n);
    assert(record.len() == 12 + rdata.len());
    assert forall|i: int| 0 <= i < rdata.len() implies buf[qend + 12 + i] == #[trigger] rdata[i] by {
        assert(record[12 + i] == rdata[i]);
        assert(buf[qend + (12 + i)] == record[12 + i]);
    }
    assert(buf.subrange(at + 10, at + 10 + n) =~= rdata);
    lemma_txt_data(downlink);
    reveal_with_fuel(records_data, 2);
    assert(downlink + Seq::<u8>::empty() =~= downlink);
    assert(records_data(buf, qend, 1) == Ok::<Seq<u8>, DnsError>(downlink));
}

/// The length of a query name: the base32 characters, one length byte for each label, and the zone.
pub proof fn lemma_query_name_len(data: Seq<u8>, zone: Seq<Seq<u8>>)
    ensures
        query_name_len(data, zone) == chunked_len(
            (8 * data.len() + 4) as int / 5,
            MAX_LABEL_LEN as int,
        ) + labels_wire_len(zone) + 1,
{
    lemma_labels_append(chunks(b32_text(data), MAX_LABEL_LEN as nat), zone);
    lemma_chunks_wire_len(b32_text(data), MAX_LABEL_LEN as nat);
}

/// The length of an answer: header, echoed question, record and OPT.
pub proof fn lemma_answer_len(request: Seq<u8>, downlink: Seq<u8>, edns_udp: u16)
    requires
        question_end_of(request) is Ok,
    ensures
        HEADER_LEN < question_end_of(request)->Ok_0 <= request.len(),
        answer_message(request, question_end_of(request)->Ok_0, downlink, edns_udp).len()
            == question_end_of(request)->Ok_0 + 12 + txt_data_len(downlink) + 11,
        txt_data_len(downlink) == if downlink.len() == 0 {
            1
        } else {
            chunked_len(downlink.len() as int, MAX_CHAR_STRING as int)
        },
{
    lemma_name_end_bounds(request, HEADER_LEN as int);
    lemma_txt_data(downlink);
}

// ---- what stands on the wire ----

/// The bytes from `at` on are these.
pub open spec fn bytes_at(buf: Seq<u8>, at: int, part: Seq<u8>) -> bool {
    &&& 0 <= at
    &&& at + part.len() <= buf.len()
    &&& buf.subrange(at, at + part.len() as int) == part
}

/// An EDNS0 OPT record of a UDP size stands at the end: root name, type 41, the size, and zeros.
pub open spec fn ends_with_opt(buf: Seq<u8>, edns_udp: u16) -> bool {
    let at = buf.len() - 11;
    &&& at >= 0
    &&& buf[at] == 0 && buf[at + 1] == 0 && buf[at + 2] == 41
    &&& buf[at + 3] * 256 + buf[at + 4] == edns_udp
    &&& forall|i: int| at + 5 <= i < at + 11 ==> buf[i] == 0
}

/// A reply to a request: the request's id and first question, with the flags of a response without
/// error to a query that asked for recursion, from a server that offers it, and these counts of answer
/// and authority records beside one OPT record.
pub open spec fn replies_to(buf: Seq<u8>, request: Seq<u8>, qend: int, an: u8, ns: u8) -> bool {
    &&& 12 < qend <= request.len()
    &&& qend <= buf.len()
    &&& buf[0] == request[0] && buf[1] == request[1]
    &&& buf[2] == 0x81 && buf[3] == 0x80
    &&& buf[4] == 0 && buf[5] == 1
    &&& buf[6] == 0 && buf[7] == an
    &&& buf[8] == 0 && buf[9] == ns
    &&& buf[10] == 0 && buf[11] == 1
    &&& forall|i: int| 12 <= i < qend ==> buf[i] == request[i]
}

/// The answer to every request with a readable question is a response without error: it has the
/// request's id and question, the flags QR, RD and RA and no other, one TXT record of class IN that
/// points at the question's name and is not to be kept, and the advertised size.
#[verifier::spinoff_prover]
#[verifier::rlimit(50)]
pub proof fn lemma_answer_is_a_response(request: Seq<u8>, downlink: Seq<u8>, edns_udp: u16)
    requires
        question_end_of(request) is Ok,
        txt_data_len(downlink) <= 0xffff,
    ensures
        ({
            let qend = question_end_of(request)->Ok_0;
            let buf = answer_message(request, qend, downlink, edns_udp);
            let n = buf.len() - qend - 23;
            &&& replies_to(buf, request, qend, 1, 0)
            &&& n >= 1
            &&& bytes_at(buf, qend, seq![0xc0u8, 12, 0, 16, 0, 1, 0, 0, 0, 0])
            &&& buf[qend + 10] * 256 + buf[qend + 11] == n
            &&& txt_strings(buf.subrange(qend + 12, qend + 12 + n), 0) == Ok::<Seq<u8>, DnsError>(
                downlink,
            )
            &&& ends_with_opt(buf, edns_udp)
        }),
{
    let qend = question_end_of(request)->Ok_0;
    let buf = answer_message(request, qend, downlink, edns_udp);
    let record = txt_record(downlink);
    lemma_name_end_bounds(request, 12);
    lemma_reply(
        request,
        qend,
        crate::tunnel::wire::be16_at(request, 0),
        1,
        0,
        record,
        edns_udp,
    );
    lemma_record_stands(buf, qend, downlink);
}

proof fn lemma_record_stands(buf: Seq<u8>, qend: int, downlink: Seq<u8>)
    requires
        0 <= qend,
        txt_data_len(downlink) <= 0xffff,
        ({
            let record = txt_record(downlink);
            &&& buf.len() == qend + record.len() + 11
            &&& buf.subrange(qend, qend + record.len() as int) == record
        }),
    ensures
        ({
            let n = buf.len() - qend - 23;
            &&& n >= 1
            &&& bytes_at(buf, qend, seq![0xc0u8, 12, 0, 16, 0, 1, 0, 0, 0, 0])
            &&& buf[qend + 10] * 256 + buf[qend + 11] == n
            &&& txt_strings(buf.subrange(qend + 12, qend + 12 + n), 0) == Ok::<Seq<u8>, DnsError>(
                downlink,
            )
        }),
{
    let record = txt_record(downlink);
    let n = txt_data(downlink).len() as int;
    lemma_txt_record(downlink);
    lemma_part(buf, qend, record, 0, 10);
    lemma_part(buf, qend, record, 10, 12);
    lemma_part(buf, qend, record, 12, 12 + n);
    assert(record[10] == buf[qend + 10]);
    assert(record[11] == buf[qend + 11]);
}

/// A part of what stands at a place stands at that part's place.
proof fn lemma_part(buf: Seq<u8>, at: int, part: Seq<u8>, from: int, to: int)
    requires
        0 <= at,
        at + part.len() <= buf.len(),
        buf.subrange(at, at + part.len() as int) == part,
        0 <= from <= to <= part.len(),
    ensures
        buf.subrange(at + from, at + to) == part.subrange(from, to),
        forall|i: int| from <= i < to ==> #[trigger] part[i] == buf[at + i],
{
    assert forall|i: int| from <= i < to implies #[trigger] part[i] == buf[at + i] by {
        assert(buf.subrange(at, at + part.len() as int)[i] == buf[at + i]);
    }
    assert(buf.subrange(at + from, at + to) =~= part.subrange(from, to));
}

proof fn lemma_txt_record(downlink: Seq<u8>)
    requires
        txt_data_len(downlink) <= 0xffff,
    ensures
        ({
            let record = txt_record(downlink);
            let n = txt_data(downlink).len() as int;
            &&& n >= 1
            &&& record.len() == 12 + n
            &&& record.subrange(0, 10) == seq![0xc0u8, 12, 0, 16, 0, 1, 0, 0, 0, 0]
            &&& record[10] * 256 + record[11] == n
            &&& record.subrange(12, 12 + n) == txt_data(downlink)
            &&& txt_strings(record.subrange(12, 12 + n), 0) == Ok::<Seq<u8>, DnsError>(downlink)
        }),
{
    lemma_txt_data(downlink);
    let record = txt_record(downlink);
    let rdata = txt_data(downlink);
    let n = rdata.len() as int;
    if downlink.len() > 0 {
        lemma_chunks_positive(downlink.len() as int);
    }
    assert(record.subrange(0, 10) =~= seq![0xc0u8, 12, 0, 16, 0, 1, 0, 0, 0, 0]);
    assert(record.subrange(12, 12 + n) =~= rdata);
}

proof fn lemma_chunks_positive(len: int)
    requires
        len > 0,
    ensures
        chunked_len(len, MAX_CHAR_STRING as int) >= 1,
{
}

/// Header, question, records and OPT of a reply.
proof fn lemma_reply(
    request: Seq<u8>,
    qend: int,
    id: u16,
    an: u8,
    ns: u8,
    records: Seq<u8>,
    edns_udp: u16,
)
    requires
        12 < qend <= request.len(),
        id == crate::tunnel::wire::be16_at(request, 0),
    ensures
        ({
            let buf = header(id, seq![0x81u8, 0x80u8], 1, an as u16, ns as u16, 1)
                + request.subrange(12, qend) + records + opt_record(edns_udp);
            &&& replies_to(buf, request, qend, an, ns)
            &&& ends_with_opt(buf, edns_udp)
            &&& buf.len() == qend + records.len() + 11
            &&& buf.subrange(qend, qend + records.len() as int) == records
        }),
{
    let h = header(id, seq![0x81u8, 0x80u8], 1, an as u16, ns as u16, 1);
    let echo = request.subrange(12, qend);
    let opt = opt_record(edns_udp);
    let buf = h + echo + records + opt;
    assert(h.len() == 12);
    assert forall|i: int| 0 <= i < 12 implies buf[i] == h[i] by {}
    assert(h[0] == request[0] && h[1] == request[1]);
    assert(h[2] == 0x81 && h[3] == 0x80 && h[4] == 0 && h[5] == 1 && h[6] == 0 && h[7] == an
        && h[8] == 0 && h[9] == ns && h[10] == 0 && h[11] == 1);
    assert forall|i: int| 12 <= i < qend implies buf[i] == request[i] by {
        assert(buf[i] == echo[i - 12]);
    }
    let at = buf.len() - 11;
    assert(opt.len() == 11);
    assert forall|i: int| at <= i < at + 11 implies buf[i] == opt[i - at] by {}
    assert(buf[at] == opt[0] && buf[at + 1] == opt[1] && buf[at + 2] == opt[2] && buf[at + 3]
        == opt[3] && buf[at + 4] == opt[4]);
    assert(opt[3] * 256 + opt[4] == edns_udp);
    assert(buf.subrange(qend, qend + records.len() as int) =~= records);
}

/// The answer without data to every request with a readable question is a response without error, so
/// that a resolver goes on: no answer records, the zone's SOA of class IN as authority, which is not to
/// be kept, and the advertised size. A client reads no data from it.
#[verifier::spinoff_prover]
#[verifier::rlimit(50)]
pub proof fn lemma_nodata_is_a_response(
    request: Seq<u8>,
    zone: Seq<Seq<u8>>,
    edns_udp: u16,
)
    requires
        question_end_of(request) is Ok,
    ensures
        ({
            let qend = question_end_of(request)->Ok_0;
            let buf = nodata_message(request, qend, zone, edns_udp);
            let name = wire_labels(zone).push(0u8);
            let at = qend + name.len() as int;
            &&& replies_to(buf, request, qend, 0, 1)
            &&& bytes_at(buf, qend, name)
            &&& bytes_at(buf, at, seq![0u8, 6, 0, 1, 0, 0, 0, 0])
            &&& ends_with_opt(buf, edns_udp)
            &&& answer_of(buf) == Ok::<(u16, Seq<u8>), DnsError>(
                (crate::tunnel::wire::be16_at(request, 0), Seq::empty()),
            )
        }),
{
    let qend = question_end_of(request)->Ok_0;
    let buf = nodata_message(request, qend, zone, edns_udp);
    let record = soa_record(zone);
    let name = wire_labels(zone).push(0u8);
    let n = name.len() as int;
    lemma_name_end_bounds(request, 12);
    lemma_reply(
        request,
        qend,
        crate::tunnel::wire::be16_at(request, 0),
        0,
        1,
        record,
        edns_udp,
    );
    lemma_soa_record(zone);
    lemma_part(buf, qend, record, 0, n);
    lemma_part(buf, qend, record, n, n + 8);
    lemma_name_end_shared(request, buf, 12);
    reveal_with_fuel(questions_end, 2);
    assert(questions_end(buf, 12, 1) == Ok::<int, DnsError>(qend));
    assert(records_data(buf, qend, 0) == Ok::<Seq<u8>, DnsError>(Seq::empty()));
}

proof fn lemma_soa_record(zone: Seq<Seq<u8>>)
    ensures
        ({
            let record = soa_record(zone);
            let name = wire_labels(zone).push(0u8);
            let n = name.len() as int;
            &&& record.len() >= n + 8
            &&& record.subrange(0, n) == name
            &&& record.subrange(n, n + 8) == seq![0u8, 6, 0, 1, 0, 0, 0, 0]
        }),
{
    let record = soa_record(zone);
    let name = wire_labels(zone) + seq![0u8];
    let n = name.len() as int;
    assert(name =~= wire_labels(zone).push(0u8));
    assert(record.subrange(0, n) =~= name);
    assert(record.subrange(n, n + 8) =~= seq![0u8, 6, 0, 1, 0, 0, 0, 0]);
}

/// A query is an ordinary one that asks for recursion: id, the flag RD and no other, one question of
/// type TXT and class IN, no records but the OPT record with the advertised size.
pub proof fn lemma_query_is_ordinary(
    txn_id: u16,
    data: Seq<u8>,
    zone: Seq<Seq<u8>>,
    edns_udp: u16,
)
    requires
        labels_ok(zone),
        query_name_len(data, zone) <= MAX_NAME_LEN,
    ensures
        ({
            let buf = query_message(txn_id, data, zone, edns_udp);
            let qend = question_end_of(buf)->Ok_0;
            &&& question_end_of(buf) is Ok
            &&& buf[0] * 256 + buf[1] == txn_id
            &&& bytes_at(buf, 2, seq![1u8, 0, 0, 1, 0, 0, 0, 0, 0, 1])
            &&& bytes_at(buf, qend - 5, seq![0u8, 0, 16, 0, 1])
            &&& ends_with_opt(buf, edns_udp)
            &&& buf.len() == qend + 11
        }),
{
    let buf = query_message(txn_id, data, zone, edns_udp);
    let labels = query_labels(data, zone);
    let h = header(txn_id, seq![0x01u8, 0x00u8], 1, 0, 0, 1);
    let q = question(labels);
    let opt = opt_record(edns_udp);
    lemma_query_name(txn_id, data, zone, edns_udp);
    lemma_wire_labels_len(labels);
    assert(h.len() == 12);
    assert(h.subrange(2, 12) =~= seq![1u8, 0, 0, 1, 0, 0, 0, 0, 0, 1]);
    assert(buf.subrange(2, 12) =~= h.subrange(2, 12));
    assert(buf[0] == h[0] && buf[1] == h[1]);
    let n = q.len() as int;
    assert(q.subrange(n - 5, n) =~= seq![0u8, 0, 16, 0, 1]);
    assert(buf.subrange(12 + n - 5, 12 + n) =~= q.subrange(n - 5, n));
    let at = buf.len() - 11;
    assert forall|i: int| at <= i < at + 11 implies buf[i] == opt[i - at] by {}
    assert(buf[at] == opt[0] && buf[at + 1] == opt[1] && buf[at + 2] == opt[2] && buf[at + 3]
        == opt[3] && buf[at + 4] == opt[4]);
    assert(opt[3] * 256 + opt[4] == edns_udp);
}

} // verus!
