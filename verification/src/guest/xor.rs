//! The smallest module: each byte is changed by a fixed key.
use vstd::prelude::*;

verus! {

/// The key.
pub const XOR_KEY: u8 = 0x5A;

/// The bytes with the key applied to each.
pub open spec fn keyed(data: Seq<u8>) -> Seq<u8> {
    Seq::new(data.len(), |i: int| data[i] ^ XOR_KEY)
}

/// Applies the key to each byte.
pub fn xor(data: &mut Vec<u8>)
    ensures
        final(data)@ == keyed(old(data)@),
{
    let ghost was = data@;
    let mut i: usize = 0;
    while i < data.len()
        invariant
            i <= data@.len(),
            data@.len() == was.len(),
            forall|j: int| 0 <= j < i ==> #[trigger] data@[j] == was[j] ^ XOR_KEY,
            forall|j: int| i <= j < was.len() ==> #[trigger] data@[j] == was[j],
        decreases data@.len() - i,
    {
        let b: u8 = data[i];
        data.set(i, b ^ XOR_KEY);
        i = i + 1;
    }
    assert(data@ =~= keyed(was));
}

/// From the app to the wire.
pub fn transform_out(data: &mut Vec<u8>)
    ensures
        final(data)@ == keyed(old(data)@),
{
    xor(data)
}

/// From the wire to the app.
pub fn transform_in(data: &mut Vec<u8>)
    ensures
        final(data)@ == keyed(old(data)@),
{
    xor(data)
}

/// What goes out comes in as it was.
pub proof fn lemma_transform_is_undone(data: Seq<u8>)
    ensures
        keyed(keyed(data)) == data,
{
    assert forall|i: int| 0 <= i < data.len() implies #[trigger] keyed(keyed(data))[i]
        == data[i] by {
        let b = data[i];
        assert((b ^ 0x5Au8) ^ 0x5Au8 == b) by (bit_vector);
    }
    assert(keyed(keyed(data)) =~= data);
}

} // verus!
