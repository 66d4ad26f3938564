//! What values feed to the standard hasher.
//!
//! A number feeds its little-endian bytes, a string its bytes and a closing
//! 0xff, and a list first its length as eight bytes.

use std::collections::hash_map::DefaultHasher;
use std::hash::Hasher;
use vstd::prelude::*;
use vstd::std_specs::hash::*;

use crate::wire;

verus! {

/// What a string feeds to the hasher.
pub open spec fn text_writes(s: Seq<char>) -> Seq<Seq<u8>> {
    seq![vstd::utf8::encode_utf8(s), seq![0xffu8]]
}

/// What a list of bytes feeds to the hasher.
pub open spec fn bytes_writes(s: Seq<u8>) -> Seq<Seq<u8>> {
    seq![wire::le_bytes(s.len(), 8), s]
}

/// The bytes of a list of 32-bit numbers.
pub open spec fn dims_bytes(s: Seq<u32>) -> Seq<u8>
    decreases s.len(),
{
    if s.len() == 0 {
        Seq::empty()
    } else {
        dims_bytes(s.drop_last()) + wire::le_bytes(s.last() as nat, 4)
    }
}

/// What a list of 32-bit numbers feeds to the hasher.
pub open spec fn dims_writes(s: Seq<u32>) -> Seq<Seq<u8>> {
    seq![wire::le_bytes(s.len(), 8), dims_bytes(s)]
}

/// The hash of what was fed.
pub open spec fn hash_of(writes: Seq<Seq<u8>>) -> u64 {
    DefaultHasher::spec_finish(writes)
}

/// Feeds the `n` little-endian bytes of a number.
pub fn write_number(h: &mut DefaultHasher, x: u64, n: usize)
    ensures
        final(h)@ == old(h)@.push(wire::le_bytes(x as nat, n as nat)),
{
    let mut bytes: Vec<u8> = Vec::new();
    wire::push_le(&mut bytes, x, n);
    assert(bytes@ =~= wire::le_bytes(x as nat, n as nat));
    h.write(bytes.as_slice());
}

/// Feeds a string.
pub fn write_text(h: &mut DefaultHasher, s: &str)
    ensures
        final(h)@ == old(h)@ + text_writes(s@),
{
    let ghost before = h@;
    h.write(s.as_bytes());
    let mark: [u8; 1] = [0xff];
    h.write(mark.as_slice());
    assert(mark@ =~= seq![0xffu8]);
    assert(h@ =~= before + text_writes(s@));
}

/// Feeds a list of bytes.
pub fn write_bytes(h: &mut DefaultHasher, data: &[u8])
    ensures
        final(h)@ == old(h)@ + bytes_writes(data@),
{
    let ghost before = h@;
    write_number(h, data.len() as u64, 8);
    h.write(data);
    assert(h@ =~= before + bytes_writes(data@));
}

/// Feeds a list of 32-bit numbers.
pub fn write_dims(h: &mut DefaultHasher, dims: &Vec<u32>)
    ensures
        final(h)@ == old(h)@ + dims_writes(dims@),
{
    let ghost before = h@;
    write_number(h, dims.len() as u64, 8);
    let mut bytes: Vec<u8> = Vec::new();
    let mut i: usize = 0;
    while i < dims.len()
        invariant
            i <= dims@.len(),
            bytes@ == dims_bytes(dims@.take(i as int)),
        decreases dims@.len() - i,
    {
        wire::push_le(&mut bytes, dims[i] as u64, 4);
        assert(dims@.take(i + 1).drop_last() =~= dims@.take(i as int));
        i = i + 1;
    }
    assert(dims@.take(dims@.len() as int) =~= dims@);
    h.write(bytes.as_slice());
    assert(h@ =~= before + dims_writes(dims@));
}

} // verus!
