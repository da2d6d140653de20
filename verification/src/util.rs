//! Hashing of items, and the fingerprint and bucket indices derived from a hash.

use crate::bucket::{Fingerprint, FINGERPRINT_SIZE};
use byteorder::{BigEndian, ByteOrder};
use std::hash::{Hash, Hasher};
use vstd::prelude::*;

verus! {

/// The four bytes of `n`, most significant first.
pub open spec fn be_bytes(n: u32) -> Seq<u8> {
    seq![
        (n / 0x100_0000) as u8,
        (n / 0x1_0000 % 0x100) as u8,
        (n / 0x100 % 0x100) as u8,
        (n % 0x100) as u8,
    ]
}

/// The number whose four bytes, most significant first, are `bytes`.
pub open spec fn be_value(bytes: Seq<u8>) -> u32 {
    (bytes[0] * 0x100_0000 + bytes[1] * 0x1_0000 + bytes[2] * 0x100 + bytes[3]) as u32
}

/// The most significant byte of the value of four bytes is the first of them.
pub proof fn lemma_be_value_top(bytes: Seq<u8>)
    requires
        bytes.len() == 4,
    ensures
        be_value(bytes) / 0x100_0000 == bytes[0],
{
}

/// Feeds `data` to the hasher through `std::hash::Hash::hash`. What the hasher
/// then holds depends on the item's `Hash` impl and on the hasher, so nothing
/// is claimed of it.
#[verifier::external_body]
fn feed<T: ?Sized + Hash, H: Hasher>(data: &T, state: &mut H) {
    data.hash(state)
}

/// Reads the hasher's value through `std::hash::Hasher::finish`. Nothing is
/// claimed of the value.
#[verifier::external_body]
fn digest<H: Hasher>(state: &H) -> u64 {
    state.finish()
}

/// Lays out `n` through `byteorder::BigEndian::write_u32`: the result holds the
/// four bytes of `n`, most significant first.
#[verifier::external_body]
fn write_be_u32(n: u32) -> (bytes: [u8; 4])
    ensures
        bytes@ == be_bytes(n),
{
    let mut bytes = [0u8; 4];
    BigEndian::write_u32(&mut bytes, n);
    bytes
}

/// Reads four bytes through `byteorder::BigEndian::read_u32`: the result is the
/// number that they spell, most significant first.
#[verifier::external_body]
fn read_be_u32(bytes: &[u8; 4]) -> (n: u32)
    ensures
        n == be_value(bytes@),
{
    BigEndian::read_u32(bytes)
}

/// Hashes `data` with a fresh hasher of type `H` and keeps the low 32 bits of
/// the result, laid out most significant byte first.
pub fn get_hash<T: ?Sized + Hash, H: Hasher + Default>(data: &T) -> (hash: [u8; 4])
    ensures
        exists|full: u64| hash@ == #[trigger] spec_hash_bytes(full),
{
    let mut hasher = H::default();
    feed(data, &mut hasher);
    let full: u64 = digest(&hasher);
    hash_bytes(full)
}

/// The fingerprint that a hash gives: its most significant byte, or `1` where
/// that byte is the reserved `0`.
pub open spec fn fingerprint_of_hash(h: u32) -> Fingerprint {
    let top = (h / 0x100_0000) as u8;
    Fingerprint(if top == 0 { 1 } else { top })
}

/// The alternate of index `i` for a fingerprint whose own hash is `fp_hash`.
pub open spec fn spec_alt_index(fp_hash: usize, i: usize) -> usize {
    i ^ fp_hash
}

/// Applying the alternate-index function twice gives the index back.
pub proof fn lemma_alt_index_involution(fp_hash: usize, i: usize)
    ensures
        spec_alt_index(fp_hash, spec_alt_index(fp_hash, i)) == i,
{
    assert((i ^ fp_hash) ^ fp_hash == i) by (bit_vector);
}

/// The alternate of index `i` for a fingerprint whose own hash is `fp_hash`.
pub fn alt_index(fp_hash: usize, i: usize) -> (r: usize)
    ensures
        r == spec_alt_index(fp_hash, i),
{
    i ^ fp_hash
}

/// The 32-bit hash of the fingerprint's byte under `H`, as an index.
pub fn fingerprint_hash<H: Hasher + Default>(fp: Fingerprint) -> (r: usize)
    ensures
        r <= u32::MAX,
{
    let hash = get_hash::<u8, H>(&fp.0);
    hash_index(&hash)
}

/// The alternate of index `i` for the fingerprint, under the hasher `H`.
pub fn get_alt_index<H: Hasher + Default>(fp: Fingerprint, i: usize) -> (r: usize)
    ensures
        exists|fp_hash: usize| fp_hash <= u32::MAX && r == spec_alt_index(fp_hash, i),
{
    let fp_hash = fingerprint_hash::<H>(fp);
    alt_index(fp_hash, i)
}

/// A fingerprint and the two bucket indices at which it may be stored.
#[derive(Clone, Copy, Debug)]
pub struct FaI {
    pub fp: Fingerprint,
    pub i1: usize,
    pub i2: usize,
}

impl FaI {
    /// The fingerprint is valid and is the one that the first index gives.
    pub open spec fn wf(self) -> bool {
        &&& self.i1 <= u32::MAX
        &&& self.fp == fingerprint_of_hash(self.i1 as u32)
    }

    /// The fingerprint and first index that a hash gives, with the second
    /// index still equal to the first.
    pub fn from_hash(hash: &[u8; 4]) -> (fai: FaI)
        ensures
            fai.i1 == be_value(hash@),
            fai.i2 == fai.i1,
            fai.wf(),
    {
        let mut hash_arr: [u8; FINGERPRINT_SIZE] = [0; FINGERPRINT_SIZE];
        let mut n: u8 = 0;
        let fp;
        loop
            invariant_except_break
                n <= 1,
                n == 1 ==> hash[0] == 0,
            ensures
                fp == Fingerprint(if hash[0] == 0 { 1u8 } else { hash[0] }),
            decreases 2 - n,
        {
            for i in 0..FINGERPRINT_SIZE
                invariant
                    n <= 1,
                    n == 1 ==> hash[0] == 0,
                    forall|j: int| 0 <= j < i ==> hash_arr[j] == hash[j] + n,
            {
                hash_arr[i] = hash[i] + n;
            }
            if let Some(val) = Fingerprint::from_data(hash_arr) {
                fp = val;
                break;
            }
            n += 1;
        }
        proof {
            lemma_be_value_top(hash@);
        }
        let i1 = hash_index(hash);
        FaI { fp, i1, i2: i1 }
    }

    fn from_data<T: ?Sized + Hash, H: Hasher + Default>(data: &T) -> (fai: FaI)
        ensures
            fai.wf(),
            exists|fp_hash: usize| fp_hash <= u32::MAX && fai.i2 == spec_alt_index(fp_hash, fai.i1),
    {
        let hash = get_hash::<T, H>(data);
        let first = FaI::from_hash(&hash);
        let i2 = get_alt_index::<H>(first.fp, first.i1);
        FaI { fp: first.fp, i1: first.i1, i2 }
    }

    /// One of the two indices, chosen by the bit.
    pub fn random_index(&self, bit: bool) -> (i: usize)
        ensures
            i == (if bit { self.i1 } else { self.i2 }),
    {
        if bit {
            self.i1
        } else {
            self.i2
        }
    }
}

/// The fingerprint and the two indices of `data` under the hasher `H`.
pub fn get_fai<T: ?Sized + Hash, H: Hasher + Default>(data: &T) -> (fai: FaI)
    ensures
        fai.wf(),
        exists|fp_hash: usize| fp_hash <= u32::MAX && fai.i2 == spec_alt_index(fp_hash, fai.i1),
{
    FaI::from_data::<T, H>(data)
}

/// The four bytes kept of a hasher's 64-bit value: those of its low half, most
/// significant first.
pub open spec fn spec_hash_bytes(full: u64) -> Seq<u8> {
    be_bytes((full % 0x1_0000_0000) as u32)
}

/// Keeps the low 32 bits of a hasher's value and lays them out most
/// significant byte first. This is what `get_hash` makes of the value that the
/// hasher hands back.
pub fn hash_bytes(full: u64) -> (hash: [u8; 4])
    ensures
        hash@ == spec_hash_bytes(full),
{
    assert(full as u32 == full % 0x1_0000_0000) by (bit_vector);
    write_be_u32(full as u32)
}

/// The number that the four bytes of a hash spell, most significant first, as
/// an index. This is what `fingerprint_hash` makes of the hash of a
/// fingerprint's byte, and what gives an item its first index.
pub fn hash_index(hash: &[u8; 4]) -> (i: usize)
    ensures
        i == be_value(hash@),
{
    read_be_u32(hash) as usize
}

} // verus!
