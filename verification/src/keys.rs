//! Keys that the map can hash and compare.

use vstd::prelude::*;

use crate::hashers::{AHHasher, djb2, DJB2_SEED, lemma_djb2_concat};

verus! {

/// A key of the map: it feeds a byte string that depends on its view alone into
/// a hasher, and it can be compared with another key by view.
pub trait HashKey: View + Sized {
    /// The bytes this key feeds into a hasher.
    spec fn hash_bytes(k: Self::V) -> Seq<u8>;

    /// Feeds the key's bytes into `hasher`.
    fn feed(&self, hasher: &mut AHHasher)
        ensures
            final(hasher)@ == djb2(old(hasher)@, Self::hash_bytes(self@)),
    ;

    /// Whether the two keys are the same key.
    fn same_key(&self, other: &Self) -> (b: bool)
        ensures
            b == (self@ == other@),
    ;
}

/// The hash of a key: its bytes fed into a fresh DJB2 hasher.
pub open spec fn key_hash<K: HashKey>(k: K::V) -> u64 {
    djb2(DJB2_SEED, K::hash_bytes(k))
}

/// The eight little-endian bytes of a 64-bit word.
pub open spec fn le_bytes(x: u64) -> Seq<u8> {
    seq![
        (x & 0xff) as u8,
        ((x >> 8) & 0xff) as u8,
        ((x >> 16) & 0xff) as u8,
        ((x >> 24) & 0xff) as u8,
        ((x >> 32) & 0xff) as u8,
        ((x >> 40) & 0xff) as u8,
        ((x >> 48) & 0xff) as u8,
        ((x >> 56) & 0xff) as u8,
    ]
}

/// An integer key feeds the little-endian bytes of its 64-bit value.
impl HashKey for usize {
    open spec fn hash_bytes(k: usize) -> Seq<u8> {
        le_bytes(k as u64)
    }

    fn feed(&self, hasher: &mut AHHasher) {
        let x = *self as u64;
        let bytes: Vec<u8> = vec![
            (x & 0xff) as u8,
            ((x >> 8) & 0xff) as u8,
            ((x >> 16) & 0xff) as u8,
            ((x >> 24) & 0xff) as u8,
            ((x >> 32) & 0xff) as u8,
            ((x >> 40) & 0xff) as u8,
            ((x >> 48) & 0xff) as u8,
            ((x >> 56) & 0xff) as u8,
        ];
        assert(bytes@ =~= le_bytes(x));
        hasher.write(bytes.as_slice());
    }

    fn same_key(&self, other: &Self) -> (b: bool) {
        *self == *other
    }
}

/// A string key feeds its UTF-8 bytes followed by the byte 0xff.
impl HashKey for String {
    open spec fn hash_bytes(k: Seq<char>) -> Seq<u8> {
        vstd::utf8::encode_utf8(k) + seq![0xffu8]
    }

    fn feed(&self, hasher: &mut AHHasher) {
        let ghost start = hasher@;
        let bytes = self.as_str().as_bytes();
        hasher.write(bytes);
        let tail: Vec<u8> = vec![0xffu8];
        hasher.write(tail.as_slice());
        proof {
            lemma_djb2_concat(start, bytes@, tail@);
            assert(bytes@ + tail@ =~= Self::hash_bytes(self@));
        }
    }

    fn same_key(&self, other: &Self) -> (b: bool) {
        self.eq(other)
    }
}

/// An integer key feeds eight bytes that are its 64-bit value written in
/// little-endian order: byte `i` weighs `256^i`, and no other bytes read back
/// as the same value.
pub proof fn law_usize_key_bytes(k: usize)
    ensures
        <usize as HashKey>::hash_bytes(k).len() == 8,
        ({
            let b = <usize as HashKey>::hash_bytes(k);
            k as int == b[0] as int + 0x100 * b[1] + 0x1_0000 * b[2] + 0x100_0000 * b[3] + 0x1_0000_0000 * b[4]
                + 0x100_0000_0000 * b[5] + 0x1_0000_0000_0000 * b[6] + 0x100_0000_0000_0000 * b[7]
        }),
{
    let x = k as u64;
    assert(x as int == ((x & 0xff) as u8) as int + 0x100 * (((x >> 8) & 0xff) as u8) + 0x1_0000 * (((x >> 16) & 0xff) as u8)
        + 0x100_0000 * (((x >> 24) & 0xff) as u8) + 0x1_0000_0000 * (((x >> 32) & 0xff) as u8)
        + 0x100_0000_0000 * (((x >> 40) & 0xff) as u8) + 0x1_0000_0000_0000 * (((x >> 48) & 0xff) as u8)
        + 0x100_0000_0000_0000 * (((x >> 56) & 0xff) as u8)) by (bit_vector);
}

/// A string key feeds its UTF-8 bytes, unchanged and in order, followed by
/// the single byte 0xff; and every key's hash is what a fresh hasher, seeded
/// with 5381, gives for the key's bytes.
pub proof fn law_string_key_bytes(s: Seq<char>)
    ensures
        <String as HashKey>::hash_bytes(s).len() == vstd::utf8::encode_utf8(s).len() + 1,
        <String as HashKey>::hash_bytes(s).take(vstd::utf8::encode_utf8(s).len() as int) == vstd::utf8::encode_utf8(s),
        <String as HashKey>::hash_bytes(s).last() == 0xffu8,
        key_hash::<String>(s) == djb2(5381, <String as HashKey>::hash_bytes(s)),
{
    let u = vstd::utf8::encode_utf8(s);
    assert((u + seq![0xffu8]).take(u.len() as int) =~= u);
}

/// An integer key's hash is what a fresh hasher, seeded with 5381, gives for
/// the key's eight little-endian bytes.
pub proof fn law_usize_key_hash(k: usize)
    ensures
        key_hash::<usize>(k) == djb2(5381, <usize as HashKey>::hash_bytes(k)),
{
}

} // verus!
