//! The addressable arena: a contiguous byte region, either owned in memory
//! or backed by a mutable memory map, with bounds-checked access to the
//! 8-byte "next" field embedded at the head of each free block.

use vstd::prelude::*;

verus! {

use memmap::MmapMut;

/// Byte `j` of the little-endian encoding of `v`.
pub open spec fn u64_byte(v: u64, j: int) -> u8 {
    (v >> (8 * j)) as u8
}

/// The u64 stored little-endian in the 8 bytes of `b` starting at `off`.
pub open spec fn word_at(b: Seq<u8>, off: int) -> u64 {
    (b[off] as u64) | ((b[off + 1] as u64) << 8) | ((b[off + 2] as u64) << 16)
        | ((b[off + 3] as u64) << 24) | ((b[off + 4] as u64) << 32)
        | ((b[off + 5] as u64) << 40) | ((b[off + 6] as u64) << 48)
        | ((b[off + 7] as u64) << 56)
}

/// Reassembling the bytes of a word yields the word back.
pub proof fn lemma_word_bytes_roundtrip(v: u64)
    ensures
        ((u64_byte(v, 0) as u64) | ((u64_byte(v, 1) as u64) << 8)
            | ((u64_byte(v, 2) as u64) << 16) | ((u64_byte(v, 3) as u64) << 24)
            | ((u64_byte(v, 4) as u64) << 32) | ((u64_byte(v, 5) as u64) << 40)
            | ((u64_byte(v, 6) as u64) << 48) | ((u64_byte(v, 7) as u64) << 56)) == v,
{
    assert((((v >> 0) as u8) as u64) | ((((v >> 8) as u8) as u64) << 8)
        | ((((v >> 16) as u8) as u64) << 16) | ((((v >> 24) as u8) as u64) << 24)
        | ((((v >> 32) as u8) as u64) << 32) | ((((v >> 40) as u8) as u64) << 40)
        | ((((v >> 48) as u8) as u64) << 48) | ((((v >> 56) as u8) as u64) << 56) == v)
        by (bit_vector);
}

#[verifier::external_type_specification]
#[verifier::external_body]
pub struct ExMmapMut(MmapMut);

/// The bytes of a mutable memory map.
pub uninterp spec fn map_bytes(m: MmapMut) -> Seq<u8>;

/// Relies on `MmapMut`'s `Deref` to `[u8]`: the length of the mapped region.
#[verifier::external_body]
fn mm_len(m: &MmapMut) -> (r: usize)
    ensures
        r == map_bytes(*m).len(),
{
    let s: &[u8] = &*m;
    s.len()
}

/// Relies on `MmapMut`'s `Deref` to `[u8]`: reads one mapped byte.
#[verifier::external_body]
fn mm_read_byte(m: &MmapMut, i: usize) -> (r: u8)
    requires
        i < map_bytes(*m).len(),
    ensures
        r == map_bytes(*m)[i as int],
{
    let s: &[u8] = &*m;
    s[i]
}

/// Relies on `MmapMut`'s `DerefMut` to `[u8]`: writes one mapped byte.
#[verifier::external_body]
fn mm_write_byte(m: &mut MmapMut, i: usize, v: u8)
    requires
        i < map_bytes(*old(m)).len(),
    ensures
        map_bytes(*final(m)) == map_bytes(*old(m)).update(i as int, v),
{
    let s: &mut [u8] = &mut *m;
    s[i] = v;
}

/// A contiguous byte region addressed by logical offsets from zero.
///
/// The ephemeral backing owns its bytes; the persistent backing writes
/// through to a caller-supplied memory map whose lifetime an external
/// collaborator manages.
pub enum Arena {
    Owned { bytes: Vec<u8> },
    Mapped { map: MmapMut },
}

impl Arena {
    /// The byte contents of the arena.
    pub open spec fn bytes(self) -> Seq<u8> {
        match self {
            Arena::Owned { bytes } => bytes@,
            Arena::Mapped { map } => map_bytes(map),
        }
    }

    /// A fresh zero-filled owned region of `n` bytes.
    pub fn new_owned(n: usize) -> (r: Arena)
        ensures
            r.bytes().len() == n,
            forall|i: int| 0 <= i < n ==> r.bytes()[i] == 0u8,
    {
        let mut bytes: Vec<u8> = Vec::new();
        let mut j: usize = 0;
        while j < n
            invariant
                j <= n,
                bytes@.len() == j,
                forall|i: int| 0 <= i < j ==> bytes@[i] == 0u8,
            decreases n - j,
        {
            bytes.push(0u8);
            j = j + 1;
        }
        Arena::Owned { bytes }
    }

    /// A region backed by an already created memory map.
    pub fn from_map(map: MmapMut) -> (r: Arena)
        ensures
            r.bytes() == map_bytes(map),
    {
        Arena::Mapped { map }
    }

    /// The region's length in bytes.
    pub fn len(&self) -> (r: usize)
        ensures
            r == self.bytes().len(),
    {
        match self {
            Arena::Owned { bytes } => bytes.len(),
            Arena::Mapped { map } => mm_len(map),
        }
    }

    fn read_byte(&self, i: usize) -> (r: u8)
        requires
            i < self.bytes().len(),
        ensures
            r == self.bytes()[i as int],
    {
        match self {
            Arena::Owned { bytes } => bytes[i],
            Arena::Mapped { map } => mm_read_byte(map, i),
        }
    }

    fn write_byte(&mut self, i: usize, v: u8)
        requires
            i < old(self).bytes().len(),
        ensures
            final(self).bytes() == old(self).bytes().update(i as int, v),
    {
        match self {
            Arena::Owned { bytes } => {
                bytes.set(i, v);
            },
            Arena::Mapped { map } => {
                mm_write_byte(map, i, v);
            },
        }
    }

    /// Reads the 8-byte field stored at offset `off`.
    pub fn read_word(&self, off: usize) -> (r: u64)
        requires
            off + 8 <= usize::MAX,
            off + 8 <= self.bytes().len(),
        ensures
            r == word_at(self.bytes(), off as int),
    {
        let b0 = self.read_byte(off);
        let b1 = self.read_byte(off + 1);
        let b2 = self.read_byte(off + 2);
        let b3 = self.read_byte(off + 3);
        let b4 = self.read_byte(off + 4);
        let b5 = self.read_byte(off + 5);
        let b6 = self.read_byte(off + 6);
        let b7 = self.read_byte(off + 7);
        (b0 as u64) | ((b1 as u64) << 8) | ((b2 as u64) << 16) | ((b3 as u64) << 24)
            | ((b4 as u64) << 32) | ((b5 as u64) << 40) | ((b6 as u64) << 48)
            | ((b7 as u64) << 56)
    }

    /// Writes the 8-byte field stored at offset `off`, leaving every byte
    /// outside `[off, off + 8)` unchanged.
    pub fn write_word(&mut self, off: usize, v: u64)
        requires
            off + 8 <= usize::MAX,
            off + 8 <= old(self).bytes().len(),
        ensures
            final(self).bytes().len() == old(self).bytes().len(),
            forall|i: int|
                0 <= i < final(self).bytes().len() ==> final(self).bytes()[i] == (if off <= i
                    < off + 8 {
                    u64_byte(v, i - off)
                } else {
                    old(self).bytes()[i]
                }),
            word_at(final(self).bytes(), off as int) == v,
    {
        self.write_byte(off, #[verifier::truncate] (v as u8));
        self.write_byte(off + 1, #[verifier::truncate] ((v >> 8) as u8));
        self.write_byte(off + 2, #[verifier::truncate] ((v >> 16) as u8));
        self.write_byte(off + 3, #[verifier::truncate] ((v >> 24) as u8));
        self.write_byte(off + 4, #[verifier::truncate] ((v >> 32) as u8));
        self.write_byte(off + 5, #[verifier::truncate] ((v >> 40) as u8));
        self.write_byte(off + 6, #[verifier::truncate] ((v >> 48) as u8));
        self.write_byte(off + 7, #[verifier::truncate] ((v >> 56) as u8));
        proof {
            assert(v >> 0 == v) by (bit_vector);
            lemma_word_bytes_roundtrip(v);
        }
    }
}

} // verus!
