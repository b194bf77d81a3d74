//! The allocator core: free lists bucketed by size class over an
//! addressable arena, with splitting on allocation and eager buddy
//! coalescing on free.

use vstd::prelude::*;

verus! {

use vstd::arithmetic::power2::{pow2, lemma_pow2_unfold, lemma_pow2_pos, lemma2_to64};
use vstd::arithmetic::div_mod::{
    lemma_fundamental_div_mod,
    lemma_mod_mod,
    lemma_mod_bound,
};
use vstd::arithmetic::mul::lemma_mul_inequality;
use crate::arena::{Arena, word_at};
use crate::size_class::{
    META_SIZE,
    class_of,
    lemma_class_of_correct,
    lemma_class_of_monotone,
    lemma_class_of_pow2,
    lemma_pow2_le,
    lemma_exp_in_word,
    lemma_word_bits,
    pow2_usize,
    get_idx,
    floor_idx,
};
use vstd::layout::unsigned_int_max_values;

/// Number of free-list buckets: one per size-class exponent.
pub const NUM_CLASSES: usize = 64;

/// The embedded "next" encoding treats an all-ones word as null.
pub const NULL_PPTR: u64 = 0xffff_ffff_ffff_ffff;

/// Whether a stored "next" word is the null marker.
pub fn is_null(p: u64) -> (r: bool)
    ensures
        r == (p == NULL_PPTR),
{
    p == NULL_PPTR
}

/// The word stored in a block's "next" field for a given successor.
pub fn option_to_pptr(p: Option<usize>) -> (r: u64)
    ensures
        r == (match p {
            Option::Some(o) => o as u64,
            Option::None => NULL_PPTR,
        }),
{
    proof {
        lemma_word_bits();
        unsigned_int_max_values();
        vstd::arithmetic::power2::lemma2_to64_rest();
        lemma2_to64();
    }
    match p {
        Option::Some(o) => o as u64,
        Option::None => NULL_PPTR,
    }
}

/// The successor denoted by a stored "next" word.
pub fn pptr_to_option(p: u64) -> (r: Option<usize>)
    requires
        p == NULL_PPTR || p <= usize::MAX,
    ensures
        r == (if p == NULL_PPTR {
            Option::<usize>::None
        } else {
            Option::Some(p as usize)
        }),
{
    if p == NULL_PPTR {
        Option::None
    } else {
        Option::Some(p as usize)
    }
}

/// Why an allocation request was refused.
#[derive(Clone, Copy, PartialEq, Eq, Structural, Debug)]
pub enum AllocError {
    /// The requested length is zero or too large to carry its metadata.
    InvalidLength,
    /// No free block of a sufficient class exists anywhere in the arena.
    OutOfMemory,
}

/// A block of class `k` starting at offset `o` lies inside the arena,
/// is aligned to its own size, and is large enough to hold its metadata.
pub open spec fn block_ok(o: nat, k: nat, size: nat) -> bool {
    &&& META_SIZE <= pow2(k)
    &&& o % pow2(k) == 0
    &&& o + pow2(k) <= size
}

/// The extents of two blocks do not overlap.
pub open spec fn blocks_disjoint(o1: nat, k1: nat, o2: nat, k2: nat) -> bool {
    o1 + pow2(k1) <= o2 || o2 + pow2(k2) <= o1
}

/// The extent of a block of class `k` at offset `o` overlaps no tracked
/// free block.
pub open spec fn free_of(ls: Seq<Seq<usize>>, o: nat, k: nat) -> bool {
    forall|k2: int, i2: int|
        0 <= k2 < ls.len() && 0 <= i2 < ls[k2].len() ==> blocks_disjoint(
            o,
            k,
            #[trigger] ls[k2][i2] as nat,
            k2 as nat,
        )
}

/// The buddy of the block of class `k` at offset `o`: its address-aligned
/// partner of the same size, to the right if `o` is aligned to the next
/// class, else to the left.
pub open spec fn buddy_spec(o: nat, k: nat) -> int {
    if o % pow2(k + 1) == 0 {
        o + pow2(k) as int
    } else {
        o - pow2(k) as int
    }
}

/// The word that position `i` of free list `l` should carry in its
/// embedded "next" slot: the offset of the following block, or the null
/// marker at the tail.
pub open spec fn next_encoding(l: Seq<usize>, i: int) -> u64 {
    if i + 1 < l.len() {
        l[i + 1] as u64
    } else {
        NULL_PPTR
    }
}

/// The embedded "next" words in the arena thread every free list in list
/// order, ending with the null marker: the persistent layout agrees with
/// the tracked structure.
pub open spec fn mirror_ok(ls: Seq<Seq<usize>>, bytes: Seq<u8>) -> bool {
    forall|k: int, i: int|
        0 <= k < ls.len() && 0 <= i < ls[k].len() ==> word_at(
            bytes,
            #[trigger] ls[k][i] as int,
        ) == next_encoding(ls[k], i)
}

/// Byte `i` lies inside the extent of some tracked free block.
pub open spec fn byte_in_free(ls: Seq<Seq<usize>>, i: int) -> bool {
    exists|k: int, j: int|
        0 <= k < ls.len() && 0 <= j < ls[k].len() && #[trigger] ls[k][j] <= i < ls[k][j] + pow2(
            k as nat,
        )
}

/// Some free list between `idx` and `last` holds a block.
pub open spec fn has_fit(ls: Seq<Seq<usize>>, idx: nat, last: nat) -> bool {
    exists|j: int| idx <= j <= last && 0 <= j < ls.len() && (#[trigger] ls[j]).len() > 0
}

/// Total bytes held by the free lists below class `n`.
pub open spec fn sum_free(ls: Seq<Seq<usize>>, n: int) -> nat
    decreases n,
{
    if n <= 0 {
        0
    } else {
        sum_free(ls, n - 1) + ls[n - 1].len() * pow2((n - 1) as nat)
    }
}

/// Total bytes held by all free lists.
pub open spec fn free_bytes(ls: Seq<Seq<usize>>) -> nat {
    sum_free(ls, ls.len() as int)
}

/// Structural soundness of a whole free-list set for an arena of the
/// given size: every tracked block is well formed and of a populated
/// class, no two tracked blocks overlap, and no tracked block's buddy is
/// tracked in the same class (coalescing is maximal).
pub open spec fn lists_wf(ls: Seq<Seq<usize>>, size: nat, last: nat) -> bool {
    &&& ls.len() == NUM_CLASSES
    &&& forall|k: int, i: int|
        0 <= k < ls.len() && 0 <= i < ls[k].len() ==> block_ok(
            #[trigger] ls[k][i] as nat,
            k as nat,
            size,
        ) && k <= last
    &&& forall|k1: int, i1: int, k2: int, i2: int|
        0 <= k1 < ls.len() && 0 <= i1 < ls[k1].len() && 0 <= k2 < ls.len() && 0 <= i2
            < ls[k2].len() && (k1 != k2 || i1 != i2) ==> blocks_disjoint(
            #[trigger] ls[k1][i1] as nat,
            k1 as nat,
            #[trigger] ls[k2][i2] as nat,
            k2 as nat,
        )
    &&& forall|k: int, i1: int, i2: int|
        0 <= k < ls.len() && 0 <= i1 < ls[k].len() && 0 <= i2 < ls[k].len() && i1 != i2
            ==> #[trigger] ls[k][i2] != buddy_spec(#[trigger] ls[k][i1] as nat, k as nat)
}

/// Buddy Memory Allocator.
///
/// Keeps one free list per size-class exponent; a free list `k` tracks
/// blocks of exactly `2^k` bytes. The first `META_SIZE` bytes of every
/// block hold an embedded "next" word in the arena itself; the offsets in
/// `lists` are the authoritative structure, written through to the arena
/// so a persistent backing keeps the same layout.
pub struct BuddyAllocator {
    lists: Vec<Vec<usize>>,
    arena: Arena,
    free_total: usize,
    size: usize,
    last_idx: usize,
    committed: bool,
}

impl BuddyAllocator {
    /// The free lists as mathematical sequences; index 0 is the head.
    pub closed spec fn lists_view(self) -> Seq<Seq<usize>> {
        Seq::new(self.lists@.len(), |k: int| self.lists@[k]@)
    }

    /// The free list of class `k`.
    pub closed spec fn list(self, k: int) -> Seq<usize> {
        self.lists@[k]@
    }

    /// Total arena size in bytes; zero before initialization.
    pub closed spec fn spec_size(self) -> nat {
        self.size as nat
    }

    /// Highest populated size-class exponent.
    pub closed spec fn spec_last_idx(self) -> nat {
        self.last_idx as nat
    }

    /// The transaction marker.
    pub closed spec fn spec_committed(self) -> bool {
        self.committed
    }

    /// Bytes currently free, counting the arena's own reserved header as
    /// used: the sum of all tracked blocks less `META_SIZE`.
    pub closed spec fn spec_available(self) -> nat {
        if free_bytes(self.lists_view()) == 0 {
            0
        } else {
            (free_bytes(self.lists_view()) - META_SIZE) as nat
        }
    }

    /// The arena's byte contents.
    pub closed spec fn arena_bytes(self) -> Seq<u8> {
        self.arena.bytes()
    }

    /// The allocator's internal invariant.
    pub closed spec fn inv(self) -> bool {
        &&& self.lists@.len() == NUM_CLASSES
        &&& self.last_idx < usize::BITS
        &&& self.size != 0 ==> self.size == pow2(self.last_idx as nat) && META_SIZE <= self.size
        &&& self.arena.bytes().len() >= self.size
        &&& lists_wf(self.lists_view(), self.size as nat, self.last_idx as nat)
        &&& mirror_ok(self.lists_view(), self.arena.bytes())
        &&& self.free_total == free_bytes(self.lists_view())
        &&& self.free_total <= self.size
    }
}

/// Updating one bucket changes the total by the difference of that
/// bucket's contribution.
pub proof fn lemma_sum_update(ls: Seq<Seq<usize>>, k: int, l2: Seq<usize>, n: int)
    requires
        0 <= k < ls.len(),
        n <= ls.len(),
    ensures
        k < n ==> sum_free(ls.update(k, l2), n) + ls[k].len() * pow2(k as nat) == sum_free(ls, n)
            + l2.len() * pow2(k as nat),
        n <= k ==> sum_free(ls.update(k, l2), n) == sum_free(ls, n),
    decreases n,
{
    if n > 0 {
        lemma_sum_update(ls, k, l2, n - 1);
    }
}

/// A single bucket's contribution is at most the total.
pub proof fn lemma_sum_term(ls: Seq<Seq<usize>>, k: int, n: int)
    requires
        0 <= k < n,
    ensures
        sum_free(ls, n) >= ls[k].len() * pow2(k as nat),
    decreases n,
{
    if k < n - 1 {
        lemma_sum_term(ls, k, n - 1);
    }
}

/// All buckets empty means nothing is free.
pub proof fn lemma_sum_empty(ls: Seq<Seq<usize>>, n: int)
    requires
        forall|k: int| 0 <= k < n ==> (#[trigger] ls[k]).len() == 0,
    ensures
        sum_free(ls, n) == 0,
    decreases n,
{
    if n > 0 {
        lemma_sum_empty(ls, n - 1);
    }
}

/// A nonzero total comes from some populated bucket.
pub proof fn lemma_sum_pos_member(ls: Seq<Seq<usize>>, n: int)
    requires
        sum_free(ls, n) > 0,
    ensures
        exists|k: int| 0 <= k < n && (#[trigger] ls[k]).len() > 0,
    decreases n,
{
    if n > 0 {
        if ls[n - 1].len() > 0 {
            assert(0 <= n - 1 < n && ls[n - 1].len() > 0);
        } else {
            lemma_sum_pos_member(ls, n - 1);
        }
    }
}

/// In a well-formed free-list set, a nonzero total is at least one
/// metadata unit.
pub proof fn lemma_free_bytes_floor(ls: Seq<Seq<usize>>, size: nat, last: nat)
    requires
        lists_wf(ls, size, last),
        free_bytes(ls) > 0,
    ensures
        free_bytes(ls) >= META_SIZE,
{
    lemma_sum_pos_member(ls, ls.len() as int);
    let k = choose|k: int| 0 <= k < ls.len() && (#[trigger] ls[k]).len() > 0;
    lemma_sum_term(ls, k, ls.len() as int);
    assert(block_ok(ls[k][0] as nat, k as nat, size));
    lemma_mul_inequality(1, ls[k].len() as int, pow2(k as nat) as int);
}

/// One more or one fewer block of a class changes that class's
/// contribution by exactly one block size.
proof fn lemma_mul_step(a: int, p: int)
    ensures
        (a + 1) * p == a * p + p,
        (a - 1) * p == a * p - p,
{
    assert((a + 1) * p == a * p + p) by (nonlinear_arith);
    assert((a - 1) * p == a * p - p) by (nonlinear_arith);
}

/// A class that can hold its own metadata is at least class 3.
proof fn lemma_meta_class(k: nat)
    requires
        META_SIZE <= pow2(k),
    ensures
        3 <= k,
        8 <= pow2(k),
{
    lemma2_to64();
    if k < 3 {
        lemma_pow2_le(k, 2);
        assert(false);
    }
    lemma_pow2_le(3, k);
}

/// A block aligned to class `k+1` is aligned to class `k`, and its right
/// half sits exactly one class size in, aligned to class `k` but not to
/// class `k+1`.
proof fn lemma_split_align(b: int, p: int)
    requires
        p > 0,
        b >= 0,
        b % (2 * p) == 0,
    ensures
        b % p == 0,
        (b + p) % p == 0,
        (b + p) % (2 * p) == p,
{
    lemma_fundamental_div_mod(b, 2 * p);
    let q = b / (2 * p);
    assert(b == (2 * p) * q);
    assert(b == (2 * q) * p + 0) by (nonlinear_arith)
        requires
            b == (2 * p) * q,
    ;
    assert(b + p == (2 * q + 1) * p + 0) by (nonlinear_arith)
        requires
            b == (2 * p) * q,
    ;
    assert(b + p == q * (2 * p) + p) by (nonlinear_arith)
        requires
            b == (2 * p) * q,
    ;
    vstd::arithmetic::div_mod::lemma_fundamental_div_mod_converse_mod(b, p, 2 * q, 0);
    vstd::arithmetic::div_mod::lemma_fundamental_div_mod_converse_mod(b + p, p, 2 * q + 1, 0);
    vstd::arithmetic::div_mod::lemma_fundamental_div_mod_converse_mod(b + p, 2 * p, q, p);
}

/// Where the merged block of the next class would start: at `o` itself if
/// `o` is the left half of its pair, else one class size to the left.
pub open spec fn merged_start(o: nat, k: nat) -> nat {
    if o % pow2(k + 1) == 0 {
        o
    } else {
        (o - pow2(k)) as nat
    }
}

/// The free-list transition that freeing the class-`k` block at `off`
/// performs: while a higher class exists and the block's buddy is
/// tracked, the buddy is unlinked and the merged pair rises one class;
/// the block that survives becomes the new head of its class.
pub open spec fn spec_free(ls: Seq<Seq<usize>>, off: nat, k: nat, last: nat) -> Seq<Seq<usize>>
    decreases last - k,
{
    let bd = buddy_spec(off, k);
    if k < last && ls[k as int].contains(bd as usize) {
        let p = ls[k as int].index_of(bd as usize);
        spec_free(ls.update(k as int, ls[k as int].remove(p)), merged_start(off, k), k + 1, last)
    } else {
        ls.update(k as int, ls[k as int].insert(0, off as usize))
    }
}

/// An offset aligned to its class is congruent to 0 or to `2^k` modulo
/// the next class size.
proof fn lemma_aligned_next_class(o: nat, k: nat)
    requires
        o % pow2(k) == 0,
    ensures
        o % pow2(k + 1) == 0 || o % pow2(k + 1) == pow2(k),
        pow2(k + 1) == 2 * pow2(k),
{
    let p = pow2(k) as int;
    let p2 = pow2(k + 1) as int;
    lemma_pow2_pos(k);
    lemma_pow2_unfold(k + 1);
    lemma_mod_mod(o as int, p, 2);
    let r = (o as int) % p2;
    lemma_mod_bound(o as int, p2);
    assert(r % p == 0);
    lemma_fundamental_div_mod(r, p);
    assert(r == p * (r / p));
    assert(0 <= r / p < 2) by (nonlinear_arith)
        requires
            r == p * (r / p),
            0 <= r < 2 * p,
            p > 0,
    ;
    assert(r == 0 || r == p);
}

/// Geometry of the buddy relation for a class-aligned offset: the buddy
/// is distinct, equally aligned, adjacent, and the relation is an
/// involution; the merged pair forms one aligned block of the next class.
pub proof fn lemma_buddy_props(o: nat, k: nat)
    requires
        o % pow2(k) == 0,
    ensures
        pow2(k + 1) == 2 * pow2(k),
        buddy_spec(o, k) >= 0,
        buddy_spec(o, k) != o,
        (buddy_spec(o, k) as nat) % pow2(k) == 0,
        buddy_spec(buddy_spec(o, k) as nat, k) == o,
        merged_start(o, k) % pow2(k + 1) == 0,
        merged_start(o, k) == merged_start(buddy_spec(o, k) as nat, k),
        merged_start(o, k) <= o,
        o + pow2(k) <= merged_start(o, k) + pow2(k + 1),
        buddy_spec(o, k) + pow2(k) <= merged_start(o, k) + pow2(k + 1),
        merged_start(o, k) + pow2(k + 1) <= o + pow2(k) || merged_start(o, k) + pow2(k + 1)
            <= buddy_spec(o, k) + pow2(k),
{
    let p = pow2(k) as int;
    let p2 = pow2(k + 1) as int;
    lemma_pow2_pos(k);
    lemma_aligned_next_class(o, k);
    if o % pow2(k + 1) == 0 {
        let b = o + p;
        lemma_fundamental_div_mod(o as int, p2);
        let q = (o as int) / p2;
        assert(o == p2 * q);
        vstd::arithmetic::div_mod::lemma_fundamental_div_mod_converse_mod(b, p2, q, p);
        assert(b == p * (2 * q + 1)) by (nonlinear_arith)
            requires
                o == p2 * q,
                p2 == 2 * p,
                b == o + p,
        ;
        vstd::arithmetic::div_mod::lemma_mod_multiples_basic(2 * q + 1, p);
        assert((p * (2 * q + 1)) % p == 0) by (nonlinear_arith)
            requires
                ((2 * q + 1) * p) % p == 0,
        ;
    } else {
        let b = o as int - p;
        assert(o % pow2(k + 1) == pow2(k));
        lemma_fundamental_div_mod(o as int, p2);
        let q = (o as int) / p2;
        assert(o == p2 * q + p);
        lemma_mod_bound(o as int, p2);
        assert(q >= 0) by (nonlinear_arith)
            requires
                o == p2 * q + p,
                o >= 0,
                p2 == 2 * p,
                p > 0,
        ;
        assert(b == p2 * q);
        vstd::arithmetic::div_mod::lemma_mod_multiples_basic(q, p2);
        assert((p2 * q) % p2 == 0) by (nonlinear_arith)
            requires
                (q * p2) % p2 == 0,
        ;
        assert(b == p * (2 * q)) by (nonlinear_arith)
            requires
                b == p2 * q,
                p2 == 2 * p,
        ;
        vstd::arithmetic::div_mod::lemma_mod_multiples_basic(2 * q, p);
        assert((p * (2 * q)) % p == 0) by (nonlinear_arith)
            requires
                ((2 * q) * p) % p == 0,
        ;
    }
}

/// Removing one tracked block keeps the free-list set well formed, and
/// the removed block's extent overlaps nothing that remains.
proof fn lemma_wf_remove(ls: Seq<Seq<usize>>, size: nat, last: nat, k: int, p: int)
    requires
        lists_wf(ls, size, last),
        0 <= k < ls.len(),
        0 <= p < ls[k].len(),
    ensures
        lists_wf(ls.update(k, ls[k].remove(p)), size, last),
        free_of(ls.update(k, ls[k].remove(p)), ls[k][p] as nat, k as nat),
{
    let l2 = ls[k].remove(p);
    let post = ls.update(k, l2);
    let target = ls[k][p] as nat;
    assert forall|k2: int, i2: int|
        0 <= k2 < post.len() && 0 <= i2 < post[k2].len() implies block_ok(
        #[trigger] post[k2][i2] as nat,
        k2 as nat,
        size,
    ) && k2 <= last by {
        let j2 = if k2 == k && i2 >= p {
            i2 + 1
        } else {
            i2
        };
        assert(post[k2][i2] == ls[k2][j2]);
        assert(block_ok(ls[k2][j2] as nat, k2 as nat, size));
    }
    assert forall|k1: int, i1: int, k2: int, i2: int|
        0 <= k1 < post.len() && 0 <= i1 < post[k1].len() && 0 <= k2 < post.len() && 0 <= i2
            < post[k2].len() && (k1 != k2 || i1 != i2) implies blocks_disjoint(
        #[trigger] post[k1][i1] as nat,
        k1 as nat,
        #[trigger] post[k2][i2] as nat,
        k2 as nat,
    ) by {
        let j1 = if k1 == k && i1 >= p {
            i1 + 1
        } else {
            i1
        };
        let j2 = if k2 == k && i2 >= p {
            i2 + 1
        } else {
            i2
        };
        assert(post[k1][i1] == ls[k1][j1]);
        assert(post[k2][i2] == ls[k2][j2]);
        assert(blocks_disjoint(ls[k1][j1] as nat, k1 as nat, ls[k2][j2] as nat, k2 as nat));
    }
    assert forall|k2: int, i1: int, i2: int|
        0 <= k2 < post.len() && 0 <= i1 < post[k2].len() && 0 <= i2 < post[k2].len() && i1 != i2
        implies #[trigger] post[k2][i2] != buddy_spec(#[trigger] post[k2][i1] as nat, k2 as nat) by {
        let j1 = if k2 == k && i1 >= p {
            i1 + 1
        } else {
            i1
        };
        let j2 = if k2 == k && i2 >= p {
            i2 + 1
        } else {
            i2
        };
        assert(post[k2][i1] == ls[k2][j1]);
        assert(post[k2][i2] == ls[k2][j2]);
        assert(ls[k2][j2] != buddy_spec(ls[k2][j1] as nat, k2 as nat));
    }
    assert forall|k2: int, i2: int|
        0 <= k2 < post.len() && 0 <= i2 < post[k2].len() implies blocks_disjoint(
        target,
        k as nat,
        #[trigger] post[k2][i2] as nat,
        k2 as nat,
    ) by {
        let j2 = if k2 == k && i2 >= p {
            i2 + 1
        } else {
            i2
        };
        assert(post[k2][i2] == ls[k2][j2]);
        assert(blocks_disjoint(ls[k][p] as nat, k as nat, ls[k2][j2] as nat, k2 as nat));
    }
}

/// The buddy relation is symmetric between class-aligned offsets.
pub proof fn lemma_buddy_symmetric(o: nat, m: nat, k: nat)
    requires
        o % pow2(k) == 0,
        m % pow2(k) == 0,
    ensures
        (m == buddy_spec(o, k)) == (o == buddy_spec(m, k)),
{
    lemma_buddy_props(o, k);
    lemma_buddy_props(m, k);
}

/// The buddy of the class-`k` block at `off`: the partner that a merge
/// would join it with, one class size to the right or to the left.
fn buddy_of(off: usize, k: usize) -> (r: usize)
    requires
        pow2(k as nat + 1) <= usize::MAX,
        (off as nat) % pow2(k as nat) == 0,
        off + pow2(k as nat) <= usize::MAX,
    ensures
        r == buddy_spec(off as nat, k as nat),
{
    proof {
        lemma_word_bits();
        unsigned_int_max_values();
        lemma2_to64();
        lemma_exp_in_word(k as nat + 1);
        lemma_pow2_unfold(k as nat + 1);
        lemma_buddy_props(off as nat, k as nat);
    }
    let p = pow2_usize(k);
    let p2 = pow2_usize(k + 1);
    if off % p2 == 0 {
        off + p
    } else {
        off - p
    }
}

fn empty_lists() -> (r: Vec<Vec<usize>>)
    ensures
        r@.len() == NUM_CLASSES,
        forall|k: int| 0 <= k < NUM_CLASSES ==> r@[k]@.len() == 0,
{
    let mut v: Vec<Vec<usize>> = Vec::new();
    let mut j: usize = 0;
    while j < NUM_CLASSES
        invariant
            j <= NUM_CLASSES,
            v@.len() == j,
            forall|k: int| 0 <= k < j ==> v@[k]@.len() == 0,
        decreases NUM_CLASSES - j,
    {
        v.push(Vec::new());
        j = j + 1;
    }
    v
}

impl BuddyAllocator {
    /// A fresh allocator with no arena: everything is zero and every free
    /// list is empty until `init` is called.
    pub fn new() -> (r: BuddyAllocator)
        ensures
            r.inv(),
            r.spec_size() == 0,
            r.spec_last_idx() == 0,
            r.spec_committed(),
            r.spec_available() == 0,
            forall|k: int| 0 <= k < NUM_CLASSES ==> r.list(k).len() == 0,
    {
        let r = BuddyAllocator {
            lists: empty_lists(),
            arena: Arena::new_owned(0),
            free_total: 0,
            size: 0,
            last_idx: 0,
            committed: true,
        };
        proof {
            lemma_sum_empty(r.lists_view(), NUM_CLASSES as int);
        }
        r
    }

    /// Resets the allocator over a backing arena: the size is rounded
    /// down to a whole power of two, every free list is cleared, and the
    /// entire arena becomes one free block of the top class whose
    /// embedded "next" word is seeded null. Any prior state is fully
    /// discarded.
    pub fn init(&mut self, size: usize, arena: Arena)
        requires
            META_SIZE <= size,
            size <= arena.bytes().len(),
        ensures
            final(self).inv(),
            crate::size_class::is_floor_class_of(size as nat, final(self).spec_last_idx()),
            final(self).spec_size() == pow2(final(self).spec_last_idx()),
            final(self).spec_committed(),
            final(self).list(final(self).spec_last_idx() as int) == seq![0usize],
            forall|k: int|
                0 <= k < NUM_CLASSES && k != final(self).spec_last_idx() ==> final(self).list(
                    k,
                ).len() == 0,
            free_bytes(final(self).lists_view()) == final(self).spec_size(),
            final(self).spec_available() == final(self).spec_size() - META_SIZE,
            word_at(final(self).arena_bytes(), 0) == NULL_PPTR,
            final(self).arena_bytes().len() == arena.bytes().len(),
            forall|i: int|
                META_SIZE <= i < arena.bytes().len() ==> final(self).arena_bytes()[i]
                    == arena.bytes()[i],
            forall|i: int|
                0 <= i < META_SIZE ==> final(self).arena_bytes()[i] == crate::arena::u64_byte(
                    NULL_PPTR,
                    i,
                ),
    {
        let idx = floor_idx(size);
        let sz = pow2_usize(idx);
        self.lists = empty_lists();
        self.arena = arena;
        self.arena.write_word(0, NULL_PPTR);
        self.lists[idx].push(0);
        self.size = sz;
        self.last_idx = idx;
        self.free_total = sz;
        self.committed = true;
        proof {
            lemma_pow2_pos(idx as nat);
            lemma2_to64();
            if idx < 3 {
                lemma_pow2_le(idx as nat + 1, 3);
                assert(false);
            }
            lemma_pow2_le(3, idx as nat);
            let ls0 = self.lists_view().update(idx as int, Seq::<usize>::empty());
            assert(ls0 =~~= Seq::new(64nat, |k: int| Seq::<usize>::empty()));
            lemma_sum_empty(ls0, 64);
            lemma_sum_update(ls0, idx as int, seq![0usize], 64);
            assert(ls0.update(idx as int, seq![0usize]) =~~= self.lists_view());
            assert(self.lists_view().len() == 64);
            assert(sum_free(ls0, 64) == 0);
            assert(ls0[idx as int].len() == 0);
            assert(seq![0usize].len() == 1);
            assert(sum_free(self.lists_view(), 64) + ls0[idx as int].len() * pow2(idx as nat)
                == sum_free(ls0, 64) + seq![0usize].len() * pow2(idx as nat));
            assert(sum_free(self.lists_view(), 64) == pow2((idx as int) as nat)) by (nonlinear_arith)
                requires
                    sum_free(self.lists_view(), 64) + ls0[idx as int].len() * pow2(
                        (idx as int) as nat,
                    ) == sum_free(ls0, 64) + seq![0usize].len() * pow2((idx as int) as nat),
                    sum_free(ls0, 64) == 0,
                    ls0[idx as int].len() == 0,
                    seq![0usize].len() == 1,
            ;
            assert(free_bytes(self.lists_view()) == pow2(idx as nat));
            lemma_free_bytes_floor(self.lists_view(), sz as nat, idx as nat);
        }
    }

    /// Bytes currently available: the free total less the arena's own
    /// reserved metadata header.
    pub fn available(&self) -> (r: usize)
        requires
            self.inv(),
        ensures
            r == self.spec_available(),
            free_bytes(self.lists_view()) == 0 ==> r == 0,
            free_bytes(self.lists_view()) > 0 ==> r + META_SIZE == free_bytes(self.lists_view()),
    {
        proof {
            if self.free_total != 0 {
                lemma_free_bytes_floor(
                    self.lists_view(),
                    self.size as nat,
                    self.last_idx as nat,
                );
            }
        }
        if self.free_total == 0 {
            0
        } else {
            self.free_total - META_SIZE
        }
    }

    /// Total arena size; zero before initialization.
    pub fn size(&self) -> (r: usize)
        ensures
            r == self.spec_size(),
    {
        self.size
    }

    /// Highest populated size-class exponent.
    pub fn last_index(&self) -> (r: usize)
        ensures
            r == self.spec_last_idx(),
    {
        self.last_idx
    }

    /// The transaction marker: true outside any mutating operation.
    pub fn committed(&self) -> (r: bool)
        ensures
            r == self.spec_committed(),
    {
        self.committed
    }

    /// Number of free blocks tracked in class `k`.
    pub fn count_of(&self, k: usize) -> (r: usize)
        requires
            k < NUM_CLASSES,
            self.inv(),
        ensures
            r == self.list(k as int).len(),
    {
        self.lists[k].len()
    }

    /// The offsets of the free blocks of class `k`, head first.
    pub fn blocks_of(&self, k: usize) -> (r: Vec<usize>)
        requires
            k < NUM_CLASSES,
            self.inv(),
        ensures
            r@ == self.list(k as int),
    {
        let l = &self.lists[k];
        let mut r: Vec<usize> = Vec::new();
        let mut j: usize = 0;
        while j < l.len()
            invariant
                j <= l@.len(),
                r@ == l@.subrange(0, j as int),
            decreases l@.len() - j,
        {
            r.push(l[j]);
            j = j + 1;
        }
        proof {
            assert(r@ =~= l@);
        }
        r
    }

    /// Prepends `off` to free list `k`: the prior head is written into the
    /// new block's embedded "next" slot, and the block becomes the head.
    fn push_head(&mut self, k: usize, off: usize)
        requires
            old(self).inv(),
            old(self).spec_size() > 0,
            k <= old(self).spec_last_idx(),
            block_ok(off as nat, k as nat, old(self).spec_size()),
            free_of(old(self).lists_view(), off as nat, k as nat),
            forall|i: int|
                0 <= i < old(self).list(k as int).len() ==> #[trigger] old(self).list(k as int)[i]
                    != buddy_spec(off as nat, k as nat),
            old(self).free_total + pow2(k as nat) <= old(self).spec_size(),
        ensures
            final(self).inv(),
            final(self).lists_view() == old(self).lists_view().update(
                k as int,
                old(self).list(k as int).insert(0, off),
            ),
            final(self).free_total == old(self).free_total + pow2(k as nat),
            final(self).size == old(self).size,
            final(self).last_idx == old(self).last_idx,
            final(self).committed == old(self).committed,
            final(self).arena.bytes().len() == old(self).arena.bytes().len(),
            ({
                let fb = final(self).arena.bytes();
                forall|i: int|
                    0 <= i < old(self).arena.bytes().len() && !(off <= i < off + META_SIZE)
                        ==> fb[i] == old(self).arena.bytes()[i]
            }),
    {
        let h: Option<usize> = if self.lists[k].len() == 0 {
            Option::None
        } else {
            Option::Some(self.lists[k][0])
        };
        let w = option_to_pptr(h);
        proof {
            lemma_meta_class(k as nat);
            assert(off + 8 <= old(self).spec_size());
        }
        self.arena.write_word(off, w);
        let sz = pow2_usize(k);
        self.lists[k].insert(0, off);
        self.free_total = self.free_total + sz;
        proof {
            let pre = old(self).lists_view();
            let post = self.lists_view();
            assert(post =~~= pre.update(k as int, old(self).list(k as int).insert(0, off)));
            lemma_sum_update(pre, k as int, old(self).list(k as int).insert(0, off), 64);
            lemma_mul_step(old(self).list(k as int).len() as int, pow2(k as nat) as int);
            assert(self.free_total == free_bytes(post));
            assert forall|k2: int, i2: int|
                0 <= k2 < post.len() && 0 <= i2 < post[k2].len() implies block_ok(
                #[trigger] post[k2][i2] as nat,
                k2 as nat,
                self.size as nat,
            ) && k2 <= self.last_idx by {
                if k2 == k && i2 == 0 {
                } else if k2 == k {
                    assert(post[k2][i2] == pre[k2][i2 - 1]);
                } else {
                    assert(post[k2][i2] == pre[k2][i2]);
                }
            }
            assert forall|k1: int, i1: int, k2: int, i2: int|
                0 <= k1 < post.len() && 0 <= i1 < post[k1].len() && 0 <= k2 < post.len() && 0 <= i2
                    < post[k2].len() && (k1 != k2 || i1 != i2) implies blocks_disjoint(
                #[trigger] post[k1][i1] as nat,
                k1 as nat,
                #[trigger] post[k2][i2] as nat,
                k2 as nat,
            ) by {
                let j1 = if k1 == k { i1 - 1 } else { i1 };
                let j2 = if k2 == k { i2 - 1 } else { i2 };
                if k1 == k && i1 == 0 {
                    assert(blocks_disjoint(off as nat, k as nat, post[k2][i2] as nat, k2 as nat));
                } else if k2 == k && i2 == 0 {
                    assert(blocks_disjoint(off as nat, k as nat, post[k1][i1] as nat, k1 as nat));
                } else {
                    assert(post[k1][i1] == pre[k1][j1] && post[k2][i2] == pre[k2][j2]);
                }
            }
            assert forall|k2: int, i1: int, i2: int|
                0 <= k2 < post.len() && 0 <= i1 < post[k2].len() && 0 <= i2 < post[k2].len() && i1
                    != i2 implies #[trigger] post[k2][i2] != buddy_spec(
                #[trigger] post[k2][i1] as nat,
                k2 as nat,
            ) by {
                if k2 == k {
                    if i1 == 0 {
                        assert(post[k2][i2] == pre[k2][i2 - 1]);
                        assert(pre[k2][i2 - 1] != buddy_spec(off as nat, k as nat));
                    } else if i2 == 0 {
                        let m = post[k2][i1] as nat;
                        assert(m == pre[k2][i1 - 1]);
                        assert(m != buddy_spec(off as nat, k as nat));
                        lemma_buddy_symmetric(off as nat, m, k as nat);
                    } else {
                        assert(post[k2][i1] == pre[k2][i1 - 1] && post[k2][i2] == pre[k2][i2 - 1]);
                    }
                } else {
                    assert(post[k2][i1] == pre[k2][i1] && post[k2][i2] == pre[k2][i2]);
                }
            }
        }
    }

    /// Removes and returns the head of free list `k`, if any; the new head
    /// is the former successor. The popped block's bytes are not touched.
    fn pop_head(&mut self, k: usize) -> (r: Option<usize>)
        requires
            old(self).inv(),
            k < NUM_CLASSES,
        ensures
            final(self).inv(),
            r is None ==> *final(self) == *old(self) && old(self).list(k as int).len() == 0,
            r is Some ==> {
                &&& old(self).list(k as int).len() > 0
                &&& r->0 == old(self).list(k as int)[0]
                &&& final(self).lists_view() == old(self).lists_view().update(
                    k as int,
                    old(self).list(k as int).drop_first(),
                )
                &&& final(self).free_total + pow2(k as nat) == old(self).free_total
                &&& block_ok(r->0 as nat, k as nat, old(self).spec_size())
                &&& k <= old(self).spec_last_idx()
                &&& free_of(final(self).lists_view(), r->0 as nat, k as nat)
                &&& final(self).size == old(self).size
                &&& final(self).last_idx == old(self).last_idx
                &&& final(self).committed == old(self).committed
                &&& final(self).arena == old(self).arena
            },
    {
        if self.lists[k].len() == 0 {
            Option::None
        } else {
            proof {
                lemma_sum_term(self.lists_view(), k as int, 64);
                lemma_mul_inequality(
                    1,
                    self.list(k as int).len() as int,
                    pow2(k as nat) as int,
                );
            }
            let off = self.lists[k].remove(0);
            let sz = pow2_usize(k);
            self.free_total = self.free_total - sz;
            proof {
                let pre = old(self).lists_view();
                let post = self.lists_view();
                assert(old(self).list(k as int).remove(0) =~= old(self).list(
                    k as int,
                ).drop_first());
                assert(post =~~= pre.update(k as int, old(self).list(k as int).drop_first()));
                lemma_sum_update(pre, k as int, old(self).list(k as int).drop_first(), 64);
                lemma_mul_step(old(self).list(k as int).len() as int, pow2(k as nat) as int);
                assert(self.free_total == free_bytes(post));
                lemma_wf_remove(pre, old(self).size as nat, old(self).last_idx as nat, k as int, 0);
            }
            Option::Some(off)
        }
    }

    /// Scans free list `k` for the block at `target` and unlinks it if
    /// present, relinking its predecessor's embedded "next" slot past it;
    /// used by the coalescer to claim a freed block's buddy.
    #[verifier::rlimit(100)]
    fn remove_if_present(&mut self, k: usize, target: usize) -> (found: bool)
        requires
            old(self).inv(),
            k < NUM_CLASSES,
        ensures
            final(self).inv(),
            !found ==> *final(self) == *old(self) && !old(self).list(k as int).contains(target),
            found ==> {
                &&& old(self).list(k as int).contains(target)
                &&& exists|p: int|
                    0 <= p < old(self).list(k as int).len() && old(self).list(k as int)[p]
                        == target && final(self).lists_view() == old(self).lists_view().update(
                        k as int,
                        old(self).list(k as int).remove(p),
                    )
                &&& final(self).free_total + pow2(k as nat) == old(self).free_total
                &&& block_ok(target as nat, k as nat, old(self).spec_size())
                &&& k <= old(self).spec_last_idx()
                &&& free_of(final(self).lists_view(), target as nat, k as nat)
                &&& final(self).size == old(self).size
                &&& final(self).last_idx == old(self).last_idx
                &&& final(self).committed == old(self).committed
                &&& final(self).arena.bytes().len() == old(self).arena.bytes().len()
                &&& ({
                    let fb = final(self).arena.bytes();
                    forall|i: int|
                        0 <= i < old(self).arena.bytes().len() && !byte_in_free(
                            old(self).lists_view(),
                            i,
                        ) ==> fb[i] == old(self).arena.bytes()[i]
                })
            },
    {
        let n = self.lists[k].len();
        let mut i: usize = 0;
        while i < n
            invariant
                *self == *old(self),
                self.inv(),
                k < NUM_CLASSES,
                n == self.list(k as int).len(),
                i <= n,
                forall|j: int| 0 <= j < i ==> self.list(k as int)[j] != target,
            decreases n - i,
        {
            if self.lists[k][i] == target {
                if i > 0 {
                    let prev = self.lists[k][i - 1];
                    let succ: Option<usize> = if i + 1 < n {
                        Option::Some(self.lists[k][i + 1])
                    } else {
                        Option::None
                    };
                    let w = option_to_pptr(succ);
                    proof {
                        let lv = self.lists_view();
                        assert(block_ok(lv[k as int][i - 1] as nat, k as nat, self.size as nat));
                        assert(lv[k as int][i - 1] == prev);
                        lemma_meta_class(k as nat);
                        assert(prev + 8 <= self.spec_size());
                    }
                    self.arena.write_word(prev, w);
                }
                proof {
                    lemma_sum_term(self.lists_view(), k as int, 64);
                    lemma_mul_inequality(
                        1,
                        self.list(k as int).len() as int,
                        pow2(k as nat) as int,
                    );
                }
                self.lists[k].remove(i);
                let sz = pow2_usize(k);
                self.free_total = self.free_total - sz;
                proof {
                    let pre = old(self).lists_view();
                    let post = self.lists_view();
                    assert(post =~~= pre.update(
                        k as int,
                        old(self).list(k as int).remove(i as int),
                    ));
                    lemma_sum_update(
                        pre,
                        k as int,
                        old(self).list(k as int).remove(i as int),
                        64,
                    );
                    lemma_mul_step(old(self).list(k as int).len() as int, pow2(k as nat) as int);
                    assert(self.free_total == free_bytes(post));
                    lemma_wf_remove(
                        pre,
                        old(self).size as nat,
                        old(self).last_idx as nat,
                        k as int,
                        i as int,
                    );
                    assert forall|x: int|
                        0 <= x < old(self).arena.bytes().len() && !byte_in_free(pre, x) implies self
                        .arena.bytes()[x] == old(self).arena.bytes()[x] by {
                        if i > 0 {
                            let prev0 = pre[k as int][i - 1];
                            if prev0 <= x < prev0 + META_SIZE {
                                lemma_meta_class(k as nat);
                                assert(pre[k as int][i - 1] <= x < pre[k as int][i - 1] + pow2(
                                    k as nat,
                                ));
                                assert(byte_in_free(pre, x));
                                assert(false);
                            }
                        }
                    }
                }
                return true;
            }
            i = i + 1;
        }
        proof {
            if old(self).list(k as int).contains(target) {
                let j = old(self).list(k as int).index_of(target);
                assert(old(self).list(k as int)[j] == target);
            }
        }
        false
    }

    /// This allocator with the transaction marker set to `c`.
    pub closed spec fn with_committed(self, c: bool) -> BuddyAllocator {
        BuddyAllocator { committed: c, ..self }
    }

    /// Begins a transaction: clears the marker. A placeholder hook for
    /// future crash-consistency logging; no log or rollback exists.
    pub fn tx_begin(&mut self)
        ensures
            *final(self) == old(self).with_committed(false),
            final(self).spec_committed() == false,
            final(self).lists_view() == old(self).lists_view(),
            final(self).spec_size() == old(self).spec_size(),
            final(self).spec_last_idx() == old(self).spec_last_idx(),
            final(self).arena_bytes() == old(self).arena_bytes(),
            old(self).inv() ==> final(self).inv(),
    {
        self.committed = false;
    }

    /// Ends a transaction: sets the marker. A placeholder hook, as
    /// `tx_begin` is.
    pub fn tx_end(&mut self)
        ensures
            *final(self) == old(self).with_committed(true),
            final(self).spec_committed() == true,
            final(self).lists_view() == old(self).lists_view(),
            final(self).spec_size() == old(self).spec_size(),
            final(self).spec_last_idx() == old(self).spec_last_idx(),
            final(self).arena_bytes() == old(self).arena_bytes(),
            old(self).inv() ==> final(self).inv(),
    {
        self.committed = true;
    }

    /// Frees the block of class `k` at arena offset `k`, coalescing with
    /// its buddy repeatedly while the buddy is itself free.
    #[verifier::rlimit(80)]
    fn free_at(&mut self, off: usize, k: usize)
        requires
            old(self).inv(),
            old(self).spec_size() > 0,
            k <= old(self).spec_last_idx(),
            block_ok(off as nat, k as nat, old(self).spec_size()),
            free_of(old(self).lists_view(), off as nat, k as nat),
            old(self).free_total + pow2(k as nat) <= old(self).spec_size(),
        ensures
            final(self).inv(),
            final(self).free_total == old(self).free_total + pow2(k as nat),
            final(self).size == old(self).size,
            final(self).last_idx == old(self).last_idx,
            final(self).committed == old(self).committed,
            final(self).arena.bytes().len() == old(self).arena.bytes().len(),
            (k == old(self).spec_last_idx() || forall|i: int|
                0 <= i < old(self).list(k as int).len() ==> #[trigger] old(self).list(k as int)[i]
                    != buddy_spec(off as nat, k as nat)) ==> final(self).lists_view() == old(
                self,
            ).lists_view().update(k as int, old(self).list(k as int).insert(0, off)),
            ({
                let bd = buddy_spec(off as nat, k as nat);
                let ms = merged_start(off as nat, k as nat) as usize;
                let kk = k as int;
                (k < old(self).spec_last_idx() && old(self).list(kk).contains(bd as usize) && (k + 1
                    == old(self).spec_last_idx() || forall|i: int|
                    0 <= i < old(self).list(kk + 1).len() ==> #[trigger] old(self).list(kk + 1)[i]
                        != buddy_spec(ms as nat, k as nat + 1))) ==> exists|p: int|
                    0 <= p < old(self).list(kk).len() && old(self).list(kk)[p] == bd as usize
                        && final(self).lists_view() == old(self).lists_view().update(
                        kk,
                        old(self).list(kk).remove(p),
                    ).update(kk + 1, old(self).list(kk + 1).insert(0, ms))
            }),
            final(self).lists_view() == spec_free(
                old(self).lists_view(),
                off as nat,
                k as nat,
                old(self).spec_last_idx(),
            ),
            ({
                let fb = final(self).arena.bytes();
                forall|i: int|
                    0 <= i < old(self).arena.bytes().len() && !byte_in_free(
                        old(self).lists_view(),
                        i,
                    ) && !(off <= i < off + pow2(k as nat)) ==> fb[i] == old(self).arena.bytes()[i]
            }),
        decreases old(self).spec_last_idx() - k,
    {
        proof {
            lemma_pow2_pos(k as nat);
        }
        if k + 1 <= self.last_idx {
            proof {
                lemma_pow2_unfold(k as nat + 1);
                lemma_pow2_le(k as nat + 1, self.last_idx as nat);
            }
            let bd = buddy_of(off, k);
            if self.remove_if_present(k, bd) {
                let merged = if off < bd {
                    off
                } else {
                    bd
                };
                proof {
                    let p = pow2(k as nat);
                    let p2 = pow2(k as nat + 1);
                    lemma_buddy_props(off as nat, k as nat);
                    let ms = merged_start(off as nat, k as nat);
                    assert(merged == ms);
                    let mid = self.lists_view();
                    let pre = old(self).lists_view();
                    let pos = choose|pos: int|
                        0 <= pos < pre[k as int].len() && pre[k as int][pos] == bd
                            && mid == pre.update(k as int, pre[k as int].remove(pos));
                    // every remaining block misses both halves of the pair
                    assert forall|k2: int, i2: int|
                        0 <= k2 < mid.len() && 0 <= i2 < mid[k2].len() implies blocks_disjoint(
                        ms,
                        k as nat + 1,
                        #[trigger] mid[k2][i2] as nat,
                        k2 as nat,
                    ) by {
                        let j2 = if k2 == k && i2 >= pos {
                            i2 + 1
                        } else {
                            i2
                        };
                        assert(mid[k2][i2] == pre[k2][j2]);
                        assert(blocks_disjoint(off as nat, k as nat, pre[k2][j2] as nat, k2 as nat));
                        assert(blocks_disjoint(bd as nat, k as nat, pre[k2][j2] as nat, k2 as nat));
                    }
                    assert(block_ok(ms, k as nat + 1, self.size as nat));
                }
                let ghost mid = *self;
                self.free_at(merged, k + 1);
                proof {
                    let pre = old(self).lists_view();
                    let pos = choose|pos: int|
                        0 <= pos < pre[k as int].len() && pre[k as int][pos] == bd && mid.lists_view()
                            == pre.update(k as int, pre[k as int].remove(pos));
                    lemma_word_bits();
                    assert(0 <= k as int + 1 < 64);
                    assert(old(self).list(k as int)[pos] == bd);
                    assert(mid.list(k as int + 1) == mid.lists_view()[k as int + 1]);
                    assert(mid.lists_view()[k as int + 1] == pre[k as int + 1]);
                    assert(mid.list(k as int + 1) == old(self).list(k as int + 1));
                    if k + 1 == old(self).spec_last_idx() || (forall|i: int|
                        0 <= i < old(self).list(k as int + 1).len() ==> #[trigger] old(self).list(
                            k as int + 1,
                        )[i] != buddy_spec(merged as nat, k as nat + 1)) {
                        assert(self.lists_view() == mid.lists_view().update(
                            k as int + 1,
                            mid.list(k as int + 1).insert(0, merged),
                        ));
                    }
                    // the unlinked position is the one `index_of` picks:
                    // two equal offsets in one class would overlap
                    lemma_buddy_props(off as nat, k as nat);
                    lemma_pow2_pos(k as nat);
                    assert(pre[k as int].contains(bd));
                    let pi = pre[k as int].index_of(bd);
                    assert(0 <= pi < pre[k as int].len() && pre[k as int][pi] == bd);
                    if pi != pos {
                        assert(blocks_disjoint(
                            pre[k as int][pi] as nat,
                            k as nat,
                            pre[k as int][pos] as nat,
                            k as nat,
                        ));
                        assert(false);
                    }
                    assert(merged as nat == merged_start(off as nat, k as nat));
                    assert(self.lists_view() == spec_free(
                        mid.lists_view(),
                        merged as nat,
                        k as nat + 1,
                        old(self).spec_last_idx(),
                    ));
                    assert(self.lists_view() == spec_free(
                        pre,
                        off as nat,
                        k as nat,
                        old(self).spec_last_idx(),
                    ));
                    // bytes: the removal touched only tracked blocks, the
                    // recursive free only the merged pair and blocks that
                    // were already tracked
                    let ob = old(self).arena.bytes();
                    assert forall|x: int|
                        0 <= x < ob.len() && !byte_in_free(pre, x) && !(off <= x < off + pow2(
                        k as nat,
                    )) implies self.arena.bytes()[x] == ob[x] by {
                        assert forall|k2: int, i2: int|
                            0 <= k2 < mid.lists_view().len() && 0 <= i2 < mid.lists_view()[k2].len()
                                && mid.lists_view()[k2][i2] <= x implies !(x < mid.lists_view()[k2][i2]
                            + pow2(k2 as nat)) by {
                            let j2 = if k2 == k && i2 >= pos {
                                i2 + 1
                            } else {
                                i2
                            };
                            assert(mid.lists_view()[k2][i2] == pre[k2][j2]);
                            if pre[k2][j2] <= x < pre[k2][j2] + pow2(k2 as nat) {
                                assert(byte_in_free(pre, x));
                            }
                        }
                        assert(!byte_in_free(mid.lists_view(), x));
                        if bd <= x < bd + pow2(k as nat) {
                            assert(pre[k as int][pos] <= x < pre[k as int][pos] + pow2(k as nat));
                            assert(byte_in_free(pre, x));
                            assert(false);
                        }
                        assert(!(merged <= x < merged + pow2(k as nat + 1)));
                    }
                }
                return ;
            }
        }
        proof {
            if k == self.last_idx {
                // a top-class block is the whole arena, so no other block
                // can be tracked beside it
                assert forall|i: int| 0 <= i < self.list(k as int).len() implies #[trigger] self
                    .list(k as int)[i] != buddy_spec(off as nat, k as nat) by {
                    let m = self.list(k as int)[i] as nat;
                    assert(block_ok(m, k as nat, self.size as nat));
                    lemma_pow2_pos(k as nat);
                    assert(blocks_disjoint(off as nat, k as nat, m, k as nat));
                    assert(false);
                }
            }
        }
        self.push_head(k, off);
    }

    /// Returns a freed block to the free lists. `off` and `len` must
    /// match a prior successful allocation exactly; the preconditions
    /// state the shape every such pair has. No tagging of live blocks
    /// exists, so a mismatched pair is ruled out by contract rather than
    /// detected at run time.
    pub fn free(&mut self, off: usize, len: usize)
        requires
            old(self).inv(),
            old(self).spec_size() > 0,
            1 <= len,
            len + META_SIZE <= old(self).spec_size(),
            META_SIZE <= off,
            block_ok(
                (off - META_SIZE) as nat,
                class_of((len + META_SIZE) as nat),
                old(self).spec_size(),
            ),
            free_of(
                old(self).lists_view(),
                (off - META_SIZE) as nat,
                class_of((len + META_SIZE) as nat),
            ),
            free_bytes(old(self).lists_view()) + pow2(class_of((len + META_SIZE) as nat)) <= old(
                self,
            ).spec_size(),
        ensures
            final(self).inv(),
            final(self).spec_size() == old(self).spec_size(),
            final(self).spec_last_idx() == old(self).spec_last_idx(),
            final(self).spec_committed() == false,
            free_bytes(final(self).lists_view()) == free_bytes(old(self).lists_view()) + pow2(
                class_of((len + META_SIZE) as nat),
            ),
            ({
                let idx = class_of((len + META_SIZE) as nat) as int;
                let fresh = final(self).lists_view();
                (idx == old(self).spec_last_idx() || forall|i: int|
                    0 <= i < old(self).list(idx).len() ==> #[trigger] old(self).list(idx)[i]
                        != buddy_spec((off - META_SIZE) as nat, idx as nat)) ==> fresh == old(
                    self,
                ).lists_view().update(idx, old(self).list(idx).insert(0, (off - META_SIZE) as usize))
            }),
            ({
                let idx = class_of((len + META_SIZE) as nat);
                let start = (off - META_SIZE) as nat;
                let bd = buddy_spec(start, idx);
                let ms = merged_start(start, idx) as usize;
                let kk = idx as int;
                let fresh = final(self).lists_view();
                (idx < old(self).spec_last_idx() && old(self).list(kk).contains(bd as usize) && (idx
                    + 1 == old(self).spec_last_idx() || forall|i: int|
                    0 <= i < old(self).list(kk + 1).len() ==> #[trigger] old(self).list(kk + 1)[i]
                        != buddy_spec(ms as nat, idx + 1))) ==> exists|p: int|
                    0 <= p < old(self).list(kk).len() && old(self).list(kk)[p] == bd as usize
                        && fresh == old(self).lists_view().update(kk, old(self).list(kk).remove(p)).update(
                        kk + 1,
                        old(self).list(kk + 1).insert(0, ms),
                    )
            }),
            final(self).lists_view() == spec_free(
                old(self).lists_view(),
                (off - META_SIZE) as nat,
                class_of((len + META_SIZE) as nat),
                old(self).spec_last_idx(),
            ),
            ({
                let fb = final(self).arena_bytes();
                let start = (off - META_SIZE) as int;
                forall|i: int|
                    0 <= i < old(self).arena_bytes().len() && !byte_in_free(
                        old(self).lists_view(),
                        i,
                    ) && !(start <= i < start + pow2(class_of((len + META_SIZE) as nat))) ==> fb[i]
                        == old(self).arena_bytes()[i]
            }),
    {
        proof {
            lemma_pow2_le(old(self).spec_last_idx(), (usize::BITS - 1) as nat);
            lemma_class_of_monotone((len + META_SIZE) as nat, old(self).spec_size());
            lemma_class_of_pow2(old(self).spec_last_idx());
        }
        let idx = get_idx(len + META_SIZE);
        let start = off - META_SIZE;
        if self.committed {
            self.tx_begin();
        }
        self.free_at(start, idx);
    }

    /// Allocates `len` usable bytes and returns their arena address (the
    /// block's offset plus its metadata header). Fails with
    /// `InvalidLength` for a zero or unrepresentable request before
    /// touching any state, and with `OutOfMemory`, exactly when no free
    /// block of a sufficient class exists, leaving the free lists as they
    /// were.
    pub fn allocate(&mut self, len: usize) -> (r: Result<usize, AllocError>)
        requires
            old(self).inv(),
        ensures
            final(self).inv(),
            final(self).spec_size() == old(self).spec_size(),
            final(self).spec_last_idx() == old(self).spec_last_idx(),
            (r == Result::<usize, AllocError>::Err(AllocError::InvalidLength)) <==> (len == 0 || len
                > usize::MAX - META_SIZE),
            r == Result::<usize, AllocError>::Err(AllocError::InvalidLength) ==> *final(self)
                == *old(self),
            (1 <= len && len <= usize::MAX - META_SIZE) ==> ((r == Result::<
                usize,
                AllocError,
            >::Err(AllocError::OutOfMemory)) <==> !has_fit(
                old(self).lists_view(),
                class_of((len + META_SIZE) as nat),
                old(self).spec_last_idx(),
            )),
            r == Result::<usize, AllocError>::Err(AllocError::OutOfMemory) ==> ({
                let fresh = final(self).lists_view();
                &&& fresh == old(self).lists_view()
                &&& final(self).spec_committed() == false
                &&& final(self).arena_bytes() == old(self).arena_bytes()
            }),
            r is Ok ==> ({
                let idx = class_of((len + META_SIZE) as nat) as int;
                let addr = r->Ok_0;
                &&& final(self).spec_committed() == false
                &&& META_SIZE <= addr
                &&& block_ok((addr - META_SIZE) as nat, idx as nat, old(self).spec_size())
                &&& free_of(final(self).lists_view(), (addr - META_SIZE) as nat, idx as nat)
                &&& free_bytes(final(self).lists_view()) + pow2(idx as nat) == free_bytes(
                    old(self).lists_view(),
                )
                &&& ({
                    let fb = final(self).arena_bytes();
                    forall|i: int|
                        0 <= i < old(self).arena_bytes().len() && !byte_in_free(
                            old(self).lists_view(),
                            i,
                        ) ==> fb[i] == old(self).arena_bytes()[i]
                })
                &&& exists|j: int|
                    {
                        &&& idx <= j <= old(self).spec_last_idx()
                        &&& old(self).list(j).len() > 0
                        &&& addr == old(self).list(j)[0] + META_SIZE
                        &&& (forall|c: int|
                            idx <= c < j ==> old(self).list(c).len() == 0 && final(self).list(c)
                                =~= seq![
                                (old(self).list(j)[0] + pow2(c as nat)) as usize,
                            ])
                        &&& final(self).list(j) =~= old(self).list(j).drop_first()
                        &&& (forall|c: int|
                            0 <= c < NUM_CLASSES && !(idx <= c <= j) ==> final(self).list(c)
                                =~= old(self).list(c))
                    }
            }),
    {
        if len == 0 || len > usize::MAX - META_SIZE {
            return Result::Err(AllocError::InvalidLength);
        }
        if self.committed {
            self.tx_begin();
        }
        if len + META_SIZE > self.size {
            proof {
                assert forall|j: int|
                    class_of((len + META_SIZE) as nat) <= j <= old(self).spec_last_idx() && 0 <= j
                        < NUM_CLASSES implies (old(self).lists_view()[j]).len() == 0 by {
                    if old(self).lists_view()[j].len() > 0 {
                        assert(block_ok(
                            old(self).lists_view()[j][0] as nat,
                            j as nat,
                            old(self).spec_size(),
                        ));
                        lemma_class_of_correct((len + META_SIZE) as nat);
                        lemma_pow2_le(class_of((len + META_SIZE) as nat), j as nat);
                        assert(false);
                    }
                }
            }
            return Result::Err(AllocError::OutOfMemory);
        }
        proof {
            lemma_pow2_le(old(self).spec_last_idx(), (usize::BITS - 1) as nat);
            lemma_class_of_monotone((len + META_SIZE) as nat, old(self).spec_size());
            lemma_class_of_pow2(old(self).spec_last_idx());
        }
        let idx = get_idx(len + META_SIZE);
        proof {
            lemma2_to64();
            vstd::arithmetic::power2::lemma2_to64_rest();
            lemma_class_of_monotone(9, (len + META_SIZE) as nat);
            crate::size_class::lemma_class_of_unique(9, 4);
            lemma_word_bits();
        }
        let mut j = idx;
        while j <= self.last_idx && self.lists[j].len() == 0
            invariant
                *self == old(self).with_committed(false),
                self.inv(),
                usize::BITS <= 64,
                idx <= j <= self.last_idx + 1,
                self.last_idx < usize::BITS,
                forall|c: int| idx <= c < j ==> (#[trigger] old(self).list(c)).len() == 0,
            decreases self.last_idx + 1 - j,
        {
            j = j + 1;
        }
        if j > self.last_idx {
            proof {
                assert forall|c: int|
                    idx <= c <= self.last_idx && 0 <= c < NUM_CLASSES implies (old(
                    self,
                ).lists_view()[c]).len() == 0 by {
                    assert(old(self).list(c).len() == 0);
                }
            }
            return Result::Err(AllocError::OutOfMemory);
        }
        let b = self.pop_head(j).unwrap();
        let ghost after_pop = *self;
        proof {
            let base = old(self).with_committed(false);
            assert forall|c: int| 0 <= c < NUM_CLASSES implies base.list(c) == old(self).list(
                c,
            ) by {}
            assert(after_pop.lists_view() == base.lists_view().update(
                j as int,
                base.list(j as int).drop_first(),
            ));
            assert(base.lists_view().len() == NUM_CLASSES);
            assert(after_pop.list(j as int) == after_pop.lists_view()[j as int]);
            assert(after_pop.list(j as int) =~= old(self).list(j as int).drop_first());
            assert forall|c: int|
                0 <= c < NUM_CLASSES && c != j implies after_pop.list(c) =~= old(self).list(
                c,
            ) by {
                assert(after_pop.lists_view()[c] == base.lists_view()[c]);
            }
        }
        let ghost f0 = old(self).free_total as nat;
        let mut c = j;
        while c > idx
            invariant
                old(self).inv(),
                self.inv(),
                4 <= idx,
                idx <= c <= j,
                j <= self.last_idx,
                self.size == old(self).size,
                self.last_idx == old(self).last_idx,
                self.committed == false,
                self.spec_size() > 0,
                block_ok(b as nat, c as nat, self.spec_size()),
                free_of(self.lists_view(), b as nat, c as nat),
                self.free_total + pow2(c as nat) == f0,
                f0 <= self.spec_size(),
                old(self).list(j as int).len() > 0,
                b == old(self).list(j as int)[0],
                self.arena.bytes().len() == old(self).arena.bytes().len(),
                forall|x: int|
                    0 <= x < old(self).arena.bytes().len() && !byte_in_free(
                        old(self).lists_view(),
                        x,
                    ) ==> self.arena.bytes()[x] == old(self).arena.bytes()[x],
                forall|c2: int|
                    c <= c2 < j ==> #[trigger] self.list(c2) =~= seq![
                        (b + pow2(c2 as nat)) as usize,
                    ],
                forall|c2: int|
                    0 <= c2 < NUM_CLASSES && !(c <= c2 <= j) ==> #[trigger] self.list(c2)
                        =~= after_pop.list(c2),
                self.list(j as int) =~= after_pop.list(j as int),
                after_pop.list(j as int) =~= old(self).list(j as int).drop_first(),
                forall|c2: int|
                    0 <= c2 < NUM_CLASSES && c2 != j ==> after_pop.list(c2) =~= old(self).list(c2),
                forall|c2: int| idx <= c2 < j ==> (#[trigger] old(self).list(c2)).len() == 0,
            decreases c,
        {
            proof {
                lemma_pow2_unfold(c as nat);
                lemma_pow2_pos((c - 1) as nat);
                let p = pow2((c - 1) as nat) as int;
                assert(pow2(c as nat) == 2 * pow2((c - 1) as nat));
                assert((b as int) % (2 * p) == 0);
                lemma_split_align(b as int, p);
                assert((b as nat) % pow2((c - 1) as nat) == 0);
                lemma_meta_class(c as nat);
                lemma2_to64();
                lemma_pow2_le(3, (c - 1) as nat);
            }
            let half = pow2_usize(c - 1);
            let right = b + half;
            proof {
                // the right half's buddy is the kept left half, which no
                // list tracks
                assert(right as nat % pow2((c - 1) as nat + 1) == pow2((c - 1) as nat));
                assert(buddy_spec(right as nat, (c - 1) as nat) == b);
                let lv = self.lists_view();
                assert forall|i: int| 0 <= i < self.list(c - 1).len() implies #[trigger] self.list(
                    c - 1,
                )[i] != buddy_spec(right as nat, (c - 1) as nat) by {
                    if self.list(c - 1)[i] == b {
                        assert(lv[c - 1][i] == b);
                        assert(blocks_disjoint(b as nat, c as nat, lv[c - 1][i] as nat, (c
                            - 1) as nat));
                        lemma_pow2_pos((c - 1) as nat);
                        assert(false);
                    }
                }
                assert forall|k2: int, i2: int|
                    0 <= k2 < lv.len() && 0 <= i2 < lv[k2].len() implies blocks_disjoint(
                    right as nat,
                    (c - 1) as nat,
                    #[trigger] lv[k2][i2] as nat,
                    k2 as nat,
                ) by {
                    assert(blocks_disjoint(b as nat, c as nat, lv[k2][i2] as nat, k2 as nat));
                }
                assert(free_of(self.lists_view(), right as nat, (c - 1) as nat));
            }
            let ghost before_push = *self;
            self.push_head(c - 1, right);
            proof {
                let pre = before_push.lists_view();
                let post = self.lists_view();
                assert forall|k2: int, i2: int|
                    0 <= k2 < post.len() && 0 <= i2 < post[k2].len() implies blocks_disjoint(
                    b as nat,
                    (c - 1) as nat,
                    #[trigger] post[k2][i2] as nat,
                    k2 as nat,
                ) by {
                    if k2 == c - 1 && i2 == 0 {
                        assert(post[k2][i2] == right);
                    } else {
                        let j2 = if k2 == c - 1 {
                            i2 - 1
                        } else {
                            i2
                        };
                        assert(post[k2][i2] == pre[k2][j2]);
                        assert(blocks_disjoint(b as nat, c as nat, pre[k2][j2] as nat, k2 as nat));
                    }
                }
                assert(before_push.list(c - 1) =~= old(self).list(c - 1));
                assert(before_push.list(c - 1).len() == 0);
                assert(before_push.lists_view().len() == NUM_CLASSES);
                assert(self.lists_view() == before_push.lists_view().update(
                    c - 1,
                    before_push.list(c - 1).insert(0, right),
                ));
                assert(self.list(c - 1) == self.lists_view()[c - 1]);
                assert(self.list(c - 1) == before_push.list(c - 1).insert(0, right));
                assert(self.list(c - 1) =~= seq![(b + pow2((c - 1) as nat)) as usize]);
                lemma_pow2_unfold(c as nat);
                lemma_pow2_pos((c - 1) as nat);
                lemma_split_align(b as int, pow2((c - 1) as nat) as int);
                assert((b as nat) % pow2((c - 1) as nat) == 0);
                assert(block_ok(b as nat, (c - 1) as nat, self.spec_size()));
                assert forall|c2: int|
                    0 <= c2 < NUM_CLASSES && c2 != c - 1 implies self.list(c2)
                    == before_push.list(c2) by {
                    assert(self.list(c2) == self.lists_view()[c2]);
                    assert(self.lists_view()[c2] == before_push.lists_view()[c2]);
                }
                assert forall|c2: int|
                    c - 1 <= c2 < j implies #[trigger] self.list(c2) =~= seq![
                        (b + pow2(c2 as nat)) as usize,
                    ] by {
                    if c2 != c - 1 {
                        assert(self.list(c2) == before_push.list(c2));
                        assert(before_push.list(c2) =~= seq![(b + pow2(c2 as nat)) as usize]);
                    }
                }
                assert forall|c2: int|
                    0 <= c2 < NUM_CLASSES && !(c - 1 <= c2 <= j) implies #[trigger] self.list(c2)
                    =~= after_pop.list(c2) by {
                    assert(self.list(c2) == before_push.list(c2));
                }
                assert(self.list(j as int) =~= after_pop.list(j as int));
                assert forall|x: int|
                    0 <= x < old(self).arena.bytes().len() && !byte_in_free(
                        old(self).lists_view(),
                        x,
                    ) implies self.arena.bytes()[x] == old(self).arena.bytes()[x] by {
                    if right <= x < right + META_SIZE {
                        lemma_pow2_le((c - 1) as nat, j as nat);
                        lemma_pow2_le(c as nat, j as nat);
                        lemma_word_bits();
                        assert(j < 64);
                        assert(old(self).lists_view().len() == 64);
                        assert(old(self).lists_view()[j as int] == old(self).list(j as int));
                        assert(old(self).lists_view()[j as int][0] == b);
                        assert(old(self).lists_view()[j as int][0] <= x < old(
                            self,
                        ).lists_view()[j as int][0] + pow2(j as nat));
                        assert(byte_in_free(old(self).lists_view(), x));
                        assert(false);
                    }
                }
            }
            c = c - 1;
        }
        proof {
            assert(free_bytes(self.lists_view()) + pow2(idx as nat) == free_bytes(
                old(self).lists_view(),
            ));
            lemma2_to64();
            lemma_pow2_le(3, idx as nat);
            assert(b + META_SIZE <= old(self).spec_size());
            let jw = j as int;
            assert((b + META_SIZE) as usize == old(self).list(jw)[0] + META_SIZE);
            assert((old(self).lists_view()[jw]).len() > 0);
            let idxw = class_of((len + META_SIZE) as nat) as int;
            assert(idxw == idx);
            assert(idxw <= jw <= old(self).spec_last_idx());
            assert(old(self).list(jw).len() > 0);
            assert(forall|c2: int|
                idxw <= c2 < jw ==> old(self).list(c2).len() == 0 && final(self).list(c2) =~= seq![
                    (old(self).list(jw)[0] + pow2(c2 as nat)) as usize,
                ]);
            assert(final(self).list(jw) =~= old(self).list(jw).drop_first());
            assert(forall|c2: int|
                0 <= c2 < NUM_CLASSES && !(idxw <= c2 <= jw) ==> final(self).list(c2) =~= old(
                    self,
                ).list(c2));
            assert(has_fit(
                old(self).lists_view(),
                class_of((len + META_SIZE) as nat),
                old(self).spec_last_idx(),
            ));
        }
        Result::Ok(b + META_SIZE)
    }

    /// The raw "next" word embedded at an arena offset.
    pub fn next_word(&self, off: usize) -> (r: u64)
        requires
            self.inv(),
            off + META_SIZE <= self.spec_size(),
        ensures
            r == word_at(self.arena_bytes(), off as int),
    {
        self.arena.read_word(off)
    }
}

/// The per-class view `list(k)` is exactly entry `k` of the whole-set
/// view `lists_view()`.
pub proof fn lemma_list_view(a: BuddyAllocator, k: int)
    requires
        0 <= k < a.lists_view().len(),
    ensures
        a.list(k) == a.lists_view()[k],
{
}

/// Every reachable allocator state keeps the free-list set sound: all
/// tracked blocks are class-aligned and in bounds, no two overlap, no
/// tracked block's buddy is tracked beside it (coalescing is maximal),
/// and the bytes reported available are the tracked total less the
/// arena's reserved header.
pub proof fn lemma_state_sound(a: BuddyAllocator)
    requires
        a.inv(),
    ensures
        lists_wf(a.lists_view(), a.spec_size(), a.spec_last_idx()),
        mirror_ok(a.lists_view(), a.arena_bytes()),
        a.spec_available() == (if free_bytes(a.lists_view()) == 0 {
            0
        } else {
            (free_bytes(a.lists_view()) - META_SIZE) as nat
        }),
        free_bytes(a.lists_view()) <= a.spec_size(),
{
}

/// The buddy of a class-aligned offset is that offset with its class bit
/// flipped: `o XOR 2^k`.
#[verifier::rlimit(50)]
pub proof fn lemma_buddy_xor(o: u64, k: u64)
    requires
        k + 1 < 64,
        (o as nat) % pow2(k as nat) == 0,
    ensures
        buddy_spec(o as nat, k as nat) == (o ^ (pow2(k as nat) as u64)),
{
    vstd::bits::lemma_u64_pow2_no_overflow(k as nat);
    vstd::bits::lemma_u64_pow2_no_overflow(k as nat + 1);
    vstd::bits::lemma_u64_shl_is_mul(1u64, k);
    vstd::bits::lemma_u64_shr_is_div(o, k);
    lemma_pow2_pos(k as nat);
    lemma_pow2_unfold(k as nat + 1);
    lemma_aligned_next_class(o as nat, k as nat);
    let pi = pow2(k as nat) as int;
    lemma_fundamental_div_mod(o as int, 2 * pi);
    let q = (o as int) / (2 * pi);
    if (o as nat) % pow2(k as nat + 1) == 0 {
        assert(o == (2 * pi) * q);
        assert(o == (2 * q) * pi + 0) by (nonlinear_arith)
            requires
                o == (2 * pi) * q,
        ;
        vstd::arithmetic::div_mod::lemma_fundamental_div_mod_converse_div(o as int, pi, 2 * q, 0);
        vstd::arithmetic::div_mod::lemma_mod_multiples_basic(q, 2);
        assert((2 * q) % 2 == 0) by (nonlinear_arith)
            requires
                (q * 2) % 2 == 0,
        ;
        assert((o >> k) % 2 == 0);
        assert(((o >> k) % 2 == 0) ==> (o ^ (1u64 << k)) == o + (1u64 << k)) by (bit_vector)
            requires
                k < 64,
        ;
    } else {
        assert((o as nat) % pow2(k as nat + 1) == pow2(k as nat));
        assert(o == (2 * pi) * q + pi);
        assert(o == (2 * q + 1) * pi + 0) by (nonlinear_arith)
            requires
                o == (2 * pi) * q + pi,
        ;
        vstd::arithmetic::div_mod::lemma_fundamental_div_mod_converse_div(
            o as int,
            pi,
            2 * q + 1,
            0,
        );
        vstd::arithmetic::div_mod::lemma_mod_multiples_basic(q, 2);
        assert((2 * q + 1) % 2 == 1) by (nonlinear_arith)
            requires
                (q * 2) % 2 == 0,
        ;
        assert((o >> k) % 2 == 1);
        assert(((o >> k) % 2 == 1) ==> (o ^ (1u64 << k)) == o - (1u64 << k)) by (bit_vector)
            requires
                k < 64,
        ;
    }
}

/// Buddy pair coalescing, in either order: freeing a class-`k` block
/// and then its buddy — or the other way round — from a state where
/// neither half is tracked and the merged parent's own buddy is not
/// tracked either, reaches the same final state: list `k` is left as it
/// was, and exactly one merged block of class `k + 1`, covering both
/// halves, becomes the head of its list. The transitions are the ones
/// `free` ensures (`spec_free`).
pub proof fn lemma_buddy_pair_coalesces(
    ls: Seq<Seq<usize>>,
    o: usize,
    k: nat,
    last: nat,
    size: nat,
)
    requires
        lists_wf(ls, size, last),
        size <= usize::MAX,
        k < last,
        k + 1 < ls.len(),
        block_ok(o as nat, k, size),
        !ls[k as int].contains(o),
        !ls[k as int].contains(buddy_spec(o as nat, k) as usize),
        k + 1 == last || !ls[k as int + 1].contains(
            buddy_spec(merged_start(o as nat, k), k + 1) as usize,
        ),
    ensures
        ({
            let b = buddy_spec(o as nat, k) as usize;
            let ms = merged_start(o as nat, k) as usize;
            let joined = ls.update(k as int + 1, ls[k as int + 1].insert(0, ms));
            &&& spec_free(spec_free(ls, o as nat, k, last), b as nat, k, last) =~~= joined
            &&& spec_free(spec_free(ls, b as nat, k, last), o as nat, k, last) =~~= joined
            &&& ms <= o as nat && o + pow2(k) <= ms + pow2(k + 1)
            &&& ms <= b as nat && b + pow2(k) <= ms + pow2(k + 1)
        }),
{
    lemma_buddy_props(o as nat, k);
    lemma_pow2_pos(k);
    let b = buddy_spec(o as nat, k) as usize;
    let ms = merged_start(o as nat, k) as usize;
    assert(0 <= buddy_spec(o as nat, k) <= size);
    assert(b as nat == buddy_spec(o as nat, k));
    lemma_one_order(ls, o, b, k, last, size);
    lemma_buddy_props(b as nat, k);
    assert(buddy_spec(b as nat, k) == o);
    assert(merged_start(b as nat, k) == merged_start(o as nat, k));
    lemma_one_order(ls, b, o, k, last, size);
}

/// One order of the pair: freeing `o` (whose buddy `b` is untracked)
/// pushes it; freeing `b` next removes it again and pushes the merged
/// parent.
proof fn lemma_one_order(ls: Seq<Seq<usize>>, o: usize, b: usize, k: nat, last: nat, size: nat)
    requires
        lists_wf(ls, size, last),
        k < last,
        k + 1 < ls.len(),
        b == buddy_spec(o as nat, k),
        buddy_spec(b as nat, k) == o,
        merged_start(b as nat, k) == merged_start(o as nat, k),
        !ls[k as int].contains(o),
        !ls[k as int].contains(b),
        k + 1 == last || !ls[k as int + 1].contains(
            buddy_spec(merged_start(o as nat, k), k + 1) as usize,
        ),
    ensures
        spec_free(spec_free(ls, o as nat, k, last), b as nat, k, last) =~~= ls.update(
            k as int + 1,
            ls[k as int + 1].insert(0, (merged_start(o as nat, k) as usize)),
        ),
{
    let kk = k as int;
    let ms = merged_start(o as nat, k) as usize;
    // first free: the buddy is untracked, so `o` is pushed
    let ls1 = spec_free(ls, o as nat, k, last);
    assert(ls1 == ls.update(kk, ls[kk].insert(0, o)));
    // second free: `o` is found, only at the head
    assert(ls1[kk][0] == o);
    assert(ls1[kk].contains(o));
    let p = ls1[kk].index_of(o);
    assert(0 <= p < ls1[kk].len() && ls1[kk][p] == o);
    if p != 0 {
        assert(ls1[kk][p] == ls[kk][p - 1]);
        assert(ls[kk].contains(o));
        assert(false);
    }
    let ls2 = ls1.update(kk, ls1[kk].remove(0));
    assert(ls1[kk].remove(0) =~= ls[kk]);
    assert(spec_free(ls1, b as nat, k, last) == spec_free(ls2, ms as nat, k + 1, last));
    // the merged parent finds no partner of its own and is pushed
    assert(ls2[kk + 1] == ls[kk + 1]);
    if k + 1 < last {
        assert(!ls2[kk + 1].contains(buddy_spec(ms as nat, k + 1) as usize));
    }
    assert(spec_free(ls2, ms as nat, k + 1, last) == ls2.update(
        kk + 1,
        ls2[kk + 1].insert(0, ms),
    ));
}

/// Freeing only regroups free bytes into larger blocks: after the whole
/// coalescing cascade a byte lies in some free block exactly when it did
/// before or lies in the block being freed. No free byte is lost and
/// none appears elsewhere.
#[verifier::rlimit(80)]
pub proof fn lemma_free_preserves_extents(
    ls: Seq<Seq<usize>>,
    off: nat,
    k: nat,
    last: nat,
    size: nat,
)
    requires
        lists_wf(ls, size, last),
        size <= usize::MAX,
        k <= last,
        last < ls.len(),
        block_ok(off, k, size),
        free_of(ls, off, k),
    ensures
        forall|i: int|
            byte_in_free(spec_free(ls, off, k, last), i) <==> (byte_in_free(ls, i) || off <= i
                < off + pow2(k)),
    decreases last - k,
{
    lemma_pow2_pos(k);
    lemma_buddy_props(off, k);
    let kk = k as int;
    let bd = buddy_spec(off, k);
    let res = spec_free(ls, off, k, last);
    if k < last && ls[kk].contains(bd as usize) {
        let p = ls[kk].index_of(bd as usize);
        assert(0 <= p < ls[kk].len() && ls[kk][p] == bd as usize);
        lemma_wf_remove(ls, size, last, kk, p);
        let mid = ls.update(kk, ls[kk].remove(p));
        let ms = merged_start(off, k);
        lemma_pow2_le(k, k + 1);
        assert(block_ok(ls[kk][p] as nat, k, size));
        assert(bd <= size);
        assert(ls[kk][p] as nat == bd);
        assert(pow2(k + 1) == 2 * pow2(k));
        if off % pow2(k + 1) == 0 {
            assert(ms == off && bd == off + pow2(k));
        } else {
            assert(bd == ms && off == ms + pow2(k));
        }
        assert(block_ok(ms, k + 1, size));
        assert forall|k2: int, i2: int|
            0 <= k2 < mid.len() && 0 <= i2 < mid[k2].len() implies blocks_disjoint(
            ms,
            k + 1,
            #[trigger] mid[k2][i2] as nat,
            k2 as nat,
        ) by {
            let j2 = if k2 == kk && i2 >= p {
                i2 + 1
            } else {
                i2
            };
            assert(mid[k2][i2] == ls[k2][j2]);
            assert(blocks_disjoint(off, k, ls[k2][j2] as nat, k2 as nat));
            assert(blocks_disjoint(ls[kk][p] as nat, k, ls[k2][j2] as nat, k2 as nat));
        }
        lemma_free_preserves_extents(mid, ms, k + 1, last, size);
        // a byte is free in the trimmed state exactly when it was free
        // and does not lie in the unlinked buddy
        assert forall|i: int|
            byte_in_free(mid, i) implies (byte_in_free(ls, i) && !(bd <= i < bd + pow2(k))) by {
            let (k2, i2) = choose|k2: int, i2: int|
                0 <= k2 < mid.len() && 0 <= i2 < mid[k2].len() && #[trigger] mid[k2][i2] <= i
                    < mid[k2][i2] + pow2(k2 as nat);
            let j2 = if k2 == kk && i2 >= p {
                i2 + 1
            } else {
                i2
            };
            assert(mid[k2][i2] == ls[k2][j2]);
            assert(ls[k2][j2] <= i < ls[k2][j2] + pow2(k2 as nat));
            if k2 != kk || j2 != p {
                assert(blocks_disjoint(ls[k2][j2] as nat, k2 as nat, ls[kk][p] as nat, k));
            }
        }
        assert forall|i: int|
            byte_in_free(ls, i) && !(bd <= i < bd + pow2(k)) implies byte_in_free(mid, i) by {
            let (k2, j2) = choose|k2: int, j2: int|
                0 <= k2 < ls.len() && 0 <= j2 < ls[k2].len() && #[trigger] ls[k2][j2] <= i
                    < ls[k2][j2] + pow2(k2 as nat);
            if k2 == kk && j2 == p {
                assert(false);
            } else {
                let i2 = if k2 == kk && j2 > p {
                    j2 - 1
                } else {
                    j2
                };
                assert(mid[k2][i2] == ls[k2][j2]);
                assert(mid[k2][i2] <= i < mid[k2][i2] + pow2(k2 as nat));
                assert(byte_in_free(mid, i));
            }
        }
        // the merged extent is exactly the two halves side by side
        assert(res == spec_free(mid, ms, k + 1, last));
        assert forall|i: int|
            #[trigger] byte_in_free(res, i) == (byte_in_free(ls, i) || off <= i < off + pow2(
                k,
            )) by {
            assert(byte_in_free(res, i) == (byte_in_free(mid, i) || ms <= i < ms + pow2(k + 1)));
            if bd <= i < bd + pow2(k) {
                assert(ls[kk][p] <= i < ls[kk][p] + pow2(k));
                assert(byte_in_free(ls, i));
            }
            if byte_in_free(mid, i) {
                assert(byte_in_free(ls, i));
            }
            if byte_in_free(ls, i) && !(bd <= i < bd + pow2(k)) {
                assert(byte_in_free(mid, i));
            }
        }
    } else {
        assert(res == ls.update(kk, ls[kk].insert(0, off as usize)));
        assert forall|i: int|
            byte_in_free(res, i) implies (byte_in_free(ls, i) || off <= i < off + pow2(k)) by {
            let (k2, i2) = choose|k2: int, i2: int|
                0 <= k2 < res.len() && 0 <= i2 < res[k2].len() && #[trigger] res[k2][i2] <= i
                    < res[k2][i2] + pow2(k2 as nat);
            if k2 == kk && i2 == 0 {
            } else {
                let j2 = if k2 == kk {
                    i2 - 1
                } else {
                    i2
                };
                assert(res[k2][i2] == ls[k2][j2]);
                assert(ls[k2][j2] <= i < ls[k2][j2] + pow2(k2 as nat));
            }
        }
        assert forall|i: int|
            (byte_in_free(ls, i) || off <= i < off + pow2(k)) implies byte_in_free(res, i) by {
            if off <= i < off + pow2(k) {
                assert(res[kk][0] == off);
                assert(res[kk][0] <= i < res[kk][0] + pow2(k));
                assert(byte_in_free(res, i));
            } else {
                let (k2, j2) = choose|k2: int, j2: int|
                    0 <= k2 < ls.len() && 0 <= j2 < ls[k2].len() && #[trigger] ls[k2][j2] <= i
                        < ls[k2][j2] + pow2(k2 as nat);
                let i2 = if k2 == kk {
                    j2 + 1
                } else {
                    j2
                };
                assert(res[k2][i2] == ls[k2][j2]);
                assert(res[k2][i2] <= i < res[k2][i2] + pow2(k2 as nat));
                assert(byte_in_free(res, i));
            }
        }
    }
}

/// Split/merge symmetry: from a freshly initialized arena whose single
/// free block has class `last`, allocating that whole block (which pops
/// it with no split) and freeing it again (which finds no buddy and
/// pushes it back) leaves the free lists exactly as after
/// initialization. The two hypotheses relating `s1` and `s2` are what
/// `allocate` and `free` ensure in that scenario.
pub proof fn lemma_split_merge_symmetry(
    s0: BuddyAllocator,
    s1: BuddyAllocator,
    s2: BuddyAllocator,
    last: int,
)
    requires
        0 <= last < NUM_CLASSES,
        s0.lists_view().len() == NUM_CLASSES,
        s1.lists_view().len() == NUM_CLASSES,
        s0.list(last) == seq![0usize],
        forall|c: int| 0 <= c < NUM_CLASSES && c != last ==> (#[trigger] s0.list(c)).len() == 0,
        forall|c: int| 0 <= c < NUM_CLASSES ==> (#[trigger] s1.list(c)).len() == 0,
        s2.lists_view() == spec_free(s1.lists_view(), 0, last as nat, last as nat),
    ensures
        s2.lists_view() =~~= s0.lists_view(),
{
    assert(s2.lists_view() == s1.lists_view().update(
        last,
        s1.lists_view()[last].insert(0, 0usize),
    ));
    assert forall|c: int| 0 <= c < NUM_CLASSES implies s2.lists_view()[c] =~= s0.lists_view()[c] by {
        assert(s0.lists_view()[c] == s0.list(c));
        if c == last {
            assert(s2.lists_view()[c] == s1.list(last).insert(0, 0usize));
            assert(s1.list(last).len() == 0);
            assert(s1.list(last).insert(0, 0usize) =~= seq![0usize]);
        } else {
            assert(s2.lists_view()[c] == s1.lists_view()[c]);
            assert(s1.lists_view()[c] == s1.list(c));
            assert(s1.list(c).len() == 0);
            assert(s0.list(c).len() == 0);
        }
    }
}

} // verus!
