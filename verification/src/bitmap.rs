//! A set of `u16` values kept as a bitmap: a vector of 64-bit buckets, one
//! bit per value, together with a cached count of the bits that are set.
//!
//! The abstract value of a [`Bitmap`] is the sequence of its bits (`bm@`),
//! of which [`crate::bitseq`] states what every operation does to it.

use crate::bitseq::{
    ascending, built, complement_of, count, difference_of, grown, intersection_of,
    last_bucket_clear, lemma_count_add, lemma_count_bound, lemma_count_complement,
    lemma_count_grown, lemma_count_update, lemma_count_zero, lemma_members, lemma_members_skip,
    lemma_trimmed, lemma_with_bit, lemma_without_bit, member, members, members_from, trimmed,
    union_of, with_bit, without_bit, zeros,
};
use crate::word::{
    bits_of, lemma_bit_mask, lemma_bit_ops, lemma_bits_of_push, lemma_bits_of_zeros,
    lemma_word_zero, word_bit, word_bits,
};
use vstd::prelude::*;

verus! {

/// Number of buckets of a bitmap made by [`Bitmap::new`].
pub const DEFAULT_CAPACITY: usize = 4;

/// Number of values that one bucket holds.
pub const BITS_PER_BUCKET: usize = 64;

/// The largest number of buckets whose bits a `usize` can still count.
pub const MAX_BUCKETS: usize = usize::MAX / 64;

/// A bitmap implementation.
///
/// An efficient set implementation making use of bit-level parallelism to
/// improve the performance of aggregate operations. It supports adding and
/// removing an integer, querying for membership, the union, intersection,
/// difference and complement, and querying the number of members.
#[derive(Debug, Clone)]
pub struct Bitmap {
    buckets: Vec<u64>,
    cardinality: usize,
}

impl View for Bitmap {
    type V = Seq<bool>;

    /// The bits of the bitmap: bit `n` tells whether `n` is a member, and
    /// there are 64 bits for every bucket.
    closed spec fn view(&self) -> Seq<bool> {
        bits_of(self.buckets@)
    }
}

impl Bitmap {
    /// The representation invariant: the cached cardinality is the number of
    /// bits that are set, and the bits are few enough to be counted in a
    /// `usize`. Every constructor establishes it and every method keeps it.
    pub closed spec fn wf(&self) -> bool {
        &&& self.buckets@.len() <= MAX_BUCKETS
        &&& self.cardinality == count(self@)
    }

    /// Creates a new bitmap of [`DEFAULT_CAPACITY`] buckets without members.
    pub fn new() -> (r: Bitmap)
        ensures
            r.wf(),
            r@ == zeros(64 * DEFAULT_CAPACITY as nat),
    {
        Bitmap::with_capacity(DEFAULT_CAPACITY)
    }

    /// Creates a new bitmap with the given number of buckets and without
    /// members; one bucket holds 64 integers. The number of buckets is
    /// bounded by [`MAX_BUCKETS`], beyond which a bitmap could hold more
    /// members than its cardinality, a `usize`, can count.
    pub fn with_capacity(num_buckets: usize) -> (r: Bitmap)
        requires
            num_buckets <= MAX_BUCKETS,
        ensures
            r.wf(),
            r@ == zeros(64 * num_buckets as nat),
    {
        let r = Bitmap { buckets: vec![0; num_buckets], cardinality: 0 };
        proof {
            lemma_bits_of_zeros(r.buckets@);
            lemma_count_zero(r@);
        }
        r
    }

    /// Returns the number of buckets, which a well-formed bitmap keeps
    /// within [`MAX_BUCKETS`].
    pub fn num_buckets(&self) -> (r: usize)
        ensures
            64 * r == self@.len(),
            self.wf() ==> r <= MAX_BUCKETS,
    {
        self.buckets.len()
    }

    /// Returns the cardinality of the bitmap, which is kept up to date by
    /// every operation and so is read, not computed.
    pub fn cardinality(&self) -> (r: usize)
        requires
            self.wf(),
        ensures
            r == count(self@),
    {
        self.cardinality
    }

    /// Checks if the integer `n` is in the bitmap. A value beyond the last
    /// bucket is absent; the bitmap does not grow.
    pub fn get(&self, n: u16) -> (r: bool)
        ensures
            r == member(self@, n as int),
    {
        let bucket: usize = n as usize / BITS_PER_BUCKET;
        if bucket >= self.num_buckets() {
            return false;
        }
        let pos: usize = n as usize % BITS_PER_BUCKET;
        proof {
            lemma_bit_mask(self.buckets@[bucket as int], pos as int, pos as int);
        }
        0 != self.buckets[bucket] & (1u64 << pos)
    }

    /// Adds the integer `n` to the bitmap. Where `n` lies beyond the last
    /// bucket, the bitmap first grows by zero-filled buckets up to the one
    /// that holds `n`. The cached cardinality goes up by one only if `n`
    /// was not a member before.
    pub fn set(&mut self, n: u16)
        requires
            old(self).wf(),
        ensures
            final(self).wf(),
            final(self)@ == with_bit(old(self)@, n as int),
            member(final(self)@, n as int),
            forall|m: int| m != n ==> member(final(self)@, m) == member(old(self)@, m),
            count(final(self)@) == count(old(self)@) + if member(old(self)@, n as int) {
                0int
            } else {
                1int
            },
    {
        proof {
            lemma_with_bit(self@, n as int);
        }
        let bucket: usize = n as usize / BITS_PER_BUCKET;
        let num: usize = self.num_buckets();
        let ghost before = self.buckets@;
        if bucket >= num {
            let missing: usize = bucket - num + 1;
            let fill: Vec<u64> = vec![0; missing];
            self.buckets.extend_from_slice(fill.as_slice());
            proof {
                lemma_bits_of_extend(before, self.buckets@);
            }
        }
        let ghost words = self.buckets@;
        let pos: usize = n as usize % BITS_PER_BUCKET;
        let word: u64 = self.buckets[bucket];
        proof {
            let g = bits_of(words);
            assert(g == grown(bits_of(before), 64 * (n as int / 64 + 1)));
            lemma_count_grown(bits_of(before), 64 * (n as int / 64 + 1));
            lemma_count_update(g, n as int, true);
            lemma_count_bound(g.update(n as int, true));
            lemma_bit_mask(word, pos as int, pos as int);
            assert(g[n as int] == word_bit(word, pos as int));
        }
        // Add 1 to cardinality if bit isn't set.
        self.cardinality += 1 - ((word >> pos) & 1) as usize;
        self.buckets[bucket] = word | (1u64 << pos);
        proof {
            lemma_bits_of_set(words, bucket as int, pos as int);
        }
    }

    /// Removes the integer `n` from the bitmap. Where `n` lies beyond the
    /// last bucket it was absent already and nothing changes. The cached
    /// cardinality goes down by one only if `n` was a member before.
    pub fn unset(&mut self, n: u16)
        requires
            old(self).wf(),
        ensures
            final(self).wf(),
            final(self)@ == without_bit(old(self)@, n as int),
            !member(final(self)@, n as int),
            forall|m: int| m != n ==> member(final(self)@, m) == member(old(self)@, m),
            count(final(self)@) == count(old(self)@) - if member(old(self)@, n as int) {
                1int
            } else {
                0int
            },
    {
        proof {
            lemma_without_bit(self@, n as int);
        }
        let bucket: usize = n as usize / BITS_PER_BUCKET;
        if bucket < self.num_buckets() {
            let ghost words = self.buckets@;
            let pos: usize = n as usize % BITS_PER_BUCKET;
            let word: u64 = self.buckets[bucket];
            proof {
                let g = bits_of(words);
                lemma_count_update(g, n as int, false);
                lemma_bit_mask(word, pos as int, pos as int);
                assert(g[n as int] == word_bit(word, pos as int));
            }
            // Subtract 1 from cardinality if bit is set.
            self.cardinality -= ((word >> pos) & 1) as usize;
            self.buckets[bucket] = word & !(1u64 << pos);
            proof {
                lemma_bits_of_clear(words, bucket as int, pos as int);
            }
        }
    }

    /// Returns the number of integers in the bitmap, recomputed from the
    /// buckets by a population count of each.
    pub fn count(&self) -> (r: usize)
        requires
            self.wf(),
        ensures
            r == count(self@),
    {
        count_words(&self.buckets)
    }

    /// Returns the set union of two bitmaps. The result is as long as the
    /// longer operand; a bucket that one operand lacks counts as zero.
    pub fn union(&self, other: &Bitmap) -> (r: Bitmap)
        requires
            self.wf(),
            other.wf(),
        ensures
            r.wf(),
            r@ == union_of(self@, other@),
    {
        let n1: usize = self.num_buckets();
        let n2: usize = other.num_buckets();
        let len: usize = if n1 >= n2 {
            n1
        } else {
            n2
        };
        let mut buckets: Vec<u64> = vec![0; len];
        let mut i: usize = 0;
        while i < len
            invariant
                n1 == self.buckets@.len(),
                n2 == other.buckets@.len(),
                len == buckets@.len(),
                len == if n1 >= n2 {
                    n1
                } else {
                    n2
                },
                i <= len,
                forall|k: int|
                    0 <= k < i ==> buckets@[k] == (if k < n1 {
                        self.buckets@[k]
                    } else {
                        0
                    }) | (if k < n2 {
                        other.buckets@[k]
                    } else {
                        0
                    }),
                forall|k: int| i <= k < len ==> buckets@[k] == 0,
            decreases len - i,
        {
            let mut b: u64 = buckets[i];
            proof {
                lemma_or_zero(0);
            }
            if i < n1 {
                proof {
                    lemma_or_zero(self.buckets@[i as int]);
                }
                b |= self.buckets[i];
            }
            if i < n2 {
                b |= other.buckets[i];
            }
            buckets[i] = b;
            i += 1;
        }
        proof {
            let l = bits_of(buckets@);
            let r = union_of(self@, other@);
            assert forall|j: int| 0 <= j < l.len() implies l[j] == r[j] by {
                let k = j / 64;
                let x: u64 = if k < n1 {
                    self.buckets@[k]
                } else {
                    0
                };
                let y: u64 = if k < n2 {
                    other.buckets@[k]
                } else {
                    0
                };
                lemma_bit_ops(x, y, j % 64);
                lemma_bit_ops(y, x, j % 64);
            }
            assert(l =~= r);
        }
        let cardinality = count_words(&buckets);
        Bitmap { buckets, cardinality }
    }

    /// Returns the set intersection of two bitmaps. The result is as long
    /// as the shorter operand.
    pub fn intersection(&self, other: &Bitmap) -> (r: Bitmap)
        requires
            self.wf(),
            other.wf(),
        ensures
            r.wf(),
            r@ == intersection_of(self@, other@),
    {
        let n1: usize = self.num_buckets();
        let n2: usize = other.num_buckets();
        let len: usize = if n1 <= n2 {
            n1
        } else {
            n2
        };
        let mut buckets: Vec<u64> = vec![0; len];
        let mut i: usize = 0;
        while i < len
            invariant
                n1 == self.buckets@.len(),
                n2 == other.buckets@.len(),
                len == buckets@.len(),
                len <= n1,
                len <= n2,
                i <= len,
                forall|k: int| 0 <= k < i ==> buckets@[k] == self.buckets@[k] & other.buckets@[k],
            decreases len - i,
        {
            buckets[i] = self.buckets[i] & other.buckets[i];
            i += 1;
        }
        proof {
            let l = bits_of(buckets@);
            let r = intersection_of(self@, other@);
            assert forall|j: int| 0 <= j < l.len() implies l[j] == r[j] by {
                lemma_bit_ops(self.buckets@[j / 64], other.buckets@[j / 64], j % 64);
            }
            assert(l =~= r);
        }
        let cardinality = count_words(&buckets);
        Bitmap { buckets, cardinality }
    }

    /// Returns the difference between two sets; an integer `n` is included
    /// in the result if it is present in the set on the left, but not in the
    /// set on the right. The result is as long as the left operand, also
    /// where the right one is shorter: buckets of the left operand beyond
    /// the end of the right one are taken over unchanged.
    pub fn difference(&self, other: &Bitmap) -> (r: Bitmap)
        requires
            self.wf(),
            other.wf(),
        ensures
            r.wf(),
            r@ == difference_of(self@, other@),
    {
        let n1: usize = self.num_buckets();
        let n2: usize = other.num_buckets();
        let n: usize = if n1 <= n2 {
            n1
        } else {
            n2
        };
        let mut buckets: Vec<u64> = self.buckets.clone();
        let mut i: usize = 0;
        while i < n
            invariant
                n1 == self.buckets@.len(),
                n2 == other.buckets@.len(),
                n1 == buckets@.len(),
                n <= n1,
                n <= n2,
                i <= n,
                forall|k: int|
                    0 <= k < i ==> buckets@[k] == self.buckets@[k] & !other.buckets@[k],
                forall|k: int| i <= k < n1 ==> buckets@[k] == self.buckets@[k],
            decreases n - i,
        {
            buckets[i] = buckets[i] & !other.buckets[i];
            i += 1;
        }
        proof {
            let l = bits_of(buckets@);
            let r = difference_of(self@, other@);
            assert forall|j: int| 0 <= j < l.len() implies l[j] == r[j] by {
                let k = j / 64;
                if k < n {
                    lemma_bit_ops(self.buckets@[k], !other.buckets@[k], j % 64);
                    lemma_bit_ops(other.buckets@[k], 0, j % 64);
                }
            }
            assert(l =~= r);
        }
        let cardinality = count_words(&buckets);
        Bitmap { buckets, cardinality }
    }

    /// Returns the complement of a bitmap. Only the bits present in the
    /// buckets are flipped: no new integers are added to the set beyond the
    /// last bucket, so the result holds `64 * num_buckets - cardinality`
    /// integers.
    pub fn complement(&self) -> (r: Bitmap)
        requires
            self.wf(),
        ensures
            r.wf(),
            r@ == complement_of(self@),
            count(r@) == self@.len() - count(self@),
    {
        let n: usize = self.num_buckets();
        let mut buckets: Vec<u64> = self.buckets.clone();
        let mut i: usize = 0;
        while i < n
            invariant
                n == self.buckets@.len(),
                n == buckets@.len(),
                i <= n,
                forall|k: int| 0 <= k < i ==> buckets@[k] == !self.buckets@[k],
                forall|k: int| i <= k < n ==> buckets@[k] == self.buckets@[k],
            decreases n - i,
        {
            buckets[i] = !buckets[i];
            i += 1;
        }
        proof {
            let l = bits_of(buckets@);
            let r = complement_of(self@);
            assert forall|j: int| 0 <= j < l.len() implies l[j] == r[j] by {
                lemma_bit_ops(self.buckets@[j / 64], 0, j % 64);
            }
            assert(l =~= r);
            lemma_count_complement(self@);
            lemma_count_bound(self@);
        }
        let cardinality = n * BITS_PER_BUCKET - self.cardinality;
        Bitmap { buckets, cardinality }
    }

    /// Removes the unnecessary buckets, i.e., the ones at the end of the
    /// vector that are zero. Stops at the first non-zero bucket or when all
    /// buckets have been removed. No membership changes.
    pub fn compact(&mut self)
        requires
            old(self).wf(),
        ensures
            final(self).wf(),
            final(self)@ == trimmed(old(self)@),
            forall|n: int| member(final(self)@, n) == member(old(self)@, n),
            count(final(self)@) == count(old(self)@),
    {
        proof {
            lemma_trimmed(self@);
        }
        while !self.buckets.is_empty()
            invariant
                self.wf(),
                trimmed(self@) == trimmed(old(self)@),
            ensures
                self.wf(),
                self@ == trimmed(old(self)@),
            decreases self.buckets@.len(),
        {
            let last: usize = self.buckets.len() - 1;
            let ghost words = self.buckets@;
            proof {
                lemma_last_bucket(words);
            }
            if self.buckets[last] == 0 {
                self.buckets.pop();
                proof {
                    let s = bits_of(words);
                    let t = bits_of(self.buckets@);
                    assert(t =~= s.take(s.len() - 64));
                    let z = s.skip(s.len() - 64);
                    assert(s =~= t + z);
                    lemma_count_add(t, z);
                    lemma_count_zero(z);
                }
            } else {
                break ;
            }
        }
    }

    /// Builds the bitmap of the values of `elems`, which may come in any
    /// order and repeat; the same as setting each of them in turn in a new
    /// bitmap.
    pub fn from(elems: &[u16]) -> (r: Bitmap)
        ensures
            r.wf(),
            r@ == built(64 * DEFAULT_CAPACITY as nat, elems@),
    {
        let mut bm = Bitmap::new();
        let mut i: usize = 0;
        proof {
            assert(elems@.take(0) =~= Seq::<u16>::empty());
        }
        while i < elems.len()
            invariant
                i <= elems@.len(),
                bm.wf(),
                bm@ == built(64 * DEFAULT_CAPACITY as nat, elems@.take(i as int)),
            decreases elems@.len() - i,
        {
            bm.set(elems[i]);
            proof {
                assert(elems@.take(i + 1).drop_last() =~= elems@.take(i as int));
            }
            i += 1;
        }
        proof {
            assert(elems@.take(elems@.len() as int) =~= elems@);
        }
        bm
    }

    /// An iterator over the members in ascending order that borrows the
    /// bitmap.
    pub fn iter(&self) -> (it: SharedBitmapIterator<'_>)
        requires
            self.wf(),
        ensures
            it.wf(),
            it.remaining() == members(self@),
    {
        SharedBitmapIterator { offset: 0, bitmap: self }
    }

    /// An iterator over the members in ascending order that owns the bitmap.
    pub fn into_iter(self) -> (it: OwnedBitmapIterator)
        requires
            self.wf(),
        ensures
            it.wf(),
            it.remaining() == members(self@),
    {
        OwnedBitmapIterator { offset: 0, bitmap: self }
    }
}

/// The value that a cursor yields for the member `m`: `m` itself for every
/// member that a `u16` can hold, which is every member of a bitmap of at
/// most 1024 buckets; a larger one is cut down to its low 16 bits.
pub open spec fn yielded(m: int) -> u16 {
    (m % 0x10000) as u16
}

/// Iteration lists the members in strictly increasing order, each once, and
/// nothing else; and over a bitmap of at most 1024 buckets, which can hold
/// no member above the largest `u16`, it yields each member as it is.
pub proof fn lemma_iteration(s: Seq<bool>)
    ensures
        ascending(members(s)),
        forall|n: int| members(s).contains(n) <==> member(s, n),
        members(s).len() == count(s),
        s.len() <= 0x10000 ==> forall|k: int|
            0 <= k < members(s).len() ==> yielded(#[trigger] members(s)[k]) == members(s)[k],
{
    lemma_members(s);
    if s.len() <= 0x10000 {
        assert forall|k: int| 0 <= k < members(s).len() implies yielded(
            #[trigger] members(s)[k],
        ) == members(s)[k] by {
            let m = members(s)[k];
            assert(members(s).contains(m));
            assert(member(s, m));
        }
    }
}

/// A cursor at `offset` may skip a whole bucket at once only from the start
/// of the bucket: inside a bucket it stands only where that bucket holds a
/// member.
spec fn on_track(s: Seq<bool>, offset: int) -> bool {
    ||| offset % 64 == 0
    ||| offset >= s.len()
    ||| exists|k: int| 64 * (offset / 64) <= k < 64 * (offset / 64) + 64 && member(s, k)
}

/// A cursor over the members of a borrowed [`Bitmap`], in ascending order.
pub struct SharedBitmapIterator<'a> {
    offset: usize,
    bitmap: &'a Bitmap,
}

/// A cursor over the members of an owned [`Bitmap`], in ascending order.
pub struct OwnedBitmapIterator {
    offset: usize,
    bitmap: Bitmap,
}

impl<'a> SharedBitmapIterator<'a> {
    /// The representation invariant of the cursor.
    pub closed spec fn wf(&self) -> bool {
        self.bitmap.wf() && on_track(self.bitmap@, self.offset as int)
    }

    /// The members that are still to be yielded, in order.
    pub closed spec fn remaining(&self) -> Seq<int> {
        members_from(self.bitmap@, self.offset as int)
    }

    /// Yields the next member, or `None` once all have been yielded, and
    /// then again `None` on every later call.
    pub fn next(&mut self) -> (r: Option<u16>)
        requires
            old(self).wf(),
        ensures
            final(self).wf(),
            old(self).remaining().len() == 0 ==> r.is_none() && final(self).remaining().len() == 0,
            old(self).remaining().len() > 0 ==> r == Some(yielded(old(self).remaining()[0]))
                && final(self).remaining() == old(self).remaining().skip(1),
    {
        next_iter(&mut self.offset, self.bitmap)
    }
}

impl OwnedBitmapIterator {
    /// The representation invariant of the cursor.
    pub closed spec fn wf(&self) -> bool {
        self.bitmap.wf() && on_track(self.bitmap@, self.offset as int)
    }

    /// The members that are still to be yielded, in order.
    pub closed spec fn remaining(&self) -> Seq<int> {
        members_from(self.bitmap@, self.offset as int)
    }

    /// Yields the next member, or `None` once all have been yielded, and
    /// then again `None` on every later call.
    pub fn next(&mut self) -> (r: Option<u16>)
        requires
            old(self).wf(),
        ensures
            final(self).wf(),
            old(self).remaining().len() == 0 ==> r.is_none() && final(self).remaining().len() == 0,
            old(self).remaining().len() > 0 ==> r == Some(yielded(old(self).remaining()[0]))
                && final(self).remaining() == old(self).remaining().skip(1),
    {
        next_iter(&mut self.offset, &self.bitmap)
    }
}

/// One step of a cursor at `offset` over `bitmap`: scans forward to the next
/// member, skipping a bucket that is zero as a whole, and moves the cursor
/// past the member that it yields.
fn next_iter(offset: &mut usize, bitmap: &Bitmap) -> (r: Option<u16>)
    requires
        bitmap.wf(),
        on_track(bitmap@, *old(offset) as int),
    ensures
        on_track(bitmap@, *final(offset) as int),
        members_from(bitmap@, *old(offset) as int).len() == 0 ==> r.is_none() && members_from(
            bitmap@,
            *final(offset) as int,
        ).len() == 0,
        members_from(bitmap@, *old(offset) as int).len() > 0 ==> r == Some(
            yielded(members_from(bitmap@, *old(offset) as int)[0]),
        ) && members_from(bitmap@, *final(offset) as int) == members_from(
            bitmap@,
            *old(offset) as int,
        ).skip(1),
{
    let ghost s = bitmap@;
    let ghost start = *offset as int;
    loop
        invariant
            bitmap.wf(),
            s == bitmap@,
            start == *old(offset),
            start <= *offset,
            on_track(s, *offset as int),
            members_from(s, *offset as int) == members_from(s, start),
        decreases s.len() - *offset,
    {
        let bucket: usize = *offset / BITS_PER_BUCKET;
        let bit_pos: usize = *offset % BITS_PER_BUCKET;

        if bucket >= bitmap.num_buckets() {
            return None;
        }
        let word: u64 = bitmap.buckets[bucket];
        let ghost at = *offset as int;
        proof {
            lemma_word_zero(word);
            lemma_bit_mask(word, bit_pos as int, bit_pos as int);
            assert(s[at] == word_bit(word, bit_pos as int));
        }

        // Optimization: skip whole bucket when its value is zero.
        if word == 0 {
            proof {
                assert forall|k: int| 64 * bucket <= k < 64 * bucket + 64 implies !member(s, k) by {
                    assert(k / 64 == bucket as int);
                }
                lemma_members_skip(s, at, at + 64);
            }
            *offset += 64;
            continue ;
        }
        if word & (1u64 << bit_pos) == 0 {
            proof {
                lemma_members_skip(s, at, at + 1);
                lemma_on_track_next(s, bitmap.buckets@, at);
            }
            *offset += 1;
            continue ;
        }
        let x: usize = *offset;
        *offset += 1;
        proof {
            let rem = members_from(s, at);
            assert(rem =~= seq![at] + members_from(s, at + 1));
            assert(rem.skip(1) =~= members_from(s, at + 1));
            assert(member(s, at));
            assert(x as u16 == (x % 0x10000) as u16) by (bit_vector);
        }
        return Some(x as u16);
    }
}

/// A cursor inside a bucket that is not zero stays on track when it moves on
/// by one.
proof fn lemma_on_track_next(s: Seq<bool>, words: Seq<u64>, at: int)
    requires
        s == bits_of(words),
        0 <= at < s.len(),
        words[at / 64] != 0,
    ensures
        on_track(s, at + 1),
{
    if (at + 1) % 64 != 0 && at + 1 < s.len() {
        let b = at / 64;
        assert((at + 1) / 64 == b);
        lemma_word_zero(words[b]);
        let p = choose|p: int| 0 <= p < 64 && word_bit(words[b], p);
        let k = 64 * b + p;
        assert(k / 64 == b && k % 64 == p);
        assert(member(s, k));
    }
}

/// Returns the number of bits that are set in `words`: the sum of the
/// population counts of the words.
fn count_words(words: &Vec<u64>) -> (r: usize)
    requires
        words@.len() <= MAX_BUCKETS,
    ensures
        r == count(bits_of(words@)),
{
    let mut total: usize = 0;
    let mut i: usize = 0;
    proof {
        assert(words@.take(0) =~= Seq::<u64>::empty());
    }
    while i < words.len()
        invariant
            i <= words@.len(),
            words@.len() <= MAX_BUCKETS,
            total == count(bits_of(words@.take(i as int))),
            total <= 64 * i,
        decreases words@.len() - i,
    {
        let ones: u32 = words[i].count_ones();
        proof {
            let w = words@[i as int];
            assert(words@.take(i + 1) =~= words@.take(i as int).push(w));
            lemma_bits_of_push(words@.take(i as int), w);
            lemma_count_add(bits_of(words@.take(i as int)), word_bits(w));
            lemma_count_bound(word_bits(w));
        }
        total += ones as usize;
        i += 1;
    }
    proof {
        assert(words@.take(words@.len() as int) =~= words@);
    }
    total
}

/// Or-ing with zero changes nothing.
proof fn lemma_or_zero(x: u64)
    by (bit_vector)
    ensures
        0u64 | x == x,
        x | 0u64 == x,
{
}

/// The last word is zero exactly if the last bucket of the bits is clear.
proof fn lemma_last_bucket(words: Seq<u64>)
    requires
        words.len() > 0,
    ensures
        words.last() == 0 <==> last_bucket_clear(bits_of(words)),
{
    let s = bits_of(words);
    let w = words.last();
    lemma_word_zero(w);
    if w == 0 {
        assert forall|i: int| s.len() - 64 <= i < s.len() implies !s[i] by {
            assert(i / 64 == words.len() - 1);
        }
    }
    if last_bucket_clear(s) {
        assert forall|p: int| 0 <= p < 64 implies !word_bit(w, p) by {
            let i = 64 * (words.len() - 1) + p;
            assert(i / 64 == words.len() - 1 && i % 64 == p);
            assert(!s[i]);
        }
    }
}

/// Words extended by zero words hold the old bits followed by cleared bits.
proof fn lemma_bits_of_extend(before: Seq<u64>, after: Seq<u64>)
    requires
        before.len() <= after.len(),
        forall|k: int| 0 <= k < before.len() ==> after[k] == before[k],
        forall|k: int| before.len() <= k < after.len() ==> after[k] == 0,
    ensures
        bits_of(after) == grown(bits_of(before), 64 * (after.len() as int)),
{
    let l = bits_of(after);
    let r = grown(bits_of(before), 64 * (after.len() as int));
    assert forall|i: int| 0 <= i < l.len() implies l[i] == r[i] by {
        if i < 64 * before.len() {
            assert(after[i / 64] == before[i / 64]);
        } else {
            assert(after[i / 64] == 0);
            lemma_bit_ops(0, 0, i % 64);
        }
    }
    assert(l =~= r);
}

/// Or-ing the single bit `pos` into word `bucket` sets bit `64 * bucket +
/// pos` and no other.
proof fn lemma_bits_of_set(words: Seq<u64>, bucket: int, pos: int)
    requires
        0 <= bucket < words.len(),
        0 <= pos < 64,
    ensures
        bits_of(words.update(bucket, words[bucket] | (1u64 << (pos as u64)))) == bits_of(
            words,
        ).update(64 * bucket + pos, true),
{
    let w = words[bucket];
    let mask = 1u64 << (pos as u64);
    let after = words.update(bucket, w | mask);
    let l = bits_of(after);
    let r = bits_of(words).update(64 * bucket + pos, true);
    assert forall|i: int| 0 <= i < l.len() implies l[i] == r[i] by {
        if i / 64 == bucket {
            lemma_bit_ops(w, mask, i % 64);
            lemma_bit_mask(w, pos, i % 64);
        }
    }
    assert(l =~= r);
}

/// And-ing the single bit `pos` out of word `bucket` clears bit `64 * bucket
/// + pos` and no other.
proof fn lemma_bits_of_clear(words: Seq<u64>, bucket: int, pos: int)
    requires
        0 <= bucket < words.len(),
        0 <= pos < 64,
    ensures
        bits_of(words.update(bucket, words[bucket] & !(1u64 << (pos as u64)))) == bits_of(
            words,
        ).update(64 * bucket + pos, false),
{
    let w = words[bucket];
    let mask = 1u64 << (pos as u64);
    let after = words.update(bucket, w & !mask);
    let l = bits_of(after);
    let r = bits_of(words).update(64 * bucket + pos, false);
    assert forall|i: int| 0 <= i < l.len() implies l[i] == r[i] by {
        if i / 64 == bucket {
            lemma_bit_ops(w, !mask, i % 64);
            lemma_bit_ops(mask, mask, i % 64);
            lemma_bit_mask(w, pos, i % 64);
        }
    }
    assert(l =~= r);
}

} // verus!
