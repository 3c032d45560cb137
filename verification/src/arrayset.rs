//! A set of `u16` values kept as a sorted, duplicate-free vector.
//!
//! The abstract value of an [`ArraySet`] is the mathematical set of its
//! members (`set@`). The order in which the members are stored, and in which
//! iteration yields them, is exposed as [`ArraySet::ordered`].

use vstd::prelude::*;

verus! {

/// Number of `u16` values that fit in one 64-byte cache line; used as the
/// initial allocation of a new set. It is a hint only and never a limit.
pub const INIT_CAPACITY: usize = 32;

/// Size of the universe of `u16` values.
pub const UNIVERSE: usize = 65536;

/// `s` is strictly increasing, hence free of duplicates.
pub open spec fn strictly_increasing(s: Seq<u16>) -> bool {
    forall|i: int, j: int| 0 <= i < j < s.len() ==> s[i] < s[j]
}

/// A strictly increasing sequence has no duplicates, so it is as long as the
/// set of its values is large.
pub proof fn lemma_increasing_len(s: Seq<u16>)
    requires
        strictly_increasing(s),
    ensures
        s.no_duplicates(),
        s.to_set().finite(),
        s.to_set().len() == s.len(),
{
    s.unique_seq_to_set();
    vstd::seq_lib::seq_to_set_is_finite(s);
}

/// Two strictly increasing sequences with the same values are the same
/// sequence: the sorted listing of a set is unique.
pub proof fn lemma_increasing_unique(s: Seq<u16>, t: Seq<u16>)
    requires
        strictly_increasing(s),
        strictly_increasing(t),
        s.to_set() == t.to_set(),
    ensures
        s == t,
    decreases s.len(),
{
    lemma_increasing_len(s);
    lemma_increasing_len(t);
    if s.len() == 0 {
        assert(s =~= t);
    } else {
        // The last element of each is the maximum of the common set.
        let a = s.last();
        let b = t.last();
        assert(s.to_set().contains(a)) by {
            assert(s[s.len() - 1] == a);
        }
        assert(t.to_set().contains(b)) by {
            assert(t[t.len() - 1] == b);
        }
        assert(t.contains(a));
        assert(s.contains(b));
        let ia = choose|i: int| 0 <= i < t.len() && t[i] == a;
        let ib = choose|i: int| 0 <= i < s.len() && s[i] == b;
        assert(a == b) by {
            if ia < t.len() - 1 {
                assert(t[ia] < t[t.len() - 1]);
            }
            if ib < s.len() - 1 {
                assert(s[ib] < s[s.len() - 1]);
            }
        }
        let s0 = s.drop_last();
        let t0 = t.drop_last();
        assert(s0.to_set() =~= t0.to_set()) by {
            assert forall|x: u16| s0.to_set().contains(x) <==> t0.to_set().contains(x) by {
                if s0.contains(x) {
                    let i = choose|i: int| 0 <= i < s0.len() && s0[i] == x;
                    assert(s[i] == x && s[i] < s[s.len() - 1]);
                    assert(s.to_set().contains(x));
                    assert(t.contains(x));
                    let k = choose|k: int| 0 <= k < t.len() && t[k] == x;
                    assert(k < t.len() - 1);
                    assert(t0[k] == x);
                }
                if t0.contains(x) {
                    let i = choose|i: int| 0 <= i < t0.len() && t0[i] == x;
                    assert(t[i] == x && t[i] < t[t.len() - 1]);
                    assert(t.to_set().contains(x));
                    assert(s.contains(x));
                    let k = choose|k: int| 0 <= k < s.len() && s[k] == x;
                    assert(k < s.len() - 1);
                    assert(s0[k] == x);
                }
            }
        }
        lemma_increasing_unique(s0, t0);
        assert(s =~= s0.push(a));
        assert(t =~= t0.push(b));
    }
}

/// A set of `u16` values represented by a sorted vector.
#[derive(Debug)]
pub struct ArraySet {
    elements: Vec<u16>,
}

impl View for ArraySet {
    type V = Set<u16>;

    /// The members of the set.
    closed spec fn view(&self) -> Set<u16> {
        self.elements@.to_set()
    }
}

impl ArraySet {
    /// The representation invariant: the stored elements are strictly
    /// increasing. Every constructor establishes it and every method keeps it.
    pub closed spec fn wf(&self) -> bool {
        strictly_increasing(self.elements@)
    }

    /// The members in storage order, which is also the order of iteration.
    pub closed spec fn ordered(&self) -> Seq<u16> {
        self.elements@
    }

    /// The stored sequence is the ascending listing of the members: it is
    /// strictly increasing and holds exactly the members, each once.
    pub proof fn lemma_ordered(&self)
        requires
            self.wf(),
        ensures
            strictly_increasing(self.ordered()),
            self.ordered().to_set() == self@,
            self.ordered().len() == self@.len(),
            self@.finite(),
            forall|x: u16| self.ordered().contains(x) <==> self@.contains(x),
    {
        lemma_increasing_len(self.elements@);
    }

    /// Sets with the same members list them alike: the order of storage and
    /// of iteration is determined by the members alone.
    pub proof fn lemma_ordered_unique(&self, other: &ArraySet)
        requires
            self.wf(),
            other.wf(),
            self@ == other@,
        ensures
            self.ordered() == other.ordered(),
    {
        lemma_increasing_unique(self.elements@, other.elements@);
    }

    /// Creates a new, empty set.
    pub fn new() -> (r: ArraySet)
        ensures
            r.wf(),
            r@ == Set::<u16>::empty(),
            r.ordered() == Seq::<u16>::empty(),
    {
        let r = ArraySet { elements: Vec::with_capacity(INIT_CAPACITY) };
        assert(r.elements@.to_set() =~= Set::<u16>::empty());
        r
    }

    /// Binary search for `x`: `Ok(i)` when `x` is stored at index `i`,
    /// `Err(i)` when it is absent and `i` is where it would have to be
    /// inserted to keep the elements increasing.
    fn search(&self, x: u16) -> (r: Result<usize, usize>)
        requires
            self.wf(),
        ensures
            match r {
                Ok(i) => i < self.elements@.len() && self.elements@[i as int] == x,
                Err(i) => {
                    &&& i <= self.elements@.len()
                    &&& forall|k: int| 0 <= k < i ==> self.elements@[k] < x
                    &&& forall|k: int| i <= k < self.elements@.len() ==> x < self.elements@[k]
                },
            },
    {
        let mut lo: usize = 0;
        let mut hi: usize = self.elements.len();
        while lo < hi
            invariant
                self.wf(),
                lo <= hi <= self.elements@.len(),
                forall|k: int| 0 <= k < lo ==> self.elements@[k] < x,
                forall|k: int| hi <= k < self.elements@.len() ==> x < self.elements@[k],
            decreases hi - lo,
        {
            let mid: usize = lo + (hi - lo) / 2;
            let v: u16 = self.elements[mid];
            if v == x {
                return Ok(mid);
            } else if v < x {
                lo = mid + 1;
            } else {
                hi = mid;
            }
        }
        Err(lo)
    }

    /// Adds the integer `x` to the set; a no-op when `x` is already a member.
    pub fn add(&mut self, x: u16)
        requires
            old(self).wf(),
        ensures
            final(self).wf(),
            final(self)@ == old(self)@.insert(x),
    {
        let res = self.search(x);
        match res {
            Ok(i) => {
                proof {
                    assert(self.elements@[i as int] == x);
                    assert(self.elements@.contains(x));
                    assert(self@ =~= self@.insert(x));
                }
            },
            Err(offset) => {
                let ghost before = self.elements@;
                self.elements.insert(offset, x);
                proof {
                    before.insert_ensures(offset as int, x);
                    let after = self.elements@;
                    assert(strictly_increasing(after)) by {
                        assert forall|i: int, j: int| 0 <= i < j < after.len() implies after[i]
                            < after[j] by {
                            lemma_insert_index(before, offset as int, x, i);
                            lemma_insert_index(before, offset as int, x, j);
                        }
                    }
                    lemma_insert_to_set(before, offset as int, x);
                }
            },
        }
    }

    /// Removes the integer `x` from the set; a no-op when `x` is not a member.
    pub fn remove(&mut self, x: u16)
        requires
            old(self).wf(),
        ensures
            final(self).wf(),
            final(self)@ == old(self)@.remove(x),
    {
        let res = self.search(x);
        match res {
            Err(_) => {
                proof {
                    assert(!self.elements@.contains(x));
                    assert(self@ =~= self@.remove(x));
                }
            },
            Ok(offset) => {
                let ghost before = self.elements@;
                self.elements.remove(offset);
                proof {
                    before.remove_ensures(offset as int);
                    let after = self.elements@;
                    assert(strictly_increasing(after)) by {
                        assert forall|i: int, j: int| 0 <= i < j < after.len() implies after[i]
                            < after[j] by {
                            lemma_remove_index(before, offset as int, i);
                            lemma_remove_index(before, offset as int, j);
                        }
                    }
                    lemma_remove_to_set(before, offset as int);
                }
            },
        }
    }

    /// Returns the union of two sets: a two-pointer merge over both sorted
    /// sequences, followed by the unconsumed tail of each.
    pub fn union(&self, other: &ArraySet) -> (r: ArraySet)
        requires
            self.wf(),
            other.wf(),
        ensures
            r.wf(),
            r@ == self@.union(other@),
    {
        let mut union = ArraySet::new();
        let n: usize = self.elements.len();
        let m: usize = other.elements.len();
        let mut i: usize = 0;
        let mut j: usize = 0;
        let ghost a = self.elements@;
        let ghost b = other.elements@;
        proof {
            assert(a.take(0).to_set() =~= Set::<u16>::empty());
            assert(b.take(0).to_set() =~= Set::<u16>::empty());
        }
        while i < n && j < m
            invariant
                a == self.elements@,
                b == other.elements@,
                n == a.len(),
                m == b.len(),
                i <= n,
                j <= m,
                strictly_increasing(a),
                strictly_increasing(b),
                strictly_increasing(union.elements@),
                union.elements@.to_set() =~= a.take(i as int).to_set().union(
                    b.take(j as int).to_set(),
                ),
                i < n ==> all_below(union.elements@, a[i as int]),
                j < m ==> all_below(union.elements@, b[j as int]),
            decreases (n - i) + (m - j),
        {
            let x: u16 = self.elements[i];
            let y: u16 = other.elements[j];
            let ghost before = union.elements@;
            if x < y {
                union.elements.push(x);
                proof {
                    lemma_take_next(a, i as int);
                    lemma_push_above(before, x);
                    if i + 1 < n {
                        assert(a[i as int] < a[i + 1]);
                    }
                }
                i += 1;
            } else if x > y {
                union.elements.push(y);
                proof {
                    lemma_take_next(b, j as int);
                    lemma_push_above(before, y);
                    if j + 1 < m {
                        assert(b[j as int] < b[j + 1]);
                    }
                }
                j += 1;
            } else {
                union.elements.push(x);
                proof {
                    lemma_take_next(a, i as int);
                    lemma_take_next(b, j as int);
                    lemma_push_above(before, x);
                    if i + 1 < n {
                        assert(a[i as int] < a[i + 1]);
                    }
                    if j + 1 < m {
                        assert(b[j as int] < b[j + 1]);
                    }
                }
                i += 1;
                j += 1;
            }
        }
        while i < n
            invariant
                a == self.elements@,
                n == a.len(),
                i <= n,
                i < n ==> j == m,
                strictly_increasing(a),
                strictly_increasing(union.elements@),
                union.elements@.to_set() =~= a.take(i as int).to_set().union(
                    b.take(j as int).to_set(),
                ),
                i < n ==> all_below(union.elements@, a[i as int]),
                j < m ==> all_below(union.elements@, b[j as int]),
            decreases n - i,
        {
            let x: u16 = self.elements[i];
            let ghost before = union.elements@;
            union.elements.push(x);
            proof {
                lemma_take_next(a, i as int);
                lemma_push_above(before, x);
                if i + 1 < n {
                    assert(a[i as int] < a[i + 1]);
                }
            }
            i += 1;
        }
        while j < m
            invariant
                b == other.elements@,
                m == b.len(),
                i == a.len(),
                j <= m,
                strictly_increasing(b),
                strictly_increasing(union.elements@),
                union.elements@.to_set() =~= a.take(i as int).to_set().union(
                    b.take(j as int).to_set(),
                ),
                j < m ==> all_below(union.elements@, b[j as int]),
            decreases m - j,
        {
            let y: u16 = other.elements[j];
            let ghost before = union.elements@;
            union.elements.push(y);
            proof {
                lemma_take_next(b, j as int);
                lemma_push_above(before, y);
                if j + 1 < m {
                    assert(b[j as int] < b[j + 1]);
                }
            }
            j += 1;
        }
        proof {
            assert(a.take(a.len() as int) =~= a);
            assert(b.take(b.len() as int) =~= b);
        }
        union
    }

    /// Returns the intersection of two sets: the pointer with the smaller
    /// head advances, and a value found at both heads is emitted once.
    pub fn intersection(&self, other: &ArraySet) -> (r: ArraySet)
        requires
            self.wf(),
            other.wf(),
        ensures
            r.wf(),
            r@ == self@.intersect(other@),
    {
        let mut inter = ArraySet::new();
        let n: usize = self.elements.len();
        let m: usize = other.elements.len();
        let mut i: usize = 0;
        let mut j: usize = 0;
        let ghost a = self.elements@;
        let ghost b = other.elements@;
        proof {
            assert(a.take(0).to_set() =~= Set::<u16>::empty());
            assert(b.take(0).to_set() =~= Set::<u16>::empty());
        }
        while i < n && j < m
            invariant
                a == self.elements@,
                b == other.elements@,
                n == a.len(),
                m == b.len(),
                i <= n,
                j <= m,
                strictly_increasing(a),
                strictly_increasing(b),
                strictly_increasing(inter.elements@),
                inter.elements@.to_set() =~= a.take(i as int).to_set().intersect(
                    b.take(j as int).to_set(),
                ),
                i < n ==> all_below(inter.elements@, a[i as int]),
                i < n ==> all_below(b.take(j as int), a[i as int]),
                j < m ==> all_below(a.take(i as int), b[j as int]),
            decreases (n - i) + (m - j),
        {
            let x: u16 = self.elements[i];
            let y: u16 = other.elements[j];
            let ghost before = inter.elements@;
            if x < y {
                proof {
                    lemma_take_next(a, i as int);
                    lemma_below_absent(b.take(j as int), x);
                    lemma_take_below(a, i as int, y);
                    if i + 1 < n {
                        lemma_below_weaken(before, x, a[i + 1]);
                        lemma_below_weaken(b.take(j as int), x, a[i + 1]);
                    }
                }
                i += 1;
            } else if x > y {
                proof {
                    lemma_take_next(b, j as int);
                    lemma_below_absent(a.take(i as int), y);
                    lemma_take_below(b, j as int, x);
                    if j + 1 < m {
                        lemma_below_weaken(a.take(i as int), y, b[j + 1]);
                    }
                }
                j += 1;
            } else {
                inter.elements.push(x);
                proof {
                    lemma_take_next(a, i as int);
                    lemma_take_next(b, j as int);
                    lemma_push_above(before, x);
                    if i + 1 < n {
                        lemma_take_below(b, j as int, a[i + 1]);
                    }
                    if j + 1 < m {
                        lemma_take_below(a, i as int, b[j + 1]);
                    }
                }
                i += 1;
                j += 1;
            }
        }
        proof {
            // Whatever one operand has left lies above all of the other.
            let done = inter.elements@.to_set();
            assert(done =~= a.to_set().intersect(b.to_set())) by {
                assert forall|x: u16| done.contains(x) <==> (a.contains(x) && b.contains(x)) by {
                    lemma_prefix_contains(a, i as int, x);
                    lemma_prefix_contains(b, j as int, x);
                    if a.contains(x) && b.contains(x) {
                        let k = choose|k: int| 0 <= k < a.len() && a[k] == x;
                        let l = choose|l: int| 0 <= l < b.len() && b[l] == x;
                        if i < n {
                            // `other` is used up and lies wholly below a[i].
                            assert(b.take(j as int)[l] < a[i as int]);
                            if k > i {
                                assert(a[i as int] < a[k]);
                            }
                        }
                        if j < m {
                            // `self` is used up and lies wholly below b[j].
                            assert(a.take(i as int)[k] < b[j as int]);
                            if l > j {
                                assert(b[j as int] < b[l]);
                            }
                        }
                        assert(k < i && l < j);
                        assert(a.take(i as int)[k] == x);
                        assert(b.take(j as int)[l] == x);
                    }
                }
            }
        }
        inter
    }

    /// Returns the complement of the set within the universe of all `u16`
    /// values. The whole universe is scanned once, whatever the set's size.
    pub fn complement(&self) -> (r: ArraySet)
        requires
            self.wf(),
        ensures
            r.wf(),
            r@ == self@.complement(),
            r@.len() == UNIVERSE - self@.len(),
    {
        let mut compl = ArraySet::new();
        let n: usize = self.elements.len();
        let mut j: usize = 0;
        let mut i: usize = 0;
        let ghost a = self.elements@;
        while i < UNIVERSE
            invariant
                a == self.elements@,
                n == a.len(),
                strictly_increasing(a),
                i <= UNIVERSE,
                j <= n,
                j <= i,
                forall|k: int| 0 <= k < j ==> a[k] < i,
                forall|k: int| j <= k < n ==> a[k] >= i,
                strictly_increasing(compl.elements@),
                compl.elements@.len() == i - j,
                forall|k: int| 0 <= k < compl.elements@.len() ==> compl.elements@[k] < i,
                forall|x: u16| compl.elements@.contains(x) <==> (x < i && !a.contains(x)),
            decreases UNIVERSE - i,
        {
            let ghost before = compl.elements@;
            if j < n && self.elements[j] as usize == i {
                proof {
                    assert forall|k: int| j + 1 <= k < n implies a[k] >= i + 1 by {
                        assert(a[j as int] < a[k]);
                    }
                    assert(a.contains(i as u16)) by {
                        assert(a[j as int] == i as u16);
                    }
                }
                j += 1;
            } else {
                let v: u16 = i as u16;
                compl.elements.push(v);
                proof {
                    assert(!a.contains(v)) by {
                        if a.contains(v) {
                            let k = choose|k: int| 0 <= k < a.len() && a[k] == v;
                            if k > j {
                                assert(a[j as int] < a[k]);
                            }
                        }
                    }
                    let after = compl.elements@;
                    assert forall|x: u16| after.contains(x) <==> (x < i + 1 && !a.contains(x)) by {
                        if after.contains(x) {
                            let k = choose|k: int| 0 <= k < after.len() && after[k] == x;
                            if k < before.len() {
                                assert(before[k] == x);
                                assert(before.contains(x));
                            }
                        }
                        if x < i + 1 && !a.contains(x) {
                            if x < i {
                                assert(before.contains(x));
                                let k = choose|k: int| 0 <= k < before.len() && before[k] == x;
                                assert(after[k] == x);
                            } else {
                                assert(after[before.len() as int] == x);
                            }
                        }
                    }
                }
            }
            i += 1;
        }
        proof {
            assert(j == n) by {
                if j < n {
                    assert(a[j as int] >= UNIVERSE);
                }
            }
            lemma_increasing_len(a);
            lemma_increasing_len(compl.elements@);
            assert(compl.elements@.to_set() =~= a.to_set().complement());
        }
        compl
    }

    /// Returns the set difference `self - other`: for every element of
    /// `self`, a cursor into `other` advances until it is not below that
    /// element, which is emitted unless the cursor found it there.
    pub fn difference(&self, other: &ArraySet) -> (r: ArraySet)
        requires
            self.wf(),
            other.wf(),
        ensures
            r.wf(),
            r@ == self@.difference(other@),
    {
        let mut diff = ArraySet::new();
        let n: usize = self.elements.len();
        let m: usize = other.elements.len();
        let mut j: usize = 0;
        let mut i: usize = 0;
        let ghost a = self.elements@;
        let ghost b = other.elements@;
        proof {
            assert(a.take(0).to_set() =~= Set::<u16>::empty());
        }
        while i < n
            invariant
                a == self.elements@,
                b == other.elements@,
                n == a.len(),
                m == b.len(),
                i <= n,
                j <= m,
                strictly_increasing(a),
                strictly_increasing(b),
                strictly_increasing(diff.elements@),
                diff.elements@.to_set() =~= a.take(i as int).to_set().difference(b.to_set()),
                i < n ==> all_below(diff.elements@, a[i as int]),
                i < n ==> all_below(b.take(j as int), a[i as int]),
            decreases n - i,
        {
            let x: u16 = self.elements[i];
            while j < m && other.elements[j] < x
                invariant
                    b == other.elements@,
                    m == b.len(),
                    j <= m,
                    all_below(b.take(j as int), x),
                decreases m - j,
            {
                proof {
                    let t = b.take(j + 1);
                    assert forall|k: int| 0 <= k < t.len() implies t[k] < x by {
                        if k < j {
                            assert(b.take(j as int)[k] < x);
                        }
                    }
                }
                j += 1;
            }
            let ghost before = diff.elements@;
            if j >= m || x < other.elements[j] {
                diff.elements.push(x);
                proof {
                    assert(!b.contains(x)) by {
                        if b.contains(x) {
                            let l = choose|l: int| 0 <= l < b.len() && b[l] == x;
                            if l < j {
                                assert(b.take(j as int)[l] < x);
                            } else if l > j {
                                assert(b[j as int] < b[l]);
                            }
                        }
                    }
                    lemma_take_next(a, i as int);
                    lemma_push_above(before, x);
                }
            } else {
                proof {
                    assert(b.contains(x)) by {
                        assert(b[j as int] == x);
                    }
                    lemma_take_next(a, i as int);
                }
            }
            proof {
                if i + 1 < n {
                    assert(a[i as int] < a[i + 1]);
                    lemma_below_weaken(b.take(j as int), x, a[i + 1]);
                    if j >= m || x < b[j as int] {
                    } else {
                        lemma_below_weaken(before, x, a[i + 1]);
                    }
                }
            }
            i += 1;
        }
        proof {
            assert(a.take(a.len() as int) =~= a);
        }
        diff
    }

    /// Builds the set of the values of `xs`, which may come in any order and
    /// repeat; the same as adding each of them in turn to an empty set.
    pub fn from(xs: &[u16]) -> (r: ArraySet)
        ensures
            r.wf(),
            r@ == xs@.to_set(),
    {
        let mut arr = ArraySet::new();
        let mut i: usize = 0;
        proof {
            assert(xs@.take(0).to_set() =~= Set::<u16>::empty());
        }
        while i < xs.len()
            invariant
                i <= xs@.len(),
                arr.wf(),
                arr@ == xs@.take(i as int).to_set(),
            decreases xs@.len() - i,
        {
            arr.add(xs[i]);
            proof {
                lemma_take_next(xs@, i as int);
            }
            i += 1;
        }
        proof {
            assert(xs@.take(xs@.len() as int) =~= xs@);
        }
        arr
    }

    /// An iterator over the members in ascending order that borrows the set.
    pub fn iter(&self) -> (it: SharedArraySetIter<'_>)
        ensures
            it.remaining() == self.ordered(),
    {
        let it = SharedArraySetIter { arr: self, offset: 0 };
        assert(self.elements@.skip(0) =~= self.elements@);
        it
    }

    /// An iterator over the members in ascending order that owns the set.
    pub fn into_iter(self) -> (it: OwnedArraySetIter)
        ensures
            it.remaining() == self.ordered(),
    {
        assert(self.elements@.skip(0) =~= self.elements@);
        OwnedArraySetIter { arr: self, offset: 0 }
    }

    /// Checks if the integer `x` is contained in the set.
    pub fn contains(&self, x: u16) -> (r: bool)
        requires
            self.wf(),
        ensures
            r == self@.contains(x),
    {
        let res = self.search(x);
        match res {
            Ok(i) => {
                proof {
                    assert(self.elements@[i as int] == x);
                    assert(self.elements@.contains(x));
                }
                true
            },
            Err(_) => {
                proof {
                    assert(!self.elements@.contains(x));
                }
                false
            },
        }
    }

    /// Returns the number of elements in the set.
    pub fn cardinality(&self) -> (r: usize)
        requires
            self.wf(),
        ensures
            r == self@.len(),
    {
        proof {
            lemma_increasing_len(self.elements@);
        }
        self.elements.len()
    }
}

/// The union and the intersection of two sets have together as many members
/// as the two sets.
pub proof fn lemma_union_intersection_cardinality(a: ArraySet, b: ArraySet)
    requires
        a.wf(),
        b.wf(),
    ensures
        a@.union(b@).len() + a@.intersect(b@).len() == a@.len() + b@.len(),
{
    a.lemma_ordered();
    b.lemma_ordered();
    vstd::set_lib::lemma_set_intersect_union_lens(a@, b@);
}

/// A value is a member after it has been added and no member after it has
/// been removed, whatever the set held before.
pub proof fn lemma_add_remove_membership(a: ArraySet, x: u16)
    ensures
        a@.insert(x).contains(x),
        !a@.remove(x).contains(x),
{
}

/// Adding a value twice gives the same set, and so the same cardinality, as
/// adding it once.
pub proof fn lemma_add_idempotent(a: ArraySet, x: u16)
    ensures
        a@.insert(x).insert(x) == a@.insert(x),
        a@.insert(x).insert(x).len() == a@.insert(x).len(),
{
    assert(a@.insert(x).insert(x) =~= a@.insert(x));
}

/// Union and intersection do not depend on the order of their operands.
pub proof fn lemma_commutative(a: ArraySet, b: ArraySet)
    ensures
        a@.union(b@) == b@.union(a@),
        a@.intersect(b@) == b@.intersect(a@),
{
    assert(a@.union(b@) =~= b@.union(a@));
    assert(a@.intersect(b@) =~= b@.intersect(a@));
}

/// Union and intersection do not depend on how their operands are grouped.
pub proof fn lemma_associative(a: ArraySet, b: ArraySet, c: ArraySet)
    ensures
        a@.union(b@).union(c@) == a@.union(b@.union(c@)),
        a@.intersect(b@).intersect(c@) == a@.intersect(b@.intersect(c@)),
{
    assert(a@.union(b@).union(c@) =~= a@.union(b@.union(c@)));
    assert(a@.intersect(b@).intersect(c@) =~= a@.intersect(b@.intersect(c@)));
}

/// The difference does depend on the order of its operands: the set that
/// holds 1 and the empty set differ both ways.
pub proof fn lemma_difference_not_commutative()
    ensures
        exists|a: Set<u16>, b: Set<u16>|
            a.finite() && b.finite() && a.difference(b) != b.difference(a),
{
    let a = Set::<u16>::empty().insert(1);
    let b = Set::<u16>::empty();
    assert(a.difference(b).contains(1));
    assert(!b.difference(a).contains(1));
}

/// What is left of `s` from index `offset` on; nothing once `offset` has
/// reached the end.
spec fn rest(s: Seq<u16>, offset: usize) -> Seq<u16> {
    if offset <= s.len() {
        s.skip(offset as int)
    } else {
        Seq::empty()
    }
}

/// A cursor over the members of a borrowed [`ArraySet`], in ascending order.
pub struct SharedArraySetIter<'a> {
    arr: &'a ArraySet,
    offset: usize,
}

/// A cursor over the members of an owned [`ArraySet`], in ascending order.
pub struct OwnedArraySetIter {
    arr: ArraySet,
    offset: usize,
}

impl<'a> SharedArraySetIter<'a> {
    /// The members that are still to be yielded, in order.
    pub closed spec fn remaining(&self) -> Seq<u16> {
        rest(self.arr.elements@, self.offset)
    }

    /// Yields the next member, or `None` once all have been yielded, and
    /// then again `None` on every later call.
    pub fn next(&mut self) -> (r: Option<u16>)
        ensures
            old(self).remaining().len() == 0 ==> r.is_none() && final(self).remaining().len() == 0,
            old(self).remaining().len() > 0 ==> r == Some(old(self).remaining()[0])
                && final(self).remaining() == old(self).remaining().skip(1),
    {
        iter_next(&mut self.offset, self.arr)
    }
}

impl OwnedArraySetIter {
    /// The members that are still to be yielded, in order.
    pub closed spec fn remaining(&self) -> Seq<u16> {
        rest(self.arr.elements@, self.offset)
    }

    /// Yields the next member, or `None` once all have been yielded, and
    /// then again `None` on every later call.
    pub fn next(&mut self) -> (r: Option<u16>)
        ensures
            old(self).remaining().len() == 0 ==> r.is_none() && final(self).remaining().len() == 0,
            old(self).remaining().len() > 0 ==> r == Some(old(self).remaining()[0])
                && final(self).remaining() == old(self).remaining().skip(1),
    {
        iter_next(&mut self.offset, &self.arr)
    }
}

/// One step of a cursor at `offset` over `arr`: the element there, if any,
/// moving the cursor past it.
fn iter_next(offset: &mut usize, arr: &ArraySet) -> (r: Option<u16>)
    ensures
        rest(arr.elements@, *old(offset)).len() == 0 ==> r.is_none() && rest(
            arr.elements@,
            *final(offset),
        ).len() == 0,
        rest(arr.elements@, *old(offset)).len() > 0 ==> r == Some(
            rest(arr.elements@, *old(offset))[0],
        ) && rest(arr.elements@, *final(offset)) == rest(arr.elements@, *old(offset)).skip(1),
{
    if *offset >= arr.elements.len() {
        return None;
    }
    *offset += 1;
    proof {
        assert(arr.elements@.skip(*old(offset) as int).skip(1) =~= arr.elements@.skip(
            *offset as int,
        ));
    }
    Some(arr.elements[*offset - 1])
}

/// Every element of `s` is less than `bound`.
spec fn all_below(s: Seq<u16>, bound: u16) -> bool {
    forall|k: int| 0 <= k < s.len() ==> s[k] < bound
}

/// Taking one more element of `s` adds that element to the set of values.
proof fn lemma_take_next(s: Seq<u16>, i: int)
    requires
        0 <= i < s.len(),
    ensures
        s.take(i + 1).to_set() == s.take(i).to_set().insert(s[i]),
{
    assert(s.take(i + 1) =~= s.take(i).push(s[i]));
    s.take(i).lemma_push_to_set_commute(s[i]);
}

/// Pushing a value above all of `s` keeps it strictly increasing, adds the
/// value to the set, and leaves everything below any larger bound.
proof fn lemma_push_above(s: Seq<u16>, x: u16)
    requires
        strictly_increasing(s),
        all_below(s, x),
    ensures
        strictly_increasing(s.push(x)),
        s.push(x).to_set() == s.to_set().insert(x),
        forall|bound: u16| x < bound ==> all_below(s.push(x), bound),
{
    s.lemma_push_to_set_commute(x);
    assert forall|bound: u16| x < bound implies all_below(s.push(x), bound) by {
        assert forall|k: int| 0 <= k < s.push(x).len() implies s.push(x)[k] < bound by {
            if k < s.len() {
                assert(s[k] < x);
            }
        }
    }
}

/// What lies below `x` lies below anything larger.
proof fn lemma_below_weaken(s: Seq<u16>, x: u16, bound: u16)
    requires
        all_below(s, x),
        x < bound,
    ensures
        all_below(s, bound),
{
    assert forall|k: int| 0 <= k < s.len() implies s[k] < bound by {
        assert(s[k] < x);
    }
}

/// A sequence that lies below `x` does not hold `x`.
proof fn lemma_below_absent(s: Seq<u16>, x: u16)
    requires
        all_below(s, x),
    ensures
        !s.to_set().contains(x),
{
    if s.contains(x) {
        let k = choose|k: int| 0 <= k < s.len() && s[k] == x;
        assert(s[k] < x);
    }
}

/// In an increasing sequence, the first `i + 1` elements lie below anything
/// above element `i`.
proof fn lemma_take_below(s: Seq<u16>, i: int, bound: u16)
    requires
        strictly_increasing(s),
        0 <= i < s.len(),
        s[i] < bound,
    ensures
        all_below(s.take(i + 1), bound),
{
    let t = s.take(i + 1);
    assert forall|k: int| 0 <= k < t.len() implies t[k] < bound by {
        if k < i {
            assert(s[k] < s[i]);
        }
    }
}

/// A prefix holds `x` exactly when `x` occurs before its end.
proof fn lemma_prefix_contains(s: Seq<u16>, i: int, x: u16)
    requires
        0 <= i <= s.len(),
    ensures
        s.take(i).to_set().contains(x) <==> exists|k: int| 0 <= k < i && s[k] == x,
{
    if s.take(i).contains(x) {
        let k = choose|k: int| 0 <= k < s.take(i).len() && s.take(i)[k] == x;
        assert(s[k] == x);
    }
    if exists|k: int| 0 <= k < i && s[k] == x {
        let k = choose|k: int| 0 <= k < i && s[k] == x;
        assert(s.take(i)[k] == x);
    }
}

/// Element `k` of `s.insert(pos, x)`, by cases on where `k` lies.
proof fn lemma_insert_index(s: Seq<u16>, pos: int, x: u16, k: int)
    requires
        0 <= pos <= s.len(),
        0 <= k <= s.len(),
    ensures
        s.insert(pos, x)[k] == if k < pos {
            s[k]
        } else if k == pos {
            x
        } else {
            s[k - 1]
        },
{
    s.insert_ensures(pos, x);
    if k > pos {
        assert(s.insert(pos, x)[(k - 1) + 1] == s[k - 1]);
    }
}

/// Element `k` of `s.remove(pos)`, by cases on where `k` lies.
proof fn lemma_remove_index(s: Seq<u16>, pos: int, k: int)
    requires
        0 <= pos < s.len(),
        0 <= k < s.len() - 1,
    ensures
        s.remove(pos)[k] == if k < pos {
            s[k]
        } else {
            s[k + 1]
        },
{
    s.remove_ensures(pos);
}

/// Inserting a value into a sequence inserts it into the set of its values.
proof fn lemma_insert_to_set(s: Seq<u16>, pos: int, x: u16)
    requires
        0 <= pos <= s.len(),
    ensures
        s.insert(pos, x).to_set() == s.to_set().insert(x),
{
    let t = s.insert(pos, x);
    s.insert_ensures(pos, x);
    assert forall|y: u16| t.to_set().contains(y) <==> s.to_set().insert(x).contains(y) by {
        if t.contains(y) {
            let k = choose|k: int| 0 <= k < t.len() && t[k] == y;
            lemma_insert_index(s, pos, x, k);
            if k < pos {
                assert(s[k] == y);
            } else if k > pos {
                assert(s[k - 1] == y);
            }
        }
        if y == x {
            assert(t[pos] == y);
        } else if s.contains(y) {
            let k = choose|k: int| 0 <= k < s.len() && s[k] == y;
            if k < pos {
                lemma_insert_index(s, pos, x, k);
                assert(t[k] == y);
            } else {
                lemma_insert_index(s, pos, x, k + 1);
                assert(t[k + 1] == y);
            }
        }
    }
    assert(t.to_set() =~= s.to_set().insert(x));
}

/// Removing the only occurrence of a value from a sequence removes it from
/// the set of its values.
proof fn lemma_remove_to_set(s: Seq<u16>, pos: int)
    requires
        0 <= pos < s.len(),
        strictly_increasing(s),
    ensures
        s.remove(pos).to_set() == s.to_set().remove(s[pos]),
{
    let t = s.remove(pos);
    let x = s[pos];
    s.remove_ensures(pos);
    assert forall|y: u16| t.to_set().contains(y) <==> s.to_set().remove(x).contains(y) by {
        if t.contains(y) {
            let k = choose|k: int| 0 <= k < t.len() && t[k] == y;
            lemma_remove_index(s, pos, k);
            if k < pos {
                assert(s[k] == y && s[k] < s[pos]);
            } else {
                assert(s[k + 1] == y && s[pos] < s[k + 1]);
            }
        }
        if y != x && s.contains(y) {
            let k = choose|k: int| 0 <= k < s.len() && s[k] == y;
            if k < pos {
                lemma_remove_index(s, pos, k);
                assert(t[k] == y);
            } else {
                lemma_remove_index(s, pos, k - 1);
                assert(t[k - 1] == y);
            }
        }
    }
    assert(t.to_set() =~= s.to_set().remove(x));
}

} // verus!
