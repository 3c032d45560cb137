//! The mathematical model of a bitmap: a sequence of booleans.
//!
//! Entry `n` of the sequence tells whether the value `n` is a member, and the
//! length of the sequence is the number of values that the bitmap has room
//! for (64 per bucket). Everything that the bitmap does is stated here as a
//! function from sequences to sequences, together with the facts about these
//! functions that the implementation and its callers rely on.

use vstd::prelude::*;

verus! {

/// `n` is a member: it lies within `s` and its bit is set.
pub open spec fn member(s: Seq<bool>, n: int) -> bool {
    0 <= n < s.len() && s[n]
}

/// The number of members: how many entries of `s` are set.
pub open spec fn count(s: Seq<bool>) -> nat
    decreases s.len(),
{
    if s.len() == 0 {
        0
    } else {
        count(s.drop_last()) + if s.last() {
            1nat
        } else {
            0nat
        }
    }
}

/// `len` cleared bits.
pub open spec fn zeros(len: nat) -> Seq<bool> {
    Seq::new(len, |i: int| false)
}

/// `s` extended with cleared bits to at least `len` bits.
pub open spec fn grown(s: Seq<bool>, len: int) -> Seq<bool> {
    if len <= s.len() {
        s
    } else {
        s + zeros((len - s.len()) as nat)
    }
}

/// `s` after `n` has been made a member: the sequence grows by whole buckets
/// until it covers `n`, then bit `n` is set.
pub open spec fn with_bit(s: Seq<bool>, n: int) -> Seq<bool> {
    grown(s, 64 * (n / 64 + 1)).update(n, true)
}

/// `s` after `n` has been removed: bit `n` is cleared if `s` covers it, and
/// `s` never grows.
pub open spec fn without_bit(s: Seq<bool>, n: int) -> Seq<bool> {
    if 0 <= n < s.len() {
        s.update(n, false)
    } else {
        s
    }
}

/// The union: as long as the longer operand, holding what either holds.
pub open spec fn union_of(a: Seq<bool>, b: Seq<bool>) -> Seq<bool> {
    Seq::new(
        if a.len() >= b.len() {
            a.len()
        } else {
            b.len()
        },
        |i: int| member(a, i) || member(b, i),
    )
}

/// The intersection: as long as the shorter operand, holding what both hold.
pub open spec fn intersection_of(a: Seq<bool>, b: Seq<bool>) -> Seq<bool> {
    Seq::new(
        if a.len() <= b.len() {
            a.len()
        } else {
            b.len()
        },
        |i: int| member(a, i) && member(b, i),
    )
}

/// The difference `a - b`: as long as `a`, holding what `a` holds and `b`
/// does not. Where `b` is shorter than `a`, the bits of `a` beyond the end of
/// `b` are kept as they are.
pub open spec fn difference_of(a: Seq<bool>, b: Seq<bool>) -> Seq<bool> {
    Seq::new(a.len(), |i: int| member(a, i) && !member(b, i))
}

/// The complement within what `a` covers: every bit of `a` flipped, and no
/// bit added beyond its end.
pub open spec fn complement_of(a: Seq<bool>) -> Seq<bool> {
    Seq::new(a.len(), |i: int| !a[i])
}

/// The last bucket of `s` exists and holds no member.
pub open spec fn last_bucket_clear(s: Seq<bool>) -> bool {
    s.len() >= 64 && forall|i: int| s.len() - 64 <= i < s.len() ==> !s[i]
}

/// `s` without its trailing buckets that hold no member.
pub open spec fn trimmed(s: Seq<bool>) -> Seq<bool>
    decreases s.len(),
{
    if last_bucket_clear(s) {
        trimmed(s.take(s.len() - 64))
    } else {
        s
    }
}

/// The members of `s` that are not below `from`, in ascending order.
pub open spec fn members_from(s: Seq<bool>, from: int) -> Seq<int>
    decreases s.len() - from,
{
    if from < 0 || from >= s.len() {
        Seq::empty()
    } else if s[from] {
        seq![from] + members_from(s, from + 1)
    } else {
        members_from(s, from + 1)
    }
}

/// The members of `s` in ascending order.
pub open spec fn members(s: Seq<bool>) -> Seq<int> {
    members_from(s, 0)
}

/// The bitmap that results from setting the values of `xs`, one after the
/// other, in an initial bitmap of `initial` cleared bits.
pub open spec fn built(initial: nat, xs: Seq<u16>) -> Seq<bool>
    decreases xs.len(),
{
    if xs.len() == 0 {
        zeros(initial)
    } else {
        with_bit(built(initial, xs.drop_last()), xs.last() as int)
    }
}

/// `s` is strictly increasing.
pub open spec fn ascending(s: Seq<int>) -> bool {
    forall|i: int, j: int| 0 <= i < j < s.len() ==> s[i] < s[j]
}

// ---------------------------------------------------------------------------
// Counting
// ---------------------------------------------------------------------------
/// No more bits are set than there are bits.
pub proof fn lemma_count_bound(s: Seq<bool>)
    ensures
        count(s) <= s.len(),
    decreases s.len(),
{
    if s.len() > 0 {
        lemma_count_bound(s.drop_last());
    }
}

/// A sequence without a member counts zero, and the other way round.
pub proof fn lemma_count_zero(s: Seq<bool>)
    ensures
        count(s) == 0 <==> forall|i: int| 0 <= i < s.len() ==> !s[i],
    decreases s.len(),
{
    if s.len() > 0 {
        let t = s.drop_last();
        lemma_count_zero(t);
        if count(s) == 0 {
            assert forall|i: int| 0 <= i < s.len() implies !s[i] by {
                if i < t.len() {
                    assert(!t[i]);
                }
            }
        }
        if forall|i: int| 0 <= i < s.len() ==> !s[i] {
            assert forall|i: int| 0 <= i < t.len() implies !t[i] by {
                assert(!s[i]);
            }
        }
    }
}

/// Counting distributes over concatenation.
pub proof fn lemma_count_add(a: Seq<bool>, b: Seq<bool>)
    ensures
        count(a + b) == count(a) + count(b),
    decreases b.len(),
{
    if b.len() == 0 {
        assert(a + b =~= a);
    } else {
        assert((a + b).drop_last() =~= a + b.drop_last());
        lemma_count_add(a, b.drop_last());
    }
}

/// Changing one bit changes the count by what that bit contributed.
pub proof fn lemma_count_update(s: Seq<bool>, n: int, v: bool)
    requires
        0 <= n < s.len(),
    ensures
        count(s.update(n, v)) == count(s) - (if s[n] {
            1int
        } else {
            0int
        }) + (if v {
            1int
        } else {
            0int
        }),
    decreases s.len(),
{
    let t = s.update(n, v);
    if n == s.len() - 1 {
        assert(t.drop_last() =~= s.drop_last());
    } else {
        assert(t.drop_last() =~= s.drop_last().update(n, v));
        lemma_count_update(s.drop_last(), n, v);
    }
}

/// Growing a sequence adds no member.
pub proof fn lemma_count_grown(s: Seq<bool>, len: int)
    ensures
        count(grown(s, len)) == count(s),
{
    if len > s.len() {
        let z = zeros((len - s.len()) as nat);
        lemma_count_zero(z);
        lemma_count_add(s, z);
    }
}

/// The complement counts the bits that the operand leaves clear.
pub proof fn lemma_count_complement(s: Seq<bool>)
    ensures
        count(complement_of(s)) == s.len() - count(s),
    decreases s.len(),
{
    if s.len() > 0 {
        assert(complement_of(s).drop_last() =~= complement_of(s.drop_last()));
        lemma_count_complement(s.drop_last());
    }
}

/// The members of the union and of the intersection are together as many
/// as the members of the two operands.
pub proof fn lemma_count_union_intersection(a: Seq<bool>, b: Seq<bool>)
    ensures
        count(union_of(a, b)) + count(intersection_of(a, b)) == count(a) + count(b),
    decreases a.len() + b.len(),
{
    let u = union_of(a, b);
    let n = intersection_of(a, b);
    if a.len() == 0 {
        assert(u =~= b);
        assert(n =~= Seq::<bool>::empty());
    } else if b.len() == 0 {
        assert(u =~= a);
        assert(n =~= Seq::<bool>::empty());
    } else if a.len() == b.len() {
        assert(u.drop_last() =~= union_of(a.drop_last(), b.drop_last()));
        assert(n.drop_last() =~= intersection_of(a.drop_last(), b.drop_last()));
        lemma_count_union_intersection(a.drop_last(), b.drop_last());
    } else if a.len() > b.len() {
        assert(u.drop_last() =~= union_of(a.drop_last(), b));
        assert(n =~= intersection_of(a.drop_last(), b));
        lemma_count_union_intersection(a.drop_last(), b);
    } else {
        assert(u.drop_last() =~= union_of(a, b.drop_last()));
        assert(n =~= intersection_of(a, b.drop_last()));
        lemma_count_union_intersection(a, b.drop_last());
    }
}

// ---------------------------------------------------------------------------
// Setting and clearing a bit
// ---------------------------------------------------------------------------
/// After `n` has been set, `n` is a member and every other value is one
/// exactly if it was before; the sequence has grown to cover `n` and no
/// further.
pub proof fn lemma_with_bit(s: Seq<bool>, n: int)
    requires
        0 <= n,
    ensures
        member(with_bit(s, n), n),
        forall|m: int| m != n ==> member(with_bit(s, n), m) == member(s, m),
        with_bit(s, n).len() == if s.len() >= 64 * (n / 64 + 1) {
            s.len() as int
        } else {
            64 * (n / 64 + 1)
        },
        count(with_bit(s, n)) == count(s) + if member(s, n) {
            0int
        } else {
            1int
        },
{
    let g = grown(s, 64 * (n / 64 + 1));
    lemma_count_grown(s, 64 * (n / 64 + 1));
    lemma_count_update(g, n, true);
}

/// After `n` has been removed, `n` is no member and every other value is one
/// exactly if it was before; the length is unchanged.
pub proof fn lemma_without_bit(s: Seq<bool>, n: int)
    ensures
        !member(without_bit(s, n), n),
        forall|m: int| m != n ==> member(without_bit(s, n), m) == member(s, m),
        without_bit(s, n).len() == s.len(),
        count(without_bit(s, n)) == count(s) - if member(s, n) {
            1int
        } else {
            0int
        },
{
    if 0 <= n < s.len() {
        lemma_count_update(s, n, false);
    }
}

/// Setting a value twice gives the same bitmap as setting it once.
pub proof fn lemma_with_bit_idempotent(s: Seq<bool>, n: int)
    requires
        0 <= n,
    ensures
        with_bit(with_bit(s, n), n) == with_bit(s, n),
{
    assert(with_bit(with_bit(s, n), n) =~= with_bit(s, n));
}

// ---------------------------------------------------------------------------
// Algebra
// ---------------------------------------------------------------------------
/// Union and intersection do not depend on the order of their operands.
pub proof fn lemma_commutative(a: Seq<bool>, b: Seq<bool>)
    ensures
        union_of(a, b) == union_of(b, a),
        intersection_of(a, b) == intersection_of(b, a),
{
    assert(union_of(a, b) =~= union_of(b, a));
    assert(intersection_of(a, b) =~= intersection_of(b, a));
}

/// Union and intersection do not depend on how their operands are grouped.
pub proof fn lemma_associative(a: Seq<bool>, b: Seq<bool>, c: Seq<bool>)
    ensures
        union_of(union_of(a, b), c) == union_of(a, union_of(b, c)),
        intersection_of(intersection_of(a, b), c) == intersection_of(a, intersection_of(b, c)),
{
    assert(union_of(union_of(a, b), c) =~= union_of(a, union_of(b, c)));
    assert(intersection_of(intersection_of(a, b), c) =~= intersection_of(
        a,
        intersection_of(b, c),
    ));
}

/// The difference does depend on the order of its operands: a one-bucket
/// bitmap that holds 0 and an empty one-bucket bitmap differ both ways.
pub proof fn lemma_difference_not_commutative()
    ensures
        exists|a: Seq<bool>, b: Seq<bool>| difference_of(a, b) != difference_of(b, a),
{
    let a = zeros(64).update(0, true);
    let b = zeros(64);
    assert(difference_of(a, b)[0]);
    assert(!difference_of(b, a)[0]);
}

/// What the algebra does to membership.
pub proof fn lemma_algebra_members(a: Seq<bool>, b: Seq<bool>, n: int)
    ensures
        member(union_of(a, b), n) == (member(a, n) || member(b, n)),
        member(intersection_of(a, b), n) == (member(a, n) && member(b, n)),
        member(difference_of(a, b), n) == (member(a, n) && !member(b, n)),
        member(complement_of(a), n) == (0 <= n < a.len() && !member(a, n)),
{
}

// ---------------------------------------------------------------------------
// Trimming
// ---------------------------------------------------------------------------
/// Trimming removes whole buckets from the end and stops at the first bucket
/// that holds a member; it changes no membership and no count.
pub proof fn lemma_trimmed(s: Seq<bool>)
    ensures
        trimmed(s).len() <= s.len(),
        (s.len() - trimmed(s).len()) % 64 == 0,
        trimmed(s) == s.take(trimmed(s).len() as int),
        !last_bucket_clear(trimmed(s)),
        forall|n: int| member(trimmed(s), n) == member(s, n),
        count(trimmed(s)) == count(s),
    decreases s.len(),
{
    if last_bucket_clear(s) {
        let t = s.take(s.len() - 64);
        lemma_trimmed(t);
        assert(trimmed(s) =~= s.take(trimmed(s).len() as int));
        assert forall|n: int| member(trimmed(s), n) == member(s, n) by {
            assert(member(trimmed(t), n) == member(t, n));
        }
        let z = s.skip(s.len() - 64);
        assert(s =~= t + z);
        lemma_count_add(t, z);
        lemma_count_zero(z);
    } else {
        assert(s =~= s.take(s.len() as int));
    }
}

/// Trimming what has been trimmed changes nothing.
pub proof fn lemma_trimmed_idempotent(s: Seq<bool>)
    ensures
        trimmed(trimmed(s)) == trimmed(s),
{
    lemma_trimmed(s);
}

// ---------------------------------------------------------------------------
// Listing the members
// ---------------------------------------------------------------------------
/// The listing from `from` on is strictly increasing and holds exactly the
/// members that are not below `from`.
pub proof fn lemma_members_from(s: Seq<bool>, from: int)
    requires
        0 <= from,
    ensures
        ascending(members_from(s, from)),
        forall|n: int| members_from(s, from).contains(n) <==> (from <= n && member(s, n)),
        forall|k: int| 0 <= k < members_from(s, from).len() ==> from <= members_from(s, from)[k],
    decreases s.len() - from,
{
    let l = members_from(s, from);
    if from < s.len() {
        let r = members_from(s, from + 1);
        lemma_members_from(s, from + 1);
        if s[from] {
            assert(l =~= seq![from] + r);
            assert forall|i: int, j: int| 0 <= i < j < l.len() implies l[i] < l[j] by {
                assert(l[j] == r[j - 1]);
                if i > 0 {
                    assert(l[i] == r[i - 1]);
                }
            }
            assert forall|n: int| l.contains(n) <==> (from <= n && member(s, n)) by {
                if l.contains(n) {
                    let k = choose|k: int| 0 <= k < l.len() && l[k] == n;
                    if k > 0 {
                        assert(r[k - 1] == n);
                        assert(r.contains(n));
                    }
                }
                if from <= n && member(s, n) {
                    if n == from {
                        assert(l[0] == n);
                    } else {
                        assert(r.contains(n));
                        let k = choose|k: int| 0 <= k < r.len() && r[k] == n;
                        assert(l[k + 1] == n);
                    }
                }
            }
            assert forall|k: int| 0 <= k < l.len() implies from <= l[k] by {
                if k > 0 {
                    assert(l[k] == r[k - 1]);
                }
            }
        } else {
            assert(l == r);
        }
    } else {
        assert forall|n: int| l.contains(n) <==> (from <= n && member(s, n)) by {}
    }
}

/// The listing of the members is strictly increasing, holds exactly the
/// members, and is as long as their count.
pub proof fn lemma_members(s: Seq<bool>)
    ensures
        ascending(members(s)),
        forall|n: int| members(s).contains(n) <==> member(s, n),
        members(s).len() == count(s),
{
    lemma_members_from(s, 0);
    lemma_members_len(s, 0);
    assert(s.skip(0) =~= s);
}

/// The listing from `from` on is as long as the count of what lies there.
proof fn lemma_members_len(s: Seq<bool>, from: int)
    requires
        0 <= from,
    ensures
        members_from(s, from).len() == if from <= s.len() {
            count(s.skip(from))
        } else {
            0
        },
    decreases s.len() - from,
{
    if from < s.len() {
        lemma_members_len(s, from + 1);
        let head = seq![s[from]];
        assert(s.skip(from) =~= head + s.skip(from + 1));
        lemma_count_add(head, s.skip(from + 1));
        reveal_with_fuel(count, 2);
        assert(count(head) == if s[from] {
            1nat
        } else {
            0nat
        });
    } else if from == s.len() {
        assert(s.skip(from) =~= Seq::<bool>::empty());
    }
}

/// When no member lies in `from..to`, the listing from `from` on is the
/// listing from `to` on.
pub proof fn lemma_members_skip(s: Seq<bool>, from: int, to: int)
    requires
        0 <= from <= to,
        forall|n: int| from <= n < to ==> !member(s, n),
    ensures
        members_from(s, from) == members_from(s, to),
    decreases to - from,
{
    if from < to {
        if from < s.len() {
            assert(!member(s, from));
            lemma_members_skip(s, from + 1, to);
        } else {
            assert(members_from(s, from) =~= members_from(s, to));
        }
    }
}

// ---------------------------------------------------------------------------
// Building from a sequence of values
// ---------------------------------------------------------------------------
/// A bitmap built from `xs` holds exactly the values of `xs`.
pub proof fn lemma_built(initial: nat, xs: Seq<u16>)
    ensures
        forall|n: int| member(built(initial, xs), n) <==> (0 <= n < 65536 && xs.contains(n as u16)),
        built(initial, xs).len() >= initial,
    decreases xs.len(),
{
    let s = built(initial, xs);
    if xs.len() == 0 {
    } else {
        let rest = xs.drop_last();
        let x = xs.last();
        lemma_built(initial, rest);
        lemma_with_bit(built(initial, rest), x as int);
        assert forall|n: int| member(s, n) implies (0 <= n < 65536 && xs.contains(n as u16)) by {
            if n == x {
                assert(xs[xs.len() - 1] == n as u16);
            } else {
                assert(member(built(initial, rest), n));
                assert(rest.contains(n as u16));
                let k = choose|k: int| 0 <= k < rest.len() && rest[k] == n as u16;
                assert(xs[k] == n as u16);
            }
        }
        assert forall|n: int| 0 <= n < 65536 && xs.contains(n as u16) implies member(s, n) by {
            let k = choose|k: int| 0 <= k < xs.len() && xs[k] == n as u16;
            if k < rest.len() {
                assert(rest[k] == n as u16);
                assert(rest.contains(n as u16));
                assert(member(built(initial, rest), n));
            } else {
                assert(n == x);
            }
        }
    }
}

} // verus!
