//! Counting occurrences of rules and pages.
//!
//! The ordering rules are an unordered list of pairs, possibly with
//! duplicates, so the resolver's bookkeeping is naturally stated as counts
//! with multiplicity: how many rules point into a page, how many rules relate
//! two given pages, how many elements of a page list are predecessors of a
//! page. This module defines those counts and the small arithmetic facts the
//! rest of the crate needs about them.

use vstd::prelude::*;

verus! {

/// Some rule orders `a` directly before `b`.
pub open spec fn edge(cs: Seq<(u32, u32)>, a: u32, b: u32) -> bool {
    exists|k: int| 0 <= k < cs.len() && (#[trigger] cs[k]) == (a, b)
}

/// Number of elements of `ps` (with multiplicity) that some rule orders
/// directly before `x`.
pub open spec fn count_preds(ps: Seq<u32>, cs: Seq<(u32, u32)>, x: u32) -> nat
    decreases ps.len(),
{
    if ps.len() == 0 {
        0
    } else {
        count_preds(ps.drop_last(), cs, x) + if edge(cs, ps.last(), x) {
            1nat
        } else {
            0nat
        }
    }
}

/// Number of rules (with multiplicity) pointing into `x` whose source has not
/// been emitted yet.
pub open spec fn count_into(cs: Seq<(u32, u32)>, x: u32, emitted: Seq<u32>) -> nat
    decreases cs.len(),
{
    if cs.len() == 0 {
        0
    } else {
        count_into(cs.drop_last(), x, emitted) + if cs.last().1 == x && !emitted.contains(
            cs.last().0,
        ) {
            1nat
        } else {
            0nat
        }
    }
}

/// Number of occurrences of the rule `(a, b)` in `cs`.
pub open spec fn count_pair(cs: Seq<(u32, u32)>, a: u32, b: u32) -> nat
    decreases cs.len(),
{
    if cs.len() == 0 {
        0
    } else {
        count_pair(cs.drop_last(), a, b) + if cs.last() == (a, b) {
            1nat
        } else {
            0nat
        }
    }
}

/// Number of occurrences of `x` in `s`, unrolling from the front so that it
/// walks along with `Seq::skip`.
pub open spec fn count_val(s: Seq<u32>, x: u32) -> nat
    decreases s.len(),
{
    if s.len() == 0 {
        0
    } else {
        (if s[0] == x {
            1nat
        } else {
            0nat
        }) + count_val(s.drop_first(), x)
    }
}

/// The successors that the rules give `p`, in rule order, with multiplicity.
pub open spec fn succ_of(cs: Seq<(u32, u32)>, p: u32) -> Seq<u32>
    decreases cs.len(),
{
    if cs.len() == 0 {
        Seq::empty()
    } else {
        succ_of(cs.drop_last(), p) + if cs.last().0 == p {
            seq![cs.last().1]
        } else {
            Seq::empty()
        }
    }
}

pub proof fn lemma_push_contains(s: Seq<u32>, v: u32, z: u32)
    ensures
        s.push(v).contains(z) <==> (s.contains(z) || z == v),
{
    if s.push(v).contains(z) {
        let i = choose|i: int| 0 <= i < s.push(v).len() && s.push(v)[i] == z;
        if i < s.len() {
            assert(s[i] == z);
        }
    }
    if s.contains(z) {
        let i = choose|i: int| 0 <= i < s.len() && s[i] == z;
        assert(s.push(v)[i] == z);
    }
    assert(s.push(v)[s.len() as int] == v);
}

/// If every predecessor of `x` is also a predecessor of `y`, then `x` has no
/// more predecessors in `ps` than `y`.
pub proof fn lemma_count_preds_le(ps: Seq<u32>, cs: Seq<(u32, u32)>, x: u32, y: u32)
    requires
        forall|z: u32| edge(cs, z, x) ==> edge(cs, z, y),
    ensures
        count_preds(ps, cs, x) <= count_preds(ps, cs, y),
    decreases ps.len(),
{
    if ps.len() > 0 {
        lemma_count_preds_le(ps.drop_last(), cs, x, y);
    }
}

/// As above, and additionally `ps` holds a witness that precedes `y` but not
/// `x`: then the count for `x` is strictly smaller.
pub proof fn lemma_count_preds_lt(ps: Seq<u32>, cs: Seq<(u32, u32)>, x: u32, y: u32, w: u32)
    requires
        forall|z: u32| edge(cs, z, x) ==> edge(cs, z, y),
        ps.contains(w),
        edge(cs, w, y),
        !edge(cs, w, x),
    ensures
        count_preds(ps, cs, x) < count_preds(ps, cs, y),
    decreases ps.len(),
{
    let i = choose|i: int| 0 <= i < ps.len() && ps[i] == w;
    if i == ps.len() - 1 {
        lemma_count_preds_le(ps.drop_last(), cs, x, y);
    } else {
        assert(ps.drop_last()[i] == w);
        assert(ps.drop_last().contains(w));
        lemma_count_preds_lt(ps.drop_last(), cs, x, y, w);
    }
}

pub proof fn lemma_count_preds_le_len(ps: Seq<u32>, cs: Seq<(u32, u32)>, x: u32)
    ensures
        count_preds(ps, cs, x) <= ps.len(),
    decreases ps.len(),
{
    if ps.len() > 0 {
        lemma_count_preds_le_len(ps.drop_last(), cs, x);
    }
}

/// If `ps` holds an element that is not a predecessor of `x`, the count stays
/// below the length of `ps`.
pub proof fn lemma_count_preds_lt_len(ps: Seq<u32>, cs: Seq<(u32, u32)>, x: u32, w: u32)
    requires
        ps.contains(w),
        !edge(cs, w, x),
    ensures
        count_preds(ps, cs, x) < ps.len(),
    decreases ps.len(),
{
    let i = choose|i: int| 0 <= i < ps.len() && ps[i] == w;
    if i == ps.len() - 1 {
        lemma_count_preds_le_len(ps.drop_last(), cs, x);
    } else {
        assert(ps.drop_last()[i] == w);
        assert(ps.drop_last().contains(w));
        lemma_count_preds_lt_len(ps.drop_last(), cs, x, w);
    }
}

pub proof fn lemma_count_preds_zero(ps: Seq<u32>, cs: Seq<(u32, u32)>, x: u32)
    ensures
        (count_preds(ps, cs, x) == 0) <==> (forall|i: int|
            0 <= i < ps.len() ==> !edge(cs, ps[i], x)),
    decreases ps.len(),
{
    if ps.len() > 0 {
        lemma_count_preds_zero(ps.drop_last(), cs, x);
        assert(forall|i: int| 0 <= i < ps.len() - 1 ==> ps.drop_last()[i] == ps[i]);
        if count_preds(ps, cs, x) == 0 {
            assert(forall|i: int| 0 <= i < ps.len() ==> !edge(cs, ps[i], x)) by {
                assert(forall|i: int| 0 <= i < ps.len() - 1 ==> !edge(cs, ps.drop_last()[i], x));
                assert(!edge(cs, ps.last(), x));
            }
        }
    }
}

/// Removing the element at `i` lowers the count by exactly its contribution.
pub proof fn lemma_count_preds_remove(ps: Seq<u32>, cs: Seq<(u32, u32)>, x: u32, i: int)
    requires
        0 <= i < ps.len(),
    ensures
        count_preds(ps, cs, x) == count_preds(ps.remove(i), cs, x) + if edge(cs, ps[i], x) {
            1nat
        } else {
            0nat
        },
    decreases ps.len(),
{
    if i == ps.len() - 1 {
        assert(ps.remove(i) =~= ps.drop_last());
    } else {
        assert(ps.remove(i).drop_last() =~= ps.drop_last().remove(i));
        assert(ps.remove(i).last() == ps.last());
        lemma_count_preds_remove(ps.drop_last(), cs, x, i);
    }
}

/// Removing one position from a duplicate-free sequence removes exactly that
/// value from its contents.
pub proof fn lemma_remove_no_dup_contains(s: Seq<u32>, j: int)
    requires
        s.no_duplicates(),
        0 <= j < s.len(),
    ensures
        s.remove(j).no_duplicates(),
        forall|w: u32| s.remove(j).contains(w) <==> (s.contains(w) && w != s[j]),
{
    s.remove_ensures(j);
    assert forall|w: u32| s.remove(j).contains(w) implies (s.contains(w) && w != s[j]) by {
        let i = choose|i: int| 0 <= i < s.remove(j).len() && s.remove(j)[i] == w;
        if i < j {
            assert(s[i] == w);
        } else {
            assert(s[i + 1] == w);
        }
    }
    assert forall|w: u32| s.contains(w) && w != s[j] implies s.remove(j).contains(w) by {
        let i = choose|i: int| 0 <= i < s.len() && s[i] == w;
        if i < j {
            assert(s.remove(j)[i] == w);
        } else {
            assert(s.remove(j)[i - 1] == w);
        }
    }
}

/// The predecessor count only depends on which pages appear, not on their
/// order, as long as no page is repeated.
pub proof fn lemma_count_preds_permutation(ps1: Seq<u32>, ps2: Seq<u32>, cs: Seq<(u32, u32)>, x: u32)
    requires
        ps1.no_duplicates(),
        ps2.no_duplicates(),
        forall|v: u32| ps1.contains(v) <==> ps2.contains(v),
    ensures
        count_preds(ps1, cs, x) == count_preds(ps2, cs, x),
    decreases ps1.len(),
{
    if ps1.len() == 0 {
        if ps2.len() > 0 {
            assert(ps2.contains(ps2[0]));
        }
    } else {
        let v = ps1.last();
        assert(ps1.contains(v)) by {
            assert(ps1[ps1.len() - 1] == v);
        }
        let j = choose|j: int| 0 <= j < ps2.len() && ps2[j] == v;
        lemma_count_preds_remove(ps2, cs, x, j);
        lemma_remove_no_dup_contains(ps2, j);
        lemma_remove_no_dup_contains(ps1, ps1.len() - 1);
        assert(ps1.remove(ps1.len() - 1) =~= ps1.drop_last());
        assert forall|w: u32| ps1.drop_last().contains(w) <==> ps2.remove(j).contains(w) by {
            assert(ps1.remove(ps1.len() - 1).contains(w) <==> (ps1.contains(w) && w != v));
            assert(ps2.remove(j).contains(w) <==> (ps2.contains(w) && w != v));
        }
        lemma_count_preds_permutation(ps1.drop_last(), ps2.remove(j), cs, x);
    }
}

pub proof fn lemma_count_into_zero(cs: Seq<(u32, u32)>, x: u32, emitted: Seq<u32>)
    ensures
        (count_into(cs, x, emitted) == 0) <==> (forall|k: int|
            0 <= k < cs.len() && (#[trigger] cs[k]).1 == x ==> emitted.contains(cs[k].0)),
    decreases cs.len(),
{
    if cs.len() > 0 {
        lemma_count_into_zero(cs.drop_last(), x, emitted);
        assert(forall|k: int| 0 <= k < cs.len() - 1 ==> cs.drop_last()[k] == cs[k]);
        if count_into(cs, x, emitted) == 0 {
            assert(forall|k: int|
                0 <= k < cs.len() && (#[trigger] cs[k]).1 == x ==> emitted.contains(cs[k].0)) by {
                assert(forall|k: int|
                    0 <= k < cs.len() - 1 && (#[trigger] cs.drop_last()[k]).1 == x
                        ==> emitted.contains(cs.drop_last()[k].0));
            }
        }
    }
}

/// Emitting `curr` splits the rules still pointing into `x` into those from
/// `curr` and those from pages that remain unemitted.
pub proof fn lemma_count_into_extend(cs: Seq<(u32, u32)>, x: u32, emitted: Seq<u32>, curr: u32)
    requires
        !emitted.contains(curr),
    ensures
        count_into(cs, x, emitted) == count_into(cs, x, emitted.push(curr)) + count_pair(
            cs,
            curr,
            x,
        ),
    decreases cs.len(),
{
    if cs.len() > 0 {
        lemma_count_into_extend(cs.drop_last(), x, emitted, curr);
        lemma_push_contains(emitted, curr, cs.last().0);
    }
}

pub proof fn lemma_count_val_succ(cs: Seq<(u32, u32)>, p: u32, x: u32)
    ensures
        count_val(succ_of(cs, p), x) == count_pair(cs, p, x),
    decreases cs.len(),
{
    if cs.len() > 0 {
        lemma_count_val_succ(cs.drop_last(), p, x);
        let tail: Seq<u32> = if cs.last().0 == p {
            seq![cs.last().1]
        } else {
            Seq::empty()
        };
        lemma_count_val_concat(succ_of(cs.drop_last(), p), tail, x);
        if cs.last().0 == p {
            assert(count_val(tail, x) == if cs.last().1 == x {
                1nat
            } else {
                0nat
            }) by {
                assert(count_val(Seq::<u32>::empty(), x) == 0);
                assert(tail.drop_first() =~= Seq::<u32>::empty());
                assert(tail[0] == cs.last().1);
            }
        }
    }
}

pub proof fn lemma_count_val_concat(a: Seq<u32>, b: Seq<u32>, x: u32)
    ensures
        count_val(a + b, x) == count_val(a, x) + count_val(b, x),
    decreases a.len(),
{
    if a.len() == 0 {
        assert(a + b =~= b);
    } else {
        assert((a + b)[0] == a[0]);
        assert((a + b).drop_first() =~= a.drop_first() + b);
        lemma_count_val_concat(a.drop_first(), b, x);
    }
}

/// A rule occurs in `cs` exactly when its occurrence count is positive.
pub proof fn lemma_count_pair_edge(cs: Seq<(u32, u32)>, a: u32, b: u32)
    ensures
        (count_pair(cs, a, b) > 0) <==> edge(cs, a, b),
    decreases cs.len(),
{
    if cs.len() > 0 {
        lemma_count_pair_edge(cs.drop_last(), a, b);
        assert(forall|k: int| 0 <= k < cs.len() - 1 ==> cs.drop_last()[k] == cs[k]);
        if edge(cs.drop_last(), a, b) {
            let k = choose|k: int|
                0 <= k < cs.drop_last().len() && (#[trigger] cs.drop_last()[k]) == (a, b);
            assert(cs[k] == (a, b));
        }
        if cs.last() == (a, b) {
            assert(cs[cs.len() - 1] == (a, b));
        }
        if edge(cs, a, b) && cs.last() != (a, b) {
            let k = choose|k: int| 0 <= k < cs.len() && (#[trigger] cs[k]) == (a, b);
            assert(cs.drop_last()[k] == (a, b));
        }
    }
}

/// Every page in a successor list is a direct successor by some rule.
pub proof fn lemma_succ_of_membership(cs: Seq<(u32, u32)>, p: u32, v: u32)
    requires
        succ_of(cs, p).contains(v),
    ensures
        edge(cs, p, v),
    decreases cs.len(),
{
    lemma_count_val_member(succ_of(cs, p), v);
    lemma_count_val_succ(cs, p, v);
    lemma_count_pair_edge(cs, p, v);
}

pub proof fn lemma_count_val_member(s: Seq<u32>, v: u32)
    ensures
        (count_val(s, v) > 0) <==> s.contains(v),
    decreases s.len(),
{
    if s.len() > 0 {
        lemma_count_val_member(s.drop_first(), v);
        assert(forall|k: int| 0 <= k < s.len() - 1 ==> s.drop_first()[k] == s[k + 1]);
        if s.drop_first().contains(v) {
            let k = choose|k: int| 0 <= k < s.drop_first().len() && s.drop_first()[k] == v;
            assert(s[k + 1] == v);
        }
        if s[0] == v {
            assert(s.contains(v));
        }
        if s.contains(v) && s[0] != v {
            let k = choose|k: int| 0 <= k < s.len() && s[k] == v;
            assert(s.drop_first()[k - 1] == v);
        }
    }
}

} // verus!
