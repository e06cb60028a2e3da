//! Ranks of pages under a set of ordering rules.
//!
//! The puzzle guarantees that, restricted to the pages of any update that
//! needs reordering, the rules order every pair of pages and are consistent,
//! i.e. they form a strict total order. Under that assumption each page is
//! characterised by its rank: the number of pages ordered before it. This
//! module proves the facts the resolver rests on: ranks mirror the rules,
//! are injective, and take every value below the number of pages; and the
//! law that any topological ordering of the pages puts the page of rank `k`
//! at position `k`, so the middle page is the same whatever tie-breaking an
//! implementation uses.

use vstd::prelude::*;
use crate::counting::{
    count_into, count_preds, edge, lemma_count_into_zero, lemma_count_preds_lt,
    lemma_count_preds_lt_len, lemma_count_preds_permutation, lemma_count_preds_remove,
    lemma_count_preds_zero, lemma_remove_no_dup_contains,
};

verus! {

/// Both endpoints of every rule are pages of `ps`.
pub open spec fn constraints_within(cs: Seq<(u32, u32)>, ps: Seq<u32>) -> bool {
    forall|k: int|
        0 <= k < cs.len() ==> ps.contains((#[trigger] cs[k]).0) && ps.contains(cs[k].1)
}

/// No two pages are ordered both ways (this also rules out a rule from a page
/// to itself).
pub open spec fn antisymmetric(cs: Seq<(u32, u32)>) -> bool {
    forall|a: u32, b: u32| !(#[trigger] edge(cs, a, b) && edge(cs, b, a))
}

pub open spec fn transitive(cs: Seq<(u32, u32)>) -> bool {
    forall|a: u32, b: u32, c: u32|
        #![trigger edge(cs, a, b), edge(cs, b, c)]
        edge(cs, a, b) && edge(cs, b, c) ==> edge(cs, a, c)
}

/// Every two distinct pages of `ps` are ordered one way or the other.
pub open spec fn total_on(cs: Seq<(u32, u32)>, ps: Seq<u32>) -> bool {
    forall|a: u32, b: u32|
        #![trigger ps.contains(a), ps.contains(b)]
        ps.contains(a) && ps.contains(b) && a != b ==> (edge(cs, a, b) || edge(cs, b, a))
}

/// The rules, restricted to the page set `ps`, form a strict total order on
/// it. This is the puzzle's guarantee for each update that needs reordering.
pub open spec fn valid_order_instance(ps: Seq<u32>, cs: Seq<(u32, u32)>) -> bool {
    &&& ps.len() >= 1
    &&& ps.no_duplicates()
    &&& constraints_within(cs, ps)
    &&& antisymmetric(cs)
    &&& transitive(cs)
    &&& total_on(cs, ps)
}

/// No page of `ps` is ordered before `x`.
pub open spec fn no_pred_in(ps: Seq<u32>, cs: Seq<(u32, u32)>, x: u32) -> bool {
    forall|z: u32| ps.contains(z) ==> !edge(cs, z, x)
}

/// A page ordered before another has strictly smaller rank.
pub proof fn lemma_edge_rank_lt(ps: Seq<u32>, cs: Seq<(u32, u32)>, x: u32, y: u32)
    requires
        ps.no_duplicates(),
        antisymmetric(cs),
        transitive(cs),
        ps.contains(x),
        edge(cs, x, y),
    ensures
        count_preds(ps, cs, x) < count_preds(ps, cs, y),
{
    assert(!edge(cs, x, x));
    assert forall|z: u32| edge(cs, z, x) implies edge(cs, z, y) by {
        assert(edge(cs, x, y));
    }
    lemma_count_preds_lt(ps, cs, x, y, x);
}

/// Conversely, under totality, a strictly smaller rank means the rules order
/// the page before the other.
pub proof fn lemma_rank_lt_edge(ps: Seq<u32>, cs: Seq<(u32, u32)>, x: u32, y: u32)
    requires
        ps.no_duplicates(),
        antisymmetric(cs),
        transitive(cs),
        total_on(cs, ps),
        ps.contains(x),
        ps.contains(y),
        count_preds(ps, cs, x) < count_preds(ps, cs, y),
    ensures
        edge(cs, x, y),
{
    if !edge(cs, x, y) {
        assert(x != y);
        assert(edge(cs, y, x));
        lemma_edge_rank_lt(ps, cs, y, x);
    }
}

/// Two pages of equal rank are the same page.
pub proof fn lemma_rank_injective(ps: Seq<u32>, cs: Seq<(u32, u32)>, x: u32, y: u32)
    requires
        ps.no_duplicates(),
        antisymmetric(cs),
        transitive(cs),
        total_on(cs, ps),
        ps.contains(x),
        ps.contains(y),
        count_preds(ps, cs, x) == count_preds(ps, cs, y),
    ensures
        x == y,
{
    if x != y {
        assert(edge(cs, x, y) || edge(cs, y, x));
        if edge(cs, x, y) {
            lemma_edge_rank_lt(ps, cs, x, y);
        } else {
            lemma_edge_rank_lt(ps, cs, y, x);
        }
    }
}

/// The rank of a page of `ps` is below the number of pages.
pub proof fn lemma_rank_lt_len(ps: Seq<u32>, cs: Seq<(u32, u32)>, x: u32)
    requires
        antisymmetric(cs),
        ps.contains(x),
    ensures
        count_preds(ps, cs, x) < ps.len(),
{
    assert(!edge(cs, x, x));
    lemma_count_preds_lt_len(ps, cs, x, x);
}

/// A non-empty, totally ordered page set has a page with no predecessor in
/// it; this lemma hands that page back.
pub proof fn lemma_find_min(ps: Seq<u32>, cs: Seq<(u32, u32)>) -> (x: u32)
    requires
        ps.len() >= 1,
        antisymmetric(cs),
        transitive(cs),
        total_on(cs, ps),
    ensures
        ps.contains(x),
        no_pred_in(ps, cs, x),
    decreases ps.len(),
{
    let a = ps[0];
    assert(ps.contains(a));
    if ps.len() == 1 {
        assert forall|z: u32| ps.contains(z) implies !edge(cs, z, a) by {
            let k = choose|k: int| 0 <= k < ps.len() && ps[k] == z;
            assert(z == a);
            assert(!(edge(cs, a, a) && edge(cs, a, a)));
        }
        a
    } else {
        let rest = ps.drop_first();
        assert(forall|k: int| 0 <= k < rest.len() ==> rest[k] == ps[k + 1]);
        assert forall|z: u32| rest.contains(z) implies ps.contains(z) by {
            let k = choose|k: int| 0 <= k < rest.len() && rest[k] == z;
            assert(ps[k + 1] == z);
        }
        assert(total_on(cs, rest)) by {
            assert forall|b: u32, c: u32|
                rest.contains(b) && rest.contains(c) && b != c implies (edge(cs, b, c) || edge(
                cs,
                c,
                b,
            )) by {
                assert(ps.contains(b));
                assert(ps.contains(c));
            }
        }
        let m = lemma_find_min(rest, cs);
        assert(ps.contains(m));
        if !edge(cs, a, m) {
            assert forall|z: u32| ps.contains(z) implies !edge(cs, z, m) by {
                let k = choose|k: int| 0 <= k < ps.len() && ps[k] == z;
                if k == 0 {
                    assert(z == a);
                } else {
                    assert(rest[k - 1] == z);
                    assert(rest.contains(z));
                }
            }
            m
        } else {
            assert forall|z: u32| ps.contains(z) implies !edge(cs, z, a) by {
                let k = choose|k: int| 0 <= k < ps.len() && ps[k] == z;
                if k == 0 {
                    assert(z == a);
                    assert(!(edge(cs, a, a) && edge(cs, a, a)));
                } else {
                    assert(rest[k - 1] == z);
                    assert(rest.contains(z));
                    if edge(cs, z, a) {
                        if z == m {
                            assert(!(edge(cs, a, m) && edge(cs, m, a)));
                        } else {
                            assert(edge(cs, z, m));
                            assert(!edge(cs, z, m));
                        }
                    }
                }
            }
            a
        }
    }
}

/// Every rank below the number of pages is taken by some page: ranks are a
/// bijection between the pages and `0 .. ps.len()`.
pub proof fn lemma_rank_surjective(ps: Seq<u32>, cs: Seq<(u32, u32)>, n: nat)
    requires
        ps.no_duplicates(),
        antisymmetric(cs),
        transitive(cs),
        total_on(cs, ps),
        n < ps.len(),
    ensures
        exists|x: u32| ps.contains(x) && count_preds(ps, cs, x) == n,
    decreases ps.len(),
{
    let x0 = lemma_find_min(ps, cs);
    assert(count_preds(ps, cs, x0) == 0) by {
        lemma_count_preds_zero(ps, cs, x0);
        assert forall|i: int| 0 <= i < ps.len() implies !edge(cs, ps[i], x0) by {
            assert(ps.contains(ps[i]));
        }
    }
    if n == 0 {
        assert(ps.contains(x0) && count_preds(ps, cs, x0) == 0);
    } else {
        let i0 = choose|i: int| 0 <= i < ps.len() && ps[i] == x0;
        let rest = ps.remove(i0);
        lemma_remove_no_dup_contains(ps, i0);
        assert forall|z: u32| rest.contains(z) implies ps.contains(z) by {}
        assert(total_on(cs, rest));
        lemma_rank_surjective(rest, cs, (n - 1) as nat);
        let y = choose|x: u32| rest.contains(x) && count_preds(rest, cs, x) == n - 1;
        assert(ps.contains(y) && y != x0);
        assert(edge(cs, x0, y)) by {
            assert(!edge(cs, y, x0));
        }
        lemma_count_preds_remove(ps, cs, y, i0);
        assert(count_preds(ps, cs, y) == n);
    }
}

/// A page's counter reaches zero exactly when every page of smaller rank has
/// been emitted; equivalently, when its rank equals the number of pages
/// emitted so far. `emitted` lists the pages of rank `0, 1, ...` in order.
pub proof fn lemma_ready_iff_next(
    ps: Seq<u32>,
    cs: Seq<(u32, u32)>,
    emitted: Seq<u32>,
    q: u32,
)
    requires
        valid_order_instance(ps, cs),
        emitted.len() <= ps.len(),
        forall|j: int|
            0 <= j < emitted.len() ==> ps.contains(#[trigger] emitted[j]) && count_preds(
                ps,
                cs,
                emitted[j],
            ) == j,
        ps.contains(q),
        !emitted.contains(q),
    ensures
        (count_into(cs, q, emitted) == 0) <==> (count_preds(ps, cs, q) == emitted.len()),
{
    let m = emitted.len();
    assert(count_preds(ps, cs, q) >= m) by {
        if count_preds(ps, cs, q) < m {
            let j = count_preds(ps, cs, q) as int;
            lemma_rank_injective(ps, cs, q, emitted[j]);
            assert(emitted.contains(q));
        }
    }
    lemma_count_into_zero(cs, q, emitted);
    if count_into(cs, q, emitted) == 0 {
        if count_preds(ps, cs, q) > m {
            lemma_rank_lt_len(ps, cs, q);
            lemma_rank_surjective(ps, cs, m as nat);
            let w = choose|x: u32| ps.contains(x) && count_preds(ps, cs, x) == m;
            assert(!emitted.contains(w)) by {
                if emitted.contains(w) {
                    let j = choose|j: int| 0 <= j < emitted.len() && emitted[j] == w;
                    assert(count_preds(ps, cs, emitted[j]) == j);
                }
            }
            lemma_rank_lt_edge(ps, cs, w, q);
            let k = choose|k: int| 0 <= k < cs.len() && (#[trigger] cs[k]) == (w, q);
            assert(emitted.contains(w));
        }
    }
    if count_preds(ps, cs, q) == m {
        assert forall|k: int|
            0 <= k < cs.len() && (#[trigger] cs[k]).1 == q implies emitted.contains(cs[k].0) by {
            let z = cs[k].0;
            assert(edge(cs, z, q)) by {
                assert(cs[k] == (z, q));
            }
            assert(ps.contains(z));
            assert(z != q) by {
                assert(!(edge(cs, q, q) && edge(cs, q, q)));
            }
            lemma_edge_rank_lt(ps, cs, z, q);
            let j = count_preds(ps, cs, z) as int;
            lemma_rank_injective(ps, cs, z, emitted[j]);
            assert(emitted[j] == z);
        }
    }
}

/// `ord` arranges exactly the pages of `ps`, never placing a page after one
/// of its successors.
pub open spec fn is_topo_order(ord: Seq<u32>, ps: Seq<u32>, cs: Seq<(u32, u32)>) -> bool {
    &&& ord.len() == ps.len()
    &&& ord.no_duplicates()
    &&& (forall|v: u32| ord.contains(v) <==> ps.contains(v))
    &&& (forall|i: int, j: int| 0 <= i < j < ord.len() ==> !edge(cs, ord[j], ord[i]))
}

/// Helper: if a predicate holds of exactly the first `j` positions of a
/// sequence, the matching count is `j`.
proof fn lemma_count_preds_prefix(s: Seq<u32>, cs: Seq<(u32, u32)>, x: u32, j: int)
    requires
        0 <= j <= s.len(),
        forall|i: int| 0 <= i < s.len() ==> (edge(cs, #[trigger] s[i], x) <==> i < j),
    ensures
        count_preds(s, cs, x) == j,
    decreases s.len(),
{
    if s.len() > 0 {
        assert(forall|i: int| 0 <= i < s.len() - 1 ==> s.drop_last()[i] == s[i]);
        if j == s.len() {
            lemma_count_preds_prefix(s.drop_last(), cs, x, j - 1);
        } else {
            lemma_count_preds_prefix(s.drop_last(), cs, x, j);
        }
    }
}

/// In any topological ordering of a totally ordered page set, the page at
/// position `j` has rank `j`.
pub proof fn lemma_topo_order_positions(ps: Seq<u32>, cs: Seq<(u32, u32)>, ord: Seq<u32>, j: int)
    requires
        valid_order_instance(ps, cs),
        is_topo_order(ord, ps, cs),
        0 <= j < ord.len(),
    ensures
        count_preds(ps, cs, ord[j]) == j,
{
    let m = ord[j];
    assert forall|i: int| 0 <= i < ord.len() implies (edge(cs, #[trigger] ord[i], m) <==> i < j) by {
        assert(ord.contains(ord[i]));
        assert(ord.contains(ord[j]));
        if i < j {
            assert(ord[i] != ord[j]);
            assert(!edge(cs, ord[j], ord[i]));
            assert(edge(cs, ord[i], ord[j]) || edge(cs, ord[j], ord[i]));
        } else if i == j {
            assert(!(edge(cs, ord[j], ord[j]) && edge(cs, ord[j], ord[j])));
        } else {
            assert(!edge(cs, ord[i], ord[j]));
        }
    }
    lemma_count_preds_prefix(ord, cs, m, j);
    lemma_count_preds_permutation(ord, ps, cs, m);
}

/// The law the resolver rests on: whenever the rules totally order the page
/// set, every topological ordering has the same page at the middle position,
/// namely the unique page whose rank is half the number of pages.
/// Tie-breaking among simultaneously ready pages therefore cannot change the
/// answer.
pub proof fn lemma_topo_order_determines_middle(
    ps: Seq<u32>,
    cs: Seq<(u32, u32)>,
    ord: Seq<u32>,
    m: u32,
)
    requires
        valid_order_instance(ps, cs),
        is_topo_order(ord, ps, cs),
        ps.contains(m),
        count_preds(ps, cs, m) == ps.len() / 2,
    ensures
        ord[ps.len() as int / 2] == m,
{
    let j = ps.len() as int / 2;
    lemma_topo_order_positions(ps, cs, ord, j);
    assert(ps.contains(ord[j])) by {
        assert(ord.contains(ord[j]));
    }
    lemma_rank_injective(ps, cs, ord[j], m);
}

} // verus!
