//! Permutation factorization queries and policy choices.

use crate::action::{Action, DefinitionPosition, QueryError};
use crate::biclique::ascending;
use crate::coeff::{
    is_zero_value, ratio_of_integer, ratio_product, ratio_quotient, ratio_sum, CoeffView, Coefficient,
};
use crate::order::{
    compare_coefficients, compare_index_ids, compare_indices, compare_usizes, lemma_lex_order_swap, lemma_lex_order_trans,
    lemma_lex_order_zero, lex_order, usize_keys,
};
use crate::repr::{
    terms_view, Index, IndexId, TensorDef, TensorDefView, TensorId, TensorRef, TensorRefView, Term,
    TermView,
};
use crate::state::intermediate::{adds_intermediate, contains_index_id};
use crate::state::{replaces_terms, State, StateError, StateView};
use crate::valid::{distinct_ids, has_id, perm_valid};
use vstd::prelude::*;

verus! {

// ----------------------------------------------------------------------------
// Relative permutations
// ----------------------------------------------------------------------------

/// The position of the external with identity `id`.
pub open spec fn slot_of(exts: Seq<Index>, id: IndexId) -> int {
    choose|p: int| 0 <= p < exts.len() && exts[p].id == id
}

/// `pivot` and `occurrence` both list every external once, and each slot of
/// `pivot` holds an external of the same range as the corresponding slot of
/// `occurrence`.
pub open spec fn relatable(exts: Seq<Index>, pivot: Seq<IndexId>, occurrence: Seq<IndexId>) -> bool {
    &&& pivot.len() == exts.len()
    &&& occurrence.len() == exts.len()
    &&& pivot.no_duplicates()
    &&& occurrence.no_duplicates()
    &&& forall|k: int|
        0 <= k < exts.len() ==> has_id(exts, #[trigger] pivot[k]) && has_id(exts, occurrence[k])
    &&& forall|k: int|
        0 <= k < exts.len() ==> exts[slot_of(exts, #[trigger] pivot[k])].range == exts[slot_of(
            exts,
            occurrence[k],
        )].range
}

fn slot_position(exts: &[Index], id: IndexId) -> (r: Option<usize>)
    requires
        distinct_ids(exts@),
    ensures
        r is Some <==> has_id(exts@, id),
        r matches Some(p) ==> p == slot_of(exts@, id) && p < exts.len(),
{
    let mut p: usize = 0;
    while p < exts.len()
        invariant
            p <= exts.len(),
            distinct_ids(exts@),
            forall|j: int| 0 <= j < p ==> (#[trigger] exts@[j]).id != id,
        decreases exts.len() - p,
    {
        if exts[p].id == id {
            proof {
                let s = slot_of(exts@, id);
                assert(0 <= s < exts.len() && exts@[s].id == id);
                if s != p {
                    assert(exts@[s].id != exts@[p as int].id);
                }
            }
            return Some(p);
        }
        p = p + 1;
    }
    None
}

/// Extending a prefix by one entry adds exactly that entry.
proof fn lemma_prefix_contains<A>(s: Seq<A>, n: int, y: A)
    requires
        0 <= n < s.len(),
    ensures
        s.subrange(0, n + 1).contains(y) <==> s.subrange(0, n).contains(y) || y == s[n],
{
    if s.subrange(0, n + 1).contains(y) {
        let i = choose|i: int| 0 <= i < n + 1 && #[trigger] s.subrange(0, n + 1)[i] == y;
        if i < n {
            assert(s.subrange(0, n)[i] == y);
        }
    }
    if s.subrange(0, n).contains(y) {
        let i = choose|i: int| 0 <= i < n && #[trigger] s.subrange(0, n)[i] == y;
        assert(s.subrange(0, n + 1)[i] == y);
    }
    if y == s[n] {
        assert(s.subrange(0, n + 1)[n] == y);
    }
}

/// Some entry of `s` equals `t`.
spec fn reaches(s: Seq<int>, t: int) -> bool {
    exists|j: int| 0 <= j < s.len() && #[trigger] s[j] == t
}

/// The permutation of external slots moves every slot to a slot of the same
/// range.
pub open spec fn range_preserving(exts: Seq<Index>, perm: Seq<usize>) -> bool {
    forall|s: int| 0 <= s < exts.len() ==> exts[#[trigger] perm[s] as int].range == exts[s].range
}

/// The permutation of external slots that turns `pivot` into `occurrence`:
/// slot `s` of `pivot` moves to slot `perm[s]`.
pub fn relative_permutation(exts: &[Index], pivot: &[IndexId], occurrence: &[IndexId]) -> (r:
    Option<Vec<usize>>)
    ensures
        r is Some <==> distinct_ids(exts@) && relatable(exts@, pivot@, occurrence@),
        r matches Some(perm) ==> range_preserving(exts@, perm@),
        r matches Some(perm) ==> perm_valid(perm@, exts.len() as nat) && forall|k: int|
            0 <= k < exts.len() ==> perm@[slot_of(exts@, #[trigger] pivot@[k])] == slot_of(
                exts@,
                occurrence@[k],
            ),
{
    if crate::canon::first_duplicate(exts).is_some() {
        return None;
    }
    let n = exts.len();
    if pivot.len() != n || occurrence.len() != n {
        return None;
    }
    let mut perm: Vec<usize> = Vec::new();
    let mut assigned: Vec<bool> = Vec::new();
    let mut image: Vec<bool> = Vec::new();
    let mut k: usize = 0;
    while k < n
        invariant
            k <= n,
            perm@.len() == k,
            assigned@.len() == k,
            image@.len() == k,
            forall|j: int| 0 <= j < k ==> !assigned@[j] && !image@[j] && perm@[j] == 0,
        decreases n - k,
    {
        perm.push(0);
        assigned.push(false);
        image.push(false);
        k = k + 1;
    }
    let mut k: usize = 0;
    while k < n
        invariant
            k <= n,
            n == exts.len() == pivot.len() == occurrence.len(),
            distinct_ids(exts@),
            perm@.len() == n,
            assigned@.len() == n,
            image@.len() == n,
            forall|j: int| 0 <= j < k ==> has_id(exts@, #[trigger] pivot@[j]),
            forall|j: int| 0 <= j < k ==> has_id(exts@, #[trigger] occurrence@[j]),
            forall|j: int|
                0 <= j < k ==> exts@[slot_of(exts@, #[trigger] pivot@[j])].range == exts@[slot_of(
                    exts@,
                    occurrence@[j],
                )].range,
            forall|j: int| 0 <= j < k ==> perm@[slot_of(exts@, #[trigger] pivot@[j])] == slot_of(exts@, occurrence@[j]),
            forall|s: int| 0 <= s < n ==> (#[trigger] assigned@[s] <==> exists|j: int| 0 <= j < k && slot_of(exts@, pivot@[j]) == s),
            forall|t: int| 0 <= t < n ==> (#[trigger] image@[t] <==> exists|j: int| 0 <= j < k && slot_of(exts@, occurrence@[j]) == t),
            forall|a: int, b: int| 0 <= a < b < k ==> pivot@[a] != pivot@[b] && occurrence@[a] != occurrence@[b],
        decreases n - k,
    {
        let source = match slot_position(exts, pivot[k]) {
            Some(p) => p,
            None => {
                return None;
            },
        };
        let target = match slot_position(exts, occurrence[k]) {
            Some(p) => p,
            None => {
                return None;
            },
        };
        if assigned[source] || exts[source].range != exts[target].range || image[target] {
            proof {
                if assigned@[source as int] {
                    let j = choose|j: int| 0 <= j < k && slot_of(exts@, pivot@[j]) == source;
                    assert(pivot@[j] == pivot@[k as int]);
                }
                if image@[target as int] {
                    let j = choose|j: int| 0 <= j < k && slot_of(exts@, occurrence@[j]) == target;
                    assert(occurrence@[j] == occurrence@[k as int]);
                }
            }
            return None;
        }
        perm.set(source, target);
        assigned.set(source, true);
        image.set(target, true);
        proof {
            assert forall|a: int, b: int| 0 <= a < b < k + 1 implies pivot@[a] != pivot@[b] && occurrence@[a] != occurrence@[b] by {
                if b == k {
                    if pivot@[a] == pivot@[b] {
                        assert(assigned@[source as int]);
                    }
                    if occurrence@[a] == occurrence@[b] {
                        assert(image@[target as int]);
                    }
                }
            }
        }
        k = k + 1;
    }
    proof {
        assert(pivot@.no_duplicates());
        assert(occurrence@.no_duplicates());
        let sl = Seq::new(n as nat, |j: int| slot_of(exts@, pivot@[j]));
        let so = Seq::new(n as nat, |j: int| slot_of(exts@, occurrence@[j]));
        assert forall|j: int| 0 <= j < n implies 0 <= #[trigger] sl[j] < n && exts@[sl[j]].id == pivot@[j] by {
            assert(has_id(exts@, pivot@[j]));
        }
        assert forall|j: int| 0 <= j < n implies 0 <= #[trigger] so[j] < n && exts@[so[j]].id == occurrence@[j] by {
            assert(has_id(exts@, occurrence@[j]));
        }
        assert forall|a: int, b: int| 0 <= a < n && 0 <= b < n && a != b implies sl[a] != sl[b] && so[a] != so[b] by {
            assert(pivot@[a] != pivot@[b]);
            assert(occurrence@[a] != occurrence@[b]);
            assert(0 <= sl[a] < n && 0 <= sl[b] < n);
            assert(0 <= so[a] < n && 0 <= so[b] < n);
        }
        assert forall|t: int| 0 <= t < n implies #[trigger] reaches(sl, t) by {
            let w = Seq::new(n as nat, |j: int| sl[j] as usize);
            assert forall|x: int| 0 <= x < n implies #[trigger] w[x] < n by {
                assert(0 <= sl[x] < n);
            }
            assert forall|a: int, b: int| 0 <= a < n && 0 <= b < n && a != b implies #[trigger] w[a] != #[trigger] w[b] by {
                assert(sl[a] != sl[b]);
                assert(0 <= sl[a] < n && 0 <= sl[b] < n);
            }
            assert(perm_valid(w, n as nat));
            crate::count::lemma_perm_onto(w, n as nat, t);
            let j = choose|j: int| 0 <= j < n && #[trigger] w[j] == t;
            assert(0 <= sl[j] < n);
            assert(sl[j] == t);
        }
        assert(forall|t: int| 0 <= t < n ==> #[trigger] reaches(sl, t));
        assert forall|s: int| 0 <= s < n implies #[trigger] perm@[s] < n by {
            assert(reaches(sl, s));
            let j = choose|j: int| 0 <= j < n && #[trigger] sl[j] == s;
            assert(perm@[slot_of(exts@, pivot@[j])] == slot_of(exts@, occurrence@[j]));
            assert(0 <= so[j] < n);
        }
        assert forall|a: int, b: int| 0 <= a < n && 0 <= b < n && a != b implies #[trigger] perm@[a] != #[trigger] perm@[b] by {
            assert(reaches(sl, a));
            assert(reaches(sl, b));
            let ja = choose|j: int| 0 <= j < n && #[trigger] sl[j] == a;
            let jb = choose|j: int| 0 <= j < n && #[trigger] sl[j] == b;
            assert(perm@[slot_of(exts@, pivot@[ja])] == slot_of(exts@, occurrence@[ja]));
            assert(perm@[slot_of(exts@, pivot@[jb])] == slot_of(exts@, occurrence@[jb]));
            assert(ja != jb);
            assert(so[ja] != so[jb]);
        }
        assert forall|s: int| 0 <= s < n implies exts@[#[trigger] perm@[s] as int].range == exts@[s].range by {
            assert(reaches(sl, s));
            let j = choose|j: int| 0 <= j < n && #[trigger] sl[j] == s;
            assert(perm@[slot_of(exts@, pivot@[j])] == slot_of(exts@, occurrence@[j]));
        }
    }
    Some(perm)
}

// ----------------------------------------------------------------------------
// Maximal cliques
// ----------------------------------------------------------------------------

/// A symmetric, irreflexive adjacency matrix.
pub open spec fn adjacency_valid(adj: Seq<Vec<bool>>) -> bool {
    &&& forall|i: int| 0 <= i < adj.len() ==> (#[trigger] adj[i])@.len() == adj.len()
    &&& forall|i: int, j: int|
        0 <= i < adj.len() && 0 <= j < adj.len() ==> (#[trigger] adj[i])@[j] == (#[trigger] adj[j])@[i]
    &&& forall|i: int| 0 <= i < adj.len() ==> !(#[trigger] adj[i])@[i]
}

/// Node `x` is adjacent to every node of `nodes`.
pub open spec fn adjacent_to_all(adj: Seq<Vec<bool>>, nodes: Seq<usize>, x: usize) -> bool {
    forall|k: int| 0 <= k < nodes.len() ==> adj[x as int]@[#[trigger] nodes[k] as int]
}

/// Distinct, pairwise adjacent nodes.
pub open spec fn is_clique(adj: Seq<Vec<bool>>, nodes: Seq<usize>) -> bool {
    &&& forall|k: int| 0 <= k < nodes.len() ==> #[trigger] nodes[k] < adj.len()
    &&& forall|a: int, b: int|
        0 <= a < nodes.len() && 0 <= b < nodes.len() && a != b ==> adj[#[trigger] nodes[a] as int]@[
            #[trigger] nodes[b] as int]
}

/// A clique that no further node extends.
pub open spec fn is_maximal_clique(adj: Seq<Vec<bool>>, nodes: Seq<usize>) -> bool {
    &&& is_clique(adj, nodes)
    &&& forall|x: usize| x < adj.len() && !nodes.contains(x) ==> !#[trigger] adjacent_to_all(adj, nodes, x)
}

/// `a` and `b` hold the same nodes.
pub open spec fn same_nodes(a: Seq<usize>, b: Seq<usize>) -> bool {
    forall|x: usize| a.contains(x) <==> b.contains(x)
}

/// An entry of `results`, from position `from` on, holds exactly the nodes
/// of `m`.
pub open spec fn reported(results: Seq<Vec<usize>>, from: int, m: Seq<usize>) -> bool {
    exists|k: int| from <= k < results.len() && same_nodes(#[trigger] results[k]@, m)
}

/// `m` is a maximal clique that a search from `clique`, with `candidates`
/// still to try and `excluded` already explored, has to report: it extends
/// the clique by candidates alone.
pub open spec fn owed(
    adj: Seq<Vec<bool>>,
    clique: Seq<usize>,
    candidates: Seq<usize>,
    excluded: Seq<usize>,
    m: Seq<usize>,
) -> bool {
    &&& is_maximal_clique(adj, m)
    &&& forall|x: usize| #[trigger] clique.contains(x) ==> m.contains(x)
    &&& forall|x: usize| #[trigger] m.contains(x) && !clique.contains(x) ==> candidates.contains(x)
    &&& forall|x: usize| #[trigger] excluded.contains(x) ==> !m.contains(x)
}

/// One of the first `upto` entries of `order` is a node of `m`.
spec fn meets(order: Seq<usize>, upto: int, m: Seq<usize>) -> bool {
    exists|j: int| 0 <= j < upto && m.contains(#[trigger] order[j])
}

/// `x` is one of the first `upto` entries of `order`.
spec fn taken(order: Seq<usize>, upto: int, x: usize) -> bool {
    exists|j: int| 0 <= j < upto && #[trigger] order[j] == x
}

/// A set of nodes: distinct and in range.
pub open spec fn node_set(adj: Seq<Vec<bool>>, nodes: Seq<usize>) -> bool {
    &&& nodes.no_duplicates()
    &&& forall|k: int| 0 <= k < nodes.len() ==> #[trigger] nodes[k] < adj.len()
}

/// The state of a clique search: the clique so far, the nodes that may
/// extend it and those that were already explored, every node that extends
/// the clique being among the two.
pub open spec fn search_state(
    adj: Seq<Vec<bool>>,
    clique: Seq<usize>,
    candidates: Seq<usize>,
    excluded: Seq<usize>,
) -> bool {
    &&& adjacency_valid(adj)
    &&& is_clique(adj, clique)
    &&& node_set(adj, candidates)
    &&& node_set(adj, excluded)
    &&& forall|x: usize| #[trigger] candidates.contains(x) ==> !excluded.contains(x) && !clique.contains(x) && adjacent_to_all(adj, clique, x)
    &&& forall|x: usize| #[trigger] excluded.contains(x) ==> !clique.contains(x) && adjacent_to_all(adj, clique, x)
    &&& forall|x: usize|
        x < adj.len() && #[trigger] adjacent_to_all(adj, clique, x) && !clique.contains(x) ==> candidates.contains(x)
            || excluded.contains(x)
}

fn filter_adjacent(set: &Vec<usize>, row: &Vec<bool>, keep: bool) -> (r: Vec<usize>)
    requires
        forall|k: int| 0 <= k < set.len() ==> #[trigger] set@[k] < row.len(),
    ensures
        forall|x: usize| r@.contains(x) <==> set@.contains(x) && row@[x as int] == keep,
        set@.no_duplicates() ==> r@.no_duplicates(),
        r.len() <= set.len(),
        (exists|k: int| 0 <= k < set.len() && row@[#[trigger] set@[k] as int] != keep) ==> r.len()
            < set.len(),
{
    let mut r: Vec<usize> = Vec::new();
    let mut skipped = false;
    let mut k: usize = 0;
    while k < set.len()
        invariant
            k <= set.len(),
            forall|j: int| 0 <= j < set.len() ==> #[trigger] set@[j] < row.len(),
            forall|x: usize| r@.contains(x) <==> set@.subrange(0, k as int).contains(x) && row@[x as int] == keep,
            set@.no_duplicates() ==> r@.no_duplicates(),
            r.len() <= k,
            skipped ==> r.len() < k,
            skipped <==> exists|j: int| 0 <= j < k && row@[#[trigger] set@[j] as int] != keep,
        decreases set.len() - k,
    {
        let x = set[k];
        proof {
            assert forall|y: usize| set@.subrange(0, k + 1).contains(y) <==> set@.subrange(0, k as int).contains(y) || y == x by {
                if set@.subrange(0, k + 1).contains(y) {
                    let i = choose|i: int| 0 <= i < k + 1 && #[trigger] set@.subrange(0, k + 1)[i] == y;
                    if i < k {
                        assert(set@.subrange(0, k as int)[i] == y);
                    }
                }
                if set@.subrange(0, k as int).contains(y) {
                    let i = choose|i: int| 0 <= i < k && #[trigger] set@.subrange(0, k as int)[i] == y;
                    assert(set@.subrange(0, k + 1)[i] == y);
                }
                if y == x {
                    assert(set@.subrange(0, k + 1)[k as int] == y);
                }
            }
        }
        if row[x] == keep {
            let ghost old_r = r@;
            proof {
                if set@.no_duplicates() && r@.contains(x) {
                    assert(set@.subrange(0, k as int).contains(x));
                    let i = choose|i: int| 0 <= i < k && #[trigger] set@.subrange(0, k as int)[i] == x;
                    assert(set@[i] == set@[k as int]);
                }
            }
            r.push(x);
            proof {
                assert forall|y: usize| r@.contains(y) <==> old_r.contains(y) || y == x by {
                    if r@.contains(y) {
                        let j = choose|j: int| 0 <= j < r@.len() && r@[j] == y;
                        if j < old_r.len() {
                            assert(old_r[j] == y);
                        }
                    }
                    if old_r.contains(y) {
                        let j = choose|j: int| 0 <= j < old_r.len() && old_r[j] == y;
                        assert(r@[j] == y);
                    }
                    if y == x {
                        assert(r@[old_r.len() as int] == x);
                    }
                }
                assert forall|y: usize| r@.contains(y) <==> set@.subrange(0, k + 1).contains(y) && row@[y as int] == keep by {
                    assert(set@.subrange(0, k + 1).contains(y) <==> set@.subrange(0, k as int).contains(y) || y == x);
                    assert(old_r.contains(y) <==> set@.subrange(0, k as int).contains(y) && row@[y as int] == keep);
                }
            }
        } else {
            skipped = true;
            proof {
                assert forall|y: usize| r@.contains(y) <==> set@.subrange(0, k + 1).contains(y) && row@[y as int] == keep by {
                    assert(set@.subrange(0, k + 1).contains(y) <==> set@.subrange(0, k as int).contains(y) || y == x);
                    assert(r@.contains(y) <==> set@.subrange(0, k as int).contains(y) && row@[y as int] == keep);
                }
            }
        }
        k = k + 1;
    }
    assert(set@.subrange(0, set.len() as int) =~= set@);
    r
}

fn insert_sorted(set: &mut Vec<usize>, x: usize)
    ensures
        forall|y: usize| final(set)@.contains(y) <==> old(set)@.contains(y) || y == x,
        old(set)@.no_duplicates() && !old(set)@.contains(x) ==> final(set)@.no_duplicates(),
        ascending(old(set)@) && !old(set)@.contains(x) ==> ascending(final(set)@),
        final(set).len() == old(set).len() + 1,
{
    let mut at: usize = 0;
    while at < set.len() && set[at] < x
        invariant
            at <= set.len(),
            forall|k: int| 0 <= k < at ==> set@[k] < x,
        decreases set.len() - at,
    {
        at = at + 1;
    }
    let ghost before = set@;
    set.insert(at, x);
    proof {
        assert(set@ =~= before.insert(at as int, x));
        assert forall|y: usize| set@.contains(y) <==> before.contains(y) || y == x by {
            if set@.contains(y) {
                let j = choose|j: int| 0 <= j < set@.len() && set@[j] == y;
                if j < at {
                    assert(before[j] == y);
                } else if j > at {
                    assert(before[j - 1] == y);
                }
            }
            if before.contains(y) {
                let j = choose|j: int| 0 <= j < before.len() && before[j] == y;
                if j < at {
                    assert(set@[j] == y);
                } else {
                    assert(set@[j + 1] == y);
                }
            }
            if y == x {
                assert(set@[at as int] == x);
            }
        }
        if ascending(before) && !before.contains(x) {
            if at < before.len() {
                assert(before[at as int] != x);
            }
            assert forall|p: int, q: int| 0 <= p < q < set.len() implies set@[p] < set@[q] by {
                let op = if p < at { p } else { p - 1 };
                let oq = if q < at { q } else { q - 1 };
                if p != at && q != at {
                    assert(set@[p] == before[op]);
                    assert(set@[q] == before[oq]);
                } else if p == at {
                    assert(set@[q] == before[oq]);
                    assert(before[at as int] <= before[oq]);
                } else {
                    assert(set@[p] == before[op]);
                }
            }
        }
        if before.no_duplicates() && !before.contains(x) {
            assert forall|p: int, q: int| 0 <= p < set.len() && 0 <= q < set.len() && p != q implies set@[p] != set@[q] by {
                let op = if p < at { p } else { p - 1 };
                let oq = if q < at { q } else { q - 1 };
                if p != at && q != at {
                    assert(set@[p] == before[op]);
                    assert(set@[q] == before[oq]);
                } else if p == at {
                    assert(set@[q] == before[oq]);
                    assert(before.contains(before[oq]));
                } else {
                    assert(set@[p] == before[op]);
                    assert(before.contains(before[op]));
                }
            }
        }
    }
}

fn remove_node(set: &mut Vec<usize>, x: usize)
    requires
        old(set)@.no_duplicates(),
    ensures
        forall|y: usize| final(set)@.contains(y) <==> old(set)@.contains(y) && y != x,
        final(set)@.no_duplicates(),
        old(set)@.contains(x) ==> final(set).len() == old(set).len() - 1,
        final(set).len() <= old(set).len(),
{
    let mut at: usize = 0;
    while at < set.len() && set[at] != x
        invariant
            at <= set.len(),
            forall|j: int| 0 <= j < at ==> set@[j] != x,
        decreases set.len() - at,
    {
        at = at + 1;
    }
    if at < set.len() {
        let ghost before = set@;
        set.remove(at);
        proof {
            assert(set@ =~= before.remove(at as int));
            assert forall|y: usize| set@.contains(y) <==> before.contains(y) && y != x by {
                if set@.contains(y) {
                    let j = choose|j: int| 0 <= j < set@.len() && set@[j] == y;
                    if j < at {
                        assert(before[j] == y);
                        assert(y != x);
                    } else {
                        assert(before[j + 1] == y);
                        assert(before[at as int] == x);
                        assert(j + 1 != at);
                    }
                }
                if before.contains(y) && y != x {
                    let j = choose|j: int| 0 <= j < before.len() && before[j] == y;
                    if j < at {
                        assert(set@[j] == y);
                    } else {
                        assert(j != at);
                        assert(set@[j - 1] == y);
                    }
                }
            }
            assert forall|p: int, q: int| 0 <= p < set.len() && 0 <= q < set.len() && p != q implies set@[p] != set@[q] by {
                let op = if p < at { p } else { p + 1 };
                let oq = if q < at { q } else { q + 1 };
                assert(set@[p] == before[op]);
                assert(set@[q] == before[oq]);
            }
        }
    } else {
        proof {
            if set@.contains(x) {
                let j = choose|j: int| 0 <= j < set@.len() && set@[j] == x;
                assert(set@[j] != x);
            }
        }
    }
}

/// A maximal clique reported by the branch that adds `current[i]` extends
/// the search state the branch started from, holds that node and none of the
/// nodes of earlier branches.
proof fn lemma_branch_result(
    adj: Seq<Vec<bool>>,
    original: Seq<usize>,
    first_candidates: Seq<usize>,
    first_excluded: Seq<usize>,
    candidates: Seq<usize>,
    excluded: Seq<usize>,
    current: Seq<usize>,
    i: int,
    node: usize,
    extended: Seq<usize>,
    next_c: Seq<usize>,
    next_x: Seq<usize>,
    m: Seq<usize>,
)
    requires
        search_state(adj, original, candidates, excluded),
        0 <= i < current.len(),
        current.no_duplicates(),
        current[i] == node,
        candidates.contains(node),
        extended == original.push(node),
        forall|x: usize| #[trigger] first_excluded.contains(x) ==> excluded.contains(x),
        forall|x: usize| #[trigger] candidates.contains(x) ==> first_candidates.contains(x),
        forall|t: int| 0 <= t < i ==> excluded.contains(#[trigger] current[t]),
        forall|x: usize| #[trigger] next_c.contains(x) ==> candidates.contains(x),
        forall|x: usize| #[trigger] next_x.contains(x) <==> excluded.contains(x) && adj[node as int]@[x as int],
        owed(adj, extended, next_c, next_x, m),
    ensures
        owed(adj, original, first_candidates, first_excluded, m),
        meets(current, i + 1, m),
        !meets(current, i, m),
{
    assert(extended[original.len() as int] == node);
    assert(extended.contains(node));
    assert(m.contains(node));
    assert forall|x: usize| #[trigger] original.contains(x) implies m.contains(x) by {
        let w = choose|w: int| 0 <= w < original.len() && original[w] == x;
        assert(extended[w] == x);
        assert(extended.contains(x));
    }
    assert forall|x: usize| #[trigger] m.contains(x) && !original.contains(x) implies first_candidates.contains(x) by {
        if x != node {
            assert(!extended.contains(x)) by {
                if extended.contains(x) {
                    let w = choose|w: int| 0 <= w < extended.len() && extended[w] == x;
                    if w < original.len() {
                        assert(original[w] == x);
                    }
                }
            }
            assert(next_c.contains(x));
        }
    }
    assert forall|x: usize| #[trigger] m.contains(x) && excluded.contains(x) implies false by {
        assert(!candidates.contains(x) || !excluded.contains(x));
        assert(x != node);
        let a = choose|a: int| 0 <= a < m.len() && m[a] == node;
        let b = choose|b: int| 0 <= b < m.len() && m[b] == x;
        assert(adj[m[a] as int]@[m[b] as int]);
        assert(next_x.contains(x));
    }
    assert forall|x: usize| #[trigger] first_excluded.contains(x) implies !m.contains(x) by {
        assert(excluded.contains(x));
    }
    assert(meets(current, i + 1, m));
    if meets(current, i, m) {
        let t = choose|t: int| 0 <= t < i && m.contains(#[trigger] current[t]);
        assert(excluded.contains(current[t]));
    }
}

/// Extend the search from one state, recording each maximal clique found.
#[verifier::loop_isolation(false)]
#[verifier::rlimit(80)]
pub fn expand(
    neighbors: &Vec<Vec<bool>>,
    clique: &mut Vec<usize>,
    candidates: Vec<usize>,
    excluded: Vec<usize>,
    results: &mut Vec<Vec<usize>>,
)
    requires
        search_state(neighbors@, old(clique)@, candidates@, excluded@),
    ensures
        final(clique)@ == old(clique)@,
        final(results)@.len() >= old(results)@.len(),
        forall|k: int| 0 <= k < old(results)@.len() ==> final(results)@[k] == old(results)@[k],
        forall|k: int|
            old(results)@.len() <= k < final(results)@.len() ==> is_maximal_clique(
                neighbors@,
                #[trigger] final(results)@[k]@,
            ),
        forall|m: Seq<usize>| #[trigger] owed(neighbors@, old(clique)@, candidates@, excluded@, m) ==> reported(
            final(results)@,
            old(results)@.len() as int,
            m,
        ),
        forall|k: int|
            old(results)@.len() <= k < final(results)@.len() ==> owed(
                neighbors@,
                old(clique)@,
                candidates@,
                excluded@,
                #[trigger] final(results)@[k]@,
            ),
        forall|a: int, b: int|
            old(results)@.len() <= a < b < final(results)@.len() ==> !same_nodes(
                #[trigger] final(results)@[a]@,
                #[trigger] final(results)@[b]@,
            ),
    decreases candidates.len(),
{
    let ghost adj = neighbors@;
    let ghost start = results@;
    let ghost original = clique@;
    if candidates.len() == 0 && excluded.len() == 0 {
        let copy = clique.clone();
        proof {
            assert(copy@ =~= clique@);
            assert forall|x: usize| x < adj.len() && !copy@.contains(x) implies !#[trigger] adjacent_to_all(adj, copy@, x) by {
                if adjacent_to_all(adj, copy@, x) {
                    assert(candidates@.contains(x) || excluded@.contains(x));
                }
            }
        }
        results.push(copy);
        proof {
            assert forall|m: Seq<usize>| #[trigger] owed(adj, original, candidates@, excluded@, m) implies reported(
                results@,
                start.len() as int,
                m,
            ) by {
                assert(results@[start.len() as int]@ == original);
                assert forall|x: usize| original.contains(x) <==> m.contains(x) by {
                    if m.contains(x) && !original.contains(x) {
                        assert(candidates@.contains(x));
                    }
                }
                assert(same_nodes(results@[start.len() as int]@, m));
            }
            assert(owed(adj, original, candidates@, excluded@, results@[start.len() as int]@));
        }
        return;
    }
    let ghost original_count = candidates.len();
    let ghost first_candidates = candidates@;
    let ghost first_excluded = excluded@;
    let mut candidates = candidates;
    let mut excluded = excluded;
    // The pivot: among the candidates and explored nodes, in increasing
    // order, the last with the most adjacent candidates.
    let mut pivot: usize = 0;
    let mut best: usize = 0;
    let mut found = false;
    let mut a: usize = 0;
    let mut b: usize = 0;
    while a < candidates.len() || b < excluded.len()
        invariant
            a <= candidates.len(),
            b <= excluded.len(),
            node_set(adj, candidates@),
            node_set(adj, excluded@),
            found ==> pivot < adj.len(),
            found ==> candidates@.contains(pivot) || excluded@.contains(pivot),
            found || a + b == 0,
        decreases candidates.len() + excluded.len() - a - b,
    {
        let node = if b >= excluded.len() || (a < candidates.len() && candidates[a] <= excluded[b]) {
            let node = candidates[a];
            if b < excluded.len() && candidates[a] == excluded[b] {
                b = b + 1;
            }
            a = a + 1;
            node
        } else {
            let node = excluded[b];
            b = b + 1;
            node
        };
        let row = &neighbors[node];
        assert(row@.len() == adj.len());
        let mut count: usize = 0;
        let mut k: usize = 0;
        while k < candidates.len()
            invariant
                k <= candidates.len(),
                count <= k,
                node_set(adj, candidates@),
                row@.len() == adj.len(),
            decreases candidates.len() - k,
        {
            if row[candidates[k]] {
                count = count + 1;
            }
            k = k + 1;
        }
        if !found || count >= best {
            pivot = node;
            best = count;
            found = true;
        }
    }
    assert(found) by {
        if !found {
            assert(candidates.len() == 0 && excluded.len() == 0);
        }
    }
    let current = filter_adjacent(&candidates, &neighbors[pivot], false);
    let ghost pivot_row = neighbors@[pivot as int]@;
    let mut i: usize = 0;
    while i < current.len()
        invariant
            i <= current.len(),
            adj == neighbors@,
            clique@ == original,
            search_state(adj, original, candidates@, excluded@),
            search_state(adj, original, first_candidates, first_excluded),
            pivot < adj.len(),
            pivot_row == adj[pivot as int]@,
            first_candidates.contains(pivot) || first_excluded.contains(pivot),
            forall|x: usize| #[trigger] current@.contains(x) <==> first_candidates.contains(x) && pivot_row[x as int] == false,
            forall|x: usize| #[trigger] candidates@.contains(x) <==> first_candidates.contains(x) && !taken(current@, i as int, x),
            forall|x: usize| #[trigger] excluded@.contains(x) <==> first_excluded.contains(x) || taken(current@, i as int, x),
            forall|m: Seq<usize>| #[trigger] owed(adj, original, first_candidates, first_excluded, m) && meets(current@, i as int, m)
                ==> reported(results@, start.len() as int, m),
            candidates.len() + i <= original_count,
            current@.no_duplicates(),
            forall|j: int| i <= j < current.len() ==> candidates@.contains(#[trigger] current@[j]),
            results@.len() >= start.len(),
            forall|k: int| 0 <= k < start.len() ==> results@[k] == start[k],
            forall|k: int| start.len() <= k < results@.len() ==> is_maximal_clique(adj, #[trigger] results@[k]@),
            forall|k: int| start.len() <= k < results@.len() ==> owed(adj, original, first_candidates, first_excluded, #[trigger] results@[k]@),
            forall|k: int| start.len() <= k < results@.len() ==> meets(current@, i as int, #[trigger] results@[k]@),
            forall|a: int, b: int| start.len() <= a < b < results@.len() ==> !same_nodes(#[trigger] results@[a]@, #[trigger] results@[b]@),
        decreases current.len() - i,
    {
        let node = current[i];
        assert(candidates@.contains(node));
        assert(node < adj.len());
        let row = &neighbors[node];
        assert(row@ == adj[node as int]@);
        let next_candidates = filter_adjacent(&candidates, row, true);
        let next_excluded = filter_adjacent(&excluded, row, true);
        proof {
            let w = choose|w: int| 0 <= w < candidates.len() && candidates@[w] == node;
            assert(!row@[candidates@[w] as int]);
            assert(next_candidates.len() < candidates.len());
        }
        let ghost before_results = results@;
        clique.push(node);
        proof {
            let c2 = clique@;
            assert(c2 =~= original.push(node));
            assert forall|k: int| 0 <= k < c2.len() implies #[trigger] c2[k] < adj.len() by {}
            assert forall|x: int, y: int| 0 <= x < c2.len() && 0 <= y < c2.len() && x != y implies adj[#[trigger] c2[x] as int]@[#[trigger] c2[y] as int] by {
                if x == original.len() {
                    assert(adjacent_to_all(adj, original, node));
                    assert(adj[node as int]@[original[y] as int]);
                } else if y == original.len() {
                    assert(adjacent_to_all(adj, original, node));
                    assert(adj[node as int]@[original[x] as int]);
                    assert(adj[node as int]@[original[x] as int] == adj[original[x] as int]@[node as int]);
                }
            }
            assert forall|x: usize| #[trigger] next_candidates@.contains(x) implies !next_excluded@.contains(x) && !c2.contains(x) && adjacent_to_all(adj, c2, x) by {
                assert(candidates@.contains(x));
                assert(adjacent_to_all(adj, original, x));
                assert forall|k: int| 0 <= k < c2.len() implies adj[x as int]@[#[trigger] c2[k] as int] by {
                    if k == original.len() {
                        assert(adj[node as int]@[x as int] == adj[x as int]@[node as int]);
                    }
                }
                if c2.contains(x) {
                    let k = choose|k: int| 0 <= k < c2.len() && c2[k] == x;
                    if k < original.len() {
                        assert(original.contains(x));
                    }
                }
            }
            assert forall|x: usize| #[trigger] next_excluded@.contains(x) implies !c2.contains(x) && adjacent_to_all(adj, c2, x) by {
                assert(excluded@.contains(x));
                assert(adjacent_to_all(adj, original, x));
                assert forall|k: int| 0 <= k < c2.len() implies adj[x as int]@[#[trigger] c2[k] as int] by {
                    if k == original.len() {
                        assert(adj[node as int]@[x as int] == adj[x as int]@[node as int]);
                    }
                }
                if c2.contains(x) {
                    let k = choose|k: int| 0 <= k < c2.len() && c2[k] == x;
                    if k < original.len() {
                        assert(original.contains(x));
                    }
                }
            }
            assert forall|x: usize| x < adj.len() && #[trigger] adjacent_to_all(adj, c2, x) && !c2.contains(x) implies next_candidates@.contains(x) || next_excluded@.contains(x) by {
                assert forall|k: int| 0 <= k < original.len() implies adj[x as int]@[#[trigger] original[k] as int] by {
                    assert(c2[k] == original[k]);
                }
                assert(adjacent_to_all(adj, original, x));
                assert(!original.contains(x)) by {
                    if original.contains(x) {
                        let k = choose|k: int| 0 <= k < original.len() && original[k] == x;
                        assert(c2[k] == x);
                    }
                }
                assert(c2[original.len() as int] == node);
                assert(adj[x as int]@[node as int]);
                assert(adj[node as int]@[x as int] == adj[x as int]@[node as int]);
            }
            assert forall|k: int| 0 <= k < next_candidates.len() implies #[trigger] next_candidates@[k] < adj.len() by {
                assert(next_candidates@.contains(next_candidates@[k]));
            }
            assert forall|k: int| 0 <= k < next_excluded.len() implies #[trigger] next_excluded@[k] < adj.len() by {
                assert(next_excluded@.contains(next_excluded@[k]));
            }
        }
        let ghost extended = clique@;
        let ghost next_c = next_candidates@;
        let ghost next_x = next_excluded@;
        expand(neighbors, clique, next_candidates, next_excluded, results);
        proof {
            assert forall|m: Seq<usize>| #[trigger] owed(adj, original, first_candidates, first_excluded, m) && meets(
                current@,
                i + 1,
                m,
            ) implies reported(results@, start.len() as int, m) by {
                if meets(current@, i as int, m) {
                    let k = choose|k: int| start.len() <= k < before_results.len() && same_nodes(
                        #[trigger] before_results[k]@,
                        m,
                    );
                    assert(results@[k] == before_results[k]);
                    assert(same_nodes(results@[k]@, m));
                } else {
                    let j = choose|j: int| 0 <= j < i + 1 && m.contains(#[trigger] current@[j]);
                    assert(j == i);
                    assert(m.contains(node));
                    assert(extended =~= original.push(node));
                    assert forall|x: usize| #[trigger] extended.contains(x) implies m.contains(x) by {
                        let k = choose|k: int| 0 <= k < extended.len() && extended[k] == x;
                        if k < original.len() {
                            assert(original[k] == x);
                            assert(original.contains(x));
                        }
                    }
                    assert forall|x: usize| #[trigger] m.contains(x) && !extended.contains(x) implies next_c.contains(x) by {
                        assert(!original.contains(x)) by {
                            if original.contains(x) {
                                let k = choose|k: int| 0 <= k < original.len() && original[k] == x;
                                assert(extended[k] == x);
                            }
                        }
                        assert(first_candidates.contains(x));
                        assert(!taken(current@, i as int, x)) by {
                            if taken(current@, i as int, x) {
                                let t = choose|t: int| 0 <= t < i && #[trigger] current@[t] == x;
                                assert(meets(current@, i as int, m));
                            }
                        }
                        assert(candidates@.contains(x));
                        assert(x != node) by {
                            assert(extended[original.len() as int] == node);
                        }
                        let a = choose|a: int| 0 <= a < m.len() && m[a] == node;
                        let b = choose|b: int| 0 <= b < m.len() && m[b] == x;
                        assert(adj[m[a] as int]@[m[b] as int]);
                    }
                    assert forall|x: usize| #[trigger] next_x.contains(x) implies !m.contains(x) by {
                        assert(excluded@.contains(x));
                        if m.contains(x) && !first_excluded.contains(x) {
                            assert(taken(current@, i as int, x));
                            let t = choose|t: int| 0 <= t < i && #[trigger] current@[t] == x;
                            assert(meets(current@, i as int, m));
                        }
                    }
                    assert(owed(adj, extended, next_c, next_x, m));
                    let k = choose|k: int| before_results.len() <= k < results@.len() && same_nodes(
                        #[trigger] results@[k]@,
                        m,
                    );
                    assert(start.len() <= k);
                }
            }
            assert forall|k: int| before_results.len() <= k < results@.len() implies owed(adj, original, first_candidates, first_excluded, #[trigger] results@[k]@)
                && meets(current@, i + 1, results@[k]@) && !meets(current@, i as int, results@[k]@) by {
                assert forall|t: int| 0 <= t < i implies excluded@.contains(#[trigger] current@[t]) by {
                    assert(taken(current@, i as int, current@[t]));
                }
                lemma_branch_result(adj, original, first_candidates, first_excluded, candidates@, excluded@, current@,
                    i as int, node, extended, next_c, next_x, results@[k]@);
            }
            assert forall|k: int| start.len() <= k < results@.len() implies owed(adj, original, first_candidates, first_excluded, #[trigger] results@[k]@)
                && meets(current@, i + 1, results@[k]@) by {
                if k < before_results.len() {
                    assert(results@[k] == before_results[k]);
                    assert(meets(current@, i as int, before_results[k]@));
                    let t = choose|t: int| 0 <= t < i && before_results[k]@.contains(#[trigger] current@[t]);
                    assert(meets(current@, i + 1, results@[k]@));
                }
            }
            assert forall|a: int, b: int| start.len() <= a < b < results@.len() implies !same_nodes(#[trigger] results@[a]@, #[trigger] results@[b]@) by {
                if b < before_results.len() {
                    assert(results@[a] == before_results[a] && results@[b] == before_results[b]);
                } else if a >= before_results.len() {
                } else {
                    assert(results@[a] == before_results[a]);
                    assert(meets(current@, i as int, before_results[a]@));
                    let t = choose|t: int| 0 <= t < i && before_results[a]@.contains(#[trigger] current@[t]);
                    assert(!meets(current@, i as int, results@[b]@));
                    if results@[b]@.contains(current@[t]) {
                        assert(meets(current@, i as int, results@[b]@));
                    }
                }
            }
        }
        clique.pop();
        assert(clique@ =~= original);
        let ghost old_candidates = candidates@;
        let ghost old_excluded = excluded@;
        remove_node(&mut candidates, node);
        insert_sorted(&mut excluded, node);
        proof {
            assert(!old_excluded.contains(node));
            assert forall|k: int| 0 <= k < candidates.len() implies #[trigger] candidates@[k] < adj.len() by {
                assert(candidates@.contains(candidates@[k]));
                assert(old_candidates.contains(candidates@[k]));
            }
            assert forall|x: usize| #[trigger] candidates@.contains(x) implies !excluded@.contains(x) && !original.contains(x) && adjacent_to_all(adj, original, x) by {
                assert(old_candidates.contains(x));
            }
            assert forall|x: usize| #[trigger] excluded@.contains(x) implies !original.contains(x) && adjacent_to_all(adj, original, x) by {
                if x != node {
                    assert(old_excluded.contains(x));
                }
            }
            assert forall|x: usize| x < adj.len() && #[trigger] adjacent_to_all(adj, original, x) && !original.contains(x) implies candidates@.contains(x) || excluded@.contains(x) by {
                assert(old_candidates.contains(x) || old_excluded.contains(x));
            }
            assert forall|k: int| 0 <= k < excluded.len() implies #[trigger] excluded@[k] < adj.len() by {
                assert(excluded@.contains(excluded@[k]));
            }
            assert forall|j: int| i + 1 <= j < current.len() implies candidates@.contains(#[trigger] current@[j]) by {
                assert(current@[j] != node);
            }
            assert forall|x: usize| taken(current@, i + 1, x) <==> taken(current@, i as int, x) || x == node by {
                if taken(current@, i + 1, x) {
                    let t = choose|t: int| 0 <= t < i + 1 && #[trigger] current@[t] == x;
                    if t < i {
                        assert(taken(current@, i as int, x));
                    }
                }
                if x == node {
                    assert(current@[i as int] == x);
                }
                if taken(current@, i as int, x) {
                    let t = choose|t: int| 0 <= t < i && #[trigger] current@[t] == x;
                    assert(current@[t] == x);
                }
            }
            assert forall|x: usize| #[trigger] candidates@.contains(x) <==> first_candidates.contains(x) && !taken(current@, i + 1, x) by {
                if x == node {
                    assert(current@.contains(node));
                }
            }
            assert forall|x: usize| #[trigger] excluded@.contains(x) <==> first_excluded.contains(x) || taken(current@, i + 1, x) by {}
            assert forall|m: Seq<usize>| #[trigger] owed(adj, original, first_candidates, first_excluded, m) && meets(
                current@,
                i + 1,
                m,
            ) implies reported(results@, start.len() as int, m) by {}
        }
        i = i + 1;
    }
    proof {
        assert forall|m: Seq<usize>| #[trigger] owed(adj, original, first_candidates, first_excluded, m) implies reported(
            results@,
            start.len() as int,
            m,
        ) by {
            if !meets(current@, current.len() as int, m) {
                assert forall|k: int| 0 <= k < m.len() implies adj[pivot as int]@[#[trigger] m[k] as int] by {
                    let y = m[k];
                    assert(m.contains(y));
                    if original.contains(y) {
                        assert(adjacent_to_all(adj, original, pivot));
                        let w = choose|w: int| 0 <= w < original.len() && original[w] == y;
                        assert(adj[pivot as int]@[original[w] as int]);
                    } else {
                        assert(first_candidates.contains(y));
                        if !pivot_row[y as int] {
                            assert(current@.contains(y));
                            let j = choose|j: int| 0 <= j < current.len() && current@[j] == y;
                            assert(m.contains(current@[j]));
                            assert(meets(current@, current.len() as int, m));
                        }
                    }
                }
                assert(adjacent_to_all(adj, m, pivot));
                assert(!m.contains(pivot)) by {
                    if m.contains(pivot) {
                        if first_candidates.contains(pivot) {
                            assert(!original.contains(pivot));
                            assert(!adj[pivot as int]@[pivot as int]);
                            assert(current@.contains(pivot));
                            let j = choose|j: int| 0 <= j < current.len() && current@[j] == pivot;
                            assert(m.contains(current@[j]));
                            assert(meets(current@, current.len() as int, m));
                        }
                    }
                }
                assert(false);
            }
        }
    }
}

/// Every maximal clique of a symmetric, irreflexive adjacency matrix found
/// by a pivoting search over the nodes in increasing order.
pub fn maximal_cliques(neighbors: &Vec<Vec<bool>>) -> (r: Vec<Vec<usize>>)
    requires
        adjacency_valid(neighbors@),
    ensures
        forall|k: int| 0 <= k < r.len() ==> is_maximal_clique(neighbors@, #[trigger] r@[k]@),
        forall|m: Seq<usize>| #[trigger] is_maximal_clique(neighbors@, m) ==> reported(r@, 0, m),
        forall|a: int, b: int| 0 <= a < b < r.len() ==> !same_nodes(#[trigger] r@[a]@, #[trigger] r@[b]@),
{
    let mut candidates: Vec<usize> = Vec::new();
    let mut k: usize = 0;
    while k < neighbors.len()
        invariant
            k <= neighbors.len(),
            candidates@ =~= Seq::new(k as nat, |j: int| j as usize),
        decreases neighbors.len() - k,
    {
        candidates.push(k);
        k = k + 1;
    }
    let mut clique: Vec<usize> = Vec::new();
    let mut results: Vec<Vec<usize>> = Vec::new();
    proof {
        let adj = neighbors@;
        assert(candidates@.no_duplicates());
        assert forall|x: usize| x < adj.len() implies #[trigger] candidates@.contains(x) by {
            assert(candidates@[x as int] == x);
        }
        assert forall|x: usize| #[trigger] candidates@.contains(x) implies x < adj.len() by {}
        assert(search_state(adj, clique@, candidates@, Seq::<usize>::empty()));
    }
    let excluded: Vec<usize> = Vec::new();
    assert(excluded@ =~= Seq::<usize>::empty());
    proof {
        let adj = neighbors@;
        assert forall|m: Seq<usize>| #[trigger] is_maximal_clique(adj, m) implies owed(
            adj,
            clique@,
            candidates@,
            excluded@,
            m,
        ) by {
            assert forall|x: usize| #[trigger] m.contains(x) && !clique@.contains(x) implies candidates@.contains(x) by {
                let k = choose|k: int| 0 <= k < m.len() && m[k] == x;
                assert(candidates@[x as int] == x);
            }
        }
    }
    expand(neighbors, &mut clique, candidates, excluded, &mut results);
    results
}

// ----------------------------------------------------------------------------
// Families
// ----------------------------------------------------------------------------

/// The summed coefficient and source positions of the terms that share one
/// external pattern, tensor and slot assignment.
struct Entry {
    exts: Vec<Index>,
    tensor: TensorId,
    indices: Vec<IndexId>,
    coeff: Coefficient,
    terms: Vec<usize>,
}

/// A root term and the term positions of each of its uses, keyed by the
/// relative permutation and coefficient.
struct RootedTerm {
    root: Term,
    occurrences: Vec<(Vec<usize>, Coefficient, Vec<usize>)>,
}

/// The abstract form of a family.
pub struct FamilyView {
    pub exts: Seq<Index>,
    pub roots: Seq<TermView>,
    pub uses: Seq<(Seq<usize>, CoeffView)>,
    pub source_terms: Seq<Seq<Seq<usize>>>,
}

/// One maximal permutation-factorization family.
#[derive(Debug, PartialEq, Eq)]
pub struct PermutationFamily {
    exts: Vec<Index>,
    roots: Vec<Term>,
    uses: Vec<(Vec<usize>, Coefficient)>,
    /// Original term positions indexed first by root and then by use.
    source_terms: Vec<Vec<Vec<usize>>>,
}

impl View for PermutationFamily {
    type V = FamilyView;

    closed spec fn view(&self) -> FamilyView {
        FamilyView {
            exts: self.exts@,
            roots: terms_view(self.roots@),
            uses: self.uses@.map_values(|u: (Vec<usize>, Coefficient)| (u.0@, u.1@)),
            source_terms: self.source_terms@.map_values(|row: Vec<Vec<usize>>| row@.map_values(|p: Vec<usize>| p@)),
        }
    }
}

/// A family with at least two roots and two uses, distinct externals,
/// permutations of the external slots that keep ranges, and one list of
/// source positions per root and use.
pub open spec fn family_valid(f: FamilyView) -> bool {
    &&& f.roots.len() >= 2
    &&& f.uses.len() >= 2
    &&& distinct_ids(f.exts)
    &&& forall|u: int| 0 <= u < f.uses.len() ==> perm_valid((#[trigger] f.uses[u]).0, f.exts.len())
    &&& forall|u: int| 0 <= u < f.uses.len() ==> range_preserving(f.exts, (#[trigger] f.uses[u]).0)
    &&& f.source_terms.len() == f.roots.len()
    &&& forall|r: int| 0 <= r < f.source_terms.len() ==> (#[trigger] f.source_terms[r]).len() == f.uses.len()
    &&& forall|r: int| 0 <= r < f.roots.len() ==> (#[trigger] f.roots[r]).factors.len() == 1
}

fn clone_positions(v: &Vec<usize>) -> (r: Vec<usize>)
    ensures
        r@ == v@,
{
    let r = v.clone();
    assert(r@ =~= v@);
    r
}

fn clone_use(u: &(Vec<usize>, Coefficient)) -> (r: (Vec<usize>, Coefficient))
    ensures
        r.0@ == u.0@,
        r.1@ == u.1@,
{
    (clone_positions(&u.0), u.1.clone())
}

impl Clone for PermutationFamily {
    fn clone(&self) -> (r: Self)
        ensures
            r@ == self@,
    {
        let exts = self.exts.clone();
        assert(exts@ =~= self.exts@);
        let roots = self.roots.clone();
        assert(terms_view(roots@) =~= terms_view(self.roots@));
        let mut uses: Vec<(Vec<usize>, Coefficient)> = Vec::new();
        let mut u: usize = 0;
        while u < self.uses.len()
            invariant
                u <= self.uses.len(),
                uses@.len() == u,
                forall|j: int| 0 <= j < u ==> (#[trigger] uses@[j]).0@ == self.uses@[j].0@ && uses@[j].1@ == self.uses@[j].1@,
            decreases self.uses.len() - u,
        {
            uses.push(clone_use(&self.uses[u]));
            u = u + 1;
        }
        let mut source_terms: Vec<Vec<Vec<usize>>> = Vec::new();
        let mut r: usize = 0;
        while r < self.source_terms.len()
            invariant
                r <= self.source_terms.len(),
                source_terms@.len() == r,
                forall|j: int| 0 <= j < r ==> (#[trigger] source_terms@[j])@.map_values(|p: Vec<usize>| p@) == self.source_terms@[j]@.map_values(|p: Vec<usize>| p@),
            decreases self.source_terms.len() - r,
        {
            let row = &self.source_terms[r];
            let mut copy: Vec<Vec<usize>> = Vec::new();
            let mut c: usize = 0;
            while c < row.len()
                invariant
                    c <= row.len(),
                    copy@.len() == c,
                    forall|j: int| 0 <= j < c ==> (#[trigger] copy@[j])@ == row@[j]@,
                decreases row.len() - c,
            {
                copy.push(clone_positions(&row[c]));
                c = c + 1;
            }
            assert(copy@.map_values(|p: Vec<usize>| p@) =~= row@.map_values(|p: Vec<usize>| p@));
            source_terms.push(copy);
            r = r + 1;
        }
        let result = PermutationFamily { exts, roots, uses, source_terms };
        proof {
            assert(result@.uses =~= self@.uses);
            assert(result@.source_terms =~= self@.source_terms);
        }
        result
    }
}

/// The coefficients of the terms at `positions` of `rhs`, added up from zero
/// as `BigRational`'s `+` adds them.
pub open spec fn coeff_total(rhs: Seq<TermView>, positions: Seq<usize>) -> CoeffView
    decreases positions.len(),
{
    if positions.len() == 0 {
        ratio_of_integer(0)
    } else {
        ratio_sum(coeff_total(rhs, positions.drop_last()), rhs[positions.last() as int].coeff)
    }
}

/// The identities that `perm` makes of `ids` over the external slots `exts`:
/// the identity in slot `s` moves to slot `perm[s]`.
pub open spec fn moved_ids(exts: Seq<Index>, ids: Seq<IndexId>, perm: Seq<usize>) -> Seq<IndexId> {
    Seq::new(ids.len(), |k: int| exts[perm[slot_of(exts, ids[k])] as int].id)
}

/// Each of `positions` holds, in `rhs`, a sum-free single occurrence of
/// `tensor` with the identities `ids`.
pub open spec fn occurrences_of(rhs: Seq<TermView>, positions: Seq<usize>, tensor: TensorId, ids: Seq<IndexId>) -> bool {
    forall|k: int|
        0 <= k < positions.len() ==> {
            &&& (#[trigger] positions[k]) < rhs.len()
            &&& rhs[positions[k] as int].sums.len() == 0
            &&& rhs[positions[k] as int].factors == seq![TensorRefView { tensor, indices: ids }]
        }
}

/// The family factors terms of `rhs`: each root is a sum-free single
/// occurrence with a nonzero coefficient, and for each root and use the
/// source terms are occurrences of the root's tensor with the identities
/// that the use's permutation makes of the root's, whose coefficients add up
/// to the use's coefficient times the root's.
pub open spec fn family_sound(rhs: Seq<TermView>, f: FamilyView) -> bool {
    &&& forall|r: int| 0 <= r < f.roots.len() ==> (#[trigger] f.roots[r]).sums.len() == 0 && !is_zero_value(f.roots[r].coeff)
    &&& forall|r: int, u: int|
        0 <= r < f.roots.len() && 0 <= u < f.uses.len() ==> {
            &&& (#[trigger] f.source_terms[r][u]).len() >= 1
            &&& occurrences_of(
                rhs,
                f.source_terms[r][u],
                f.roots[r].factors[0].tensor,
                moved_ids(f.exts, f.roots[r].factors[0].indices, f.uses[u].0),
            )
            &&& f.uses[u].1 == ratio_quotient(coeff_total(rhs, f.source_terms[r][u]), f.roots[r].coeff)
        }
}

/// The entry lists occurrences of its tensor and slot assignment in `rhs`,
/// with their summed coefficient.
spec fn entry_sound(rhs: Seq<TermView>, e: Entry) -> bool {
    &&& e.terms@.len() >= 1
    &&& occurrences_of(rhs, e.terms@, e.tensor, e.indices@)
    &&& e.coeff@ == coeff_total(rhs, e.terms@)
}

/// A term that is one sum-free occurrence of a tensor whose slots hold at
/// least two distinct externals.
pub open spec fn is_pattern_term(exts: Seq<Index>, t: TermView) -> bool {
    &&& t.sums.len() == 0
    &&& t.factors.len() == 1
    &&& t.factors[0].indices.no_duplicates()
    &&& t.factors[0].indices.len() >= 2
    &&& forall|k: int|
        0 <= k < t.factors[0].indices.len() ==> has_id(exts, #[trigger] t.factors[0].indices[k])
}

fn pattern_term(exts: &Vec<Index>, term: &Term) -> (r: bool)
    ensures
        r == is_pattern_term(exts@, term@),
{
    if term.sums.len() != 0 || term.factors.len() != 1 {
        return false;
    }
    let factor = &term.factors[0];
    assert(term@.factors[0] == factor@);
    if factor.indices.len() < 2 {
        return false;
    }
    let mut b: usize = 0;
    while b < factor.indices.len()
        invariant
            b <= factor.indices.len(),
            term@.factors.len() == 1,
            term@.sums.len() == 0,
            factor.indices.len() >= 2,
            term@.factors[0] == factor@,
            forall|x: int, y: int| 0 <= x < b && 0 <= y < b && x != y ==> factor.indices@[x] != factor.indices@[y],
            forall|k: int| 0 <= k < b ==> has_id(exts@, #[trigger] factor.indices@[k]),
        decreases factor.indices.len() - b,
    {
        let id = factor.indices[b];
        if !crate::canon::contains_id(exts.as_slice(), id) {
            return false;
        }
        let mut a: usize = 0;
        while a < b
            invariant
                a <= b < factor.indices.len(),
                term@.factors.len() == 1,
                term@.factors[0] == factor@,
                id == factor.indices@[b as int],
                forall|x: int| 0 <= x < a ==> factor.indices@[x] != id,
            decreases b - a,
        {
            if factor.indices[a] == id {
                return false;
            }
            a = a + 1;
        }
        b = b + 1;
    }
    true
}

/// The entries of `exts` whose identity `ids` lists, in order.
pub open spec fn used_externals(exts: Seq<Index>, ids: Seq<IndexId>) -> Seq<Index>
    decreases exts.len(),
{
    if exts.len() == 0 {
        Seq::empty()
    } else if ids.contains(exts.last().id) {
        used_externals(exts.drop_last(), ids).push(exts.last())
    } else {
        used_externals(exts.drop_last(), ids)
    }
}

/// The externals whose identity `indices` lists, in external order.
fn externals_used(exts: &Vec<Index>, indices: &Vec<IndexId>) -> (r: Vec<Index>)
    requires
        distinct_ids(exts@),
    ensures
        distinct_ids(r@),
        r.len() <= exts.len(),
        forall|k: int| 0 <= k < r.len() ==> has_id(exts@, (#[trigger] r@[k]).id),
        r@ == used_externals(exts@, indices@),
{
    let mut r: Vec<Index> = Vec::new();
    let ghost mut from: Seq<int> = Seq::empty();
    let mut k: usize = 0;
    while k < exts.len()
        invariant
            k <= exts.len(),
            distinct_ids(exts@),
            r@ == used_externals(exts@.take(k as int), indices@),
            r.len() == from.len(),
            r.len() <= k,
            forall|j: int| 0 <= j < r.len() ==> 0 <= #[trigger] from[j] < k && r@[j] == exts@[from[j]],
            forall|a: int, b: int| 0 <= a < b < r.len() ==> from[a] < from[b],
        decreases exts.len() - k,
    {
        assert(exts@.take(k + 1).drop_last() =~= exts@.take(k as int));
        if contains_index_id(indices, exts[k].id) {
            r.push(exts[k]);
            proof {
                from = from.push(k as int);
            }
        }
        k = k + 1;
    }
    assert(exts@.take(k as int) =~= exts@);
    proof {
        assert forall|a: int, b: int| 0 <= a < r.len() && 0 <= b < r.len() && a != b implies (#[trigger] r@[a]).id != (#[trigger] r@[b]).id by {
            assert(r@[a] == exts@[from[a]]);
            assert(r@[b] == exts@[from[b]]);
            if a < b {
                assert(from[a] < from[b]);
            } else {
                assert(from[b] < from[a]);
            }
        }
        assert forall|j: int| 0 <= j < r.len() implies has_id(exts@, (#[trigger] r@[j]).id) by {
            assert(r@[j] == exts@[from[j]]);
        }
    }
    r
}

/// Compare entry keys: externals, then tensor, then slot assignment.
fn compare_entry_key(entry: &Entry, exts: &Vec<Index>, tensor: TensorId, indices: &Vec<IndexId>) -> (r: i8)
    ensures
        -1 <= r <= 1,
        r == 0 <==> entry.exts@ == exts@ && entry.tensor == tensor && entry.indices@ == indices@,
        r == key_order((entry.exts@, entry.tensor, entry.indices@), (exts@, tensor, indices@)),
{
    let order = compare_indices(&entry.exts, exts);
    if order != 0 {
        return order;
    }
    if entry.tensor.0 < tensor.0 {
        return -1;
    }
    if entry.tensor.0 > tensor.0 {
        return 1;
    }
    compare_index_ids(&entry.indices, indices)
}

/// The order of entry keys: externals, then tensor, then slot assignment.
pub open spec fn key_order(a: (Seq<Index>, TensorId, Seq<IndexId>), b: (Seq<Index>, TensorId, Seq<IndexId>)) -> int {
    let e = crate::order::lex_order(crate::order::index_keys(a.0), crate::order::index_keys(b.0));
    if e != 0 {
        e
    } else if a.1.0 != b.1.0 {
        crate::order::int_order(a.1.0 as int, b.1.0 as int)
    } else {
        crate::order::lex_order(crate::order::id_keys(a.2), crate::order::id_keys(b.2))
    }
}

/// The key of an entry.
spec fn entry_key(e: Entry) -> (Seq<Index>, TensorId, Seq<IndexId>) {
    (e.exts@, e.tensor, e.indices@)
}

/// Facts about [`key_order`]: it is zero only on equal keys, swapping negates
/// it, and it is transitive where both steps are strict.
proof fn lemma_key_order(
    a: (Seq<Index>, TensorId, Seq<IndexId>),
    b: (Seq<Index>, TensorId, Seq<IndexId>),
    c: (Seq<Index>, TensorId, Seq<IndexId>),
)
    ensures
        key_order(a, b) == 0 <==> a == b,
        key_order(a, b) == -key_order(b, a),
        key_order(a, b) < 0 && key_order(b, c) < 0 ==> key_order(a, c) < 0,
{
    let (ka, kb, kc) = (crate::order::index_keys(a.0), crate::order::index_keys(b.0), crate::order::index_keys(c.0));
    let (ia, ib, ic) = (crate::order::id_keys(a.2), crate::order::id_keys(b.2), crate::order::id_keys(c.2));
    crate::order::lemma_lex_order_zero(ka, kb);
    crate::order::lemma_lex_order_zero(kb, kc);
    crate::order::lemma_lex_order_zero(ka, kc);
    crate::order::lemma_lex_order_zero(ia, ib);
    crate::order::lemma_lex_order_zero(ib, ic);
    crate::order::lemma_lex_order_zero(ia, ic);
    crate::order::lemma_lex_order_swap(ka, kb);
    crate::order::lemma_lex_order_swap(ia, ib);
    if ka == kb {
        crate::order::lemma_index_keys_injective(a.0, b.0);
    }
    if ia == ib {
        lemma_id_keys_equal(a.2, b.2);
    }
    if key_order(a, b) < 0 && key_order(b, c) < 0 {
        if crate::order::lex_order(ka, kb) <= 0 && crate::order::lex_order(kb, kc) <= 0 {
            crate::order::lemma_lex_order_trans(ka, kb, kc);
        }
        if ka == kb && kb == kc && a.1.0 == b.1.0 && b.1.0 == c.1.0 {
            crate::order::lemma_lex_order_trans(ia, ib, ic);
        }
    }
}

/// Identities with the same keys are equal.
proof fn lemma_id_keys_equal(a: Seq<IndexId>, b: Seq<IndexId>)
    requires
        crate::order::id_keys(a) == crate::order::id_keys(b),
    ensures
        a == b,
{
    assert(a.len() == crate::order::id_keys(a).len());
    assert(b.len() == crate::order::id_keys(b).len());
    assert forall|i: int| 0 <= i < a.len() implies a[i] == b[i] by {
        assert(crate::order::id_keys(a)[i] == crate::order::id_keys(b)[i]);
        assert(crate::order::id_keys(a)[i] == a[i].0 as int);
        assert(crate::order::id_keys(b)[i] == b[i].0 as int);
    }
    assert(a =~= b);
}

/// The term is a pattern term that is an occurrence of `tensor` with the
/// identities `ids`.
pub open spec fn pattern_with_key(exts: Seq<Index>, t: TermView, tensor: TensorId, ids: Seq<IndexId>) -> bool {
    is_pattern_term(exts, t) && t.factors[0].tensor == tensor && t.factors[0].indices == ids
}

/// The positions below `n` of the pattern terms with a key, in order.
pub open spec fn key_positions(rhs: Seq<TermView>, exts: Seq<Index>, tensor: TensorId, ids: Seq<IndexId>, n: int) -> Seq<usize>
    decreases n,
{
    if n <= 0 {
        Seq::empty()
    } else if pattern_with_key(exts, rhs[n - 1], tensor, ids) {
        key_positions(rhs, exts, tensor, ids, n - 1).push((n - 1) as usize)
    } else {
        key_positions(rhs, exts, tensor, ids, n - 1)
    }
}

/// Without a pattern term of the key below `n`, there are no positions.
proof fn lemma_key_positions_empty(rhs: Seq<TermView>, exts: Seq<Index>, tensor: TensorId, ids: Seq<IndexId>, n: int)
    requires
        forall|p: int| 0 <= p < n ==> !pattern_with_key(exts, #[trigger] rhs[p], tensor, ids),
    ensures
        key_positions(rhs, exts, tensor, ids, n) == Seq::<usize>::empty(),
    decreases n,
{
    if n > 0 {
        lemma_key_positions_empty(rhs, exts, tensor, ids, n - 1);
    }
}

/// The entries of the pattern terms of `rhs` for externals `exts`: one per
/// externals, tensor and slot assignment with a nonzero summed coefficient,
/// in key order, listing the positions of its terms; every pattern term has
/// its entry unless its key sums to zero.
spec fn entries_for(exts: Seq<Index>, rhs: Seq<TermView>, r: Seq<Entry>) -> bool {
    &&& forall|e: int| 0 <= e < r.len() ==> distinct_ids((#[trigger] r[e]).exts@) && r[e].exts.len() <= exts.len()
    &&& forall|e: int| 0 <= e < r.len() ==> !crate::coeff::is_zero_value((#[trigger] r[e]).coeff@)
    &&& forall|e: int| 0 <= e < r.len() ==> entry_sound(rhs, #[trigger] r[e])
    &&& forall|e: int|
        0 <= e < r.len() ==> (#[trigger] r[e]).terms@ == key_positions(rhs, exts, r[e].tensor, r[e].indices@, rhs.len() as int)
            && r[e].exts@ == used_externals(exts, r[e].indices@)
    &&& forall|a: int, b: int| 0 <= a < b < r.len() ==> key_order(entry_key(#[trigger] r[a]), entry_key(#[trigger] r[b])) < 0
    &&& forall|p: int|
        0 <= p < rhs.len() && is_pattern_term(exts, #[trigger] rhs[p]) ==> (exists|e: int|
            0 <= e < r.len() && pattern_with_key(exts, rhs[p], (#[trigger] r[e]).tensor, r[e].indices@))
            || crate::coeff::is_zero_value(
            coeff_total(rhs, key_positions(rhs, exts, rhs[p].factors[0].tensor, rhs[p].factors[0].indices, rhs.len() as int)),
        )
}

/// Group the pattern terms of a right-hand side by externals, tensor and
/// slot assignment, summing their coefficients; zero sums are dropped.
#[verifier::spinoff_prover]
#[verifier::rlimit(100)]
fn collect_entries(exts: &Vec<Index>, rhs: &Vec<Term>) -> (r: Vec<Entry>)
    requires
        distinct_ids(exts@),
    ensures
        forall|e: int| 0 <= e < r.len() ==> distinct_ids((#[trigger] r@[e]).exts@) && r@[e].exts.len() <= exts.len(),
        forall|e: int| 0 <= e < r.len() ==> !crate::coeff::is_zero_value((#[trigger] r@[e]).coeff@),
        forall|e: int| 0 <= e < r.len() ==> entry_sound(terms_view(rhs@), #[trigger] r@[e]),
        forall|e: int|
            0 <= e < r.len() ==> (#[trigger] r@[e]).terms@ == key_positions(
                terms_view(rhs@),
                exts@,
                r@[e].tensor,
                r@[e].indices@,
                rhs.len() as int,
            ) && r@[e].exts@ == used_externals(exts@, r@[e].indices@),
        forall|a: int, b: int| 0 <= a < b < r.len() ==> key_order(entry_key(#[trigger] r@[a]), entry_key(#[trigger] r@[b])) < 0,
        forall|p: int|
            0 <= p < rhs.len() && is_pattern_term(exts@, #[trigger] terms_view(rhs@)[p]) ==> (exists|e: int|
                0 <= e < r.len() && pattern_with_key(exts@, terms_view(rhs@)[p], (#[trigger] r@[e]).tensor, r@[e].indices@))
                || crate::coeff::is_zero_value(
                coeff_total(
                    terms_view(rhs@),
                    key_positions(
                        terms_view(rhs@),
                        exts@,
                        terms_view(rhs@)[p].factors[0].tensor,
                        terms_view(rhs@)[p].factors[0].indices,
                        rhs.len() as int,
                    ),
                ),
            ),
        entries_for(exts@, terms_view(rhs@), r@),
{
    let ghost view = terms_view(rhs@);
    let ghost ev = exts@;
    let mut entries: Vec<Entry> = Vec::new();
    let mut position: usize = 0;
    while position < rhs.len()
        invariant
            position <= rhs.len(),
            distinct_ids(exts@),
            view == terms_view(rhs@),
            ev == exts@,
            forall|e: int| 0 <= e < entries.len() ==> distinct_ids((#[trigger] entries@[e]).exts@) && entries@[e].exts.len() <= exts.len(),
            forall|e: int| 0 <= e < entries.len() ==> entry_sound(view, #[trigger] entries@[e]),
            forall|e: int|
                0 <= e < entries.len() ==> (#[trigger] entries@[e]).terms@ == key_positions(
                    view,
                    ev,
                    entries@[e].tensor,
                    entries@[e].indices@,
                    position as int,
                ) && entries@[e].exts@ == used_externals(ev, entries@[e].indices@),
            forall|a: int, b: int| 0 <= a < b < entries.len() ==> key_order(entry_key(#[trigger] entries@[a]), entry_key(#[trigger] entries@[b])) < 0,
            forall|p: int|
                0 <= p < position && is_pattern_term(ev, #[trigger] view[p]) ==> exists|e: int|
                    0 <= e < entries.len() && pattern_with_key(ev, view[p], (#[trigger] entries@[e]).tensor, entries@[e].indices@),
        decreases rhs.len() - position,
    {
        let term = &rhs[position];
        assert(view[position as int] == term@);
        let ghost before_step = entries@;
        if pattern_term(exts, term) {
            let factor = &term.factors[0];
            assert(term@.factors =~= seq![factor@]);
            let pattern = externals_used(exts, &factor.indices);
            let ghost key = (pattern@, factor.tensor, factor.indices@);
            let mut at: usize = 0;
            let mut found = false;
            let ghost mut stopped = false;
            while at < entries.len() && !found
                invariant
                    at <= entries.len(),
                    found ==> at < entries.len(),
                    found ==> entries@[at as int].tensor == factor.tensor && entries@[at as int].indices@
                        == factor.indices@,
                    !found ==> forall|x: int| 0 <= x < at ==> key_order(entry_key(#[trigger] entries@[x]), key) < 0,
                    stopped ==> !found && at < entries.len() && key_order(entry_key(entries@[at as int]), key) > 0,
                    key == (pattern@, factor.tensor, factor.indices@),
                ensures
                    found || at == entries.len() || stopped,
                    found ==> at < entries.len(),
                    found ==> entries@[at as int].tensor == factor.tensor && entries@[at as int].indices@
                        == factor.indices@,
                    !found ==> forall|x: int| 0 <= x < at ==> key_order(entry_key(#[trigger] entries@[x]), key) < 0,
                    stopped ==> !found && at < entries.len() && key_order(entry_key(entries@[at as int]), key) > 0,
                decreases entries.len() - at + if found { 0int } else { 1int },
            {
                let order = compare_entry_key(&entries[at], &pattern, factor.tensor, &factor.indices);
                if order == 0 {
                    found = true;
                } else if order > 0 {
                    proof {
                        stopped = true;
                    }
                    break;
                } else {
                    at = at + 1;
                }
            }
            proof {
                if !found {
                    assert forall|x: int| 0 <= x < entries.len() implies key_order(entry_key(#[trigger] entries@[x]), key) != 0 by {
                        if x >= at {
                            assert(stopped);
                            if x > at {
                                lemma_key_order(entry_key(entries@[at as int]), entry_key(entries@[x]), key);
                                lemma_key_order(key, entry_key(entries@[at as int]), entry_key(entries@[x]));
                                lemma_key_order(entry_key(entries@[x]), key, key);
                                assert(key_order(entry_key(entries@[at as int]), entry_key(entries@[x])) < 0);
                            }
                        }
                    }
                }
            }
            if found {
                let ghost before = entries@;
                let mut entry = entries.remove(at);
                assert(entry_sound(view, entry));
                let ghost old_terms = entry.terms@;
                entry.coeff = entry.coeff.add(&term.coeff);
                entry.terms.push(position);
                proof {
                    assert(entry.terms@.drop_last() =~= old_terms);
                    assert(entry.terms@.last() == position);
                    assert(view[position as int].coeff == term.coeff@);
                    assert(entry.coeff@ == coeff_total(view, entry.terms@));
                    assert(occurrences_of(view, entry.terms@, entry.tensor, entry.indices@)) by {
                        assert forall|k: int| 0 <= k < entry.terms@.len() implies {
                            &&& (#[trigger] entry.terms@[k]) < view.len()
                            &&& view[entry.terms@[k] as int].sums.len() == 0
                            &&& view[entry.terms@[k] as int].factors == seq![TensorRefView { tensor: entry.tensor, indices: entry.indices@ }]
                        } by {
                            if k < old_terms.len() {
                                assert(entry.terms@[k] == old_terms[k]);
                            }
                        }
                    }
                    assert(pattern_with_key(ev, view[position as int], entry.tensor, entry.indices@));
                    assert(entry.terms@ == key_positions(view, ev, entry.tensor, entry.indices@, position + 1));
                }
                let ghost middle = entries@;
                entries.insert(at, entry);
                proof {
                    assert(entries@ =~= before.update(at as int, entry));
                    assert forall|e: int| 0 <= e < entries.len() implies entry_sound(view, #[trigger] entries@[e]) by {
                        if e != at {
                            assert(entries@[e] == before[e]);
                        }
                    }
                    assert forall|e: int| 0 <= e < entries.len() && e != at implies !pattern_with_key(
                        ev,
                        view[position as int],
                        (#[trigger] entries@[e]).tensor,
                        entries@[e].indices@,
                    ) by {
                        assert(entries@[e] == before[e]);
                        if pattern_with_key(ev, view[position as int], entries@[e].tensor, entries@[e].indices@) {
                            assert(entry_key(before[e]) == entry_key(before[at as int]));
                            lemma_key_order(entry_key(before[e]), entry_key(before[at as int]), entry_key(before[at as int]));
                            if e < at {
                                assert(key_order(entry_key(before[e]), entry_key(before[at as int])) < 0);
                            } else {
                                assert(key_order(entry_key(before[at as int]), entry_key(before[e])) < 0);
                            }
                        }
                    }
                    assert forall|e: int|
                        0 <= e < entries.len() implies (#[trigger] entries@[e]).terms@ == key_positions(
                            view,
                            ev,
                            entries@[e].tensor,
                            entries@[e].indices@,
                            position + 1,
                        ) && entries@[e].exts@ == used_externals(ev, entries@[e].indices@) by {
                        if e != at {
                            assert(entries@[e] == before[e]);
                            assert(!pattern_with_key(ev, view[position as int], entries@[e].tensor, entries@[e].indices@));
                        }
                    }
                    assert forall|a: int, b: int| 0 <= a < b < entries.len() implies key_order(
                        entry_key(#[trigger] entries@[a]),
                        entry_key(#[trigger] entries@[b]),
                    ) < 0 by {
                        assert(entry_key(entries@[a]) == entry_key(before[a]));
                        assert(entry_key(entries@[b]) == entry_key(before[b]));
                    }
                    assert forall|p: int|
                        0 <= p < position + 1 && is_pattern_term(ev, #[trigger] view[p]) implies exists|e: int|
                            0 <= e < entries.len() && pattern_with_key(ev, view[p], (#[trigger] entries@[e]).tensor, entries@[e].indices@) by {
                        if p < position {
                            let e = choose|e: int|
                                0 <= e < before.len() && pattern_with_key(ev, view[p], (#[trigger] before[e]).tensor, before[e].indices@);
                            assert(entries@[e].tensor == before[e].tensor && entries@[e].indices@ == before[e].indices@);
                        } else {
                            assert(pattern_with_key(ev, view[p], entries@[at as int].tensor, entries@[at as int].indices@));
                        }
                    }
                }
            } else {
                let mut terms: Vec<usize> = Vec::new();
                terms.push(position);
                let indices = factor.indices.clone();
                let entry = Entry {
                    exts: pattern,
                    tensor: factor.tensor,
                    indices,
                    coeff: Coefficient::from_integer(0).add(&term.coeff),
                    terms,
                };
                proof {
                    assert(entry.terms@.drop_last() =~= Seq::<usize>::empty());
                    assert(coeff_total(view, Seq::<usize>::empty()) == ratio_of_integer(0));
                    assert(entry.terms@.last() == position);
                    assert(view[position as int].coeff == term.coeff@);
                    assert(entry.coeff@ == coeff_total(view, entry.terms@));
                    assert(indices@ =~= factor.indices@);
                    assert(entry_key(entry) == key);
                    assert forall|p: int| 0 <= p < position implies !pattern_with_key(ev, #[trigger] view[p], entry.tensor, entry.indices@) by {
                        if pattern_with_key(ev, view[p], entry.tensor, entry.indices@) {
                            let e = choose|e: int|
                                0 <= e < entries.len() && pattern_with_key(ev, view[p], (#[trigger] entries@[e]).tensor, entries@[e].indices@);
                            assert(entry_key(entries@[e]) == key);
                            lemma_key_order(entry_key(entries@[e]), key, key);
                        }
                    }
                    lemma_key_positions_empty(view, ev, entry.tensor, entry.indices@, position as int);
                    assert(entry.terms@ =~= key_positions(view, ev, entry.tensor, entry.indices@, position + 1));
                }
                let ghost before = entries@;
                entries.insert(at, entry);
                proof {
                    assert forall|e: int| 0 <= e < entries.len() implies entry_sound(view, #[trigger] entries@[e]) by {
                        if e < at {
                            assert(entries@[e] == before[e]);
                        } else if e > at {
                            assert(entries@[e] == before[e - 1]);
                        }
                    }
                    assert forall|a: int, b: int| 0 <= a < b < entries.len() implies key_order(
                        entry_key(#[trigger] entries@[a]),
                        entry_key(#[trigger] entries@[b]),
                    ) < 0 by {
                        if b < at {
                            assert(entries@[a] == before[a] && entries@[b] == before[b]);
                        } else if b == at {
                            assert(entries@[a] == before[a]);
                        } else if a < at {
                            assert(entries@[a] == before[a] && entries@[b] == before[b - 1]);
                            lemma_key_order(entry_key(before[b - 1]), key, key);
                            lemma_key_order(entry_key(before[a]), key, entry_key(before[b - 1]));
                            lemma_key_order(key, entry_key(before[at as int]), entry_key(before[b - 1]));
                            lemma_key_order(entry_key(before[at as int]), key, key);
                            if b - 1 > at {
                                assert(key_order(entry_key(before[at as int]), entry_key(before[b - 1])) < 0);
                            }
                        } else if a == at {
                            assert(entries@[b] == before[b - 1]);
                            lemma_key_order(entry_key(before[at as int]), key, key);
                            lemma_key_order(key, entry_key(before[at as int]), entry_key(before[b - 1]));
                            if b - 1 > at {
                                assert(key_order(entry_key(before[at as int]), entry_key(before[b - 1])) < 0);
                            }
                        } else {
                            assert(entries@[a] == before[a - 1] && entries@[b] == before[b - 1]);
                        }
                    }
                    assert forall|e: int| 0 <= e < entries.len() && e != at implies !pattern_with_key(
                        ev,
                        view[position as int],
                        (#[trigger] entries@[e]).tensor,
                        entries@[e].indices@,
                    ) by {
                        let old_e = if e < at { e } else { e - 1 };
                        assert(entries@[e] == before[old_e]);
                        if pattern_with_key(ev, view[position as int], entries@[e].tensor, entries@[e].indices@) {
                            assert(entry_key(before[old_e]) == key);
                        }
                    }
                    assert forall|e: int|
                        0 <= e < entries.len() implies (#[trigger] entries@[e]).terms@ == key_positions(
                            view,
                            ev,
                            entries@[e].tensor,
                            entries@[e].indices@,
                            position + 1,
                        ) && entries@[e].exts@ == used_externals(ev, entries@[e].indices@) by {
                        if e != at {
                            let old_e = if e < at { e } else { e - 1 };
                            assert(entries@[e] == before[old_e]);
                            assert(!pattern_with_key(ev, view[position as int], entries@[e].tensor, entries@[e].indices@));
                        }
                    }
                    assert forall|p: int|
                        0 <= p < position + 1 && is_pattern_term(ev, #[trigger] view[p]) implies exists|e: int|
                            0 <= e < entries.len() && pattern_with_key(ev, view[p], (#[trigger] entries@[e]).tensor, entries@[e].indices@) by {
                        if p < position {
                            let e = choose|e: int|
                                0 <= e < before.len() && pattern_with_key(ev, view[p], (#[trigger] before[e]).tensor, before[e].indices@);
                            let new_e = if e < at { e } else { e + 1 };
                            assert(entries@[new_e] == before[e]);
                        } else {
                            assert(pattern_with_key(ev, view[p], entries@[at as int].tensor, entries@[at as int].indices@));
                        }
                    }
                }
            }
        } else {
            proof {
                assert forall|e: int|
                    0 <= e < entries.len() implies (#[trigger] entries@[e]).terms@ == key_positions(
                        view,
                        ev,
                        entries@[e].tensor,
                        entries@[e].indices@,
                        position + 1,
                    ) && entries@[e].exts@ == used_externals(ev, entries@[e].indices@) by {
                    assert(!pattern_with_key(ev, view[position as int], entries@[e].tensor, entries@[e].indices@));
                }
            }
        }
        position = position + 1;
    }
    let ghost all = entries@;
    let ghost mut from: Seq<int> = Seq::empty();
    let ghost mut done: int = 0;
    let mut nonzero: Vec<Entry> = Vec::new();
    while entries.len() > 0
        invariant
            0 <= done <= all.len(),
            entries@ == all.subrange(done, all.len() as int),
            forall|e: int| 0 <= e < all.len() ==> distinct_ids((#[trigger] all[e]).exts@) && all[e].exts.len() <= exts.len(),
            forall|e: int| 0 <= e < all.len() ==> entry_sound(view, #[trigger] all[e]),
            forall|e: int| 0 <= e < nonzero.len() ==> !crate::coeff::is_zero_value((#[trigger] nonzero@[e]).coeff@),
            nonzero.len() == from.len(),
            forall|e: int| 0 <= e < nonzero.len() ==> 0 <= #[trigger] from[e] < done && nonzero@[e] == all[from[e]],
            forall|a: int, b: int| 0 <= a < b < nonzero.len() ==> #[trigger] from[a] < #[trigger] from[b],
            forall|x: int|
                0 <= x < done && !crate::coeff::is_zero_value((#[trigger] all[x]).coeff@) ==> exists|e: int|
                    0 <= e < nonzero.len() && #[trigger] from[e] == x,
        decreases entries.len(),
    {
        let entry = entries.remove(0);
        assert(entry == all[done]);
        let ghost old_from = from;
        if !entry.coeff.is_zero() {
            nonzero.push(entry);
            proof {
                from = from.push(done);
                assert(from[from.len() - 1] == done);
            }
        }
        proof {
            assert forall|x: int|
                0 <= x < done + 1 && !crate::coeff::is_zero_value((#[trigger] all[x]).coeff@) implies exists|e: int|
                    0 <= e < nonzero.len() && #[trigger] from[e] == x by {
                if x < done {
                    let e = choose|e: int| 0 <= e < old_from.len() && #[trigger] old_from[e] == x;
                    assert(from[e] == x);
                } else {
                    assert(from[from.len() - 1] == x);
                }
            }
            done = done + 1;
            assert(entries@ =~= all.subrange(done, all.len() as int));
        }
    }
    proof {
        assert forall|e: int| 0 <= e < nonzero.len() implies distinct_ids((#[trigger] nonzero@[e]).exts@) && nonzero@[e].exts.len() <= exts.len()
            && entry_sound(view, nonzero@[e]) by {
            assert(nonzero@[e] == all[from[e]]);
        }
        assert forall|a: int, b: int| 0 <= a < b < nonzero.len() implies key_order(entry_key(#[trigger] nonzero@[a]), entry_key(#[trigger] nonzero@[b])) < 0 by {
            assert(from[a] < from[b]);
            assert(nonzero@[a] == all[from[a]] && nonzero@[b] == all[from[b]]);
        }
        assert forall|e: int|
            0 <= e < nonzero.len() implies (#[trigger] nonzero@[e]).terms@ == key_positions(
                view,
                ev,
                nonzero@[e].tensor,
                nonzero@[e].indices@,
                rhs.len() as int,
            ) && nonzero@[e].exts@ == used_externals(ev, nonzero@[e].indices@) by {
            assert(nonzero@[e] == all[from[e]]);
        }
        assert forall|p: int|
            0 <= p < rhs.len() && is_pattern_term(ev, #[trigger] view[p]) implies (exists|e: int|
                0 <= e < nonzero.len() && pattern_with_key(ev, view[p], (#[trigger] nonzero@[e]).tensor, nonzero@[e].indices@))
                || crate::coeff::is_zero_value(
                coeff_total(view, key_positions(view, ev, view[p].factors[0].tensor, view[p].factors[0].indices, rhs.len() as int)),
            ) by {
            let x = choose|x: int| 0 <= x < all.len() && pattern_with_key(ev, view[p], (#[trigger] all[x]).tensor, all[x].indices@);
            if !crate::coeff::is_zero_value(all[x].coeff@) {
                let e = choose|e: int| 0 <= e < nonzero.len() && #[trigger] from[e] == x;
                assert(nonzero@[e] == all[x]);
            } else {
                assert(entry_sound(view, all[x]));
            }
        }
    }
    nonzero
}

/// A rooted term with one factor and at least two uses, each keyed by a
/// permutation of the external slots.
spec fn rooted_valid(t: RootedTerm, n: nat) -> bool {
    &&& t.root.factors@.len() == 1
    &&& t.occurrences@.len() >= 2
    &&& forall|o: int| 0 <= o < t.occurrences@.len() ==> perm_valid((#[trigger] t.occurrences@[o]).0@, n)
}

/// An occurrence relative to a root of `tensor` with identities `ids` and
/// coefficient `coeff`: the occurrences of `tensor` with the identities that
/// the permutation makes of `ids`, and their summed coefficient over `coeff`.
spec fn occurrence_sound(
    rhs: Seq<TermView>,
    exts: Seq<Index>,
    tensor: TensorId,
    ids: Seq<IndexId>,
    coeff: CoeffView,
    o: (Vec<usize>, Coefficient, Vec<usize>),
) -> bool {
    &&& o.2@.len() >= 1
    &&& range_preserving(exts, o.0@)
    &&& occurrences_of(rhs, o.2@, tensor, moved_ids(exts, ids, o.0@))
    &&& o.1@ == ratio_quotient(coeff_total(rhs, o.2@), coeff)
}

/// A sum-free root with a nonzero coefficient whose occurrences are sound.
spec fn rooted_sound(rhs: Seq<TermView>, exts: Seq<Index>, t: RootedTerm) -> bool {
    &&& t.root@.sums.len() == 0
    &&& !is_zero_value(t.root@.coeff)
    &&& t.root@.factors.len() == 1
    &&& forall|o: int|
        0 <= o < t.occurrences@.len() ==> occurrence_sound(
            rhs,
            exts,
            t.root@.factors[0].tensor,
            t.root@.factors[0].indices,
            t.root@.coeff,
            #[trigger] t.occurrences@[o],
        )
}

/// The identities that the relative permutation of `pivot` and `occurrence`
/// makes of `pivot` are those of `occurrence`.
proof fn lemma_moved_ids(exts: Seq<Index>, pivot: Seq<IndexId>, occurrence: Seq<IndexId>, perm: Seq<usize>)
    requires
        relatable(exts, pivot, occurrence),
        forall|k: int| 0 <= k < exts.len() ==> perm[slot_of(exts, #[trigger] pivot[k])] == slot_of(exts, occurrence[k]),
    ensures
        moved_ids(exts, pivot, perm) == occurrence,
{
    assert forall|k: int| 0 <= k < occurrence.len() implies moved_ids(exts, pivot, perm)[k] == occurrence[k] by {
        let x = pivot[k];
        assert(has_id(exts, x) && has_id(exts, occurrence[k]));
        let p = slot_of(exts, occurrence[k]);
        assert(exts[p].id == occurrence[k]);
        assert(perm[slot_of(exts, pivot[k])] == p);
    }
    assert(moved_ids(exts, pivot, perm) =~= occurrence);
}

/// The order of two coefficients: equal ones first, then by value.
pub open spec fn coeff_order(a: CoeffView, b: CoeffView) -> int {
    if a == b {
        0
    } else if crate::coeff::numer_value(a) * crate::coeff::denom_value(b) < crate::coeff::numer_value(b)
        * crate::coeff::denom_value(a) {
        -1
    } else {
        1
    }
}

/// The order of two use keys: permutation, then coefficient.
pub open spec fn use_order(a: (Seq<usize>, CoeffView), b: (Seq<usize>, CoeffView)) -> int {
    let o = crate::order::lex_order(crate::order::usize_keys(a.0), crate::order::usize_keys(b.0));
    if o != 0 {
        o
    } else {
        coeff_order(a.1, b.1)
    }
}

/// The order of two roots: tensor, slot assignment, then coefficient.
pub open spec fn root_order(a: TermView, b: TermView) -> int {
    let (l, r) = (a.factors[0], b.factors[0]);
    if l.tensor.0 != r.tensor.0 {
        crate::order::int_order(l.tensor.0 as int, r.tensor.0 as int)
    } else if crate::order::lex_order(crate::order::id_keys(l.indices), crate::order::id_keys(r.indices)) != 0 {
        crate::order::lex_order(crate::order::id_keys(l.indices), crate::order::id_keys(r.indices))
    } else {
        coeff_order(a.coeff, b.coeff)
    }
}

/// The first difference of two root lists over their common length.
pub open spec fn roots_order(a: Seq<TermView>, b: Seq<TermView>) -> int
    decreases a.len(),
{
    if a.len() == 0 || b.len() == 0 {
        0
    } else if root_order(a[0], b[0]) != 0 {
        root_order(a[0], b[0])
    } else {
        roots_order(a.drop_first(), b.drop_first())
    }
}

/// The lexicographic order of use lists, a proper prefix first.
pub open spec fn uses_order(a: Seq<(Seq<usize>, CoeffView)>, b: Seq<(Seq<usize>, CoeffView)>) -> int
    decreases a.len(),
{
    if a.len() == 0 || b.len() == 0 {
        crate::order::int_order(a.len() as int, b.len() as int)
    } else if use_order(a[0], b[0]) != 0 {
        use_order(a[0], b[0])
    } else {
        uses_order(a.drop_first(), b.drop_first())
    }
}

/// The order of two families: roots over their common length, then uses.
pub open spec fn family_order(a: FamilyView, b: FamilyView) -> int {
    if roots_order(a.roots, b.roots) != 0 {
        roots_order(a.roots, b.roots)
    } else {
        uses_order(a.uses, b.uses)
    }
}

/// Compare two use keys: permutation, then coefficient.
fn compare_use_key(perm: &Vec<usize>, coeff: &Coefficient, other_perm: &Vec<usize>, other_coeff: &Coefficient) -> (r: i8)
    ensures
        -1 <= r <= 1,
        r == 0 <==> perm@ == other_perm@ && coeff@ == other_coeff@,
        r == use_order((perm@, coeff@), (other_perm@, other_coeff@)),
{
    let order = compare_usizes(perm, other_perm);
    if order != 0 {
        return order;
    }
    compare_coefficients(coeff, other_coeff)
}

/// Every root of each tensor row of one external pattern, with the uses of
/// that root: the other assignments of the row that a permutation of the
/// external slots relates to it, keyed by that permutation and by their
/// coefficient relative to the root.
fn rooted_terms(
    exts: &Vec<Index>,
    entries: &Vec<Entry>,
    start: usize,
    end: usize,
    Ghost(rhs): Ghost<Seq<TermView>>,
) -> (r: Vec<RootedTerm>)
    requires
        start <= end <= entries.len(),
        distinct_ids(exts@),
        forall|e: int| start <= e < end ==> !crate::coeff::is_zero_value((#[trigger] entries@[e]).coeff@),
        forall|e: int| start <= e < end ==> entry_sound(rhs, #[trigger] entries@[e]),
        forall|a: int, b: int| start <= a < b < end ==> (#[trigger] entries@[a]).tensor.0 <= (#[trigger] entries@[b]).tensor.0,
        forall|a: int, b: int|
            start <= a < b < end ==> !((#[trigger] entries@[a]).tensor == (#[trigger] entries@[b]).tensor
                && entries@[a].indices@ == entries@[b].indices@),
    ensures
        forall|k: int| 0 <= k < r.len() ==> rooted_valid(#[trigger] r@[k], exts.len() as nat),
        forall|k: int| 0 <= k < r.len() ==> rooted_sound(rhs, exts@, #[trigger] r@[k]),
        forall|p: int, o1: int, o2: int|
            start <= p < end && start <= o1 < o2 < end && #[trigger] relatable_entries(entries@, exts@, p, o1)
                && #[trigger] relatable_entries(entries@, exts@, p, o2) ==> exists|k: int|
                0 <= k < r.len() && roots_entry(#[trigger] r@[k], entries@, exts@, p, start as int, end as int),
{
    let mut rooted: Vec<RootedTerm> = Vec::new();
    let mut row_start = start;
    while row_start < end
        invariant
            start <= row_start <= end <= entries.len(),
            distinct_ids(exts@),
            forall|e: int| start <= e < end ==> !crate::coeff::is_zero_value((#[trigger] entries@[e]).coeff@),
            forall|e: int| start <= e < end ==> entry_sound(rhs, #[trigger] entries@[e]),
            forall|k: int| 0 <= k < rooted.len() ==> rooted_valid(#[trigger] rooted@[k], exts.len() as nat),
            forall|k: int| 0 <= k < rooted.len() ==> rooted_sound(rhs, exts@, #[trigger] rooted@[k]),
            forall|a: int, b: int| start <= a < b < end ==> (#[trigger] entries@[a]).tensor.0 <= (#[trigger] entries@[b]).tensor.0,
            forall|a: int, b: int|
                start <= a < b < end ==> !((#[trigger] entries@[a]).tensor == (#[trigger] entries@[b]).tensor
                    && entries@[a].indices@ == entries@[b].indices@),
            start < row_start < end ==> entries@[row_start - 1].tensor != entries@[row_start as int].tensor,
            forall|p: int, o1: int, o2: int|
                start <= p < row_start && start <= o1 < o2 < end && #[trigger] relatable_entries(entries@, exts@, p, o1)
                    && #[trigger] relatable_entries(entries@, exts@, p, o2) ==> exists|k: int|
                    0 <= k < rooted.len() && roots_entry(#[trigger] rooted@[k], entries@, exts@, p, start as int, end as int),
        decreases end - row_start,
    {
        let tensor = entries[row_start].tensor;
        let mut row_end = row_start + 1;
        while row_end < end && entries[row_end].tensor == tensor
            invariant
                row_start < row_end <= end <= entries.len(),
                tensor == entries@[row_start as int].tensor,
                forall|e: int| row_start <= e < row_end ==> (#[trigger] entries@[e]).tensor == tensor,
            decreases end - row_end,
        {
            row_end = row_end + 1;
        }
        let mut pivot = row_start;
        while pivot < row_end
            invariant
                start <= row_start <= pivot <= row_end <= end <= entries.len(),
                distinct_ids(exts@),
                forall|e: int| start <= e < end ==> !crate::coeff::is_zero_value((#[trigger] entries@[e]).coeff@),
                forall|e: int| start <= e < end ==> entry_sound(rhs, #[trigger] entries@[e]),
                forall|e: int| row_start <= e < row_end ==> (#[trigger] entries@[e]).tensor == tensor,
                forall|k: int| 0 <= k < rooted.len() ==> rooted_valid(#[trigger] rooted@[k], exts.len() as nat),
                forall|k: int| 0 <= k < rooted.len() ==> rooted_sound(rhs, exts@, #[trigger] rooted@[k]),
                forall|a: int, b: int| start <= a < b < end ==> (#[trigger] entries@[a]).tensor.0 <= (#[trigger] entries@[b]).tensor.0,
                forall|a: int, b: int|
                    start <= a < b < end ==> !((#[trigger] entries@[a]).tensor == (#[trigger] entries@[b]).tensor
                        && entries@[a].indices@ == entries@[b].indices@),
                start < row_start ==> entries@[row_start - 1].tensor != tensor,
                row_end < end ==> entries@[row_end as int].tensor != tensor,
                tensor == entries@[row_start as int].tensor,
                forall|p: int, o1: int, o2: int|
                    start <= p < pivot && start <= o1 < o2 < end && #[trigger] relatable_entries(entries@, exts@, p, o1)
                        && #[trigger] relatable_entries(entries@, exts@, p, o2) ==> exists|k: int|
                        0 <= k < rooted.len() && roots_entry(#[trigger] rooted@[k], entries@, exts@, p, start as int, end as int),
            decreases row_end - pivot,
        {
            let root = &entries[pivot];
            let mut relative: Vec<(Vec<usize>, Coefficient, Vec<usize>)> = Vec::new();
            let ghost mut origin: Seq<int> = Seq::empty();
            let mut o = row_start;
            while o < row_end
                invariant
                    start <= row_start <= o <= row_end <= end <= entries.len(),
                    start <= pivot < row_end,
                    distinct_ids(exts@),
                    !crate::coeff::is_zero_value(root.coeff@),
                    forall|e: int| start <= e < end ==> entry_sound(rhs, #[trigger] entries@[e]),
                    forall|e: int| row_start <= e < row_end ==> (#[trigger] entries@[e]).tensor == tensor,
                    forall|k: int| 0 <= k < relative.len() ==> perm_valid((#[trigger] relative@[k]).0@, exts.len() as nat),
                    forall|k: int| 0 <= k < relative.len() ==> occurrence_sound(
                        rhs,
                        exts@,
                        tensor,
                        root.indices@,
                        root.coeff@,
                        #[trigger] relative@[k],
                    ),
                    root == &entries@[pivot as int],
                    row_start <= pivot,
                    forall|a: int, b: int|
                        start <= a < b < end ==> !((#[trigger] entries@[a]).tensor == (#[trigger] entries@[b]).tensor
                            && entries@[a].indices@ == entries@[b].indices@),
                    forall|o2: int|
                        row_start <= o2 < o && #[trigger] relatable_entries(entries@, exts@, pivot as int, o2) ==> lists_occurrence(
                            relative@,
                            exts@,
                            entries@[pivot as int].indices@,
                            entries@[pivot as int].coeff@,
                            entries@[o2],
                        ),
                    origin.len() == relative.len(),
                    forall|i: int|
                        0 <= i < relative.len() ==> row_start <= #[trigger] origin[i] < o && relatable_entries(
                            entries@,
                            exts@,
                            pivot as int,
                            origin[i],
                        ) && occurrence_of(
                            relative@,
                            i,
                            exts@,
                            entries@[pivot as int].indices@,
                            entries@[pivot as int].coeff@,
                            entries@[origin[i]],
                        ),
                decreases row_end - o,
            {
                let occurrence = &entries[o];
                match relative_permutation(exts.as_slice(), root.indices.as_slice(), occurrence.indices.as_slice()) {
                    None => {},
                    Some(perm) => {
                        let coeff = occurrence.coeff.div(&root.coeff);
                        let terms = clone_positions(&occurrence.terms);
                        proof {
                            lemma_moved_ids(exts@, root.indices@, occurrence.indices@, perm@);
                            assert(entry_sound(rhs, *occurrence));
                            assert(occurrence.tensor == tensor);
                            assert(occurrence_sound(rhs, exts@, tensor, root.indices@, root.coeff@, (perm, coeff, terms)));
                        }
                        let mut at: usize = 0;
                        let mut same = false;
                        let mut stop = false;
                        while at < relative.len() && !stop
                            invariant
                                at <= relative.len(),
                                same ==> stop && at < relative.len(),
                                same ==> relative@[at as int].0@ == perm@ && relative@[at as int].1@ == coeff@,
                            decreases relative.len() - at + if stop { 0int } else { 1int },
                        {
                            let order = compare_use_key(&relative[at].0, &relative[at].1, &perm, &coeff);
                            if order == 0 {
                                same = true;
                                stop = true;
                            } else if order > 0 {
                                stop = true;
                            } else {
                                at = at + 1;
                            }
                        }
                        let ghost before = relative@;
                        proof {
                            assert(relatable_entries(entries@, exts@, pivot as int, o as int));
                            if same {
                                let o2 = origin[at as int];
                                assert(occurrence_of(relative@, at as int, exts@, entries@[pivot as int].indices@, entries@[pivot as int].coeff@, entries@[o2]));
                                assert(entries@[o2].indices@ == occurrence.indices@);
                                assert(entries@[o2].tensor == entries@[o as int].tensor);
                                assert(false);
                            }
                        }
                        if same {
                            let _previous = relative.remove(at);
                        }
                        let ghost middle = relative@;
                        relative.insert(at, (perm, coeff, terms));
                        proof {
                            assert(middle == before);
                            assert(relative@ == before.insert(at as int, relative@[at as int]));
                            assert(occurrence_of(seq![relative@[at as int]], 0, exts@, entries@[pivot as int].indices@, entries@[pivot as int].coeff@, entries@[o as int]));
                            lemma_occurrence_step(
                                entries@,
                                exts@,
                                pivot as int,
                                row_start as int,
                                o as int,
                                before,
                                origin,
                                at as int,
                                relative@[at as int],
                            );
                            origin = origin.insert(at as int, o as int);
                            assert forall|k: int| 0 <= k < middle.len() implies perm_valid((#[trigger] middle[k]).0@, exts.len() as nat)
                                && occurrence_sound(rhs, exts@, tensor, root.indices@, root.coeff@, middle[k]) by {
                                if same {
                                    if k < at {
                                        assert(middle[k] == before[k]);
                                    } else {
                                        assert(middle[k] == before[k + 1]);
                                    }
                                }
                            }
                            assert forall|k: int| 0 <= k < relative.len() implies perm_valid((#[trigger] relative@[k]).0@, exts.len() as nat)
                                && occurrence_sound(rhs, exts@, tensor, root.indices@, root.coeff@, relative@[k]) by {
                                if k < at {
                                    assert(relative@[k] == middle[k]);
                                } else if k > at {
                                    assert(relative@[k] == middle[k - 1]);
                                }
                            }
                        }
                    },
                }
                o = o + 1;
            }
            proof {
                assert forall|o1: int|
                    start <= o1 < end && #[trigger] relatable_entries(entries@, exts@, pivot as int, o1) implies row_start <= o1
                        < row_end by {
                    if o1 < row_start {
                        assert(entries@[o1].tensor.0 <= entries@[row_start - 1].tensor.0);
                        assert(entries@[row_start - 1].tensor.0 <= entries@[row_start as int].tensor.0);
                        assert(entries@[row_start - 1].tensor == tensor);
                    }
                    if o1 >= row_end {
                        assert(entries@[pivot as int].tensor.0 <= entries@[row_end as int].tensor.0);
                        if o1 > row_end {
                            assert(entries@[row_end as int].tensor.0 <= entries@[o1].tensor.0);
                        }
                        assert(entries@[row_end as int].tensor == tensor);
                    }
                }
                assert forall|o1: int, o2: int|
                    start <= o1 < o2 < end && relatable_entries(entries@, exts@, pivot as int, o1)
                        && relatable_entries(entries@, exts@, pivot as int, o2) implies relative.len() >= 2 by {
                    let piv = entries@[pivot as int];
                    let i1 = choose|i: int| #[trigger] occurrence_of(relative@, i, exts@, piv.indices@, piv.coeff@, entries@[o1]);
                    let i2 = choose|i: int| #[trigger] occurrence_of(relative@, i, exts@, piv.indices@, piv.coeff@, entries@[o2]);
                    assert(entries@[o1].indices@ != entries@[o2].indices@);
                    assert(i1 != i2);
                }
            }
            let ghost rooted_before_push = rooted@;
            if relative.len() >= 2 {
                let mut factors: Vec<TensorRef> = Vec::new();
                let indices = root.indices.clone();
                assert(indices@ =~= root.indices@);
                factors.push(TensorRef { tensor, indices });
                let term = Term { sums: Vec::new(), coeff: root.coeff.clone(), factors };
                let ghost before = rooted@;
                let t = RootedTerm { root: term, occurrences: relative };
                proof {
                    assert(t.root@.factors[0] == factors@[0]@);
                    assert(t.root@.factors[0].tensor == tensor);
                    assert(t.root@.factors[0].indices == root.indices@);
                    assert(rooted_sound(rhs, exts@, t));
                }
                rooted.push(t);
                proof {
                    assert forall|k: int| 0 <= k < rooted.len() implies rooted_sound(rhs, exts@, #[trigger] rooted@[k]) by {
                        if k < before.len() {
                            assert(rooted@[k] == before[k]);
                        }
                    }
                    assert(roots_entry(rooted@[before.len() as int], entries@, exts@, pivot as int, start as int, end as int));
                }
            }
            proof {
                assert forall|p: int, o1: int, o2: int|
                    start <= p < pivot + 1 && start <= o1 < o2 < end && #[trigger] relatable_entries(entries@, exts@, p, o1)
                        && #[trigger] relatable_entries(entries@, exts@, p, o2) implies exists|k: int|
                        0 <= k < rooted.len() && roots_entry(#[trigger] rooted@[k], entries@, exts@, p, start as int, end as int) by {
                    if p < pivot {
                        let k = choose|k: int|
                            0 <= k < rooted_before_push.len() && roots_entry(#[trigger] rooted_before_push[k], entries@, exts@, p, start as int, end as int);
                        assert(rooted@[k] == rooted_before_push[k]);
                    } else {
                        assert(rooted@.len() == rooted_before_push.len() + 1);
                        assert(roots_entry(rooted@[rooted_before_push.len() as int], entries@, exts@, p, start as int, end as int));
                    }
                }
            }
            pivot = pivot + 1;
        }
        row_start = row_end;
    }
    rooted
}

/// Entry `o` is an occurrence of the tensor of entry `p` whose identities
/// are relatable to those of `p`.
spec fn relatable_entries(entries: Seq<Entry>, exts: Seq<Index>, p: int, o: int) -> bool {
    &&& entries[o].tensor == entries[p].tensor
    &&& relatable(exts, entries[p].indices@, entries[o].indices@)
}

/// The occurrence at position `i` has the relative permutation that moves
/// the identities of `pivot` onto those of `e`, `e`'s coefficient over
/// `root_coeff`, and `e`'s term positions.
spec fn occurrence_of(
    occurrences: Seq<(Vec<usize>, Coefficient, Vec<usize>)>,
    i: int,
    exts: Seq<Index>,
    pivot: Seq<IndexId>,
    root_coeff: CoeffView,
    e: Entry,
) -> bool {
    &&& 0 <= i < occurrences.len()
    &&& moved_ids(exts, pivot, occurrences[i].0@) == e.indices@
    &&& occurrences[i].1@ == ratio_quotient(e.coeff@, root_coeff)
    &&& occurrences[i].2@ == e.terms@
}

/// The occurrences list `e`'s.
spec fn lists_occurrence(
    occurrences: Seq<(Vec<usize>, Coefficient, Vec<usize>)>,
    exts: Seq<Index>,
    pivot: Seq<IndexId>,
    root_coeff: CoeffView,
    e: Entry,
) -> bool {
    exists|i: int| #[trigger] occurrence_of(occurrences, i, exts, pivot, root_coeff, e)
}

/// A rooted term for entry `p` that lists every relatable occurrence among
/// the entries from `start` to `end`.
spec fn roots_entry(t: RootedTerm, entries: Seq<Entry>, exts: Seq<Index>, p: int, start: int, end: int) -> bool {
    &&& t.root@.sums.len() == 0
    &&& t.root@.coeff == entries[p].coeff@
    &&& t.root@.factors.len() == 1
    &&& t.root@.factors[0].tensor == entries[p].tensor
    &&& t.root@.factors[0].indices == entries[p].indices@
    &&& forall|o: int|
        start <= o < end && #[trigger] relatable_entries(entries, exts, p, o) ==> lists_occurrence(
            t.occurrences@,
            exts,
            entries[p].indices@,
            entries[p].coeff@,
            entries[o],
        )
}

/// Inserting an occurrence keeps every occurrence listed.
proof fn lemma_insert_keeps_listed(
    before: Seq<(Vec<usize>, Coefficient, Vec<usize>)>,
    at: int,
    item: (Vec<usize>, Coefficient, Vec<usize>),
    exts: Seq<Index>,
    pivot: Seq<IndexId>,
    root_coeff: CoeffView,
    e: Entry,
)
    requires
        0 <= at <= before.len(),
        lists_occurrence(before, exts, pivot, root_coeff, e),
    ensures
        lists_occurrence(before.insert(at, item), exts, pivot, root_coeff, e),
{
    let i = choose|i: int| #[trigger] occurrence_of(before, i, exts, pivot, root_coeff, e);
    let after = before.insert(at, item);
    if i < at {
        assert(after[i] == before[i]);
        assert(occurrence_of(after, i, exts, pivot, root_coeff, e));
    } else {
        assert(after[i + 1] == before[i]);
        assert(occurrence_of(after, i + 1, exts, pivot, root_coeff, e));
    }
}

/// Inserting the occurrence of entry `o` keeps the occurrences of the
/// entries before it listed, lists `o`'s, and keeps each occurrence that of
/// its recorded entry.
proof fn lemma_occurrence_step(
    entries: Seq<Entry>,
    exts: Seq<Index>,
    pivot: int,
    row_start: int,
    o: int,
    before: Seq<(Vec<usize>, Coefficient, Vec<usize>)>,
    origin: Seq<int>,
    at: int,
    item: (Vec<usize>, Coefficient, Vec<usize>),
)
    requires
        0 <= at <= before.len(),
        origin.len() == before.len(),
        row_start <= o,
        relatable_entries(entries, exts, pivot, o),
        occurrence_of(seq![item], 0, exts, entries[pivot].indices@, entries[pivot].coeff@, entries[o]),
        forall|o2: int|
            row_start <= o2 < o && #[trigger] relatable_entries(entries, exts, pivot, o2) ==> lists_occurrence(
                before,
                exts,
                entries[pivot].indices@,
                entries[pivot].coeff@,
                entries[o2],
            ),
        forall|i: int|
            0 <= i < before.len() ==> row_start <= #[trigger] origin[i] < o && relatable_entries(entries, exts, pivot, origin[i])
                && occurrence_of(before, i, exts, entries[pivot].indices@, entries[pivot].coeff@, entries[origin[i]]),
    ensures
        forall|o2: int|
            row_start <= o2 < o + 1 && #[trigger] relatable_entries(entries, exts, pivot, o2) ==> lists_occurrence(
                before.insert(at, item),
                exts,
                entries[pivot].indices@,
                entries[pivot].coeff@,
                entries[o2],
            ),
        forall|i: int|
            0 <= i < before.len() + 1 ==> row_start <= #[trigger] origin.insert(at, o)[i] < o + 1 && relatable_entries(
                entries,
                exts,
                pivot,
                origin.insert(at, o)[i],
            ) && occurrence_of(
                before.insert(at, item),
                i,
                exts,
                entries[pivot].indices@,
                entries[pivot].coeff@,
                entries[origin.insert(at, o)[i]],
            ),
{
    let after = before.insert(at, item);
    let origin2 = origin.insert(at, o);
    assert(after[at] == item);
    assert(seq![item][0] == item);
    assert(occurrence_of(after, at, exts, entries[pivot].indices@, entries[pivot].coeff@, entries[o]));
    assert forall|o2: int|
        row_start <= o2 < o + 1 && #[trigger] relatable_entries(entries, exts, pivot, o2) implies lists_occurrence(
            after,
            exts,
            entries[pivot].indices@,
            entries[pivot].coeff@,
            entries[o2],
        ) by {
        if o2 < o {
            lemma_insert_keeps_listed(before, at, item, exts, entries[pivot].indices@, entries[pivot].coeff@, entries[o2]);
        }
    }
    assert forall|i: int| 0 <= i < before.len() + 1 implies row_start <= #[trigger] origin2[i] < o + 1 && relatable_entries(
        entries,
        exts,
        pivot,
        origin2[i],
    ) && occurrence_of(after, i, exts, entries[pivot].indices@, entries[pivot].coeff@, entries[origin2[i]]) by {
        if i < at {
            assert(after[i] == before[i] && origin2[i] == origin[i]);
        } else if i > at {
            assert(after[i] == before[i - 1] && origin2[i] == origin[i - 1]);
        }
    }
}

/// Whether a rooted term has a use with this key.
spec fn has_use(t: RootedTerm, key: (Vec<usize>, Coefficient)) -> bool {
    exists|o: int|
        0 <= o < t.occurrences@.len() && (#[trigger] t.occurrences@[o]).0@ == key.0@ && t.occurrences@[o].1@
            == key.1@
}

/// Occurrence `o` of the rooted term has the use key.
spec fn use_at(t: RootedTerm, key: (Seq<usize>, CoeffView), o: int) -> bool {
    0 <= o < t.occurrences@.len() && t.occurrences@[o].0@ == key.0 && t.occurrences@[o].1@ == key.1
}

/// The first occurrence with the use key.
spec fn first_use(t: RootedTerm, key: (Seq<usize>, CoeffView)) -> int {
    choose|o: int| use_at(t, key, o) && forall|j: int| 0 <= j < o ==> !#[trigger] use_at(t, key, j)
}

/// The source positions of the first occurrence of root `r` with use `u`.
spec fn pair_list(rooted: Seq<RootedTerm>, uses: Seq<(Vec<usize>, Coefficient)>, r: usize, u: usize) -> Seq<usize> {
    rooted[r as int].occurrences@[first_use(rooted[r as int], (uses[u as int].0@, uses[u as int].1@))].2@
}

fn find_use(t: &RootedTerm, key: &(Vec<usize>, Coefficient)) -> (r: Option<usize>)
    ensures
        r is Some <==> has_use(*t, *key),
        r matches Some(o) ==> o < t.occurrences.len() && t.occurrences@[o as int].0@ == key.0@ && t.occurrences@[o as int].1@ == key.1@,
        r matches Some(o) ==> o == first_use(*t, (key.0@, key.1@)),
{
    let mut o: usize = 0;
    while o < t.occurrences.len()
        invariant
            o <= t.occurrences.len(),
            forall|j: int| 0 <= j < o ==> !((#[trigger] t.occurrences@[j]).0@ == key.0@ && t.occurrences@[j].1@ == key.1@),
        decreases t.occurrences.len() - o,
    {
        if compare_use_key(&t.occurrences[o].0, &t.occurrences[o].1, &key.0, &key.1) == 0 {
            proof {
                let k = (key.0@, key.1@);
                assert(use_at(*t, k, o as int));
                assert forall|j: int| 0 <= j < o implies !#[trigger] use_at(*t, k, j) by {
                    assert(!((t.occurrences@[j]).0@ == key.0@ && t.occurrences@[j].1@ == key.1@));
                }
                let f = first_use(*t, k);
                if f < o {
                    assert(!use_at(*t, k, f));
                } else if f > o {
                    assert(!use_at(*t, k, o as int));
                }
            }
            return Some(o);
        }
        o = o + 1;
    }
    None
}

/// Roots of different tensors are compatible, uses always are, and a root
/// and a use are when the root has that use.
spec fn node_compatible(rooted: Seq<RootedTerm>, uses: Seq<(Vec<usize>, Coefficient)>, a: int, b: int) -> bool {
    let roots = rooted.len() as int;
    if a < roots && b < roots {
        rooted[a].root.factors@[0].tensor != rooted[b].root.factors@[0].tensor
    } else if a >= roots && b >= roots {
        true
    } else if a < roots {
        has_use(rooted[a], uses[b - roots])
    } else {
        has_use(rooted[b], uses[a - roots])
    }
}

fn compatible(rooted: &Vec<RootedTerm>, uses: &Vec<(Vec<usize>, Coefficient)>, a: usize, b: usize) -> (r: bool)
    requires
        a < rooted.len() + uses.len(),
        b < rooted.len() + uses.len(),
        forall|k: int| 0 <= k < rooted.len() ==> (#[trigger] rooted@[k]).root.factors@.len() == 1,
    ensures
        r == node_compatible(rooted@, uses@, a as int, b as int),
{
    let roots = rooted.len();
    if a < roots && b < roots {
        rooted[a].root.factors[0].tensor != rooted[b].root.factors[0].tensor
    } else if a >= roots && b >= roots {
        true
    } else if a < roots {
        find_use(&rooted[a], &uses[b - roots]).is_some()
    } else {
        find_use(&rooted[b], &uses[a - roots]).is_some()
    }
}

/// The source positions of one root and use: occurrences of the root's
/// tensor with the identities that the permutation makes of the root's,
/// whose coefficients add up to the use's coefficient times the root's.
spec fn row_sound(
    rhs: Seq<TermView>,
    exts: Seq<Index>,
    root: TermView,
    perm: Seq<usize>,
    coeff: CoeffView,
    positions: Seq<usize>,
) -> bool {
    &&& positions.len() >= 1
    &&& occurrences_of(rhs, positions, root.factors[0].tensor, moved_ids(exts, root.factors[0].indices, perm))
    &&& coeff == ratio_quotient(coeff_total(rhs, positions), root.coeff)
}

/// The number of entries of `s` below `n`.
spec fn count_below(s: Seq<usize>, n: int) -> nat
    decreases s.len(),
{
    if s.len() == 0 {
        0
    } else {
        count_below(s.drop_last(), n) + if s.last() < n { 1nat } else { 0nat }
    }
}

/// The nodes of a clique of an irreflexive graph are distinct.
proof fn lemma_clique_distinct(adj: Seq<Vec<bool>>, m: Seq<usize>)
    requires
        adjacency_valid(adj),
        is_clique(adj, m),
    ensures
        m.no_duplicates(),
{
    assert forall|a: int, b: int| 0 <= a < m.len() && 0 <= b < m.len() && a != b implies m[a] != m[b] by {
        assert(adj[m[a] as int]@[m[b] as int]);
    }
}

/// Whether a node lies below `n`.
spec fn below(n: int) -> spec_fn(usize) -> bool {
    |x: usize| x < n
}

/// The nodes below `n` counted by [`count_below`] are those the filter keeps.
proof fn lemma_count_filter(s: Seq<usize>, n: int)
    ensures
        count_below(s, n) == s.filter(below(n)).len(),
    decreases s.len(),
{
    reveal(Seq::filter);
    if s.len() > 0 {
        lemma_count_filter(s.drop_last(), n);
    }
}

/// Filtering keeps distinct entries distinct and keeps exactly the entries
/// that meet the predicate.
proof fn lemma_filter_below(s: Seq<usize>, n: int)
    requires
        s.no_duplicates(),
    ensures
        s.filter(below(n)).no_duplicates(),
        forall|x: usize| #[trigger] s.filter(below(n)).contains(x) <==> s.contains(x) && x < n,
    decreases s.len(),
{
    let pred = below(n);
    reveal(Seq::filter);
    if s.len() > 0 {
        let rest = s.drop_last();
        assert(rest.no_duplicates());
        lemma_filter_below(rest, n);
        let f = rest.filter(pred);
        assert forall|x: usize| s.filter(pred).contains(x) <==> s.contains(x) && x < n by {
            if s.contains(x) && x < n {
                let k = choose|k: int| 0 <= k < s.len() && s[k] == x;
                if k < s.len() - 1 {
                    assert(rest[k] == x);
                } else {
                    assert(pred(s.last()));
                    assert(s.filter(pred) == f.push(s.last()));
                    assert(s.filter(pred)[f.len() as int] == x);
                }
            }
            if s.filter(pred).contains(x) {
                let k = choose|k: int| 0 <= k < s.filter(pred).len() && s.filter(pred)[k] == x;
                if pred(s.last()) {
                    assert(s.filter(pred) == f.push(s.last()));
                } else {
                    assert(s.filter(pred) == f);
                }
                if k < f.len() {
                    assert(f[k] == x);
                    assert(f.contains(x));
                    assert(rest.contains(x));
                    let j = choose|j: int| 0 <= j < rest.len() && rest[j] == x;
                    assert(s[j] == x);
                } else {
                    assert(s[s.len() - 1] == x);
                }
            }
        }
        if pred(s.last()) {
            assert(!rest.contains(s.last())) by {
                if rest.contains(s.last()) {
                    let j = choose|j: int| 0 <= j < rest.len() && rest[j] == s.last();
                    assert(s[j] == s[s.len() - 1]);
                }
            }
            assert(!f.contains(s.last()));
            assert(s.filter(pred) == f.push(s.last()));
            assert forall|a: int, b: int| 0 <= a < s.filter(pred).len() && 0 <= b < s.filter(pred).len() && a != b
                implies s.filter(pred)[a] != s.filter(pred)[b] by {
                if a < f.len() && b < f.len() {
                } else if a < f.len() {
                    assert(f.contains(f[a]));
                } else {
                    assert(f.contains(f[b]));
                }
            }
        }
    }
}

/// Two lists of the same distinct nodes have the same length and the same
/// count of nodes below `n`.
proof fn lemma_same_nodes_counts(a: Seq<usize>, b: Seq<usize>, n: int)
    requires
        a.no_duplicates(),
        b.no_duplicates(),
        same_nodes(a, b),
    ensures
        a.len() == b.len(),
        count_below(a, n) == count_below(b, n),
{
    assert(a.to_set() =~= b.to_set());
    a.unique_seq_to_set();
    b.unique_seq_to_set();
    lemma_count_filter(a, n);
    lemma_count_filter(b, n);
    lemma_filter_below(a, n);
    lemma_filter_below(b, n);
    let fa = a.filter(below(n));
    let fb = b.filter(below(n));
    assert forall|x: usize| fa.to_set().contains(x) <==> fb.to_set().contains(x) by {
        assert(fa.contains(x) <==> a.contains(x) && x < n);
        assert(fb.contains(x) <==> b.contains(x) && x < n);
    }
    assert(fa.to_set() =~= fb.to_set());
    fa.unique_seq_to_set();
    fb.unique_seq_to_set();
}

/// The use `(perm, coeff)` is listed.
spec fn lists_use(uses: Seq<(Vec<usize>, Coefficient)>, perm: Seq<usize>, coeff: CoeffView) -> bool {
    exists|u: int| 0 <= u < uses.len() && (#[trigger] uses[u]).0@ == perm && uses[u].1@ == coeff
}

/// Every use of the first `k` rooted terms, and the first `o` uses of the
/// next, is listed.
spec fn lists_uses_upto(rooted: Seq<RootedTerm>, uses: Seq<(Vec<usize>, Coefficient)>, k: int, o: int) -> bool {
    &&& forall|k2: int, o2: int|
        0 <= k2 < k && 0 <= o2 < rooted[k2].occurrences@.len() ==> lists_use(
            uses,
            (#[trigger] rooted[k2].occurrences@[o2]).0@,
            rooted[k2].occurrences@[o2].1@,
        )
    &&& forall|o2: int|
        0 <= o2 < o ==> lists_use(uses, (#[trigger] rooted[k].occurrences@[o2]).0@, rooted[k].occurrences@[o2].1@)
}

/// Some family of `families` lists exactly the source positions of the
/// clique.
spec fn family_for_clique(
    families: Seq<(Vec<usize>, PermutationFamily)>,
    rooted: Seq<RootedTerm>,
    uses: Seq<(Vec<usize>, Coefficient)>,
    m: Seq<usize>,
) -> bool {
    exists|f: int| 0 <= f < families.len() && (#[trigger] families[f]).0@.to_set() == clique_cover_set(rooted, uses, m)
}

/// The source positions of the (root, use) pairs of a clique.
spec fn clique_cover_set(rooted: Seq<RootedTerm>, uses: Seq<(Vec<usize>, Coefficient)>, m: Seq<usize>) -> Set<usize> {
    Set::new(|x: usize| clique_covers(rooted, uses, m, rooted.len() as int, x))
}

/// A family for a clique stays one when more families are pushed.
proof fn lemma_family_for_clique_push(
    families: Seq<(Vec<usize>, PermutationFamily)>,
    extra: (Vec<usize>, PermutationFamily),
    rooted: Seq<RootedTerm>,
    uses: Seq<(Vec<usize>, Coefficient)>,
    m: Seq<usize>,
)
    requires
        family_for_clique(families, rooted, uses, m),
    ensures
        family_for_clique(families.push(extra), rooted, uses, m),
{
    let f = choose|f: int| 0 <= f < families.len() && (#[trigger] families[f]).0@.to_set() == clique_cover_set(rooted, uses, m);
    assert(families.push(extra)[f] == families[f]);
}

/// Nodes `0..roots + uses` pairwise compatible, each listed once.
spec fn compat_clique(rooted: Seq<RootedTerm>, uses: Seq<(Vec<usize>, Coefficient)>, m: Seq<usize>) -> bool {
    &&& forall|k: int| 0 <= k < m.len() ==> #[trigger] m[k] < rooted.len() + uses.len()
    &&& forall|a: int, b: int|
        0 <= a < m.len() && 0 <= b < m.len() && a != b ==> #[trigger] m[a] != #[trigger] m[b]
            && node_compatible(rooted, uses, m[a] as int, m[b] as int)
}

/// A compatible set of roots and uses that no further root or use joins.
spec fn compat_maximal(rooted: Seq<RootedTerm>, uses: Seq<(Vec<usize>, Coefficient)>, m: Seq<usize>) -> bool {
    &&& compat_clique(rooted, uses, m)
    &&& forall|x: usize|
        x < rooted.len() + uses.len() && !m.contains(x) ==> exists|k: int|
            0 <= k < m.len() && !node_compatible(rooted, uses, x as int, #[trigger] m[k] as int)
}

/// A clique that some clique in `cliques` lists with the same nodes is
/// blocked or covered alike.
proof fn lemma_same_clique(
    rooted: Seq<RootedTerm>,
    uses: Seq<(Vec<usize>, Coefficient)>,
    a: Seq<usize>,
    b: Seq<usize>,
    n: int,
)
    requires
        a.no_duplicates(),
        b.no_duplicates(),
        same_nodes(a, b),
    ensures
        family_blocked(rooted, uses, a, n) == family_blocked(rooted, uses, b, n),
        forall|x: usize| clique_covers(rooted, uses, a, n, x) == clique_covers(rooted, uses, b, n, x),
{
    lemma_same_nodes_counts(a, b, n);
    assert forall|r: usize| clique_root(a, n, r) == clique_root(b, n, r) by {
        if clique_root(a, n, r) {
            let x = choose|x: int| 0 <= x < a.len() && a[x] == r && r < n;
            assert(a.contains(a[x]));
            let y = choose|y: int| 0 <= y < b.len() && b[y] == r;
        }
        if clique_root(b, n, r) {
            let x = choose|x: int| 0 <= x < b.len() && b[x] == r && r < n;
            assert(b.contains(b[x]));
            let y = choose|y: int| 0 <= y < a.len() && a[y] == r;
        }
    }
    assert forall|u: usize| clique_use(a, n, u) == clique_use(b, n, u) by {
        if clique_use(a, n, u) {
            let x = choose|x: int| 0 <= x < a.len() && a[x] >= n && a[x] - n == u;
            assert(a.contains(a[x]));
            let y = choose|y: int| 0 <= y < b.len() && b[y] == a[x];
        }
        if clique_use(b, n, u) {
            let x = choose|x: int| 0 <= x < b.len() && b[x] >= n && b[x] - n == u;
            assert(b.contains(b[x]));
            let y = choose|y: int| 0 <= y < a.len() && a[y] == b[x];
        }
    }
}

/// Root `r` is in the clique.
spec fn clique_root(clique: Seq<usize>, n: int, r: usize) -> bool {
    exists|x: int| 0 <= x < clique.len() && clique[x] == r && r < n
}

/// Use `u` is in the clique, as node `n + u`.
spec fn clique_use(clique: Seq<usize>, n: int, u: usize) -> bool {
    exists|x: int| 0 <= x < clique.len() && clique[x] >= n && clique[x] - n == u
}

/// Why a clique over `n` roots gives no family: fewer than two roots or two
/// uses, a repeated node, a root without a use, or source positions that
/// the (root, use) pairs cover twice.
spec fn family_blocked(rooted: Seq<RootedTerm>, uses: Seq<(Vec<usize>, Coefficient)>, clique: Seq<usize>, n: int) -> bool {
    ||| count_below(clique, n) < 2
    ||| clique.len() - count_below(clique, n) < 2
    ||| !clique.no_duplicates()
    ||| exists|r: usize, u: usize|
        #[trigger] clique_root(clique, n, r) && #[trigger] clique_use(clique, n, u) && !has_use(rooted[r as int], uses[u as int])
    ||| exists|r: usize, u: usize|
        #[trigger] clique_root(clique, n, r) && #[trigger] clique_use(clique, n, u) && has_use(rooted[r as int], uses[u as int])
            && !pair_list(rooted, uses, r, u).no_duplicates()
    ||| exists|r1: usize, u1: usize, r2: usize, u2: usize, x: usize|
        #![trigger clique_root(clique, n, r1), clique_use(clique, n, u1), clique_root(clique, n, r2), clique_use(clique, n, u2), pair_list(rooted, uses, r1, u1).contains(x)]
        clique_root(clique, n, r1) && clique_use(clique, n, u1) && clique_root(clique, n, r2) && clique_use(clique, n, u2)
            && has_use(rooted[r1 as int], uses[u1 as int]) && has_use(rooted[r2 as int], uses[u2 as int])
            && (r1 != r2 || u1 != u2) && pair_list(rooted, uses, r1, u1).contains(x) && pair_list(rooted, uses, r2, u2).contains(x)
}

/// `x` is a source position of some (root, use) pair of the clique.
spec fn clique_covers(rooted: Seq<RootedTerm>, uses: Seq<(Vec<usize>, Coefficient)>, clique: Seq<usize>, n: int, x: usize) -> bool {
    exists|r: usize, u: usize|
        #[trigger] clique_root(clique, n, r) && #[trigger] clique_use(clique, n, u) && pair_list(rooted, uses, r, u).contains(x)
}

/// Term position `x` is a source term of family `f`.
pub open spec fn family_covers(f: FamilyView, x: usize) -> bool {
    exists|r: int, u: int|
        0 <= r < f.source_terms.len() && 0 <= u < f.source_terms[r].len() && #[trigger] f.source_terms[r][u].contains(x)
}

/// `covered` lists, in increasing order, exactly the source terms of `f`.
pub open spec fn lists_covered(covered: Seq<usize>, f: FamilyView) -> bool {
    &&& ascending(covered)
    &&& forall|x: usize| #[trigger] covered.contains(x) <==> family_covers(f, x)
}

/// `x` lies in one of the first `width` lists of one of the first `upto` rows.
spec fn rows_cover(rows: Seq<Vec<Vec<usize>>>, upto: int, width: int, x: usize) -> bool {
    exists|i2: int, j2: int| 0 <= i2 < upto && 0 <= j2 < width && #[trigger] rows[i2]@[j2]@.contains(x)
}

/// `x` lies in one of the first `upto` lists of `row`.
spec fn row_covers(row: Seq<Vec<usize>>, upto: int, x: usize) -> bool {
    exists|j2: int| 0 <= j2 < upto && #[trigger] row[j2]@.contains(x)
}

/// A family of the roots and uses in a clique, if every root has every use
/// and no source term is covered twice; also the covered source positions.
fn make_family(
    exts: &Vec<Index>,
    rooted: &Vec<RootedTerm>,
    uses: &Vec<(Vec<usize>, Coefficient)>,
    clique: &Vec<usize>,
    Ghost(rhs): Ghost<Seq<TermView>>,
) -> (r: Option<(Vec<usize>, PermutationFamily)>)
    requires
        distinct_ids(exts@),
        forall|k: int| 0 <= k < rooted.len() ==> rooted_valid(#[trigger] rooted@[k], exts.len() as nat),
        forall|k: int| 0 <= k < rooted.len() ==> rooted_sound(rhs, exts@, #[trigger] rooted@[k]),
        forall|u: int| 0 <= u < uses.len() ==> perm_valid((#[trigger] uses@[u]).0@, exts.len() as nat),
        forall|u: int| 0 <= u < uses.len() ==> range_preserving(exts@, (#[trigger] uses@[u]).0@),
        forall|k: int| 0 <= k < clique.len() ==> #[trigger] clique@[k] < rooted.len() + uses.len(),
    ensures
        r matches Some(v) ==> family_valid(v.1@) && v.0@.no_duplicates(),
        r matches Some(v) ==> family_sound(rhs, v.1@),
        r matches Some(v) ==> ascending(v.0@) && forall|x: usize| #[trigger] v.0@.contains(x) <==> family_covers(v.1@, x),
        r matches Some(v) ==> forall|x: usize| #[trigger] v.0@.contains(x) <==> clique_covers(
            rooted@,
            uses@,
            clique@,
            rooted.len() as int,
            x,
        ),
        r is None ==> family_blocked(rooted@, uses@, clique@, rooted.len() as int),
{
    let ghost cq = clique@;
    let ghost rc = rooted.len() as int;
    let root_count = rooted.len();
    let mut roots: Vec<usize> = Vec::new();
    let mut selected: Vec<usize> = Vec::new();
    let mut k: usize = 0;
    while k < clique.len()
        invariant
            k <= clique.len(),
            root_count == rooted.len(),
            forall|j: int| 0 <= j < clique.len() ==> #[trigger] clique@[j] < rooted.len() + uses.len(),
            forall|y: usize| roots@.contains(y) ==> y < root_count,
            forall|y: usize| selected@.contains(y) ==> y < uses.len(),
            cq == clique@,
            rc == root_count,
            rc == rooted.len(),
            roots.len() == count_below(cq.take(k as int), rc),
            selected.len() == k - count_below(cq.take(k as int), rc),
            forall|y: usize| #[trigger] roots@.contains(y) <==> clique_root(cq.take(k as int), rc, y),
            forall|y: usize| #[trigger] selected@.contains(y) <==> clique_use(cq.take(k as int), rc, y),
            cq.take(k as int).no_duplicates() ==> roots@.no_duplicates() && selected@.no_duplicates(),
        decreases clique.len() - k,
    {
        let node = clique[k];
        let ghost t0 = cq.take(k as int);
        let ghost t1 = cq.take(k + 1);
        let ghost (r0, s0) = (roots@, selected@);
        assert(t1.drop_last() =~= t0);
        assert(t1.last() == node);
        if node < root_count {
            insert_sorted(&mut roots, node);
        } else {
            insert_sorted(&mut selected, node - root_count);
        }
        proof {
            assert forall|y: usize| #[trigger] roots@.contains(y) <==> clique_root(t1, rc, y) by {
                if clique_root(t1, rc, y) {
                    let x = choose|x: int| 0 <= x < t1.len() && t1[x] == y && y < rc;
                    if x < k {
                        assert(t0[x] == y);
                        assert(clique_root(t0, rc, y));
                    }
                }
                if clique_root(t0, rc, y) {
                    let x = choose|x: int| 0 <= x < t0.len() && t0[x] == y && y < rc;
                    assert(t1[x] == y);
                }
                if node < root_count && y == node {
                    assert(t1[k as int] == y);
                }
            }
            assert forall|y: usize| #[trigger] selected@.contains(y) <==> clique_use(t1, rc, y) by {
                if clique_use(t1, rc, y) {
                    let x = choose|x: int| 0 <= x < t1.len() && t1[x] >= rc && t1[x] - rc == y;
                    if x < k {
                        assert(t0[x] == t1[x]);
                        assert(clique_use(t0, rc, y));
                    }
                }
                if clique_use(t0, rc, y) {
                    let x = choose|x: int| 0 <= x < t0.len() && t0[x] >= rc && t0[x] - rc == y;
                    assert(t1[x] == t0[x]);
                }
                if node >= root_count && y == node - root_count {
                    assert(t1[k as int] == node);
                }
            }
            if t1.no_duplicates() {
                assert(t0.no_duplicates()) by {
                    assert forall|a: int, b: int| 0 <= a < t0.len() && 0 <= b < t0.len() && a != b implies t0[a] != t0[b] by {
                        assert(t1[a] == t0[a] && t1[b] == t0[b]);
                    }
                }
                if node < root_count {
                    if r0.contains(node) {
                        let x = choose|x: int| 0 <= x < t0.len() && t0[x] == node && node < rc;
                        assert(t1[x] == t1[k as int]);
                    }
                } else {
                    if s0.contains((node - root_count) as usize) {
                        let x = choose|x: int| 0 <= x < t0.len() && t0[x] >= rc && t0[x] - rc == node - root_count;
                        assert(t1[x] == t1[k as int]);
                    }
                }
            }
        }
        k = k + 1;
    }
    assert(cq.take(k as int) =~= cq);
    if roots.len() < 2 || selected.len() < 2 {
        return None;
    }
    let mut covered: Vec<usize> = Vec::new();
    let mut source_terms: Vec<Vec<Vec<usize>>> = Vec::new();
    let mut family_roots: Vec<Term> = Vec::new();
    let mut i: usize = 0;
    while i < roots.len()
        invariant
            i <= roots.len(),
            root_count == rooted.len(),
            forall|y: usize| roots@.contains(y) ==> y < root_count,
            forall|y: usize| selected@.contains(y) ==> y < uses.len(),
            covered@.no_duplicates(),
            cq == clique@,
            rc == root_count,
            rc == rooted.len(),
            forall|y: usize| #[trigger] roots@.contains(y) <==> clique_root(cq, rc, y),
            forall|y: usize| #[trigger] selected@.contains(y) <==> clique_use(cq, rc, y),
            cq.no_duplicates() ==> roots@.no_duplicates() && selected@.no_duplicates(),
            forall|i2: int, j2: int|
                0 <= i2 < i && 0 <= j2 < selected.len() ==> has_use(rooted@[#[trigger] roots@[i2] as int], uses@[#[trigger] selected@[j2] as int]),
            forall|x: usize| #[trigger] covered@.contains(x) ==> exists|i2: int, j2: int|
                0 <= i2 < i && 0 <= j2 < selected.len() && #[trigger] pair_list(rooted@, uses@, roots@[i2], selected@[j2]).contains(x),
            ascending(covered@),
            forall|x: usize| #[trigger] covered@.contains(x) <==> rows_cover(source_terms@, i as int, selected.len() as int, x),
            source_terms.len() == i,
            forall|i2: int, j2: int| 0 <= i2 < i && 0 <= j2 < selected.len() ==> (#[trigger] source_terms@[i2]@[j2])@
                == pair_list(rooted@, uses@, roots@[i2], selected@[j2]),
            family_roots.len() == i,
            forall|j: int| 0 <= j < i ==> (#[trigger] source_terms@[j])@.len() == selected.len(),
            forall|j: int| 0 <= j < i ==> (#[trigger] family_roots@[j])@.factors.len() == 1,
            forall|k: int| 0 <= k < rooted.len() ==> rooted_valid(#[trigger] rooted@[k], exts.len() as nat),
            forall|k: int| 0 <= k < rooted.len() ==> rooted_sound(rhs, exts@, #[trigger] rooted@[k]),
            forall|j: int| 0 <= j < i ==> (#[trigger] family_roots@[j])@.sums.len() == 0 && !is_zero_value(family_roots@[j]@.coeff),
            forall|j: int, u: int| 0 <= j < i && 0 <= u < selected.len() ==> row_sound(
                rhs,
                exts@,
                family_roots@[j]@,
                uses@[selected@[u] as int].0@,
                uses@[selected@[u] as int].1@,
                (#[trigger] source_terms@[j]@[u])@,
            ),
        decreases roots.len() - i,
    {
        let root = roots[i];
        assert(roots@.contains(root));
        assert(rooted_sound(rhs, exts@, rooted@[root as int]));
        let mut row: Vec<Vec<usize>> = Vec::new();
        let mut j: usize = 0;
        while j < selected.len()
            invariant
                j <= selected.len(),
                root < rooted.len(),
                forall|y: usize| selected@.contains(y) ==> y < uses.len(),
                covered@.no_duplicates(),
                cq == clique@,
                rc == root_count,
            rc == rooted.len(),
                i < roots.len(),
                root == roots@[i as int],
                forall|y: usize| #[trigger] roots@.contains(y) <==> clique_root(cq, rc, y),
                forall|y: usize| #[trigger] selected@.contains(y) <==> clique_use(cq, rc, y),
                cq.no_duplicates() ==> roots@.no_duplicates() && selected@.no_duplicates(),
                forall|i2: int, j2: int|
                    0 <= i2 < i && 0 <= j2 < selected.len() ==> has_use(rooted@[#[trigger] roots@[i2] as int], uses@[#[trigger] selected@[j2] as int]),
                forall|j2: int| 0 <= j2 < j ==> has_use(rooted@[root as int], uses@[#[trigger] selected@[j2] as int]),
                forall|x: usize| #[trigger] covered@.contains(x) ==> (exists|i2: int, j2: int|
                    0 <= i2 < i && 0 <= j2 < selected.len() && #[trigger] pair_list(rooted@, uses@, roots@[i2], selected@[j2]).contains(x))
                    || (exists|j2: int| 0 <= j2 < j && #[trigger] pair_list(rooted@, uses@, root, selected@[j2]).contains(x)),
                ascending(covered@),
                forall|x: usize| #[trigger] covered@.contains(x) <==> rows_cover(source_terms@, i as int, selected.len() as int, x)
                    || row_covers(row@, j as int, x),
                source_terms.len() == i,
                row.len() == j,
                forall|j2: int| 0 <= j2 < j ==> (#[trigger] row@[j2])@ == pair_list(rooted@, uses@, root, selected@[j2]),
                forall|i2: int, j2: int| 0 <= i2 < i && 0 <= j2 < selected.len() ==> (#[trigger] source_terms@[i2]@[j2])@
                    == pair_list(rooted@, uses@, roots@[i2], selected@[j2]),
                rooted_sound(rhs, exts@, rooted@[root as int]),
                forall|u: int| 0 <= u < j ==> row_sound(
                    rhs,
                    exts@,
                    rooted@[root as int].root@,
                    uses@[selected@[u] as int].0@,
                    uses@[selected@[u] as int].1@,
                    (#[trigger] row@[u])@,
                ),
            decreases selected.len() - j,
        {
            let use_index = selected[j];
            assert(selected@.contains(use_index));
            let found = match find_use(&rooted[root], &uses[use_index]) {
                Some(o) => o,
                None => {
                    proof {
                        assert(roots@.contains(root));
                        assert(selected@.contains(use_index));
                        assert(clique_root(cq, rc, root) && clique_use(cq, rc, use_index));
                        assert(!has_use(rooted@[root as int], uses@[use_index as int]));
                        assert(family_blocked(rooted@, uses@, cq, rc));
                    }
                    return None;
                },
            };
            let positions = clone_positions(&rooted[root].occurrences[found].2);
            assert(positions@ == pair_list(rooted@, uses@, root, use_index));
            assert(has_use(rooted@[root as int], uses@[use_index as int]));
            proof {
                let t = rooted@[root as int];
                assert(occurrence_sound(
                    rhs,
                    exts@,
                    t.root@.factors[0].tensor,
                    t.root@.factors[0].indices,
                    t.root@.coeff,
                    t.occurrences@[found as int],
                ));
                assert(row_sound(rhs, exts@, t.root@, uses@[use_index as int].0@, uses@[use_index as int].1@, positions@));
            }
            let mut p: usize = 0;
            assert(positions@.take(0) =~= Seq::<usize>::empty());
            while p < positions.len()
                invariant
                    p <= positions.len(),
                    covered@.no_duplicates(),
                    cq == clique@,
                    rc == root_count,
            rc == rooted.len(),
                    i < roots.len(),
                    root == roots@[i as int],
                    j < selected.len(),
                    use_index == selected@[j as int],
                    positions@ == pair_list(rooted@, uses@, root, use_index),
                    has_use(rooted@[root as int], uses@[use_index as int]),
                    forall|y: usize| #[trigger] roots@.contains(y) <==> clique_root(cq, rc, y),
                    forall|y: usize| #[trigger] selected@.contains(y) <==> clique_use(cq, rc, y),
                    cq.no_duplicates() ==> roots@.no_duplicates() && selected@.no_duplicates(),
                    forall|i2: int, j2: int|
                        0 <= i2 < i && 0 <= j2 < selected.len() ==> has_use(rooted@[#[trigger] roots@[i2] as int], uses@[#[trigger] selected@[j2] as int]),
                    forall|j2: int| 0 <= j2 < j ==> has_use(rooted@[root as int], uses@[#[trigger] selected@[j2] as int]),
                    forall|x: usize| #[trigger] covered@.contains(x) ==> (exists|i2: int, j2: int|
                        0 <= i2 < i && 0 <= j2 < selected.len() && #[trigger] pair_list(rooted@, uses@, roots@[i2], selected@[j2]).contains(x))
                        || (exists|j2: int| 0 <= j2 < j && #[trigger] pair_list(rooted@, uses@, root, selected@[j2]).contains(x))
                        || (exists|q: int| 0 <= q < p && positions@[q] == x),
                    ascending(covered@),
                    forall|x: usize| #[trigger] covered@.contains(x) <==> rows_cover(source_terms@, i as int, selected.len() as int, x)
                        || row_covers(row@, j as int, x) || positions@.take(p as int).contains(x),
                    source_terms.len() == i,
                    row.len() == j,
                    forall|j2: int| 0 <= j2 < j ==> (#[trigger] row@[j2])@ == pair_list(rooted@, uses@, root, selected@[j2]),
                    forall|i2: int, j2: int| 0 <= i2 < i && 0 <= j2 < selected.len() ==> (#[trigger] source_terms@[i2]@[j2])@
                        == pair_list(rooted@, uses@, roots@[i2], selected@[j2]),
                decreases positions.len() - p,
            {
                let position = positions[p];
                let mut present = false;
                let mut c: usize = 0;
                while c < covered.len()
                    invariant
                        c <= covered.len(),
                        present <==> exists|x: int| 0 <= x < c && covered@[x] == position,
                    decreases covered.len() - c,
                {
                    if covered[c] == position {
                        present = true;
                    }
                    c = c + 1;
                }
                if present {
                    proof {
                        assert(covered@.contains(position));
                        assert(positions@[p as int] == position);
                        assert(pair_list(rooted@, uses@, root, use_index).contains(position));
                        assert(roots@.contains(root));
                        assert(selected@.contains(use_index));
                        assert(clique_root(cq, rc, root) && clique_use(cq, rc, use_index));
                        if exists|q: int| 0 <= q < p && positions@[q] == position {
                            let q = choose|q: int| 0 <= q < p && positions@[q] == position;
                            assert(!positions@.no_duplicates());
                        } else if exists|j2: int| 0 <= j2 < j && #[trigger] pair_list(rooted@, uses@, root, selected@[j2]).contains(position) {
                            let j2 = choose|j2: int| 0 <= j2 < j && #[trigger] pair_list(rooted@, uses@, root, selected@[j2]).contains(position);
                            let u2 = selected@[j2];
                            assert(selected@.contains(u2));
                            assert(clique_use(cq, rc, u2));
                            assert(has_use(rooted@[root as int], uses@[u2 as int]));
                            if u2 == use_index {
                                assert(!selected@.no_duplicates());
                            }
                        } else {
                            let (i2, j2) = choose|i2: int, j2: int|
                                0 <= i2 < i && 0 <= j2 < selected.len() && #[trigger] pair_list(rooted@, uses@, roots@[i2], selected@[j2]).contains(position);
                            let r2 = roots@[i2];
                            let u2 = selected@[j2];
                            assert(roots@.contains(r2));
                            assert(selected@.contains(u2));
                            assert(clique_root(cq, rc, r2) && clique_use(cq, rc, u2));
                            assert(has_use(rooted@[r2 as int], uses@[u2 as int]));
                            if r2 == root && u2 == use_index {
                                assert(!roots@.no_duplicates());
                            }
                        }
                        assert(family_blocked(rooted@, uses@, cq, rc));
                    }
                    return None;
                }
                let ghost before_cov = covered@;
                assert(!covered@.contains(position));
                insert_sorted(&mut covered, position);
                proof {
                    assert forall|x: usize| #[trigger] covered@.contains(x) implies (exists|i2: int, j2: int|
                        0 <= i2 < i && 0 <= j2 < selected.len() && #[trigger] pair_list(rooted@, uses@, roots@[i2], selected@[j2]).contains(x))
                        || (exists|j2: int| 0 <= j2 < j && #[trigger] pair_list(rooted@, uses@, root, selected@[j2]).contains(x))
                        || (exists|q: int| 0 <= q < p + 1 && positions@[q] == x) by {
                        if x == position {
                            assert(positions@[p as int] == x);
                        } else {
                            assert(before_cov.contains(x));
                        }
                    }
                    assert(positions@.take(p + 1) =~= positions@.take(p as int).push(position));
                    assert forall|x: usize| #[trigger] covered@.contains(x) <==> rows_cover(source_terms@, i as int, selected.len() as int, x)
                        || row_covers(row@, j as int, x) || positions@.take(p + 1).contains(x) by {
                        let t0 = positions@.take(p as int);
                        let t1 = positions@.take(p + 1);
                        if t1.contains(x) {
                            let k = choose|k: int| 0 <= k < t1.len() && t1[k] == x;
                            if k < p {
                                assert(t0[k] == x);
                            }
                        }
                        if t0.contains(x) {
                            let k = choose|k: int| 0 <= k < t0.len() && t0[k] == x;
                            assert(t1[k] == x);
                        }
                        if x == position {
                            assert(t1[p as int] == x);
                        }
                    }
                }
                p = p + 1;
            }
            proof {
                assert forall|x: usize| #[trigger] covered@.contains(x) implies (exists|i2: int, j2: int|
                    0 <= i2 < i && 0 <= j2 < selected.len() && #[trigger] pair_list(rooted@, uses@, roots@[i2], selected@[j2]).contains(x))
                    || (exists|j2: int| 0 <= j2 < j + 1 && #[trigger] pair_list(rooted@, uses@, root, selected@[j2]).contains(x)) by {
                    if exists|q: int| 0 <= q < positions.len() && positions@[q] == x {
                        let q = choose|q: int| 0 <= q < positions.len() && positions@[q] == x;
                        assert(pair_list(rooted@, uses@, root, selected@[j as int]).contains(x));
                    } else if exists|j2: int| 0 <= j2 < j && #[trigger] pair_list(rooted@, uses@, root, selected@[j2]).contains(x) {
                        let j2 = choose|j2: int| 0 <= j2 < j && #[trigger] pair_list(rooted@, uses@, root, selected@[j2]).contains(x);
                        assert(pair_list(rooted@, uses@, root, selected@[j2]).contains(x));
                    }
                }
            }
            let ghost before_row = row@;
            assert(positions@.take(positions.len() as int) =~= positions@);
            row.push(positions);
            proof {
                assert forall|x: usize| #[trigger] covered@.contains(x) <==> rows_cover(source_terms@, i as int, selected.len() as int, x)
                    || row_covers(row@, j + 1, x) by {
                    if row_covers(before_row, j as int, x) {
                        let j2 = choose|j2: int| 0 <= j2 < j && #[trigger] before_row[j2]@.contains(x);
                        assert(row@[j2] == before_row[j2]);
                    }
                    if row_covers(row@, j + 1, x) {
                        let j2 = choose|j2: int| 0 <= j2 < j + 1 && #[trigger] row@[j2]@.contains(x);
                        if j2 < j {
                            assert(row@[j2] == before_row[j2]);
                            assert(row_covers(before_row, j as int, x));
                        }
                    }
                    if positions@.contains(x) {
                        assert(row@[j as int]@.contains(x));
                    }
                }
                assert forall|j2: int| 0 <= j2 < j + 1 implies (#[trigger] row@[j2])@ == pair_list(rooted@, uses@, root, selected@[j2]) by {
                    if j2 < j {
                        assert(row@[j2] == before_row[j2]);
                    }
                }
                assert forall|u: int| 0 <= u < j + 1 implies row_sound(
                    rhs,
                    exts@,
                    rooted@[root as int].root@,
                    uses@[selected@[u] as int].0@,
                    uses@[selected@[u] as int].1@,
                    (#[trigger] row@[u])@,
                ) by {
                    if u < j {
                        assert(row@[u] == before_row[u]);
                    }
                }
            }
            j = j + 1;
        }
        let ghost before_terms = source_terms@;
        let ghost before_roots = family_roots@;
        let ghost last_row = row@;
        source_terms.push(row);
        proof {
            assert forall|x: usize| #[trigger] covered@.contains(x) <==> rows_cover(source_terms@, i + 1, selected.len() as int, x) by {
                if rows_cover(before_terms, i as int, selected.len() as int, x) {
                    let (i2, j2) = choose|i2: int, j2: int| 0 <= i2 < i && 0 <= j2 < selected.len() && #[trigger] before_terms[i2]@[j2]@.contains(x);
                    assert(source_terms@[i2] == before_terms[i2]);
                }
                if row_covers(last_row, selected.len() as int, x) {
                    let j2 = choose|j2: int| 0 <= j2 < selected.len() && #[trigger] last_row[j2]@.contains(x);
                    assert(source_terms@[i as int]@ == last_row);
                    assert(source_terms@[i as int]@[j2]@.contains(x));
                }
                if rows_cover(source_terms@, i + 1, selected.len() as int, x) {
                    let (i2, j2) = choose|i2: int, j2: int| 0 <= i2 < i + 1 && 0 <= j2 < selected.len() && #[trigger] source_terms@[i2]@[j2]@.contains(x);
                    if i2 < i {
                        assert(source_terms@[i2] == before_terms[i2]);
                        assert(rows_cover(before_terms, i as int, selected.len() as int, x));
                    } else {
                        assert(source_terms@[i2]@ == last_row);
                        assert(row_covers(last_row, selected.len() as int, x));
                    }
                }
            }
            assert forall|i2: int, j2: int| 0 <= i2 < i + 1 && 0 <= j2 < selected.len() implies (#[trigger] source_terms@[i2]@[j2])@
                == pair_list(rooted@, uses@, roots@[i2], selected@[j2]) by {
                if i2 < i {
                    assert(source_terms@[i2] == before_terms[i2]);
                } else {
                    assert(source_terms@[i2]@ == last_row);
                }
            }
        }
        let term = rooted[root].root.clone();
        assert(rooted_valid(rooted@[root as int], exts.len() as nat));
        assert(term@.factors.len() == rooted@[root as int].root.factors@.len());
        family_roots.push(term);
        proof {
            assert forall|jj: int, u: int| 0 <= jj < i + 1 && 0 <= u < selected.len() implies row_sound(
                rhs,
                exts@,
                family_roots@[jj]@,
                uses@[selected@[u] as int].0@,
                uses@[selected@[u] as int].1@,
                (#[trigger] source_terms@[jj]@[u])@,
            ) by {
                if jj < i {
                    assert(source_terms@[jj] == before_terms[jj]);
                    assert(family_roots@[jj] == before_roots[jj]);
                } else {
                    assert(source_terms@[jj]@[u] == row@[u]);
                }
            }
            assert forall|jj: int| 0 <= jj < i + 1 implies (#[trigger] family_roots@[jj])@.sums.len() == 0 && !is_zero_value(
                family_roots@[jj]@.coeff,
            ) by {
                if jj < i {
                    assert(family_roots@[jj] == before_roots[jj]);
                }
            }
        }
        i = i + 1;
    }
    let mut family_uses: Vec<(Vec<usize>, Coefficient)> = Vec::new();
    let mut j: usize = 0;
    while j < selected.len()
        invariant
            j <= selected.len(),
            forall|y: usize| selected@.contains(y) ==> y < uses.len(),
            forall|u: int| 0 <= u < uses.len() ==> perm_valid((#[trigger] uses@[u]).0@, exts.len() as nat),
            family_uses.len() == j,
            forall|u: int| 0 <= u < j ==> perm_valid((#[trigger] family_uses@[u]).0@, exts.len() as nat),
            forall|u: int| 0 <= u < j ==> (#[trigger] family_uses@[u]).0@ == uses@[selected@[u] as int].0@
                && family_uses@[u].1@ == uses@[selected@[u] as int].1@,
        decreases selected.len() - j,
    {
        let use_index = selected[j];
        assert(selected@.contains(use_index));
        let ghost before = family_uses@;
        family_uses.push(clone_use(&uses[use_index]));
        proof {
            assert forall|u: int| 0 <= u < j + 1 implies (#[trigger] family_uses@[u]).0@ == uses@[selected@[u] as int].0@
                && family_uses@[u].1@ == uses@[selected@[u] as int].1@ by {
                if u < j {
                    assert(family_uses@[u] == before[u]);
                }
            }
        }
        j = j + 1;
    }
    let family_exts = exts.clone();
    assert(family_exts@ =~= exts@);
    let family = PermutationFamily { exts: family_exts, roots: family_roots, uses: family_uses, source_terms };
    proof {
        let f = family@;
        assert forall|u: int| 0 <= u < f.uses.len() implies perm_valid((#[trigger] f.uses[u]).0, f.exts.len()) by {
            assert(f.uses[u].0 == family_uses@[u].0@);
        }
        assert forall|u: int| 0 <= u < f.uses.len() implies range_preserving(f.exts, (#[trigger] f.uses[u]).0) by {
            assert(f.uses[u].0 == family_uses@[u].0@);
            assert(selected@.contains(selected@[u]));
        }
        assert forall|r: int| 0 <= r < f.source_terms.len() implies (#[trigger] f.source_terms[r]).len() == f.uses.len() by {
            assert(f.source_terms[r].len() == source_terms@[r]@.len());
        }
        assert forall|r: int| 0 <= r < f.roots.len() implies (#[trigger] f.roots[r]).factors.len() == 1 by {
            assert(f.roots[r] == family_roots@[r]@);
        }
        assert forall|r: int| 0 <= r < f.roots.len() implies (#[trigger] f.roots[r]).sums.len() == 0 && !is_zero_value(
            f.roots[r].coeff,
        ) by {
            assert(f.roots[r] == family_roots@[r]@);
        }
        assert forall|r: int, u: int| 0 <= r < f.roots.len() && 0 <= u < f.uses.len() implies {
            &&& (#[trigger] f.source_terms[r][u]).len() >= 1
            &&& occurrences_of(
                rhs,
                f.source_terms[r][u],
                f.roots[r].factors[0].tensor,
                moved_ids(f.exts, f.roots[r].factors[0].indices, f.uses[u].0),
            )
            &&& f.uses[u].1 == ratio_quotient(coeff_total(rhs, f.source_terms[r][u]), f.roots[r].coeff)
        } by {
            assert(f.roots[r] == family_roots@[r]@);
            assert(f.uses[u].0 == family_uses@[u].0@);
            assert(f.uses[u].1 == family_uses@[u].1@);
            assert(f.source_terms[r][u] == source_terms@[r]@[u]@);
            assert(row_sound(
                rhs,
                exts@,
                family_roots@[r]@,
                uses@[selected@[u] as int].0@,
                uses@[selected@[u] as int].1@,
                source_terms@[r]@[u]@,
            ));
        }
    }
    proof {
        let f = family@;
        assert forall|x: usize| #[trigger] covered@.contains(x) <==> family_covers(f, x) by {
            if rows_cover(source_terms@, roots.len() as int, selected.len() as int, x) {
                let (i2, j2) = choose|i2: int, j2: int| 0 <= i2 < roots.len() && 0 <= j2 < selected.len() && #[trigger] source_terms@[i2]@[j2]@.contains(x);
                assert(f.source_terms[i2][j2] == source_terms@[i2]@[j2]@);
                assert(f.source_terms[i2].len() == selected.len());
                assert(f.source_terms[i2][j2].contains(x));
            }
            if family_covers(f, x) {
                let (r2, u2) = choose|r2: int, u2: int| 0 <= r2 < f.source_terms.len() && 0 <= u2 < f.source_terms[r2].len() && #[trigger] f.source_terms[r2][u2].contains(x);
                assert(f.source_terms[r2].len() == source_terms@[r2]@.len());
                assert(f.source_terms[r2][u2] == source_terms@[r2]@[u2]@);
                assert(rows_cover(source_terms@, roots.len() as int, selected.len() as int, x));
            }
        }
        assert forall|x: usize| #[trigger] covered@.contains(x) <==> clique_covers(rooted@, uses@, cq, rc, x) by {
            if covered@.contains(x) {
                let (i2, j2) = choose|i2: int, j2: int| 0 <= i2 < roots.len() && 0 <= j2 < selected.len() && #[trigger] source_terms@[i2]@[j2]@.contains(x);
                assert(roots@.contains(roots@[i2]));
                assert(selected@.contains(selected@[j2]));
                assert(clique_root(cq, rc, roots@[i2]) && clique_use(cq, rc, selected@[j2]));
            }
            if clique_covers(rooted@, uses@, cq, rc, x) {
                let (r2, u2) = choose|r2: usize, u2: usize|
                    #[trigger] clique_root(cq, rc, r2) && #[trigger] clique_use(cq, rc, u2) && pair_list(rooted@, uses@, r2, u2).contains(x);
                assert(roots@.contains(r2) && selected@.contains(u2));
                let i2 = choose|i2: int| 0 <= i2 < roots.len() && roots@[i2] == r2;
                let j2 = choose|j2: int| 0 <= j2 < selected.len() && selected@[j2] == u2;
                assert(source_terms@[i2]@[j2]@ == pair_list(rooted@, uses@, r2, u2));
                assert(rows_cover(source_terms@, roots.len() as int, selected.len() as int, x));
            }
        }
    }
    Some((covered, family))
}

/// The maximal families of the roots of one external pattern: cliques of
/// mutually compatible roots and uses.
fn maximal_families(exts: &Vec<Index>, rooted: &Vec<RootedTerm>, Ghost(rhs): Ghost<Seq<TermView>>) -> (r: Vec<
    (Vec<usize>, PermutationFamily),
>)
    requires
        distinct_ids(exts@),
        forall|k: int| 0 <= k < rooted.len() ==> rooted_valid(#[trigger] rooted@[k], exts.len() as nat),
        forall|k: int| 0 <= k < rooted.len() ==> rooted_sound(rhs, exts@, #[trigger] rooted@[k]),
    ensures
        forall|k: int| 0 <= k < r.len() ==> family_valid((#[trigger] r@[k]).1@) && r@[k].0@.no_duplicates(),
        forall|k: int| 0 <= k < r.len() ==> family_sound(rhs, (#[trigger] r@[k]).1@),
        forall|k: int| 0 <= k < r.len() ==> lists_covered((#[trigger] r@[k]).0@, r@[k].1@),
        rooted.len() >= 2 ==> exists|uses: Seq<(Vec<usize>, Coefficient)>|
            #[trigger] lists_uses_upto(rooted@, uses, rooted.len() as int, 0) && (uses.len() >= 2 && rooted.len()
                + uses.len() <= usize::MAX ==> forall|m: Seq<usize>|
                #[trigger] compat_maximal(rooted@, uses, m) && !family_blocked(rooted@, uses, m, rooted.len() as int)
                    ==> family_for_clique(r@, rooted@, uses, m)),
{
    let mut families: Vec<(Vec<usize>, PermutationFamily)> = Vec::new();
    if rooted.len() < 2 {
        return families;
    }
    let mut uses: Vec<(Vec<usize>, Coefficient)> = Vec::new();
    let mut k: usize = 0;
    while k < rooted.len()
        invariant
            k <= rooted.len(),
            forall|x: int| 0 <= x < rooted.len() ==> rooted_valid(#[trigger] rooted@[x], exts.len() as nat),
            forall|u: int| 0 <= u < uses.len() ==> perm_valid((#[trigger] uses@[u]).0@, exts.len() as nat),
            forall|u: int| 0 <= u < uses.len() ==> range_preserving(exts@, (#[trigger] uses@[u]).0@),
            forall|x: int| 0 <= x < rooted.len() ==> rooted_sound(rhs, exts@, #[trigger] rooted@[x]),
            lists_uses_upto(rooted@, uses@, k as int, 0),
        decreases rooted.len() - k,
    {
        let t = &rooted[k];
        assert(rooted_valid(*t, exts.len() as nat));
        assert(rooted_sound(rhs, exts@, *t));
        let mut o: usize = 0;
        while o < t.occurrences.len()
            invariant
                o <= t.occurrences.len(),
                rooted_valid(*t, exts.len() as nat),
                rooted_sound(rhs, exts@, *t),
                forall|u: int| 0 <= u < uses.len() ==> perm_valid((#[trigger] uses@[u]).0@, exts.len() as nat),
                forall|u: int| 0 <= u < uses.len() ==> range_preserving(exts@, (#[trigger] uses@[u]).0@),
                forall|x: int| 0 <= x < rooted.len() ==> rooted_sound(rhs, exts@, #[trigger] rooted@[x]),
                k < rooted.len(),
                t == &rooted@[k as int],
                lists_uses_upto(rooted@, uses@, k as int, o as int),
            decreases t.occurrences.len() - o,
        {
            let key = &t.occurrences[o];
            assert(perm_valid(key.0@, exts.len() as nat));
            let mut at: usize = 0;
            let mut same = false;
            let mut stop = false;
            while at < uses.len() && !stop
                invariant
                    at <= uses.len(),
                    same ==> stop && at < uses.len() && uses@[at as int].0@ == key.0@ && uses@[at as int].1@ == key.1@,
                decreases uses.len() - at + if stop { 0int } else { 1int },
            {
                let order = compare_use_key(&uses[at].0, &uses[at].1, &key.0, &key.1);
                if order == 0 {
                    same = true;
                    stop = true;
                } else if order > 0 {
                    stop = true;
                } else {
                    at = at + 1;
                }
            }
            if same {
                proof {
                    assert(uses@[at as int].0@ == key.0@ && uses@[at as int].1@ == key.1@);
                    assert(lists_use(uses@, key.0@, key.1@));
                    assert(lists_uses_upto(rooted@, uses@, k as int, o + 1));
                }
            }
            if !same {
                let ghost before = uses@;
                uses.insert(at, (clone_positions(&key.0), key.1.clone()));
                proof {
                    assert(uses@[at as int].0@ == key.0@ && uses@[at as int].1@ == key.1@);
                    assert forall|pm: Seq<usize>, cf: CoeffView| lists_use(before, pm, cf) implies lists_use(uses@, pm, cf) by {
                        let u = choose|u: int| 0 <= u < before.len() && (#[trigger] before[u]).0@ == pm && before[u].1@ == cf;
                        if u < at {
                            assert(uses@[u] == before[u]);
                        } else {
                            assert(uses@[u + 1] == before[u]);
                        }
                    }
                    assert(lists_use(uses@, key.0@, key.1@));
                    assert(lists_uses_upto(rooted@, uses@, k as int, o + 1));
                    assert forall|u: int| 0 <= u < uses.len() implies perm_valid((#[trigger] uses@[u]).0@, exts.len() as nat) by {
                        if u < at {
                            assert(uses@[u] == before[u]);
                        } else if u > at {
                            assert(uses@[u] == before[u - 1]);
                        }
                    }
                    assert(occurrence_sound(
                        rhs,
                        exts@,
                        t.root@.factors[0].tensor,
                        t.root@.factors[0].indices,
                        t.root@.coeff,
                        t.occurrences@[o as int],
                    ));
                    assert forall|u: int| 0 <= u < uses.len() implies range_preserving(exts@, (#[trigger] uses@[u]).0@) by {
                        if u < at {
                            assert(uses@[u] == before[u]);
                        } else if u > at {
                            assert(uses@[u] == before[u - 1]);
                        }
                    }
                }
            }
            o = o + 1;
        }
        proof {
            assert(lists_uses_upto(rooted@, uses@, k + 1, 0)) by {
                assert forall|k2: int, o2: int|
                    0 <= k2 < k + 1 && 0 <= o2 < rooted@[k2].occurrences@.len() implies lists_use(
                        uses@,
                        (#[trigger] rooted@[k2].occurrences@[o2]).0@,
                        rooted@[k2].occurrences@[o2].1@,
                    ) by {
                    if k2 == k {
                        assert(t.occurrences@[o2] == rooted@[k2].occurrences@[o2]);
                    }
                }
            }
        }
        k = k + 1;
    }
    if uses.len() < 2 || uses.len() > usize::MAX - rooted.len() {
        return families;
    }
    let n = rooted.len() + uses.len();
    let mut neighbors: Vec<Vec<bool>> = Vec::new();
    let mut a: usize = 0;
    while a < n
        invariant
            a <= n == rooted.len() + uses.len(),
            neighbors.len() == a,
            forall|x: int| 0 <= x < rooted.len() ==> rooted_valid(#[trigger] rooted@[x], exts.len() as nat),
            forall|i: int| 0 <= i < a ==> (#[trigger] neighbors@[i])@.len() == n,
            forall|i: int, j: int| 0 <= i < a && 0 <= j < n ==> #[trigger] neighbors@[i]@[j] == (i != j && node_compatible(rooted@, uses@, i, j)),
        decreases n - a,
    {
        let mut row: Vec<bool> = Vec::new();
        let mut b: usize = 0;
        while b < n
            invariant
                b <= n == rooted.len() + uses.len(),
                a < n,
                row.len() == b,
                forall|x: int| 0 <= x < rooted.len() ==> rooted_valid(#[trigger] rooted@[x], exts.len() as nat),
                forall|j: int| 0 <= j < b ==> row@[j] == (a != j && node_compatible(rooted@, uses@, a as int, j)),
            decreases n - b,
        {
            let edge = a != b && compatible(rooted, &uses, a, b);
            row.push(edge);
            b = b + 1;
        }
        neighbors.push(row);
        a = a + 1;
    }
    proof {
        assert forall|i: int, j: int| 0 <= i < n && 0 <= j < n implies #[trigger] neighbors@[i]@[j] == #[trigger] neighbors@[j]@[i] by {
            assert(node_compatible(rooted@, uses@, i, j) == node_compatible(rooted@, uses@, j, i));
        }
        assert(adjacency_valid(neighbors@));
    }
    let cliques = maximal_cliques(&neighbors);
    let mut c: usize = 0;
    while c < cliques.len()
        invariant
            c <= cliques.len(),
            n == rooted.len() + uses.len() == neighbors.len(),
            distinct_ids(exts@),
            forall|x: int| 0 <= x < rooted.len() ==> rooted_valid(#[trigger] rooted@[x], exts.len() as nat),
            forall|u: int| 0 <= u < uses.len() ==> perm_valid((#[trigger] uses@[u]).0@, exts.len() as nat),
            forall|u: int| 0 <= u < uses.len() ==> range_preserving(exts@, (#[trigger] uses@[u]).0@),
            forall|x: int| 0 <= x < rooted.len() ==> rooted_sound(rhs, exts@, #[trigger] rooted@[x]),
            forall|k: int| 0 <= k < cliques.len() ==> is_maximal_clique(neighbors@, #[trigger] cliques@[k]@),
            forall|k: int| 0 <= k < families.len() ==> family_valid((#[trigger] families@[k]).1@) && families@[k].0@.no_duplicates(),
            forall|k: int| 0 <= k < rooted.len() ==> rooted_sound(rhs, exts@, #[trigger] rooted@[k]),
            forall|k: int| 0 <= k < families.len() ==> family_sound(rhs, (#[trigger] families@[k]).1@),
            forall|k: int| 0 <= k < families.len() ==> lists_covered((#[trigger] families@[k]).0@, families@[k].1@),
            adjacency_valid(neighbors@),
            forall|k2: int|
                0 <= k2 < c && !family_blocked(rooted@, uses@, (#[trigger] cliques@[k2])@, rooted.len() as int)
                    ==> family_for_clique(families@, rooted@, uses@, cliques@[k2]@),
        decreases cliques.len() - c,
    {
        let clique = &cliques[c];
        assert(is_maximal_clique(neighbors@, clique@));
        match make_family(exts, rooted, &uses, clique, Ghost(rhs)) {
            Some(family) => {
                let ghost before = families@;
                families.push(family);
                proof {
                    assert forall|k2: int|
                        0 <= k2 < c + 1 && !family_blocked(rooted@, uses@, (#[trigger] cliques@[k2])@, rooted.len() as int)
                            implies family_for_clique(families@, rooted@, uses@, cliques@[k2]@) by {
                        if k2 < c {
                            lemma_family_for_clique_push(before, family, rooted@, uses@, cliques@[k2]@);
                        } else {
                            assert(families@[before.len() as int] == family);
                            assert(family.0@.to_set() =~= clique_cover_set(rooted@, uses@, cliques@[k2]@));
                        }
                    }
                    assert forall|k: int| 0 <= k < families.len() implies family_sound(rhs, (#[trigger] families@[k]).1@)
                        && lists_covered(families@[k].0@, families@[k].1@) by {
                        if k < before.len() {
                            assert(families@[k] == before[k]);
                        }
                    }
                }
            },
            None => {},
        }
        c = c + 1;
    }
    proof {
        let ghost adj = neighbors@;
        assert forall|m: Seq<usize>|
            #[trigger] compat_maximal(rooted@, uses@, m) && !family_blocked(rooted@, uses@, m, rooted.len() as int)
                implies family_for_clique(families@, rooted@, uses@, m) by {
            assert(is_clique(adj, m)) by {
                assert forall|a: int, b: int|
                    0 <= a < m.len() && 0 <= b < m.len() && a != b implies adj[#[trigger] m[a] as int]@[#[trigger] m[b] as int] by {
                    assert(m[a] != m[b]);
                }
            }
            assert forall|x: usize| x < adj.len() && !m.contains(x) implies !#[trigger] adjacent_to_all(adj, m, x) by {
                let k = choose|k: int| 0 <= k < m.len() && !node_compatible(rooted@, uses@, x as int, #[trigger] m[k] as int);
                assert(!adj[x as int]@[m[k] as int]);
            }
            assert(is_maximal_clique(adj, m));
            let k = choose|k: int| 0 <= k < cliques@.len() && same_nodes(#[trigger] cliques@[k]@, m);
            lemma_clique_distinct(adj, cliques@[k]@);
            lemma_same_clique(rooted@, uses@, cliques@[k]@, m, rooted.len() as int);
            assert(family_for_clique(families@, rooted@, uses@, cliques@[k]@));
            assert(clique_cover_set(rooted@, uses@, cliques@[k]@) =~= clique_cover_set(rooted@, uses@, m));
        }
        assert(lists_uses_upto(rooted@, uses@, rooted.len() as int, 0));
    }
    families
}

/// Order two families: roots by tensor, slot assignment and coefficient,
/// then the uses.
fn compare_families(left: &PermutationFamily, right: &PermutationFamily) -> (r: i8)
    requires
        family_valid(left@),
        family_valid(right@),
    ensures
        -1 <= r <= 1,
        r == family_order(left@, right@),
{
    let ghost lr = left@.roots;
    let ghost rr = right@.roots;
    assert(lr.skip(0) =~= lr);
    assert(rr.skip(0) =~= rr);
    let mut k: usize = 0;
    while k < left.roots.len() && k < right.roots.len()
        invariant
            family_valid(left@),
            family_valid(right@),
            k <= left.roots.len(),
            k <= right.roots.len(),
            lr == left@.roots,
            rr == right@.roots,
            lr.len() == left.roots.len(),
            rr.len() == right.roots.len(),
            roots_order(lr, rr) == roots_order(lr.skip(k as int), rr.skip(k as int)),
        decreases left.roots.len() - k,
    {
        assert(left@.roots[k as int] == left.roots@[k as int]@);
        assert(right@.roots[k as int] == right.roots@[k as int]@);
        assert(lr.skip(k as int)[0] == lr[k as int]);
        assert(rr.skip(k as int)[0] == rr[k as int]);
        assert(lr.skip(k as int).drop_first() =~= lr.skip(k + 1));
        assert(rr.skip(k as int).drop_first() =~= rr.skip(k + 1));
        proof {
            crate::order::lemma_lex_order_zero(
                crate::order::id_keys(lr[k as int].factors[0].indices),
                crate::order::id_keys(rr[k as int].factors[0].indices),
            );
        }
        let l = &left.roots[k].factors[0];
        let r = &right.roots[k].factors[0];
        if l.tensor.0 < r.tensor.0 {
            return -1;
        }
        if l.tensor.0 > r.tensor.0 {
            return 1;
        }
        let order = compare_index_ids(&l.indices, &r.indices);
        if order != 0 {
            return order;
        }
        let order = compare_coefficients(&left.roots[k].coeff, &right.roots[k].coeff);
        if order != 0 {
            return order;
        }
        k = k + 1;
    }
    assert(lr.skip(k as int).len() == 0 || rr.skip(k as int).len() == 0);
    let ghost lu = left@.uses;
    let ghost ru = right@.uses;
    assert(lu.skip(0) =~= lu);
    assert(ru.skip(0) =~= ru);
    let mut u: usize = 0;
    while u < left.uses.len() && u < right.uses.len()
        invariant
            u <= left.uses.len(),
            u <= right.uses.len(),
            lu == left@.uses,
            ru == right@.uses,
            lu.len() == left.uses.len(),
            ru.len() == right.uses.len(),
            roots_order(lr, rr) == 0,
            lr == left@.roots,
            rr == right@.roots,
            uses_order(lu, ru) == uses_order(lu.skip(u as int), ru.skip(u as int)),
        decreases left.uses.len() - u,
    {
        assert(lu[u as int] == (left.uses@[u as int].0@, left.uses@[u as int].1@));
        assert(ru[u as int] == (right.uses@[u as int].0@, right.uses@[u as int].1@));
        assert(lu.skip(u as int)[0] == lu[u as int]);
        assert(ru.skip(u as int)[0] == ru[u as int]);
        assert(lu.skip(u as int).drop_first() =~= lu.skip(u + 1));
        assert(ru.skip(u as int).drop_first() =~= ru.skip(u + 1));
        let order = compare_use_key(&left.uses[u].0, &left.uses[u].1, &right.uses[u].0, &right.uses[u].1);
        assert(order == use_order(lu[u as int], ru[u as int]));
        if order != 0 {
            assert(uses_order(lu.skip(u as int), ru.skip(u as int)) == use_order(lu[u as int], ru[u as int]));
            assert(uses_order(lu, ru) == order);
            assert(family_order(left@, right@) == uses_order(lu, ru));
            return order;
        }
        u = u + 1;
    }
    if left.uses.len() < right.uses.len() {
        -1
    } else if left.uses.len() > right.uses.len() {
        1
    } else {
        0
    }
}

// ----------------------------------------------------------------------------
// Spaces and actions
// ----------------------------------------------------------------------------

/// An invalid permutation-factorization choice.
#[derive(Clone, Copy, Debug, PartialEq, Eq, Structural)]
pub enum PermutationChoiceError {
    CandidateOutOfBounds { index: usize, len: usize },
    WrongRootMaskLength { expected: usize, got: usize },
    WrongUseMaskLength { expected: usize, got: usize },
    TooFewRoots,
    TooFewUses,
}

/// The abstract form of a permutation space.
pub struct PermutationSpaceView {
    pub target: DefinitionPosition,
    pub base: TensorId,
    pub families: Seq<FamilyView>,
}

/// The policy interface for one permutation factorization query.
#[derive(Debug, PartialEq, Eq)]
pub struct PermutationSpace {
    target: DefinitionPosition,
    base: TensorId,
    families: Vec<PermutationFamily>,
}

impl View for PermutationSpace {
    type V = PermutationSpaceView;

    closed spec fn view(&self) -> PermutationSpaceView {
        PermutationSpaceView {
            target: self.target,
            base: self.base,
            families: self.families@.map_values(|f: PermutationFamily| f@),
        }
    }
}

/// The abstract form of a permutation action.
pub struct PermutationActionView {
    pub target: DefinitionPosition,
    pub terms: Seq<usize>,
    pub intermediate: TensorDefView,
    pub uses: Seq<(Seq<usize>, CoeffView)>,
}

/// One validated permutation factorization choice.
#[derive(Debug, PartialEq, Eq)]
pub struct PermutationAction {
    target: DefinitionPosition,
    terms: Vec<usize>,
    intermediate: TensorDef,
    uses: Vec<(Vec<usize>, Coefficient)>,
}

impl View for PermutationAction {
    type V = PermutationActionView;

    closed spec fn view(&self) -> PermutationActionView {
        PermutationActionView {
            target: self.target,
            terms: self.terms@,
            intermediate: self.intermediate@,
            uses: self.uses@.map_values(|u: (Vec<usize>, Coefficient)| (u.0@, u.1@)),
        }
    }
}

/// The first `n` entries of `s` whose mask entry is set, in order.
pub open spec fn selected<A>(s: Seq<A>, mask: Seq<bool>, n: nat) -> Seq<A>
    decreases n,
{
    if n == 0 {
        Seq::empty()
    } else {
        let prev = selected(s, mask, (n - 1) as nat);
        if mask[n - 1] {
            prev.push(s[n - 1])
        } else {
            prev
        }
    }
}

/// The number of set entries of a mask.
pub open spec fn set_count(mask: Seq<bool>) -> nat
    decreases mask.len(),
{
    if mask.len() == 0 {
        0
    } else {
        set_count(mask.drop_last()) + if mask.last() { 1nat } else { 0nat }
    }
}

/// The action for the selected roots and uses of a family: the selected
/// roots as the intermediate's right-hand side, the selected uses, and the
/// source positions of every selected root and use.
pub open spec fn family_action(
    target: DefinitionPosition,
    base: TensorId,
    f: FamilyView,
    roots: Seq<bool>,
    uses: Seq<bool>,
    a: PermutationActionView,
) -> bool {
    &&& a.target == target
    &&& a.intermediate == TensorDefView { base, exts: f.exts, rhs: selected(f.roots, roots, f.roots.len()) }
    &&& a.uses == selected(f.uses, uses, f.uses.len())
    &&& a.terms.no_duplicates()
    &&& forall|x: usize| a.terms.contains(x) <==> exists|r: int, u: int|
        0 <= r < f.roots.len() && 0 <= u < f.uses.len() && roots[r] && uses[u] && (#[trigger] f.source_terms[r][u]).contains(x)
}

impl PermutationAction {
    #[verifier::type_invariant]
    spec fn uses_permute_slots(self) -> bool {
        &&& distinct_ids(self.intermediate@.exts)
        &&& forall|u: int| 0 <= u < self.uses@.len() ==> perm_valid((#[trigger] self.uses@[u]).0@, self.intermediate@.exts.len())
    }

    pub fn target(&self) -> (r: DefinitionPosition)
        ensures
            r == self@.target,
    {
        self.target
    }
}

impl Clone for PermutationAction {
    fn clone(&self) -> (r: Self)
        ensures
            r@ == self@,
    {
        proof {
            use_type_invariant(self);
        }
        let terms = clone_positions(&self.terms);
        let mut uses: Vec<(Vec<usize>, Coefficient)> = Vec::new();
        let mut u: usize = 0;
        while u < self.uses.len()
            invariant
                u <= self.uses.len(),
                uses@.len() == u,
                forall|j: int| 0 <= j < u ==> (#[trigger] uses@[j]).0@ == self.uses@[j].0@ && uses@[j].1@ == self.uses@[j].1@,
            decreases self.uses.len() - u,
        {
            uses.push(clone_use(&self.uses[u]));
            u = u + 1;
        }
        let result = PermutationAction { target: self.target, terms, intermediate: self.intermediate.clone(), uses };
        assert(result@.uses =~= self@.uses);
        result
    }
}

fn make_action(
    target: DefinitionPosition,
    base: TensorId,
    family: &PermutationFamily,
    roots: &[bool],
    uses: &[bool],
) -> (r: PermutationAction)
    requires
        family_valid(family@),
        roots.len() == family@.roots.len(),
        uses.len() == family@.uses.len(),
    ensures
        family_action(target, base, family@, roots@, uses@, r@),
{
    let ghost f = family@;
    let mut terms: Vec<usize> = Vec::new();
    let mut r: usize = 0;
    while r < family.source_terms.len()
        invariant
            r <= family.source_terms.len() == f.roots.len() == roots.len(),
            f == family@,
            family_valid(f),
            uses.len() == f.uses.len(),
            terms@.no_duplicates(),
            forall|x: usize| terms@.contains(x) <==> exists|i: int, u: int|
                0 <= i < r && 0 <= u < f.uses.len() && roots@[i] && uses@[u] && (#[trigger] f.source_terms[i][u]).contains(x),
        decreases family.source_terms.len() - r,
    {
        if roots[r] {
            let row = &family.source_terms[r];
            assert(f.source_terms[r as int] == row@.map_values(|p: Vec<usize>| p@));
            let mut u: usize = 0;
            while u < row.len()
                invariant
                    u <= row.len() == uses.len(),
                    r < f.roots.len(),
                    roots@[r as int],
                    f == family@,
                    family_valid(f),
                    f.source_terms[r as int] == row@.map_values(|p: Vec<usize>| p@),
                    terms@.no_duplicates(),
                    forall|x: usize| terms@.contains(x) <==> (exists|i: int, v: int|
                        0 <= i < r && 0 <= v < f.uses.len() && roots@[i] && uses@[v] && (#[trigger] f.source_terms[i][v]).contains(x)) || (exists|v: int|
                        0 <= v < u && uses@[v] && (#[trigger] f.source_terms[r as int][v]).contains(x)),
                decreases row.len() - u,
            {
                if uses[u] {
                    let positions = &row[u];
                    assert(f.source_terms[r as int][u as int] == positions@);
                    let mut p: usize = 0;
                    while p < positions.len()
                        invariant
                            p <= positions.len(),
                            terms@.no_duplicates(),
                            f.source_terms[r as int][u as int] == positions@,
                            uses@[u as int],
                            forall|x: usize| terms@.contains(x) <==> (exists|i: int, v: int|
                                0 <= i < r && 0 <= v < f.uses.len() && roots@[i] && uses@[v] && (#[trigger] f.source_terms[i][v]).contains(x)) || (exists|v: int|
                                0 <= v < u && uses@[v] && (#[trigger] f.source_terms[r as int][v]).contains(x)) || positions@.subrange(0, p as int).contains(x),
                        decreases positions.len() - p,
                    {
                        let position = positions[p];
                        let mut present = false;
                        let mut c: usize = 0;
                        while c < terms.len()
                            invariant
                                c <= terms.len(),
                                present <==> exists|x: int| 0 <= x < c && terms@[x] == position,
                            decreases terms.len() - c,
                        {
                            if terms[c] == position {
                                present = true;
                            }
                            c = c + 1;
                        }
                        let ghost before_terms = terms@;
                        if !present {
                            insert_sorted(&mut terms, position);
                        }
                        proof {
                            assert(!present ==> !before_terms.contains(position));
                            assert forall|y: usize| positions@.subrange(0, p + 1).contains(y) <==> positions@.subrange(0, p as int).contains(y) || y == position by {
                                if positions@.subrange(0, p + 1).contains(y) {
                                    let i = choose|i: int| 0 <= i < p + 1 && #[trigger] positions@.subrange(0, p + 1)[i] == y;
                                    if i < p {
                                        assert(positions@.subrange(0, p as int)[i] == y);
                                    }
                                }
                                if positions@.subrange(0, p as int).contains(y) {
                                    let i = choose|i: int| 0 <= i < p && #[trigger] positions@.subrange(0, p as int)[i] == y;
                                    assert(positions@.subrange(0, p + 1)[i] == y);
                                }
                                if y == position {
                                    assert(positions@.subrange(0, p + 1)[p as int] == y);
                                }
                            }
                            if present {
                                let w = choose|w: int| 0 <= w < c && terms@[w] == position;
                                assert(terms@.contains(position));
                            }
                            assert forall|x: usize| terms@.contains(x) <==> before_terms.contains(x) || x == position by {
                                if present {
                                    assert(terms@ == before_terms);
                                }
                            }
                            assert forall|x: usize| terms@.contains(x) <==> (exists|i: int, v: int|
                                0 <= i < r && 0 <= v < f.uses.len() && roots@[i] && uses@[v] && (#[trigger] f.source_terms[i][v]).contains(x)) || (exists|v: int|
                                0 <= v < u && uses@[v] && (#[trigger] f.source_terms[r as int][v]).contains(x)) || positions@.subrange(0, p + 1).contains(x) by {
                                lemma_prefix_contains(positions@, p as int, x);
                            }
                        }
                        p = p + 1;
                    }
                    proof {
                        assert(positions@.subrange(0, positions.len() as int) =~= positions@);
                    }
                }
                proof {
                    assert forall|x: usize| terms@.contains(x) <==> (exists|i: int, v: int|
                        0 <= i < r && 0 <= v < f.uses.len() && roots@[i] && uses@[v] && (#[trigger] f.source_terms[i][v]).contains(x)) || (exists|v: int|
                        0 <= v < u + 1 && uses@[v] && (#[trigger] f.source_terms[r as int][v]).contains(x)) by {
                        if exists|v: int| 0 <= v < u + 1 && uses@[v] && (#[trigger] f.source_terms[r as int][v]).contains(x) {
                            let v = choose|v: int| 0 <= v < u + 1 && uses@[v] && (#[trigger] f.source_terms[r as int][v]).contains(x);
                            if v < u {
                                assert(exists|w: int| 0 <= w < u && uses@[w] && (#[trigger] f.source_terms[r as int][w]).contains(x));
                            }
                        }
                        if exists|v: int| 0 <= v < u && uses@[v] && (#[trigger] f.source_terms[r as int][v]).contains(x) {
                            let v = choose|v: int| 0 <= v < u && uses@[v] && (#[trigger] f.source_terms[r as int][v]).contains(x);
                            assert(0 <= v < u + 1);
                        }
                        if uses@[u as int] && f.source_terms[r as int][u as int].contains(x) {
                            assert(0 <= u < u + 1);
                        }
                    }
                }
                u = u + 1;
            }
            proof {
                assert forall|x: usize| terms@.contains(x) <==> exists|i: int, v: int|
                    0 <= i < r + 1 && 0 <= v < f.uses.len() && roots@[i] && uses@[v] && (#[trigger] f.source_terms[i][v]).contains(x) by {
                    if exists|i: int, v: int| 0 <= i < r + 1 && 0 <= v < f.uses.len() && roots@[i] && uses@[v] && (#[trigger] f.source_terms[i][v]).contains(x) {
                        let (i, v) = choose|i: int, v: int| 0 <= i < r + 1 && 0 <= v < f.uses.len() && roots@[i] && uses@[v] && (#[trigger] f.source_terms[i][v]).contains(x);
                        if i < r {
                            assert(exists|i2: int, v2: int| 0 <= i2 < r && 0 <= v2 < f.uses.len() && roots@[i2] && uses@[v2] && (#[trigger] f.source_terms[i2][v2]).contains(x));
                        } else {
                            assert(exists|v2: int| 0 <= v2 < row.len() && uses@[v2] && (#[trigger] f.source_terms[r as int][v2]).contains(x));
                        }
                    }
                    if exists|i: int, v: int| 0 <= i < r && 0 <= v < f.uses.len() && roots@[i] && uses@[v] && (#[trigger] f.source_terms[i][v]).contains(x) {
                        let (i, v) = choose|i: int, v: int| 0 <= i < r && 0 <= v < f.uses.len() && roots@[i] && uses@[v] && (#[trigger] f.source_terms[i][v]).contains(x);
                        assert(0 <= i < r + 1);
                    }
                    if exists|v: int| 0 <= v < row.len() && uses@[v] && (#[trigger] f.source_terms[r as int][v]).contains(x) {
                        let v = choose|v: int| 0 <= v < row.len() && uses@[v] && (#[trigger] f.source_terms[r as int][v]).contains(x);
                        assert(0 <= r < r + 1 && 0 <= v < f.uses.len());
                    }
                }
            }
        } else {
            proof {
                assert forall|x: usize| terms@.contains(x) <==> exists|i: int, v: int|
                    0 <= i < r + 1 && 0 <= v < f.uses.len() && roots@[i] && uses@[v] && (#[trigger] f.source_terms[i][v]).contains(x) by {
                    if exists|i: int, v: int| 0 <= i < r + 1 && 0 <= v < f.uses.len() && roots@[i] && uses@[v] && (#[trigger] f.source_terms[i][v]).contains(x) {
                        let (i, v) = choose|i: int, v: int| 0 <= i < r + 1 && 0 <= v < f.uses.len() && roots@[i] && uses@[v] && (#[trigger] f.source_terms[i][v]).contains(x);
                        assert(i < r);
                    }
                    if exists|i: int, v: int| 0 <= i < r && 0 <= v < f.uses.len() && roots@[i] && uses@[v] && (#[trigger] f.source_terms[i][v]).contains(x) {
                        let (i, v) = choose|i: int, v: int| 0 <= i < r && 0 <= v < f.uses.len() && roots@[i] && uses@[v] && (#[trigger] f.source_terms[i][v]).contains(x);
                        assert(0 <= i < r + 1);
                    }
                }
            }
        }
        r = r + 1;
    }
    let mut rhs: Vec<Term> = Vec::new();
    let mut i: usize = 0;
    while i < family.roots.len()
        invariant
            i <= family.roots.len() == roots.len(),
            f == family@,
            terms_view(rhs@) =~= selected(f.roots, roots@, i as nat),
        decreases family.roots.len() - i,
    {
        if roots[i] {
            let ghost before = rhs@;
            let term = family.roots[i].clone();
            rhs.push(term);
            assert(terms_view(rhs@) =~= terms_view(before).push(term@));
            assert(f.roots[i as int] == term@);
        }
        i = i + 1;
    }
    let mut selected_uses: Vec<(Vec<usize>, Coefficient)> = Vec::new();
    let ghost uv = |x: (Vec<usize>, Coefficient)| (x.0@, x.1@);
    let mut u: usize = 0;
    while u < family.uses.len()
        invariant
            u <= family.uses.len() == uses.len(),
            f == family@,
            family_valid(f),
            selected_uses@.map_values(|x: (Vec<usize>, Coefficient)| (x.0@, x.1@)) =~= selected(f.uses, uses@, u as nat),
            forall|j: int| 0 <= j < selected_uses.len() ==> perm_valid((#[trigger] selected_uses@[j]).0@, f.exts.len()),
        decreases family.uses.len() - u,
    {
        if uses[u] {
            let ghost before = selected_uses@;
            let copy = clone_use(&family.uses[u]);
            assert(f.uses[u as int] == (family.uses@[u as int].0@, family.uses@[u as int].1@));
            selected_uses.push(copy);
            assert(selected_uses@.map_values(|x: (Vec<usize>, Coefficient)| (x.0@, x.1@)) =~= before.map_values(|x: (Vec<usize>, Coefficient)| (x.0@, x.1@)).push((copy.0@, copy.1@)));
        }
        u = u + 1;
    }
    let exts = family.exts.clone();
    assert(exts@ =~= f.exts);
    let intermediate = TensorDef { base, exts, rhs };
    let action = PermutationAction { target, terms, intermediate, uses: selected_uses };
    proof {
        assert(action@.uses =~= selected(f.uses, uses@, f.uses.len()));
        assert(action@.intermediate =~= TensorDefView { base, exts: f.exts, rhs: selected(f.roots, roots@, f.roots.len()) });
    }
    action
}

impl PermutationSpace {
    #[verifier::type_invariant]
    spec fn families_valid(self) -> bool {
        forall|k: int| 0 <= k < self.families@.len() ==> family_valid((#[trigger] self.families@[k])@)
    }

    pub fn target(&self) -> (r: DefinitionPosition)
        ensures
            r == self@.target,
    {
        self.target
    }

    /// Owned semantic descriptions of the maximal factorization families:
    /// the intermediate's externals, its possible root terms, and the
    /// relative permutation uses with their normalized coefficients.
    pub fn snapshot(&self) -> (r: Vec<(Vec<Index>, Vec<Term>, Vec<(Vec<usize>, Coefficient)>)>)
        ensures
            r.len() == self@.families.len(),
            forall|k: int|
                0 <= k < r.len() ==> (#[trigger] r@[k]).0@ == self@.families[k].exts && terms_view(r@[k].1@)
                    == self@.families[k].roots && r@[k].2@.map_values(|u: (Vec<usize>, Coefficient)| (u.0@, u.1@))
                    == self@.families[k].uses,
    {
        let mut r: Vec<(Vec<Index>, Vec<Term>, Vec<(Vec<usize>, Coefficient)>)> = Vec::new();
        let mut k: usize = 0;
        while k < self.families.len()
            invariant
                k <= self.families.len(),
                r.len() == k,
                forall|j: int|
                    0 <= j < k ==> (#[trigger] r@[j]).0@ == self@.families[j].exts && terms_view(r@[j].1@)
                        == self@.families[j].roots && r@[j].2@.map_values(|u: (Vec<usize>, Coefficient)| (u.0@, u.1@))
                        == self@.families[j].uses,
            decreases self.families.len() - k,
        {
            let family = self.families[k].clone();
            assert(self@.families[k as int] == self.families@[k as int]@);
            let PermutationFamily { exts, roots, uses, source_terms: _ } = family;
            r.push((exts, roots, uses));
            k = k + 1;
        }
        r
    }

    pub fn candidate_count(&self) -> (r: usize)
        ensures
            r == self@.families.len(),
    {
        self.families.len()
    }

    /// The numbers of roots and uses of one family.
    pub fn shape(&self, candidate: usize) -> (r: Option<(usize, usize)>)
        ensures
            candidate >= self@.families.len() ==> r is None,
            candidate < self@.families.len() ==> r == Some(
                (
                    self@.families[candidate as int].roots.len() as usize,
                    self@.families[candidate as int].uses.len() as usize,
                ),
            ),
    {
        if candidate >= self.families.len() {
            return None;
        }
        let family = &self.families[candidate];
        assert(self@.families[candidate as int] == family@);
        assert(family@.uses.len() == family.uses.len());
        Some((family.roots.len(), family.uses.len()))
    }

    /// Select a whole maximal family.
    pub fn select(&self, candidate: usize) -> (r: Result<Action, PermutationChoiceError>)
        ensures
            candidate >= self@.families.len() ==> r == Err::<Action, PermutationChoiceError>(
                PermutationChoiceError::CandidateOutOfBounds {
                    index: candidate,
                    len: self@.families.len() as usize,
                },
            ),
            candidate < self@.families.len() ==> (r matches Ok(Action::Permutation(a)) && family_action(
                self@.target,
                self@.base,
                self@.families[candidate as int],
                Seq::new(self@.families[candidate as int].roots.len(), |k: int| true),
                Seq::new(self@.families[candidate as int].uses.len(), |k: int| true),
                a@,
            )),
    {
        proof {
            use_type_invariant(self);
        }
        if candidate >= self.families.len() {
            return Err(
                PermutationChoiceError::CandidateOutOfBounds {
                    index: candidate,
                    len: self.families.len(),
                },
            );
        }
        let family = &self.families[candidate];
        assert(self@.families[candidate as int] == family@);
        assert(family_valid(family@));
        let mut roots: Vec<bool> = Vec::new();
        while roots.len() < family.roots.len()
            invariant
                roots@ =~= Seq::new(roots.len() as nat, |k: int| true),
                roots.len() <= family.roots.len(),
            decreases family.roots.len() - roots.len(),
        {
            roots.push(true);
        }
        let mut uses: Vec<bool> = Vec::new();
        while uses.len() < family.uses.len()
            invariant
                uses@ =~= Seq::new(uses.len() as nat, |k: int| true),
                uses.len() <= family.uses.len(),
            decreases family.uses.len() - uses.len(),
        {
            uses.push(true);
        }
        assert(family@.uses.len() == family.uses.len());
        Ok(Action::Permutation(make_action(self.target, self.base, family, roots.as_slice(), uses.as_slice())))
    }

    /// Select a subfamily of one maximal family by masks over its roots and
    /// uses; each mask must select at least two entries.
    pub fn select_subfamily(&self, candidate: usize, roots: &[bool], uses: &[bool]) -> (r: Result<
        Action,
        PermutationChoiceError,
    >)
        ensures
            candidate >= self@.families.len() ==> r == Err::<Action, PermutationChoiceError>(
                PermutationChoiceError::CandidateOutOfBounds {
                    index: candidate,
                    len: self@.families.len() as usize,
                },
            ),
            candidate < self@.families.len() ==> {
                let f = self@.families[candidate as int];
                &&& roots.len() != f.roots.len() ==> r == Err::<Action, PermutationChoiceError>(
                    PermutationChoiceError::WrongRootMaskLength {
                        expected: f.roots.len() as usize,
                        got: roots.len(),
                    },
                )
                &&& roots.len() == f.roots.len() && uses.len() != f.uses.len() ==> r == Err::<
                    Action,
                    PermutationChoiceError,
                >(
                    PermutationChoiceError::WrongUseMaskLength {
                        expected: f.uses.len() as usize,
                        got: uses.len(),
                    },
                )
                &&& roots.len() == f.roots.len() && uses.len() == f.uses.len() && set_count(roots@) < 2
                    ==> r == Err::<Action, PermutationChoiceError>(
                    PermutationChoiceError::TooFewRoots,
                )
                &&& roots.len() == f.roots.len() && uses.len() == f.uses.len() && set_count(roots@) >= 2
                    && set_count(uses@) < 2 ==> r == Err::<Action, PermutationChoiceError>(
                    PermutationChoiceError::TooFewUses,
                )
                &&& roots.len() == f.roots.len() && uses.len() == f.uses.len() && set_count(roots@) >= 2
                    && set_count(uses@) >= 2 ==> (r matches Ok(Action::Permutation(a)) && family_action(
                    self@.target,
                    self@.base,
                    f,
                    roots@,
                    uses@,
                    a@,
                ))
            },
    {
        proof {
            use_type_invariant(self);
        }
        if candidate >= self.families.len() {
            return Err(
                PermutationChoiceError::CandidateOutOfBounds {
                    index: candidate,
                    len: self.families.len(),
                },
            );
        }
        let family = &self.families[candidate];
        assert(self@.families[candidate as int] == family@);
        assert(family@.uses.len() == family.uses.len());
        if roots.len() != family.roots.len() {
            return Err(
                PermutationChoiceError::WrongRootMaskLength {
                    expected: family.roots.len(),
                    got: roots.len(),
                },
            );
        }
        if uses.len() != family.uses.len() {
            return Err(
                PermutationChoiceError::WrongUseMaskLength {
                    expected: family.uses.len(),
                    got: uses.len(),
                },
            );
        }
        if count_set(roots) < 2 {
            return Err(PermutationChoiceError::TooFewRoots);
        }
        if count_set(uses) < 2 {
            return Err(PermutationChoiceError::TooFewUses);
        }
        Ok(Action::Permutation(make_action(self.target, self.base, family, roots, uses)))
    }
}

fn count_set(mask: &[bool]) -> (r: usize)
    ensures
        r == set_count(mask@),
{
    let mut count: usize = 0;
    let mut k: usize = 0;
    while k < mask.len()
        invariant
            k <= mask.len(),
            count == set_count(mask@.subrange(0, k as int)),
            count <= k,
        decreases mask.len() - k,
    {
        assert(mask@.subrange(0, k + 1).drop_last() =~= mask@.subrange(0, k as int));
        if mask[k] {
            count = count + 1;
        }
        k = k + 1;
    }
    assert(mask@.subrange(0, mask.len() as int) =~= mask@);
    count
}

impl Clone for PermutationSpace {
    fn clone(&self) -> (r: Self)
        ensures
            r@ == self@,
    {
        proof {
            use_type_invariant(self);
        }
        let mut families: Vec<PermutationFamily> = Vec::new();
        let mut k: usize = 0;
        while k < self.families.len()
            invariant
                k <= self.families.len(),
                families.len() == k,
                forall|j: int| 0 <= j < k ==> (#[trigger] families@[j])@ == self.families@[j]@,
                forall|j: int| 0 <= j < self.families.len() ==> family_valid((#[trigger] self.families@[j])@),
            decreases self.families.len() - k,
        {
            families.push(self.families[k].clone());
            k = k + 1;
        }
        let r = PermutationSpace { target: self.target, base: self.base, families };
        assert(r@.families =~= self@.families);
        r
    }
}

/// Two families have the same source terms.
pub open spec fn same_coverage(f: FamilyView, g: FamilyView) -> bool {
    forall|x: usize| family_covers(f, x) == family_covers(g, x)
}

/// Two increasing lists of the same entries agree below `upto`.
proof fn lemma_ascending_agree(a: Seq<usize>, b: Seq<usize>, upto: int)
    requires
        ascending(a),
        ascending(b),
        forall|x: usize| a.contains(x) <==> b.contains(x),
        0 <= upto <= a.len(),
        upto <= b.len(),
    ensures
        forall|k: int| 0 <= k < upto ==> a[k] == b[k],
    decreases upto,
{
    if upto > 0 {
        let k = upto - 1;
        lemma_ascending_agree(a, b, k);
        assert(a.contains(a[k]));
        let m = choose|m: int| 0 <= m < b.len() && b[m] == a[k];
        if m < k {
            assert(b[m] == a[m]);
        }
        assert(b.contains(b[k]));
        let n = choose|n: int| 0 <= n < a.len() && a[n] == b[k];
        if n < k {
            assert(a[n] == b[n]);
        }
        if m > k {
            assert(b[k] < b[m]);
        }
        if n > k {
            assert(a[k] < a[n]);
        }
    }
}

/// Two increasing lists of the same entries are equal.
pub proof fn lemma_ascending_unique(a: Seq<usize>, b: Seq<usize>)
    requires
        ascending(a),
        ascending(b),
        forall|x: usize| a.contains(x) <==> b.contains(x),
    ensures
        a == b,
{
    let n = if a.len() < b.len() { a.len() as int } else { b.len() as int };
    lemma_ascending_agree(a, b, n);
    if a.len() > b.len() {
        assert(a.contains(a[n]));
        let m = choose|m: int| 0 <= m < b.len() && b[m] == a[n];
        assert(a[m] == b[m]);
    } else if b.len() > a.len() {
        assert(b.contains(b[n]));
        let m = choose|m: int| 0 <= m < a.len() && a[m] == b[n];
        assert(a[m] == b[m]);
    }
    assert(a =~= b);
}

/// Families kept in strictly increasing order of their listed source terms
/// cover pairwise different terms.
proof fn lemma_sorted_covers_differ(c1: Seq<usize>, f1: FamilyView, c2: Seq<usize>, f2: FamilyView)
    requires
        lists_covered(c1, f1),
        lists_covered(c2, f2),
        crate::order::lex_order(crate::order::usize_keys(c1), crate::order::usize_keys(c2)) == -1,
    ensures
        !same_coverage(f1, f2),
{
    if same_coverage(f1, f2) {
        assert forall|x: usize| c1.contains(x) <==> c2.contains(x) by {
            assert(c1.contains(x) <==> family_covers(f1, x));
            assert(c2.contains(x) <==> family_covers(f2, x));
        }
        lemma_ascending_unique(c1, c2);
        crate::order::lemma_lex_order_zero(crate::order::usize_keys(c1), crate::order::usize_keys(c2));
    }
}

/// The source positions of a family's terms.
pub open spec fn covered_set(f: FamilyView) -> Set<usize> {
    Set::new(|x: usize| family_covers(f, x))
}

/// Some family of `fs` has exactly the source positions `s`.
pub open spec fn has_coverage(fs: Seq<FamilyView>, s: Set<usize>) -> bool {
    exists|k: int| 0 <= k < fs.len() && #[trigger] covered_set(fs[k]) == s
}

/// The families of a list of (covered positions, family) pairs.
spec fn family_views(fs: Seq<(Vec<usize>, PermutationFamily)>) -> Seq<FamilyView> {
    fs.map_values(|p: (Vec<usize>, PermutationFamily)| p.1@)
}

/// Entries `a..b` are a maximal run of entries with the same externals.
spec fn group_run(entries: Seq<Entry>, a: int, b: int) -> bool {
    &&& 0 <= a < b <= entries.len()
    &&& forall|x: int| a <= x < b ==> (#[trigger] entries[x]).exts@ == entries[a].exts@
    &&& a > 0 ==> entries[a - 1].exts@ != entries[a].exts@
    &&& b < entries.len() ==> entries[b].exts@ != entries[a].exts@
}

/// Rooted terms for the entries `start..end` with externals `exts`: valid,
/// sound, and rooting every entry that has two relatable occurrences.
spec fn rooted_for(rhs: Seq<TermView>, entries: Seq<Entry>, exts: Seq<Index>, start: int, end: int, r: Seq<RootedTerm>) -> bool {
    &&& forall|k: int| 0 <= k < r.len() ==> rooted_valid(#[trigger] r[k], exts.len() as nat)
    &&& forall|k: int| 0 <= k < r.len() ==> rooted_sound(rhs, exts, #[trigger] r[k])
    &&& forall|p: int, o1: int, o2: int|
        start <= p < end && start <= o1 < o2 < end && #[trigger] relatable_entries(entries, exts, p, o1)
            && #[trigger] relatable_entries(entries, exts, p, o2) ==> exists|k: int|
            0 <= k < r.len() && roots_entry(#[trigger] r[k], entries, exts, p, start, end)
}

/// With the uses of the rooted terms listed, every maximal compatible set of
/// roots and uses that makes a family has a family in `families` with its
/// source positions.
spec fn cliques_covered(rooted: Seq<RootedTerm>, families: Seq<FamilyView>) -> bool {
    rooted.len() >= 2 ==> exists|uses: Seq<(Vec<usize>, Coefficient)>|
        #[trigger] lists_uses_upto(rooted, uses, rooted.len() as int, 0) && (uses.len() >= 2 && rooted.len() + uses.len()
            <= usize::MAX ==> forall|m: Seq<usize>|
            #[trigger] compat_maximal(rooted, uses, m) && !family_blocked(rooted, uses, m, rooted.len() as int)
                ==> has_coverage(families, clique_cover_set(rooted, uses, m)))
}

/// The group of entries `a..b` has rooted terms whose maximal families are
/// all in `families`, by source positions.
spec fn group_covered(rhs: Seq<TermView>, entries: Seq<Entry>, a: int, b: int, families: Seq<FamilyView>) -> bool {
    exists|rooted: Seq<RootedTerm>| #[trigger] rooted_for(rhs, entries, entries[a].exts@, a, b, rooted) && cliques_covered(rooted, families)
}

/// Every maximal family of every group of pattern terms with the same
/// externals, among the pattern terms of `rhs` for externals `exts`, has a
/// family in `families` with the same source terms.
pub closed spec fn families_complete(exts: Seq<Index>, rhs: Seq<TermView>, families: Seq<FamilyView>) -> bool {
    exists|entries: Seq<Entry>| #[trigger] entries_for(exts, rhs, entries)
        && forall|a: int, b: int| #[trigger] group_run(entries, a, b) ==> group_covered(rhs, entries, a, b, families)
}

/// Coverage that `old` has, `new` has too: so do the cliques it covers.
proof fn lemma_cliques_covered_mono(rooted: Seq<RootedTerm>, old: Seq<FamilyView>, new: Seq<FamilyView>)
    requires
        cliques_covered(rooted, old),
        forall|s: Set<usize>| #[trigger] has_coverage(old, s) ==> has_coverage(new, s),
    ensures
        cliques_covered(rooted, new),
{
    if rooted.len() >= 2 {
        let uses = choose|uses: Seq<(Vec<usize>, Coefficient)>|
            #[trigger] lists_uses_upto(rooted, uses, rooted.len() as int, 0) && (uses.len() >= 2 && rooted.len() + uses.len()
                <= usize::MAX ==> forall|m: Seq<usize>|
                #[trigger] compat_maximal(rooted, uses, m) && !family_blocked(rooted, uses, m, rooted.len() as int)
                    ==> has_coverage(old, clique_cover_set(rooted, uses, m)));
        if uses.len() >= 2 && rooted.len() + uses.len() <= usize::MAX {
            assert forall|m: Seq<usize>|
                #[trigger] compat_maximal(rooted, uses, m) && !family_blocked(rooted, uses, m, rooted.len() as int)
                    implies has_coverage(new, clique_cover_set(rooted, uses, m)) by {
                assert(has_coverage(old, clique_cover_set(rooted, uses, m)));
            }
        }
        assert(lists_uses_upto(rooted, uses, rooted.len() as int, 0));
    }
}

/// Coverage that `old` has, `new` has too: so do the groups it covers.
proof fn lemma_group_covered_mono(
    rhs: Seq<TermView>,
    entries: Seq<Entry>,
    a: int,
    b: int,
    old: Seq<FamilyView>,
    new: Seq<FamilyView>,
)
    requires
        group_covered(rhs, entries, a, b, old),
        forall|s: Set<usize>| #[trigger] has_coverage(old, s) ==> has_coverage(new, s),
    ensures
        group_covered(rhs, entries, a, b, new),
{
    let rooted = choose|rooted: Seq<RootedTerm>| #[trigger] rooted_for(rhs, entries, entries[a].exts@, a, b, rooted) && cliques_covered(rooted, old);
    lemma_cliques_covered_mono(rooted, old, new);
    assert(rooted_for(rhs, entries, entries[a].exts@, a, b, rooted));
}

/// A family listed with its covered positions has those positions.
proof fn lemma_covered_set(covered: Seq<usize>, f: FamilyView)
    requires
        lists_covered(covered, f),
    ensures
        covered_set(f) == covered.to_set(),
{
    assert forall|x: usize| covered_set(f).contains(x) <==> covered.to_set().contains(x) by {
        assert(covered.contains(x) <==> family_covers(f, x));
    }
    assert(covered_set(f) =~= covered.to_set());
}

/// Replacing a family by one with the same positions keeps all coverage.
proof fn lemma_replace_keeps_coverage(fs: Seq<(Vec<usize>, PermutationFamily)>, at: int, x: (Vec<usize>, PermutationFamily))
    requires
        0 <= at < fs.len(),
        covered_set(fs[at].1@) == covered_set(x.1@),
    ensures
        forall|s: Set<usize>| #[trigger] has_coverage(family_views(fs), s) ==> has_coverage(family_views(fs.update(at, x)), s),
        has_coverage(family_views(fs.update(at, x)), covered_set(x.1@)),
{
    let after = fs.update(at, x);
    assert forall|s: Set<usize>| #[trigger] has_coverage(family_views(fs), s) implies has_coverage(family_views(after), s) by {
        let k = choose|k: int| 0 <= k < family_views(fs).len() && #[trigger] covered_set(family_views(fs)[k]) == s;
        assert(family_views(fs)[k] == fs[k].1@);
        assert(family_views(after)[k] == after[k].1@);
    }
    assert(family_views(after)[at] == x.1@);
}

/// Inserting a family keeps all coverage and adds its own.
proof fn lemma_insert_keeps_coverage(fs: Seq<(Vec<usize>, PermutationFamily)>, at: int, x: (Vec<usize>, PermutationFamily))
    requires
        0 <= at <= fs.len(),
    ensures
        forall|s: Set<usize>| #[trigger] has_coverage(family_views(fs), s) ==> has_coverage(family_views(fs.insert(at, x)), s),
        has_coverage(family_views(fs.insert(at, x)), covered_set(x.1@)),
{
    let after = fs.insert(at, x);
    assert forall|s: Set<usize>| #[trigger] has_coverage(family_views(fs), s) implies has_coverage(family_views(after), s) by {
        let k = choose|k: int| 0 <= k < family_views(fs).len() && #[trigger] covered_set(family_views(fs)[k]) == s;
        assert(family_views(fs)[k] == fs[k].1@);
        if k < at {
            assert(family_views(after)[k] == after[k].1@);
        } else {
            assert(family_views(after)[k + 1] == after[k + 1].1@);
        }
    }
    assert(family_views(after)[at] == x.1@);
}

/// Once every family found for a group's rooted terms has its positions
/// in `families`, the group is covered.
proof fn lemma_group_done(
    rhs: Seq<TermView>,
    entries: Seq<Entry>,
    a: int,
    b: int,
    rooted: Seq<RootedTerm>,
    found: Seq<(Vec<usize>, PermutationFamily)>,
    families: Seq<FamilyView>,
)
    requires
        rooted_for(rhs, entries, entries[a].exts@, a, b, rooted),
        forall|k: int| 0 <= k < found.len() ==> lists_covered((#[trigger] found[k]).0@, found[k].1@),
        forall|k: int| 0 <= k < found.len() ==> has_coverage(families, covered_set((#[trigger] found[k]).1@)),
        rooted.len() >= 2 ==> exists|uses: Seq<(Vec<usize>, Coefficient)>|
            #[trigger] lists_uses_upto(rooted, uses, rooted.len() as int, 0) && (uses.len() >= 2 && rooted.len()
                + uses.len() <= usize::MAX ==> forall|m: Seq<usize>|
                #[trigger] compat_maximal(rooted, uses, m) && !family_blocked(rooted, uses, m, rooted.len() as int)
                    ==> family_for_clique(found, rooted, uses, m)),
    ensures
        group_covered(rhs, entries, a, b, families),
{
    if rooted.len() >= 2 {
        let uses = choose|uses: Seq<(Vec<usize>, Coefficient)>|
            #[trigger] lists_uses_upto(rooted, uses, rooted.len() as int, 0) && (uses.len() >= 2 && rooted.len()
                + uses.len() <= usize::MAX ==> forall|m: Seq<usize>|
                #[trigger] compat_maximal(rooted, uses, m) && !family_blocked(rooted, uses, m, rooted.len() as int)
                    ==> family_for_clique(found, rooted, uses, m));
        if uses.len() >= 2 && rooted.len() + uses.len() <= usize::MAX {
            assert forall|m: Seq<usize>|
                #[trigger] compat_maximal(rooted, uses, m) && !family_blocked(rooted, uses, m, rooted.len() as int)
                    implies has_coverage(families, clique_cover_set(rooted, uses, m)) by {
                assert(family_for_clique(found, rooted, uses, m));
                let f = choose|f: int| 0 <= f < found.len() && (#[trigger] found[f]).0@.to_set() == clique_cover_set(rooted, uses, m);
                lemma_covered_set(found[f].0@, found[f].1@);
                assert(has_coverage(families, covered_set(found[f].1@)));
            }
        }
        assert(lists_uses_upto(rooted, uses, rooted.len() as int, 0));
    }
    assert(cliques_covered(rooted, families));
}

/// What a permutation query answers: an error exactly when the target
/// definition does not exist, and otherwise a space of valid families for the
/// target's base, no two of which cover the same source terms, and among
/// them one for every maximal family of every group of the target's pattern
/// terms.
pub open spec fn permutation_answer(
    s: StateView,
    target: DefinitionPosition,
    r: Result<PermutationSpaceView, QueryError>,
) -> bool {
    if target.0 >= s.computation.definitions.len() {
        r == Err::<PermutationSpaceView, QueryError>(QueryError::DefinitionOutOfBounds { position: target })
    } else {
        &&& r matches Ok(space)
        &&& r->Ok_0.target == target
        &&& r->Ok_0.base == s.computation.definitions[target.0 as int].base
        &&& forall|k: int| 0 <= k < r->Ok_0.families.len() ==> family_valid(#[trigger] r->Ok_0.families[k])
            && family_sound(s.computation.definitions[target.0 as int].rhs, r->Ok_0.families[k])
        &&& forall|a: int, b: int| 0 <= a < b < r->Ok_0.families.len() ==> !same_coverage(
            #[trigger] r->Ok_0.families[a],
            #[trigger] r->Ok_0.families[b],
        )
        &&& families_complete(
            s.computation.definitions[target.0 as int].exts,
            s.computation.definitions[target.0 as int].rhs,
            r->Ok_0.families,
        )
    }
}

/// The permutation space of one definition of a state.
pub fn query(state: &State, target: DefinitionPosition) -> (r: Result<PermutationSpace, QueryError>)
    ensures
        permutation_answer(
            state@,
            target,
            match r {
                Ok(space) => Ok(space@),
                Err(e) => Err(e),
            },
        ),
{
    let computation = state.computation();
    if target.0 >= computation.definitions.len() {
        return Err(QueryError::DefinitionOutOfBounds { position: target });
    }
    let definition = &computation.definitions[target.0];
    assert(state@.computation.definitions[target.0 as int] == definition@);
    assert(crate::valid::definition_valid(state@.computation, definition@));
    let entries = collect_entries(&definition.exts, &definition.rhs);
    let ghost rhs = terms_view(definition.rhs@);
    assert(rhs == state@.computation.definitions[target.0 as int].rhs);
    assert(entries_for(definition.exts@, rhs, entries@));
    let mut families: Vec<(Vec<usize>, PermutationFamily)> = Vec::new();
    let mut i: usize = 0;
    while i < entries.len()
        invariant
            i <= entries.len(),
            0 < i < entries.len() ==> entries@[i - 1].exts@ != entries@[i as int].exts@,
            forall|a: int, b: int|
                #[trigger] group_run(entries@, a, b) && b <= i ==> group_covered(rhs, entries@, a, b, family_views(families@)),
            forall|e: int| 0 <= e < entries.len() ==> distinct_ids((#[trigger] entries@[e]).exts@),
            forall|a: int, b: int| 0 <= a < b < entries.len() ==> key_order(entry_key(#[trigger] entries@[a]), entry_key(#[trigger] entries@[b])) < 0,
            forall|e: int| 0 <= e < entries.len() ==> !crate::coeff::is_zero_value((#[trigger] entries@[e]).coeff@),
            forall|e: int| 0 <= e < entries.len() ==> entry_sound(terms_view(definition.rhs@), #[trigger] entries@[e]),
            forall|k: int| 0 <= k < families.len() ==> family_valid((#[trigger] families@[k]).1@),
            forall|k: int| 0 <= k < families.len() ==> family_sound(rhs, (#[trigger] families@[k]).1@),
            forall|k: int| 0 <= k < families.len() ==> lists_covered((#[trigger] families@[k]).0@, families@[k].1@),
            forall|a: int, b: int| 0 <= a < b < families.len() ==> lex_order(usize_keys((#[trigger] families@[a]).0@), usize_keys((#[trigger] families@[b]).0@)) == -1,
            rhs == terms_view(definition.rhs@),
        decreases entries.len() - i,
    {
        let mut j = i + 1;
        while j < entries.len() && compare_indices(&entries[j].exts, &entries[i].exts) == 0
            invariant
                i < j <= entries.len(),
                forall|x: int| i <= x < j ==> (#[trigger] entries@[x]).exts@ == entries@[i as int].exts@,
            decreases entries.len() - j,
        {
            j = j + 1;
        }
        proof {
            assert forall|a: int, b: int| i <= a < b < j implies (#[trigger] entries@[a]).tensor.0 <= (#[trigger] entries@[b]).tensor.0
                && !(entries@[a].tensor == entries@[b].tensor && entries@[a].indices@ == entries@[b].indices@) by {
                assert(key_order(entry_key(entries@[a]), entry_key(entries@[b])) < 0);
                crate::order::lemma_lex_order_zero(
                    crate::order::index_keys(entries@[a].exts@),
                    crate::order::index_keys(entries@[b].exts@),
                );
                if entries@[a].tensor == entries@[b].tensor {
                    crate::order::lemma_lex_order_zero(
                        crate::order::id_keys(entries@[a].indices@),
                        crate::order::id_keys(entries@[b].indices@),
                    );
                }
            }
        }
        assert(j == entries.len() || entries@[j as int].exts@ != entries@[i as int].exts@);
        let exts = &entries[i].exts;
        assert(distinct_ids(exts@));
        let rooted = rooted_terms(exts, &entries, i, j, Ghost(terms_view(definition.rhs@)));
        assert(rooted_for(rhs, entries@, entries@[i as int].exts@, i as int, j as int, rooted@));
        let mut found = maximal_families(exts, &rooted, Ghost(terms_view(definition.rhs@)));
        let ghost found0 = found@;
        let ghost start = families@;
        while found.len() > 0
            invariant
                found.len() <= found0.len(),
                forall|k: int| 0 <= k < found.len() ==> #[trigger] found@[k] == found0[k + (found0.len() - found.len())],
                forall|k: int| 0 <= k < found0.len() ==> lists_covered((#[trigger] found0[k]).0@, found0[k].1@),
                forall|k: int| 0 <= k < found0.len() - found.len() ==> has_coverage(family_views(families@), covered_set((#[trigger] found0[k]).1@)),
                forall|s: Set<usize>| #[trigger] has_coverage(family_views(start), s) ==> has_coverage(family_views(families@), s),
                forall|k: int| 0 <= k < found.len() ==> family_valid((#[trigger] found@[k]).1@),
                forall|k: int| 0 <= k < families.len() ==> family_valid((#[trigger] families@[k]).1@),
                forall|k: int| 0 <= k < found.len() ==> family_sound(rhs, (#[trigger] found@[k]).1@),
                forall|k: int| 0 <= k < families.len() ==> family_sound(rhs, (#[trigger] families@[k]).1@),
                forall|k: int| 0 <= k < found.len() ==> lists_covered((#[trigger] found@[k]).0@, found@[k].1@),
                forall|k: int| 0 <= k < families.len() ==> lists_covered((#[trigger] families@[k]).0@, families@[k].1@),
                forall|a: int, b: int| 0 <= a < b < families.len() ==> lex_order(usize_keys((#[trigger] families@[a]).0@), usize_keys((#[trigger] families@[b]).0@)) == -1,
            decreases found.len(),
        {
            let ghost found_before = found@;
            let ghost fams_before = families@;
            let (covered, family) = found.remove(0);
            assert(found_before[0] == found0[found0.len() - found_before.len()]);
            assert forall|k: int| 0 <= k < found.len() implies #[trigger] found@[k] == found0[k + (found0.len() - found.len())] by {
                assert(found@[k] == found_before[k + 1]);
            }
            assert(family_valid(family@));
            assert(family_sound(rhs, family@) && lists_covered(covered@, family@)) by {
                assert(found_before[0].1 == family);
                assert(found_before[0].0 == covered);
            }
            assert forall|k: int| 0 <= k < found.len() implies lists_covered((#[trigger] found@[k]).0@, found@[k].1@) by {
                assert(found@[k] == found_before[k + 1]);
            }
            let mut at: usize = 0;
            let mut same = false;
            let mut stop = false;
            while at < families.len() && !stop
                invariant
                    at <= families.len(),
                    same ==> stop && at < families.len(),
                    same ==> families@[at as int].0@ == covered@,
                    stop && !same ==> at < families.len() && lex_order(usize_keys(families@[at as int].0@), usize_keys(covered@)) == 1,
                    forall|k: int| 0 <= k < at ==> lex_order(usize_keys((#[trigger] families@[k]).0@), usize_keys(covered@)) == -1,
                decreases families.len() - at + if stop { 0int } else { 1int },
            {
                let order = compare_usizes(&families[at].0, &covered);
                proof {
                    lemma_lex_order_zero(usize_keys(families@[at as int].0@), usize_keys(covered@));
                }
                if order == 0 {
                    same = true;
                    stop = true;
                } else if order > 0 {
                    stop = true;
                } else {
                    at = at + 1;
                }
            }
            let ghost fam_view = family@;
            let ghost cov_view = covered@;
            if same {
                assert(family_valid(families@[at as int].1@));
                proof {
                    lemma_covered_set(families@[at as int].0@, families@[at as int].1@);
                    lemma_covered_set(covered@, family@);
                }
                if compare_families(&family, &families[at].1) < 0 {
                    let ghost before = families@;
                    families.set(at, (covered, family));
                    proof {
                        lemma_replace_keeps_coverage(before, at as int, families@[at as int]);
                        assert(families@ == before.update(at as int, families@[at as int]));
                        assert forall|k: int| 0 <= k < families.len() implies family_valid((#[trigger] families@[k]).1@)
                            && family_sound(rhs, families@[k].1@) && lists_covered(families@[k].0@, families@[k].1@) by {
                            if k != at {
                                assert(families@[k] == before[k]);
                            }
                        }
                        assert(families@[at as int].0@ == before[at as int].0@);
                        assert forall|a: int, b: int| 0 <= a < b < families.len() implies lex_order(usize_keys((#[trigger] families@[a]).0@), usize_keys((#[trigger] families@[b]).0@)) == -1 by {
                            assert(families@[a].0@ == before[a].0@);
                            assert(families@[b].0@ == before[b].0@);
                        }
                    }
                } else {
                    proof {
                        assert(family_views(families@)[at as int] == families@[at as int].1@);
                        assert(has_coverage(family_views(families@), covered_set(fam_view)));
                    }
                }
            } else {
                let ghost before = families@;
                families.insert(at, (covered, family));
                proof {
                    lemma_insert_keeps_coverage(before, at as int, families@[at as int]);
                    assert(families@ == before.insert(at as int, families@[at as int]));
                    assert forall|k: int| 0 <= k < families.len() implies family_valid((#[trigger] families@[k]).1@)
                        && family_sound(rhs, families@[k].1@) && lists_covered(families@[k].0@, families@[k].1@) by {
                        if k < at {
                            assert(families@[k] == before[k]);
                        } else if k > at {
                            assert(families@[k] == before[k - 1]);
                        }
                    }
                    let key = usize_keys(covered@);
                    if at < before.len() {
                        assert(stop);
                        assert(lex_order(usize_keys(before[at as int].0@), key) == 1);
                        lemma_lex_order_swap(usize_keys(before[at as int].0@), key);
                    }
                    assert forall|x: int| at <= x < before.len() implies lex_order(key, usize_keys((#[trigger] before[x]).0@)) == -1 by {
                        assert(lex_order(key, usize_keys(before[at as int].0@)) == -1);
                        if x > at {
                            assert(lex_order(usize_keys(before[at as int].0@), usize_keys(before[x].0@)) == -1);
                            lemma_lex_order_trans(key, usize_keys(before[at as int].0@), usize_keys(before[x].0@));
                            lemma_lex_order_zero(key, usize_keys(before[x].0@));
                        }
                    }
                    assert forall|a: int, b: int| 0 <= a < b < families.len() implies lex_order(usize_keys((#[trigger] families@[a]).0@), usize_keys((#[trigger] families@[b]).0@)) == -1 by {
                        if b < at {
                            assert(families@[a] == before[a] && families@[b] == before[b]);
                        } else if b == at {
                            assert(families@[a] == before[a]);
                        } else if a < at {
                            assert(families@[a] == before[a] && families@[b] == before[b - 1]);
                            assert(lex_order(usize_keys(before[a].0@), key) == -1);
                            assert(lex_order(key, usize_keys(before[b - 1].0@)) == -1);
                            lemma_lex_order_trans(usize_keys(before[a].0@), key, usize_keys(before[b - 1].0@));
                            lemma_lex_order_zero(usize_keys(before[a].0@), usize_keys(before[b - 1].0@));
                        } else if a == at {
                            assert(families@[b] == before[b - 1]);
                        } else {
                            assert(families@[a] == before[a - 1] && families@[b] == before[b - 1]);
                        }
                    }
                }
            }
            proof {
                assert(has_coverage(family_views(families@), covered_set(fam_view)));
                assert(forall|s: Set<usize>| #[trigger] has_coverage(family_views(fams_before), s) ==> has_coverage(family_views(families@), s));
                assert forall|k: int| 0 <= k < found0.len() - found.len() implies has_coverage(family_views(families@), covered_set((#[trigger] found0[k]).1@)) by {
                    if k < found0.len() - found_before.len() {
                        assert(has_coverage(family_views(fams_before), covered_set(found0[k].1@)));
                    } else {
                        assert(found0[k].1@ == fam_view);
                    }
                }
                assert forall|s: Set<usize>| #[trigger] has_coverage(family_views(start), s) implies has_coverage(family_views(families@), s) by {
                    assert(has_coverage(family_views(fams_before), s));
                }
            }
        }
        proof {
            lemma_group_done(rhs, entries@, i as int, j as int, rooted@, found0, family_views(families@));
            assert forall|a: int, b: int| #[trigger] group_run(entries@, a, b) && b <= j implies group_covered(rhs, entries@, a, b, family_views(families@)) by {
                if b <= i {
                    lemma_group_covered_mono(rhs, entries@, a, b, family_views(start), family_views(families@));
                } else if a < i {
                    assert(entries@[i - 1].exts@ == entries@[a].exts@);
                    assert(entries@[i as int].exts@ == entries@[a].exts@);
                } else if a > i {
                    assert(entries@[a - 1].exts@ == entries@[i as int].exts@);
                    assert(entries@[a].exts@ == entries@[i as int].exts@);
                } else if b < j {
                    assert(entries@[b].exts@ == entries@[i as int].exts@);
                }
            }
        }
        i = j;
    }
    let ghost fin = families@;
    proof {
        assert forall|a: int, b: int| 0 <= a < b < fin.len() implies !same_coverage(#[trigger] fin[a].1@, #[trigger] fin[b].1@) by {
            lemma_sorted_covers_differ(fin[a].0@, fin[a].1@, fin[b].0@, fin[b].1@);
        }
    }
    let mut values: Vec<PermutationFamily> = Vec::new();
    while families.len() > 0
        invariant
            forall|k: int| 0 <= k < families.len() ==> family_valid((#[trigger] families@[k]).1@),
            forall|k: int| 0 <= k < values.len() ==> family_valid((#[trigger] values@[k])@),
            forall|k: int| 0 <= k < families.len() ==> family_sound(rhs, (#[trigger] families@[k]).1@),
            forall|k: int| 0 <= k < values.len() ==> family_sound(rhs, (#[trigger] values@[k])@),
            values.len() + families.len() == fin.len(),
            forall|k: int| 0 <= k < values.len() ==> (#[trigger] values@[k])@ == fin[k].1@,
            forall|k: int| 0 <= k < families.len() ==> #[trigger] families@[k] == fin[values.len() + k],
        decreases families.len(),
    {
        let ghost before = families@;
        let (_, family) = families.remove(0);
        assert(family == fin[values.len() as int].1);
        assert forall|k: int| 0 <= k < families.len() implies #[trigger] families@[k] == fin[values.len() + 1 + k] by {
            assert(families@[k] == before[k + 1]);
        }
        values.push(family);
    }
    let space = PermutationSpace { target, base: definition.base, families: values };
    proof {
        assert(space@.families =~= family_views(fin)) by {
            assert forall|k: int| 0 <= k < fin.len() implies space@.families[k] == family_views(fin)[k] by {
                assert(space@.families[k] == values@[k]@);
            }
        }
        assert(families_complete(definition.exts@, rhs, space@.families)) by {
            assert(entries_for(definition.exts@, rhs, entries@));
        }
        assert forall|k: int| 0 <= k < space@.families.len() implies family_valid(#[trigger] space@.families[k])
            && family_sound(rhs, space@.families[k]) by {
            assert(space@.families[k] == values@[k]@);
        }
        assert forall|a: int, b: int| 0 <= a < b < space@.families.len() implies !same_coverage(
            #[trigger] space@.families[a],
            #[trigger] space@.families[b],
        ) by {
            assert(space@.families[a] == values@[a]@);
            assert(space@.families[b] == values@[b]@);
            assert(!same_coverage(fin[a].1@, fin[b].1@));
        }
    }
    Ok(space)
}

/// The first slot of `ids` that holds `id`.
pub open spec fn first_slot(ids: Seq<IndexId>, id: IndexId) -> int {
    choose|p: int| 0 <= p < ids.len() && ids[p] == id && forall|q: int| 0 <= q < p ==> ids[q] != id
}

/// The image of `id` when slot `p` of `ids` moves to slot `perm[p]`; an
/// identity outside `ids` stays.
pub open spec fn substituted(ids: Seq<IndexId>, perm: Seq<usize>, id: IndexId) -> IndexId {
    if ids.contains(id) && first_slot(ids, id) < perm.len() && perm[first_slot(ids, id)] < ids.len() {
        ids[perm[first_slot(ids, id)] as int]
    } else {
        id
    }
}

/// The replacement terms: each use of the intermediate `reference`, its
/// slots permuted and its coefficient multiplied by the use's.
pub open spec fn use_terms(a: PermutationActionView, coeff: CoeffView, reference: TensorRefView) -> Seq<TermView> {
    let ids = crate::state::intermediate::ids_of(a.intermediate.exts);
    Seq::new(
        a.uses.len(),
        |u: int|
            TermView {
                sums: Seq::empty(),
                coeff: ratio_product(coeff, a.uses[u].1),
                factors: seq![
                    TensorRefView {
                        tensor: reference.tensor,
                        indices: reference.indices.map_values(|id: IndexId| substituted(ids, a.uses[u].0, id)),
                    },
                ],
            },
    )
}

/// `after` is `before` with the intermediate added and the covered terms
/// replaced by its uses.
pub open spec fn applies_permutation(before: StateView, a: PermutationActionView, after: StateView) -> bool {
    exists|s1: StateView, coeff: CoeffView, reference: TensorRefView|
        #[trigger] adds_intermediate(before, a.intermediate, s1, coeff, reference) && replaces_terms(
            s1,
            a.target.0 as int,
            a.terms,
            use_terms(a, coeff, reference),
            after,
        )
}

fn substitute_index(ids: &Vec<IndexId>, perm: &Vec<usize>, id: IndexId) -> (r: IndexId)
    ensures
        r == substituted(ids@, perm@, id),
{
    let mut p: usize = 0;
    while p < ids.len()
        invariant
            p <= ids.len(),
            forall|q: int| 0 <= q < p ==> ids@[q] != id,
        decreases ids.len() - p,
    {
        if ids[p] == id {
            proof {
                assert(ids@.contains(id));
                let f = first_slot(ids@, id);
                assert(0 <= f < ids.len() && ids@[f] == id && forall|q: int| 0 <= q < f ==> ids@[q] != id);
                if f < p {
                    assert(ids@[f] != id);
                }
                if f > p {
                    assert(ids@[p as int] != id);
                }
            }
            if p < perm.len() && perm[p] < ids.len() {
                return ids[perm[p]];
            }
            return id;
        }
        p = p + 1;
    }
    id
}

/// Why applying a permutation factorization fails with `e`: adding the
/// intermediate fails, or replacing the covered terms by its uses after it.
pub open spec fn permutation_failure(before: StateView, a: PermutationActionView, e: StateError) -> bool {
    ||| crate::state::intermediate::intermediate_failure(before, a.intermediate, e)
    ||| exists|s1: StateView, coeff: CoeffView, reference: TensorRefView|
        #[trigger] adds_intermediate(before, a.intermediate, s1, coeff, reference) && crate::state::replace_failure(
            s1,
            a.target.0 as int,
            a.terms,
            use_terms(a, coeff, reference),
            e,
        )
}

/// Apply a permutation factorization to a state.
pub fn apply(state: &mut State, action: PermutationAction) -> (r: Result<(), StateError>)
    ensures
        r is Ok ==> applies_permutation(old(state)@, action@, final(state)@),
        r matches Err(e) ==> permutation_failure(old(state)@, action@, e),
        r is Ok ==> crate::state::state_valid(final(state)@.computation, final(state)@.protected_outputs),
        final(state)@.protected_outputs == old(state)@.protected_outputs,
{
    let ghost a = action@;
    let ghost s0 = state@;
    let PermutationAction { target, terms, intermediate, uses } = action;
    let mut ids: Vec<IndexId> = Vec::new();
    let mut k: usize = 0;
    while k < intermediate.exts.len()
        invariant
            k <= intermediate.exts.len(),
            ids@ =~= crate::state::intermediate::ids_of(intermediate.exts@).subrange(0, k as int),
        decreases intermediate.exts.len() - k,
    {
        ids.push(intermediate.exts[k].id);
        k = k + 1;
    }
    assert(ids@ =~= crate::state::intermediate::ids_of(a.intermediate.exts));
    let (coeff, reference) = match state.add_intermediate(intermediate) {
        Ok(v) => v,
        Err(e) => {
            return Err(e);
        },
    };
    let ghost s1 = state@;
    let mut replacements: Vec<Term> = Vec::new();
    let mut u: usize = 0;
    while u < uses.len()
        invariant
            u <= uses.len(),
            a.uses == uses@.map_values(|x: (Vec<usize>, Coefficient)| (x.0@, x.1@)),
            ids@ == crate::state::intermediate::ids_of(a.intermediate.exts),
            terms_view(replacements@) =~= use_terms(a, coeff@, reference@).subrange(0, u as int),
        decreases uses.len() - u,
    {
        let perm = &uses[u].0;
        let mut indices: Vec<IndexId> = Vec::new();
        let mut j: usize = 0;
        while j < reference.indices.len()
            invariant
                j <= reference.indices.len(),
                indices@ =~= reference.indices@.subrange(0, j as int).map_values(|id: IndexId| substituted(ids@, perm@, id)),
            decreases reference.indices.len() - j,
        {
            let image = substitute_index(&ids, perm, reference.indices[j]);
            indices.push(image);
            j = j + 1;
        }
        assert(reference.indices@.subrange(0, reference.indices.len() as int) =~= reference.indices@);
        let mut factors: Vec<TensorRef> = Vec::new();
        factors.push(TensorRef { tensor: reference.tensor, indices });
        let term = Term { sums: Vec::new(), coeff: coeff.mul(&uses[u].1), factors };
        let ghost before = replacements@;
        proof {
            assert(a.uses[u as int] == (uses@[u as int].0@, uses@[u as int].1@));
            assert(term@ =~= use_terms(a, coeff@, reference@)[u as int]);
        }
        replacements.push(term);
        assert(terms_view(replacements@) =~= terms_view(before).push(term@));
        u = u + 1;
    }
    assert(terms_view(replacements@) =~= use_terms(a, coeff@, reference@));
    proof {
        assert(adds_intermediate(s0, a.intermediate, s1, coeff@, reference@));
    }
    match state.replace_terms(target.0, terms.as_slice(), replacements) {
        Ok(()) => {},
        Err(e) => {
            return Err(e);
        },
    }
    Ok(())
}

} // verus!
