//! Permutation invariance of the refinement, and its soundness consequence.
//!
//! Relabeling a graph's nodes by a bijection changes neither any round's
//! labels (up to the same relabeling), nor the round at which refinement
//! stabilizes, nor the final invariant. Contrapositively, two graphs with
//! different invariants cannot be relabelings of one another: unequal
//! invariants prove non-isomorphism.
use crate::graph::{
    degree_undir, edges_between, in_degree, in_labels, nbr_labels_undir, out_degree, out_labels,
    Graph,
};
use crate::refine::{
    col_of, consistent_relabel, init2_label, init_label, initial2_labels, initial_labels, invariant2_after,
    invariant_after, labels2_after, labels_after, lemma_labels2_after_len, lemma_labels_after_len,
    lemma_pair_index_bounds, lemma_pair_index_decodes, lemma_row_exists, lemma_tri_formula,
    lemma_tri_mono, next2_label, next_label, pair_index, pair_row, row_of, stable2_at, stable_at,
    step2_labels, step_labels, tri, triple_pair,
};
use crate::sorting::{pair_le, sort_pairs, sort_words, word_le};
use vstd::multiset::Multiset;
use vstd::prelude::*;
use vstd::seq_lib::lemma_sorted_unique;

verus! {

/// Some node is sent to `w` by `p`.
pub open spec fn has_preimage(p: Seq<usize>, n: nat, w: int) -> bool {
    exists|i: int| 0 <= i < n && (#[trigger] p[i]) as int == w
}

/// `p` maps the node indices `0..n` one-to-one onto themselves.
pub open spec fn bijection(p: Seq<usize>, n: nat) -> bool {
    &&& p.len() == n
    &&& forall|i: int| 0 <= i < n ==> (#[trigger] p[i]) < n
    &&& forall|i: int, j: int| 0 <= i < n && 0 <= j < n && p[i] == p[j] ==> i == j
    &&& forall|w: int| 0 <= w < n ==> #[trigger] has_preimage(p, n, w)
}

/// `h` is `g` with every node index relabeled through `p`: same size, same
/// directedness, and the edge list mapped endpoint-wise in order. In an
/// undirected graph an edge is an unordered connection, so a mapped edge may
/// also be written with its endpoints swapped.
pub open spec fn relabeled(g: Graph, h: Graph, p: Seq<usize>) -> bool {
    &&& h.spec_n() == g.spec_n()
    &&& h.spec_directed() == g.spec_directed()
    &&& h.spec_edges().len() == g.spec_edges().len()
    &&& forall|t: int|
        0 <= t < g.spec_edges().len() ==> (#[trigger] h.spec_edges()[t]) == (
        p[g.spec_edges()[t].0 as int],
        p[g.spec_edges()[t].1 as int],
        ) || (!g.spec_directed() && h.spec_edges()[t] == (
        p[g.spec_edges()[t].1 as int],
        p[g.spec_edges()[t].0 as int],
        ))
}

/// The label buffer `lt` is the label buffer `ls` transported through `p`.
pub open spec fn labels_correspond<A>(p: Seq<usize>, n: nat, ls: Seq<A>, lt: Seq<A>) -> bool {
    &&& ls.len() == n
    &&& lt.len() == n
    &&& forall|v: int| 0 <= v < n ==> lt[(#[trigger] p[v]) as int] == ls[v]
}

/// A relabeled graph is well-formed.
pub proof fn lemma_relabeled_wf(g: Graph, h: Graph, p: Seq<usize>)
    requires
        g.wf(),
        bijection(p, g.spec_n()),
        relabeled(g, h, p),
    ensures
        h.wf(),
{
    assert forall|t: int|
        0 <= t < h.spec_edges().len() implies (#[trigger] h.spec_edges()[t]).0 < h.spec_n()
        && h.spec_edges()[t].1 < h.spec_n() by {
        assert(g.spec_edges()[t].0 < g.spec_n() && g.spec_edges()[t].1 < g.spec_n());
    }
}

/// Transporting labels through a relabeling preserves every node's undirected
/// view of its neighbourhood, whichever way around each mapped edge was
/// written: neighbour label lists and degrees.
proof fn lemma_neighbourhood_relabel_undir(
    ge: Seq<(usize, usize)>,
    he: Seq<(usize, usize)>,
    p: Seq<usize>,
    n: nat,
    ls: Seq<u64>,
    lt: Seq<u64>,
    v: int,
)
    requires
        bijection(p, n),
        ge.len() == he.len(),
        forall|t: int| 0 <= t < ge.len() ==> (#[trigger] ge[t]).0 < n && ge[t].1 < n,
        forall|t: int|
            0 <= t < ge.len() ==> (#[trigger] he[t]) == (p[ge[t].0 as int], p[ge[t].1 as int])
                || he[t] == (p[ge[t].1 as int], p[ge[t].0 as int]),
        labels_correspond(p, n, ls, lt),
        0 <= v < n,
    ensures
        nbr_labels_undir(he, lt, p[v] as int) == nbr_labels_undir(ge, ls, v),
        degree_undir(he, p[v] as int) == degree_undir(ge, v),
    decreases ge.len(),
{
    if ge.len() > 0 {
        let ge1 = ge.drop_last();
        let he1 = he.drop_last();
        assert(forall|t: int| 0 <= t < ge1.len() ==> ge1[t] == #[trigger] ge[t]);
        assert(forall|t: int| 0 <= t < he1.len() ==> he1[t] == #[trigger] he[t]);
        lemma_neighbourhood_relabel_undir(ge1, he1, p, n, ls, lt, v);
        let a = ge.last().0;
        let b = ge.last().1;
        assert(he.last() == (p[a as int], p[b as int]) || he.last() == (
            p[b as int],
            p[a as int],
        ));
        assert(p[a as int] == p[v] <==> a == v);
        assert(p[b as int] == p[v] <==> b == v);
        assert(lt[p[a as int] as int] == ls[a as int]);
        assert(lt[p[b as int] as int] == ls[b as int]);
    }
}

/// Transporting labels through a relabeling preserves every node's directed
/// view of its neighbourhood: arc label lists and arc degrees.
proof fn lemma_neighbourhood_relabel_dir(
    ge: Seq<(usize, usize)>,
    he: Seq<(usize, usize)>,
    p: Seq<usize>,
    n: nat,
    ls: Seq<u64>,
    lt: Seq<u64>,
    v: int,
)
    requires
        bijection(p, n),
        ge.len() == he.len(),
        forall|t: int| 0 <= t < ge.len() ==> (#[trigger] ge[t]).0 < n && ge[t].1 < n,
        forall|t: int|
            0 <= t < ge.len() ==> (#[trigger] he[t]) == (p[ge[t].0 as int], p[ge[t].1 as int]),
        labels_correspond(p, n, ls, lt),
        0 <= v < n,
    ensures
        in_labels(he, lt, p[v] as int) == in_labels(ge, ls, v),
        out_labels(he, lt, p[v] as int) == out_labels(ge, ls, v),
        in_degree(he, p[v] as int) == in_degree(ge, v),
        out_degree(he, p[v] as int) == out_degree(ge, v),
    decreases ge.len(),
{
    if ge.len() > 0 {
        let ge1 = ge.drop_last();
        let he1 = he.drop_last();
        assert(forall|t: int| 0 <= t < ge1.len() ==> ge1[t] == #[trigger] ge[t]);
        assert(forall|t: int| 0 <= t < he1.len() ==> he1[t] == #[trigger] he[t]);
        lemma_neighbourhood_relabel_dir(ge1, he1, p, n, ls, lt, v);
        let a = ge.last().0;
        let b = ge.last().1;
        assert(he.last() == (p[a as int], p[b as int]));
        assert(p[a as int] == p[v] <==> a == v);
        assert(p[b as int] == p[v] <==> b == v);
        assert(lt[p[a as int] as int] == ls[a as int]);
        assert(lt[p[b as int] as int] == ls[b as int]);
    }
}

/// Transporting labels through a relabeling preserves every node's next
/// label, hence a whole refinement round.
proof fn lemma_step_relabel(g: Graph, h: Graph, p: Seq<usize>, seed: u64, ls: Seq<u64>, lt: Seq<
    u64,
>)
    requires
        g.wf(),
        bijection(p, g.spec_n()),
        relabeled(g, h, p),
        labels_correspond(p, g.spec_n(), ls, lt),
    ensures
        labels_correspond(p, g.spec_n(), step_labels(g, seed, ls), step_labels(h, seed, lt)),
{
    let n = g.spec_n();
    assert forall|v: int|
        0 <= v < n implies step_labels(h, seed, lt)[(#[trigger] p[v]) as int] == step_labels(
        g,
        seed,
        ls,
    )[v] by {
        if g.spec_directed() {
            lemma_neighbourhood_relabel_dir(g.spec_edges(), h.spec_edges(), p, n, ls, lt, v);
        } else {
            lemma_neighbourhood_relabel_undir(g.spec_edges(), h.spec_edges(), p, n, ls, lt, v);
        }
        assert(next_label(h, seed, lt, p[v] as int) == next_label(g, seed, ls, v));
    }
}

/// Every round of refinement commutes with relabeling: the labels of the
/// relabeled graph are the labels of the original, transported through `p`.
pub proof fn lemma_labels_after_relabel(g: Graph, h: Graph, p: Seq<usize>, seed: u64, k: nat)
    requires
        g.wf(),
        bijection(p, g.spec_n()),
        relabeled(g, h, p),
    ensures
        labels_correspond(p, g.spec_n(), labels_after(g, seed, k), labels_after(h, seed, k)),
    decreases k,
{
    let n = g.spec_n();
    lemma_labels_after_len(g, seed, k);
    lemma_labels_after_len(h, seed, k);
    if k == 0 {
        assert forall|v: int|
            0 <= v < n implies initial_labels(h, seed)[(#[trigger] p[v]) as int] == initial_labels(
            g,
            seed,
        )[v] by {
            if g.spec_directed() {
                lemma_neighbourhood_relabel_dir(
                    g.spec_edges(),
                    h.spec_edges(),
                    p,
                    n,
                    Seq::new(n, |w: int| 0u64),
                    Seq::new(n, |w: int| 0u64),
                    v,
                );
            } else {
                lemma_neighbourhood_relabel_undir(
                    g.spec_edges(),
                    h.spec_edges(),
                    p,
                    n,
                    Seq::new(n, |w: int| 0u64),
                    Seq::new(n, |w: int| 0u64),
                    v,
                );
            }
            assert(init_label(h, seed, p[v] as int) == init_label(g, seed, v));
        }
    } else {
        lemma_labels_after_relabel(g, h, p, seed, (k - 1) as nat);
        lemma_labels_after_len(g, seed, (k - 1) as nat);
        lemma_labels_after_len(h, seed, (k - 1) as nat);
        lemma_step_relabel(
            g,
            h,
            p,
            seed,
            labels_after(g, seed, (k - 1) as nat),
            labels_after(h, seed, (k - 1) as nat),
        );
    }
}

/// Corresponding label buffers hold the same labels, as a multiset.
pub proof fn lemma_correspond_multiset<A>(p: Seq<usize>, n: nat, ls: Seq<A>, lt: Seq<A>)
    requires
        bijection(p, n),
        labels_correspond(p, n, ls, lt),
    ensures
        ls.to_multiset() == lt.to_multiset(),
    decreases n,
{
    broadcast use vstd::seq_lib::group_to_multiset_ensures;
    broadcast use vstd::multiset::group_multiset_axioms;

    if n == 0 {
        assert(ls =~= lt);
    } else {
        let w0 = p[n - 1] as int;
        let ls1 = ls.drop_last();
        let lt1 = lt.remove(w0);
        let p1 = Seq::new((n - 1) as nat, |i: int| if (p[i] as int) < w0 {
            p[i]
        } else {
            (p[i] - 1) as usize
        });
        assert forall|i: int, j: int|
            0 <= i < n - 1 && 0 <= j < n - 1 && p1[i] == p1[j] implies i == j by {
            assert(p[i] != p[n - 1] && p[j] != p[n - 1]);
        }
        assert forall|w: int| 0 <= w < n - 1 implies #[trigger] has_preimage(
            p1,
            (n - 1) as nat,
            w,
        ) by {
            let target: int = if w < w0 {
                w
            } else {
                w + 1
            };
            assert(has_preimage(p, n, target));
            let i = choose|i: int| 0 <= i < n && (#[trigger] p[i]) as int == target;
            assert(i != n - 1);
            assert(p1[i] as int == w);
        }
        assert(bijection(p1, (n - 1) as nat));
        lt.remove_ensures(w0);
        assert forall|v: int|
            0 <= v < n - 1 implies lt1[(#[trigger] p1[v]) as int] == ls1[v] by {
            assert(p[v] != p[n - 1]);
            if (p[v] as int) < w0 {
                assert(lt1[p1[v] as int] == lt[p[v] as int]);
            } else {
                assert(lt1[p1[v] as int] == lt[p[v] as int]);
            }
        }
        lemma_correspond_multiset(p1, (n - 1) as nat, ls1, lt1);
        vstd::seq_lib::to_multiset_build(ls1, ls[n - 1]);
        assert(ls =~= ls1.push(ls[n - 1]));
        assert(ls.to_multiset() == ls1.to_multiset().insert(ls[n - 1]));
        assert(lt1.to_multiset() == lt.to_multiset().remove(lt[w0]));
        assert(lt[w0] == ls[n - 1]);
        assert(lt.to_multiset().contains(lt[w0]));
        assert(lt.to_multiset() =~= lt1.to_multiset().insert(lt[w0]));
        assert(ls.to_multiset() =~= lt.to_multiset());
    }
}

/// Corresponding label buffers induce the same partition-refinement verdict.
pub proof fn lemma_consistent_relabel_correspond(
    p: Seq<usize>,
    n: nat,
    ls0: Seq<u64>,
    ls1: Seq<u64>,
    lt0: Seq<u64>,
    lt1: Seq<u64>,
)
    requires
        bijection(p, n),
        labels_correspond(p, n, ls0, lt0),
        labels_correspond(p, n, ls1, lt1),
    ensures
        consistent_relabel(ls0, ls1) <==> consistent_relabel(lt0, lt1),
{
    if consistent_relabel(ls0, ls1) {
        assert forall|i: int, j: int|
            0 <= i < lt0.len() && 0 <= j < lt0.len() && lt0[i] == lt0[j] implies lt1[i]
            == lt1[j] by {
            assert(has_preimage(p, n, i));
            assert(has_preimage(p, n, j));
            let a = choose|a: int| 0 <= a < n && (#[trigger] p[a]) as int == i;
            let b = choose|b: int| 0 <= b < n && (#[trigger] p[b]) as int == j;
            assert(ls0[a] == lt0[i] && ls0[b] == lt0[j]);
            assert(ls1[a] == ls1[b]);
            assert(lt1[i] == ls1[a] && lt1[j] == ls1[b]);
        }
    }
    if consistent_relabel(lt0, lt1) {
        assert forall|i: int, j: int|
            0 <= i < ls0.len() && 0 <= j < ls0.len() && ls0[i] == ls0[j] implies ls1[i]
            == ls1[j] by {
            assert(lt0[p[i] as int] == ls0[i] && lt0[p[j] as int] == ls0[j]);
            assert(lt1[p[i] as int] == lt1[p[j] as int]);
        }
    }
}

/// Sorting two buffers with equal multisets gives the same sequence.
pub proof fn lemma_sort_words_of_multiset(a: Seq<u64>, b: Seq<u64>)
    requires
        a.to_multiset() == b.to_multiset(),
    ensures
        sort_words(a) == sort_words(b),
{
    crate::sorting::lemma_word_le_total();
    a.lemma_sort_by_ensures(word_le());
    b.lemma_sort_by_ensures(word_le());
    lemma_sorted_unique(sort_words(a), sort_words(b), word_le());
    assert(sort_words(a) =~= sort_words(b));
}

/// Permutation invariance: relabeling a graph's nodes through any bijection
/// changes neither the invariant after any number of applied rounds, nor
/// whether refinement has stabilized at that round. Soundness is the
/// contrapositive: if two graphs have different invariants at the same round,
/// no relabeling turns one into the other, so they are not isomorphic.
pub proof fn lemma_permutation_invariance(g: Graph, h: Graph, p: Seq<usize>, seed: u64, k: nat)
    requires
        g.wf(),
        bijection(p, g.spec_n()),
        relabeled(g, h, p),
    ensures
        invariant_after(h, seed, k) == invariant_after(g, seed, k),
        stable_at(h, seed, k) <==> stable_at(g, seed, k),
{
    let n = g.spec_n();
    lemma_labels_after_relabel(g, h, p, seed, k);
    lemma_labels_after_relabel(g, h, p, seed, (k + 1) as nat);
    lemma_correspond_multiset(p, n, labels_after(g, seed, k), labels_after(h, seed, k));
    lemma_sort_words_of_multiset(labels_after(g, seed, k), labels_after(h, seed, k));
    lemma_consistent_relabel_correspond(
        p,
        n,
        labels_after(g, seed, k),
        labels_after(g, seed, (k + 1) as nat),
        labels_after(h, seed, k),
        labels_after(h, seed, (k + 1) as nat),
    );
}

/// In auto-stop mode, a graph and its relabeling stop at the same round and
/// yield the same invariant: the two runs' stopping rounds, each the first
/// stabilized round (or the safety bound if none), coincide.
pub proof fn lemma_auto_stop_permutation(
    g: Graph,
    h: Graph,
    p: Seq<usize>,
    seed: u64,
    k1: nat,
    k2: nat,
)
    requires
        g.wf(),
        bijection(p, g.spec_n()),
        relabeled(g, h, p),
        k1 <= g.spec_n(),
        forall|j: nat| j < k1 ==> !stable_at(g, seed, j),
        stable_at(g, seed, k1) || k1 == g.spec_n(),
        k2 <= h.spec_n(),
        forall|j: nat| j < k2 ==> !stable_at(h, seed, j),
        stable_at(h, seed, k2) || k2 == h.spec_n(),
    ensures
        k1 == k2,
        invariant_after(g, seed, k1) == invariant_after(h, seed, k2),
{
    if k1 < k2 {
        lemma_permutation_invariance(g, h, p, seed, k1);
        assert(!stable_at(h, seed, k1));
        assert(!stable_at(g, seed, k1));
        assert(k1 == g.spec_n());
        assert(false);
    }
    if k2 < k1 {
        lemma_permutation_invariance(g, h, p, seed, k2);
        assert(!stable_at(g, seed, k2));
        assert(!stable_at(h, seed, k2));
        assert(k2 == h.spec_n());
        assert(false);
    }
    lemma_permutation_invariance(g, h, p, seed, k1);
}

/// An edge with its endpoints in canonical order: the undirected reading.
pub open spec fn norm_edge(e: (usize, usize)) -> (usize, usize) {
    if e.0 <= e.1 {
        e
    } else {
        (e.1, e.0)
    }
}

/// Every edge brought to canonical endpoint order.
pub open spec fn norm_edges(s: Seq<(usize, usize)>) -> Seq<(usize, usize)> {
    s.map_values(|e: (usize, usize)| norm_edge(e))
}

/// The two graphs list the same connections, possibly in another order; an
/// undirected graph may also write an edge's endpoints either way around.
pub open spec fn same_edge_multiset(g1: Graph, g2: Graph) -> bool {
    &&& g2.spec_n() == g1.spec_n()
    &&& g2.spec_directed() == g1.spec_directed()
    &&& if g1.spec_directed() {
        g2.spec_edges().to_multiset() == g1.spec_edges().to_multiset()
    } else {
        norm_edges(g2.spec_edges()).to_multiset() == norm_edges(g1.spec_edges()).to_multiset()
    }
}

/// What one edge adds to `v`'s multiset of neighbour labels.
spec fn undir_contrib(e: (usize, usize), labels: Seq<u64>, v: int) -> Multiset<u64> {
    if e.0 == v {
        Multiset::singleton(labels[e.1 as int])
    } else if e.1 == v {
        Multiset::singleton(labels[e.0 as int])
    } else {
        Multiset::empty()
    }
}

/// What one arc adds to `v`'s multiset of incoming-source labels.
spec fn in_contrib(e: (usize, usize), labels: Seq<u64>, v: int) -> Multiset<u64> {
    if e.1 == v {
        Multiset::singleton(labels[e.0 as int])
    } else {
        Multiset::empty()
    }
}

/// What one arc adds to `v`'s multiset of outgoing-target labels.
spec fn out_contrib(e: (usize, usize), labels: Seq<u64>, v: int) -> Multiset<u64> {
    if e.0 == v {
        Multiset::singleton(labels[e.1 as int])
    } else {
        Multiset::empty()
    }
}

/// Dropping the edge at one index drops exactly its contribution from every
/// node's neighbour-label multisets.
proof fn lemma_contrib_remove(edges: Seq<(usize, usize)>, labels: Seq<u64>, v: int, t: int)
    requires
        0 <= t < edges.len(),
    ensures
        nbr_labels_undir(edges, labels, v).to_multiset() == nbr_labels_undir(
            edges.remove(t),
            labels,
            v,
        ).to_multiset().add(undir_contrib(edges[t], labels, v)),
        in_labels(edges, labels, v).to_multiset() == in_labels(
            edges.remove(t),
            labels,
            v,
        ).to_multiset().add(in_contrib(edges[t], labels, v)),
        out_labels(edges, labels, v).to_multiset() == out_labels(
            edges.remove(t),
            labels,
            v,
        ).to_multiset().add(out_contrib(edges[t], labels, v)),
    decreases edges.len(),
{
    broadcast use vstd::seq_lib::group_to_multiset_ensures;
    broadcast use vstd::multiset::group_multiset_axioms;

    if t == edges.len() - 1 {
        assert(edges.remove(t) =~= edges.drop_last());
        assert(nbr_labels_undir(edges, labels, v).to_multiset() =~= nbr_labels_undir(
            edges.drop_last(),
            labels,
            v,
        ).to_multiset().add(undir_contrib(edges[t], labels, v)));
        assert(in_labels(edges, labels, v).to_multiset() =~= in_labels(
            edges.drop_last(),
            labels,
            v,
        ).to_multiset().add(in_contrib(edges[t], labels, v)));
        assert(out_labels(edges, labels, v).to_multiset() =~= out_labels(
            edges.drop_last(),
            labels,
            v,
        ).to_multiset().add(out_contrib(edges[t], labels, v)));
    } else {
        let shorter = edges.drop_last();
        assert(edges.remove(t).drop_last() =~= shorter.remove(t));
        assert(edges.remove(t).last() == edges.last());
        lemma_contrib_remove(shorter, labels, v, t);
        assert(nbr_labels_undir(edges, labels, v).to_multiset() =~= nbr_labels_undir(
            edges.remove(t),
            labels,
            v,
        ).to_multiset().add(undir_contrib(edges[t], labels, v)));
        assert(in_labels(edges, labels, v).to_multiset() =~= in_labels(
            edges.remove(t),
            labels,
            v,
        ).to_multiset().add(in_contrib(edges[t], labels, v)));
        assert(out_labels(edges, labels, v).to_multiset() =~= out_labels(
            edges.remove(t),
            labels,
            v,
        ).to_multiset().add(out_contrib(edges[t], labels, v)));
    }
}

/// A node's degree is the length of its neighbour-label list.
proof fn lemma_degree_is_list_len(edges: Seq<(usize, usize)>, labels: Seq<u64>, v: int)
    ensures
        degree_undir(edges, v) == nbr_labels_undir(edges, labels, v).len(),
        in_degree(edges, v) == in_labels(edges, labels, v).len(),
        out_degree(edges, v) == out_labels(edges, labels, v).len(),
    decreases edges.len(),
{
    if edges.len() > 0 {
        lemma_degree_is_list_len(edges.drop_last(), labels, v);
    }
}

/// Edge lists with the same connection multiset give every node the same
/// neighbour-label multisets, whichever order they list the edges in.
proof fn lemma_nbr_multiset_same(
    e1: Seq<(usize, usize)>,
    e2: Seq<(usize, usize)>,
    directed: bool,
    labels: Seq<u64>,
    v: int,
)
    requires
        directed ==> e2.to_multiset() == e1.to_multiset(),
        !directed ==> norm_edges(e2).to_multiset() == norm_edges(e1).to_multiset(),
    ensures
        !directed ==> nbr_labels_undir(e2, labels, v).to_multiset() == nbr_labels_undir(
            e1,
            labels,
            v,
        ).to_multiset(),
        directed ==> in_labels(e2, labels, v).to_multiset() == in_labels(
            e1,
            labels,
            v,
        ).to_multiset() && out_labels(e2, labels, v).to_multiset() == out_labels(
            e1,
            labels,
            v,
        ).to_multiset(),
        e1.len() == e2.len(),
    decreases e1.len(),
{
    broadcast use vstd::seq_lib::group_to_multiset_ensures;
    broadcast use vstd::multiset::group_multiset_axioms;

    if directed {
        vstd::seq_lib::to_multiset_len(e1);
        vstd::seq_lib::to_multiset_len(e2);
    } else {
        vstd::seq_lib::to_multiset_len(norm_edges(e1));
        vstd::seq_lib::to_multiset_len(norm_edges(e2));
    }
    if e1.len() > 0 {
        let e = e1.last();
        let t: int;
        if directed {
            assert(e1.to_multiset().contains(e)) by {
                assert(e1[e1.len() - 1] == e);
            }
            assert(e2.to_multiset().contains(e));
            assert(e2.contains(e));
            t = choose|t: int| 0 <= t < e2.len() && e2[t] == e;
        } else {
            assert(norm_edges(e1).to_multiset().contains(norm_edge(e))) by {
                assert(norm_edges(e1)[e1.len() - 1] == norm_edge(e));
            }
            assert(norm_edges(e2).to_multiset().contains(norm_edge(e)));
            assert(norm_edges(e2).contains(norm_edge(e)));
            t = choose|t: int| 0 <= t < e2.len() && norm_edges(e2)[t] == norm_edge(e);
        }
        let e1s = e1.drop_last();
        let e2s = e2.remove(t);
        if directed {
            assert(e1.to_multiset() == e1s.to_multiset().insert(e)) by {
                assert(e1 =~= e1s.push(e));
            }
            assert(e2s.to_multiset() == e2.to_multiset().remove(e2[t]));
            assert(e2s.to_multiset() =~= e1s.to_multiset());
        } else {
            assert(norm_edges(e1) =~= norm_edges(e1s).push(norm_edge(e)));
            assert(norm_edges(e1).to_multiset() == norm_edges(e1s).to_multiset().insert(
                norm_edge(e),
            ));
            assert(norm_edges(e2s) =~= norm_edges(e2).remove(t));
            assert(norm_edges(e2s).to_multiset() == norm_edges(e2).to_multiset().remove(
                norm_edges(e2)[t],
            ));
            assert(norm_edges(e2s).to_multiset() =~= norm_edges(e1s).to_multiset());
        }
        lemma_nbr_multiset_same(e1s, e2s, directed, labels, v);
        lemma_contrib_remove(e2, labels, v, t);
        if directed {
            assert(in_labels(e1, labels, v).to_multiset() =~= in_labels(
                e1s,
                labels,
                v,
            ).to_multiset().add(in_contrib(e, labels, v)));
            assert(out_labels(e1, labels, v).to_multiset() =~= out_labels(
                e1s,
                labels,
                v,
            ).to_multiset().add(out_contrib(e, labels, v)));
        } else {
            assert(norm_edge(e2[t]) == norm_edge(e));
            assert(undir_contrib(e2[t], labels, v) =~= undir_contrib(e, labels, v));
            assert(nbr_labels_undir(e1, labels, v).to_multiset() =~= nbr_labels_undir(
                e1s,
                labels,
                v,
            ).to_multiset().add(undir_contrib(e, labels, v)));
        }
    }
}

/// Refinement does not depend on how the edge list is written down: listing
/// the same connections in any order (an undirected edge either way around)
/// gives the very same labels every round, the same stabilization behaviour
/// and the same invariant.
pub proof fn lemma_representation_independent(g1: Graph, g2: Graph, seed: u64, k: nat)
    requires
        same_edge_multiset(g1, g2),
    ensures
        labels_after(g2, seed, k) == labels_after(g1, seed, k),
        stable_at(g2, seed, k) <==> stable_at(g1, seed, k),
        invariant_after(g2, seed, k) == invariant_after(g1, seed, k),
    decreases k,
{
    let n = g1.spec_n();
    let directed = g1.spec_directed();
    if k == 0 {
        assert forall|v: int| 0 <= v < n implies init_label(g2, seed, v) == init_label(
            g1,
            seed,
            v,
        ) by {
            let dummy = Seq::new(n, |w: int| 0u64);
            lemma_nbr_multiset_same(g1.spec_edges(), g2.spec_edges(), directed, dummy, v);
            lemma_degree_is_list_len(g1.spec_edges(), dummy, v);
            lemma_degree_is_list_len(g2.spec_edges(), dummy, v);
            if directed {
                vstd::seq_lib::to_multiset_len(in_labels(g1.spec_edges(), dummy, v));
                vstd::seq_lib::to_multiset_len(in_labels(g2.spec_edges(), dummy, v));
                vstd::seq_lib::to_multiset_len(out_labels(g1.spec_edges(), dummy, v));
                vstd::seq_lib::to_multiset_len(out_labels(g2.spec_edges(), dummy, v));
            } else {
                vstd::seq_lib::to_multiset_len(nbr_labels_undir(g1.spec_edges(), dummy, v));
                vstd::seq_lib::to_multiset_len(nbr_labels_undir(g2.spec_edges(), dummy, v));
            }
        }
        assert(initial_labels(g2, seed) =~= initial_labels(g1, seed));
    } else {
        lemma_representation_independent(g1, g2, seed, (k - 1) as nat);
        let prev = labels_after(g1, seed, (k - 1) as nat);
        assert forall|v: int| 0 <= v < prev.len() implies next_label(g2, seed, prev, v)
            == next_label(g1, seed, prev, v) by {
            lemma_nbr_multiset_same(g1.spec_edges(), g2.spec_edges(), directed, prev, v);
            if directed {
                lemma_sort_words_of_multiset(
                    in_labels(g1.spec_edges(), prev, v),
                    in_labels(g2.spec_edges(), prev, v),
                );
                lemma_sort_words_of_multiset(
                    out_labels(g1.spec_edges(), prev, v),
                    out_labels(g2.spec_edges(), prev, v),
                );
            } else {
                lemma_sort_words_of_multiset(
                    nbr_labels_undir(g1.spec_edges(), prev, v),
                    nbr_labels_undir(g2.spec_edges(), prev, v),
                );
            }
        }
        assert(step_labels(g2, seed, prev) =~= step_labels(g1, seed, prev));
    }
    lemma_representation_next(g1, g2, seed, k);
}

proof fn lemma_representation_next(g1: Graph, g2: Graph, seed: u64, k: nat)
    requires
        same_edge_multiset(g1, g2),
        labels_after(g2, seed, k) == labels_after(g1, seed, k),
    ensures
        labels_after(g2, seed, (k + 1) as nat) == labels_after(g1, seed, (k + 1) as nat),
        stable_at(g2, seed, k) <==> stable_at(g1, seed, k),
        invariant_after(g2, seed, k) == invariant_after(g1, seed, k),
{
    let directed = g1.spec_directed();
    let cur = labels_after(g1, seed, k);
    assert forall|v: int| 0 <= v < cur.len() implies next_label(g2, seed, cur, v) == next_label(
        g1,
        seed,
        cur,
        v,
    ) by {
        lemma_nbr_multiset_same(g1.spec_edges(), g2.spec_edges(), directed, cur, v);
        if directed {
            lemma_sort_words_of_multiset(
                in_labels(g1.spec_edges(), cur, v),
                in_labels(g2.spec_edges(), cur, v),
            );
            lemma_sort_words_of_multiset(
                out_labels(g1.spec_edges(), cur, v),
                out_labels(g2.spec_edges(), cur, v),
            );
        } else {
            lemma_sort_words_of_multiset(
                nbr_labels_undir(g1.spec_edges(), cur, v),
                nbr_labels_undir(g2.spec_edges(), cur, v),
            );
        }
    }
    assert(step_labels(g2, seed, cur) =~= step_labels(g1, seed, cur));
}

/// Permutation invariance in full: if `h` lists, in any order, the edges of
/// `g` with every node index relabeled through a bijection (an undirected
/// edge written either way around), the two graphs share every round's
/// invariant and stabilization behaviour.
pub proof fn lemma_permutation_invariance_any_order(
    g: Graph,
    mid: Graph,
    h: Graph,
    p: Seq<usize>,
    seed: u64,
    k: nat,
)
    requires
        g.wf(),
        bijection(p, g.spec_n()),
        relabeled(g, mid, p),
        same_edge_multiset(mid, h),
    ensures
        invariant_after(h, seed, k) == invariant_after(g, seed, k),
        stable_at(h, seed, k) <==> stable_at(g, seed, k),
{
    lemma_permutation_invariance(g, mid, p, seed, k);
    lemma_representation_independent(mid, h, seed, k);
}

/// A triangular index within the pair-index space decodes to a canonical
/// pair of node indices, and encodes back to itself.
proof fn lemma_index_decode(q: int, n: nat)
    requires
        0 <= q < tri(n as int),
    ensures
        0 <= col_of(q) <= row_of(q) < n,
        pair_index(row_of(q), col_of(q)) == q,
{
    lemma_row_exists(q);
    let l = row_of(q);
    if l >= n {
        lemma_tri_mono(n as int, l);
        assert(false);
    }
    lemma_pair_index_decodes(l, col_of(q));
}

/// The canonical pair index of any two node indices lies in the pair-index
/// space.
proof fn lemma_pair_index_range(x: int, y: int, n: nat)
    requires
        0 <= x < n,
        0 <= y < n,
    ensures
        0 <= pair_index(x, y) < tri(n as int),
        pair_index(x, y) == pair_index(y, x),
{
    if x >= y {
        lemma_pair_index_bounds(x, y, n as int);
    } else {
        lemma_pair_index_bounds(y, x, n as int);
    }
}

/// Two unordered pairs with the same canonical index are the same pair.
proof fn lemma_pair_index_injective(x: int, y: int, x2: int, y2: int, n: nat)
    requires
        0 <= x < n,
        0 <= y < n,
        0 <= x2 < n,
        0 <= y2 < n,
        pair_index(x, y) == pair_index(x2, y2),
    ensures
        (x == x2 && y == y2) || (x == y2 && y == x2),
{
    let q = pair_index(x, y);
    lemma_pair_index_range(x, y, n);
    if x >= y {
        lemma_pair_index_decodes(x, y);
    } else {
        lemma_pair_index_decodes(y, x);
    }
    if x2 >= y2 {
        lemma_pair_index_decodes(x2, y2);
    } else {
        lemma_pair_index_decodes(y2, x2);
    }
}

/// The permutation a node relabeling induces on the triangular pair-index
/// space: the pair stored at `q` is sent to where its relabeled pair lives.
pub open spec fn pair_perm(p: Seq<usize>, n: nat) -> Seq<usize> {
    Seq::new(
        tri(n as int) as nat,
        |q: int| pair_index(p[row_of(q)] as int, p[col_of(q)] as int) as usize,
    )
}

/// A node bijection induces a bijection on the pair-index space.
#[verifier::rlimit(50)]
proof fn lemma_pair_perm_bijection(p: Seq<usize>, n: nat)
    requires
        bijection(p, n),
        tri(n as int) <= usize::MAX,
    ensures
        bijection(pair_perm(p, n), tri(n as int) as nat),
        forall|q: int|
            0 <= q < tri(n as int) ==> (#[trigger] pair_perm(p, n)[q]) as int == pair_index(
                p[row_of(q)] as int,
                p[col_of(q)] as int,
            ),
{
    lemma_tri_mono(0, n as int);
    let t = tri(n as int);
    let pp = pair_perm(p, n);
    assert forall|q: int| 0 <= q < t implies (#[trigger] pp[q]) as int == pair_index(
        p[row_of(q)] as int,
        p[col_of(q)] as int,
    ) && pp[q] < t by {
        lemma_index_decode(q, n);
        lemma_pair_index_range(p[row_of(q)] as int, p[col_of(q)] as int, n);
    }
    assert forall|a: int, b: int| 0 <= a < t && 0 <= b < t && pp[a] == pp[b] implies a == b by {
        lemma_index_decode(a, n);
        lemma_index_decode(b, n);
        let la = row_of(a);
        let ra = col_of(a);
        let lb = row_of(b);
        let rb = col_of(b);
        lemma_pair_index_injective(
            p[la] as int,
            p[ra] as int,
            p[lb] as int,
            p[rb] as int,
            n,
        );
        assert((la == lb && ra == rb) || (la == rb && ra == lb));
    }
    assert forall|w: int| 0 <= w < t implies #[trigger] has_preimage(pp, t as nat, w) by {
        lemma_index_decode(w, n);
        let lw = row_of(w);
        let rw = col_of(w);
        assert(has_preimage(p, n, lw));
        assert(has_preimage(p, n, rw));
        let a = choose|a: int| 0 <= a < n && (#[trigger] p[a]) as int == lw;
        let b = choose|b: int| 0 <= b < n && (#[trigger] p[b]) as int == rw;
        let idx = pair_index(a, b);
        lemma_pair_index_range(a, b, n);
        lemma_index_decode(idx, n);
        let mx = row_of(idx);
        let mn = col_of(idx);
        lemma_pair_index_injective(a, b, mx, mn, n);
        lemma_pair_index_range(p[mx] as int, p[mn] as int, n);
        assert(pair_index(p[mx] as int, p[mn] as int) == pair_index(lw, rw));
        lemma_pair_index_decodes(lw, rw);
        assert(pp[idx] as int == w);
    }
}

/// Counting the edges between two nodes does not depend on the order the two
/// are named in.
proof fn lemma_edges_between_sym(edges: Seq<(usize, usize)>, i: int, j: int)
    ensures
        edges_between(edges, i, j) == edges_between(edges, j, i),
    decreases edges.len(),
{
    if edges.len() > 0 {
        lemma_edges_between_sym(edges.drop_last(), i, j);
    }
}

/// Relabeling preserves how many edges connect any two nodes, whichever way
/// around each mapped edge was written.
proof fn lemma_edges_between_relabel(
    ge: Seq<(usize, usize)>,
    he: Seq<(usize, usize)>,
    p: Seq<usize>,
    n: nat,
    i: int,
    j: int,
)
    requires
        bijection(p, n),
        ge.len() == he.len(),
        forall|t: int| 0 <= t < ge.len() ==> (#[trigger] ge[t]).0 < n && ge[t].1 < n,
        forall|t: int|
            0 <= t < ge.len() ==> (#[trigger] he[t]) == (p[ge[t].0 as int], p[ge[t].1 as int])
                || he[t] == (p[ge[t].1 as int], p[ge[t].0 as int]),
        0 <= i < n,
        0 <= j < n,
    ensures
        edges_between(he, p[i] as int, p[j] as int) == edges_between(ge, i, j),
    decreases ge.len(),
{
    if ge.len() > 0 {
        let ge1 = ge.drop_last();
        let he1 = he.drop_last();
        assert(forall|t: int| 0 <= t < ge1.len() ==> ge1[t] == #[trigger] ge[t]);
        assert(forall|t: int| 0 <= t < he1.len() ==> he1[t] == #[trigger] he[t]);
        lemma_edges_between_relabel(ge1, he1, p, n, i, j);
        let a = ge.last().0;
        let b = ge.last().1;
        assert(he.last() == (p[a as int], p[b as int]) || he.last() == (
            p[b as int],
            p[a as int],
        ));
        assert(p[a as int] == p[i] <==> a == i);
        assert(p[a as int] == p[j] <==> a == j);
        assert(p[b as int] == p[i] <==> b == i);
        assert(p[b as int] == p[j] <==> b == j);
    }
}

/// Sorting two pair buffers with equal multisets gives the same sequence.
proof fn lemma_sort_pairs_of_multiset(a: Seq<(u64, u64)>, b: Seq<(u64, u64)>)
    requires
        a.to_multiset() == b.to_multiset(),
    ensures
        sort_pairs(a) == sort_pairs(b),
{
    crate::sorting::lemma_pair_le_total();
    a.lemma_sort_by_ensures(pair_le());
    b.lemma_sort_by_ensures(pair_le());
    lemma_sorted_unique(sort_pairs(a), sort_pairs(b), pair_le());
    assert(sort_pairs(a) =~= sort_pairs(b));
}

/// Where the induced pair permutation sends the pair `{x, y}`.
proof fn lemma_pair_perm_at(p: Seq<usize>, n: nat, x: int, y: int)
    requires
        bijection(p, n),
        tri(n as int) <= usize::MAX,
        0 <= x < n,
        0 <= y < n,
    ensures
        pair_perm(p, n)[pair_index(x, y)] as int == pair_index(p[x] as int, p[y] as int),
        0 <= pair_index(x, y) < tri(n as int),
        0 <= pair_index(p[x] as int, p[y] as int) < tri(n as int),
{
    lemma_pair_index_range(x, y, n);
    let idx = pair_index(x, y);
    lemma_index_decode(idx, n);
    lemma_pair_index_injective(x, y, row_of(idx), col_of(idx), n);
    lemma_pair_index_range(p[x] as int, p[y] as int, n);
    lemma_pair_index_range(p[row_of(idx)] as int, p[col_of(idx)] as int, n);
}

/// One relabeled pair starts with the same initial label as its original.
proof fn lemma_init2_relabel_at(g: Graph, h: Graph, p: Seq<usize>, q: int)
    requires
        g.wf(),
        !g.spec_directed(),
        bijection(p, g.spec_n()),
        relabeled(g, h, p),
        tri(g.spec_n() as int) <= usize::MAX,
        0 <= q < tri(g.spec_n() as int),
    ensures
        initial2_labels(h)[pair_perm(p, g.spec_n())[q] as int] == initial2_labels(g)[q],
{
    let n = g.spec_n();
    let pp = pair_perm(p, n);
    lemma_pair_perm_bijection(p, n);
    lemma_index_decode(q, n);
    let l = row_of(q);
    let r = col_of(q);
    lemma_pair_perm_at(p, n, l, r);
    let q2 = pp[q] as int;
    lemma_index_decode(q2, n);
    let l2 = row_of(q2);
    let r2 = col_of(q2);
    lemma_pair_index_injective(p[l] as int, p[r] as int, l2, r2, n);
    lemma_edges_between_sym(h.spec_edges(), p[l] as int, p[r] as int);
    lemma_edges_between_relabel(g.spec_edges(), h.spec_edges(), p, n, l, r);
}

/// One third node contributes the same leg pair to a relabeled pair as its
/// original does to the original pair.
proof fn lemma_triple_pair_relabel_at(
    g: Graph,
    p: Seq<usize>,
    prev_g: Seq<u64>,
    prev_h: Seq<u64>,
    l: int,
    r: int,
    l2: int,
    r2: int,
    m: int,
)
    requires
        bijection(p, g.spec_n()),
        tri(g.spec_n() as int) <= usize::MAX,
        0 <= r <= l < g.spec_n(),
        0 <= m < g.spec_n(),
        (l2 == p[l] as int && r2 == p[r] as int) || (l2 == p[r] as int && r2 == p[l] as int),
        prev_g.len() == tri(g.spec_n() as int),
        prev_h.len() == tri(g.spec_n() as int),
        labels_correspond(pair_perm(p, g.spec_n()), tri(g.spec_n() as int) as nat, prev_g, prev_h),
    ensures
        triple_pair(prev_h, l2, r2, p[m] as int) == triple_pair(prev_g, l, r, m),
{
    let n = g.spec_n();
    lemma_pair_perm_at(p, n, m, r);
    lemma_pair_perm_at(p, n, l, m);
    assert(prev_h[pair_index(p[m] as int, p[r] as int)] == prev_g[pair_index(m, r)]);
    assert(prev_h[pair_index(p[l] as int, p[m] as int)] == prev_g[pair_index(l, m)]);
}

/// One relabeled pair takes the same next label as its original.
#[verifier::rlimit(50)]
proof fn lemma_step2_relabel_at(
    g: Graph,
    h: Graph,
    p: Seq<usize>,
    seed: u64,
    prev_g: Seq<u64>,
    prev_h: Seq<u64>,
    q: int,
)
    requires
        g.wf(),
        !g.spec_directed(),
        bijection(p, g.spec_n()),
        relabeled(g, h, p),
        tri(g.spec_n() as int) <= usize::MAX,
        0 <= q < tri(g.spec_n() as int),
        prev_g.len() == tri(g.spec_n() as int),
        prev_h.len() == tri(g.spec_n() as int),
        labels_correspond(pair_perm(p, g.spec_n()), tri(g.spec_n() as int) as nat, prev_g, prev_h),
    ensures
        step2_labels(h, seed, prev_h)[pair_perm(p, g.spec_n())[q] as int] == step2_labels(
            g,
            seed,
            prev_g,
        )[q],
{
    let n = g.spec_n();
    let pp = pair_perm(p, n);
    lemma_pair_perm_bijection(p, n);
    lemma_index_decode(q, n);
    let l = row_of(q);
    let r = col_of(q);
    lemma_pair_perm_at(p, n, l, r);
    let q2 = pp[q] as int;
    lemma_index_decode(q2, n);
    let l2 = row_of(q2);
    let r2 = col_of(q2);
    lemma_pair_index_injective(p[l] as int, p[r] as int, l2, r2, n);
    let row_g = pair_row(g, prev_g, l, r);
    let row_h = pair_row(h, prev_h, l2, r2);
    assert forall|m: int| 0 <= m < n implies row_h[(#[trigger] p[m]) as int] == row_g[m] by {
        lemma_triple_pair_relabel_at(g, p, prev_g, prev_h, l, r, l2, r2, m);
    }
    lemma_correspond_multiset(p, n, row_g, row_h);
    lemma_sort_pairs_of_multiset(row_g, row_h);
    assert(prev_h[pair_index(l2, r2)] == prev_g[pair_index(l, r)]);
    assert(next2_label(h, seed, prev_h, l2, r2) == next2_label(g, seed, prev_g, l, r));
}

/// Every two-dimensional round commutes with relabeling: each pair's label
/// moves to its relabeled pair's triangular index.
pub proof fn lemma_labels2_after_relabel(g: Graph, h: Graph, p: Seq<usize>, seed: u64, k: nat)
    requires
        g.wf(),
        !g.spec_directed(),
        bijection(p, g.spec_n()),
        relabeled(g, h, p),
        tri(g.spec_n() as int) <= usize::MAX,
    ensures
        labels_correspond(
            pair_perm(p, g.spec_n()),
            tri(g.spec_n() as int) as nat,
            labels2_after(g, seed, k),
            labels2_after(h, seed, k),
        ),
    decreases k,
{
    let n = g.spec_n();
    let t = tri(n as int);
    let pp = pair_perm(p, n);
    lemma_pair_perm_bijection(p, n);
    lemma_labels2_after_len(g, seed, k);
    lemma_labels2_after_len(h, seed, k);
    if k == 0 {
        assert forall|q: int|
            0 <= q < t implies initial2_labels(h)[(#[trigger] pp[q]) as int] == initial2_labels(
            g,
        )[q] by {
            lemma_init2_relabel_at(g, h, p, q);
        }
    } else {
        lemma_labels2_after_relabel(g, h, p, seed, (k - 1) as nat);
        lemma_labels2_after_len(g, seed, (k - 1) as nat);
        lemma_labels2_after_len(h, seed, (k - 1) as nat);
        let prev_g = labels2_after(g, seed, (k - 1) as nat);
        let prev_h = labels2_after(h, seed, (k - 1) as nat);
        assert forall|q: int|
            0 <= q < t implies step2_labels(h, seed, prev_h)[(#[trigger] pp[q]) as int]
            == step2_labels(g, seed, prev_g)[q] by {
            lemma_step2_relabel_at(g, h, p, seed, prev_g, prev_h, q);
        }
    }
}

/// Permutation invariance of the two-dimensional refinement: relabeling the
/// nodes through any bijection changes neither the invariant after any number
/// of applied rounds nor whether refinement has stabilized at that round.
pub proof fn lemma_permutation_invariance_2wl(g: Graph, h: Graph, p: Seq<usize>, seed: u64, k: nat)
    requires
        g.wf(),
        !g.spec_directed(),
        g.spec_n() * g.spec_n() <= usize::MAX,
        bijection(p, g.spec_n()),
        relabeled(g, h, p),
    ensures
        invariant2_after(h, seed, k) == invariant2_after(g, seed, k),
        stable2_at(h, seed, k) <==> stable2_at(g, seed, k),
{
    let n = g.spec_n();
    let t = tri(n as int);
    if n == 0 {
        assert(t == 0);
    } else {
        lemma_tri_formula(n as int);
    }
    let pp = pair_perm(p, n);
    lemma_pair_perm_bijection(p, n);
    lemma_labels2_after_relabel(g, h, p, seed, k);
    lemma_labels2_after_relabel(g, h, p, seed, (k + 1) as nat);
    lemma_correspond_multiset(pp, t as nat, labels2_after(g, seed, k), labels2_after(h, seed, k));
    lemma_sort_words_of_multiset(labels2_after(g, seed, k), labels2_after(h, seed, k));
    lemma_consistent_relabel_correspond(
        pp,
        t as nat,
        labels2_after(g, seed, k),
        labels2_after(g, seed, (k + 1) as nat),
        labels2_after(h, seed, k),
        labels2_after(h, seed, (k + 1) as nat),
    );
}

/// In auto-stop mode, a graph and its relabeling stop the two-dimensional
/// refinement at the same round and yield the same invariant.
pub proof fn lemma_auto_stop_permutation_2wl(
    g: Graph,
    h: Graph,
    p: Seq<usize>,
    seed: u64,
    k1: nat,
    k2: nat,
)
    requires
        g.wf(),
        !g.spec_directed(),
        g.spec_n() * g.spec_n() <= usize::MAX,
        bijection(p, g.spec_n()),
        relabeled(g, h, p),
        k1 <= tri(g.spec_n() as int),
        forall|j: nat| j < k1 ==> !stable2_at(g, seed, j),
        stable2_at(g, seed, k1) || k1 == tri(g.spec_n() as int),
        k2 <= tri(h.spec_n() as int),
        forall|j: nat| j < k2 ==> !stable2_at(h, seed, j),
        stable2_at(h, seed, k2) || k2 == tri(h.spec_n() as int),
    ensures
        k1 == k2,
        invariant2_after(g, seed, k1) == invariant2_after(h, seed, k2),
{
    if k1 < k2 {
        lemma_permutation_invariance_2wl(g, h, p, seed, k1);
        assert(!stable2_at(h, seed, k1));
        assert(!stable2_at(g, seed, k1));
        assert(false);
    }
    if k2 < k1 {
        lemma_permutation_invariance_2wl(g, h, p, seed, k2);
        assert(!stable2_at(g, seed, k2));
        assert(!stable2_at(h, seed, k2));
        assert(false);
    }
    lemma_permutation_invariance_2wl(g, h, p, seed, k1);
}

/// How many edges connect two nodes is how often their canonical pair occurs
/// among the canonicalized edges.
proof fn lemma_edges_between_count(edges: Seq<(usize, usize)>, i: usize, j: usize)
    ensures
        edges_between(edges, i as int, j as int) == norm_edges(edges).to_multiset().count(
            norm_edge((i, j)),
        ),
    decreases edges.len(),
{
    broadcast use vstd::seq_lib::group_to_multiset_ensures;
    broadcast use vstd::multiset::group_multiset_axioms;

    if edges.len() == 0 {
        assert(norm_edges(edges) =~= Seq::<(usize, usize)>::empty());
    } else {
        lemma_edges_between_count(edges.drop_last(), i, j);
        let e = edges.last();
        assert(norm_edges(edges) =~= norm_edges(edges.drop_last()).push(norm_edge(e)));
        vstd::seq_lib::to_multiset_build(norm_edges(edges.drop_last()), norm_edge(e));
        assert(((e.0 == i && e.1 == j) || (e.0 == j && e.1 == i)) <==> norm_edge(e) == norm_edge(
            (i, j),
        ));
    }
}

/// The two-dimensional refinement does not depend on how the edge list is
/// written down either: the same connections in any order, each edge written
/// either way around, give the very same pair labels every round.
pub proof fn lemma_representation_independent_2wl(g1: Graph, g2: Graph, seed: u64, k: nat)
    requires
        !g1.spec_directed(),
        same_edge_multiset(g1, g2),
    ensures
        labels2_after(g2, seed, k) == labels2_after(g1, seed, k),
        stable2_at(g2, seed, k) <==> stable2_at(g1, seed, k),
        invariant2_after(g2, seed, k) == invariant2_after(g1, seed, k),
    decreases k,
{
    let n = g1.spec_n();
    if k == 0 {
        assert forall|q: int| 0 <= q < tri(n as int) implies init2_label(g2, q) == init2_label(
            g1,
            q,
        ) by {
            lemma_index_decode(q, n);
            g1.lemma_n_fits();
            let l = row_of(q);
            let r = col_of(q);
            lemma_edges_between_count(g1.spec_edges(), l as usize, r as usize);
            lemma_edges_between_count(g2.spec_edges(), l as usize, r as usize);
        }
        assert(initial2_labels(g2) =~= initial2_labels(g1));
    } else {
        lemma_representation_independent_2wl(g1, g2, seed, (k - 1) as nat);
        let prev = labels2_after(g1, seed, (k - 1) as nat);
        assert forall|q: int| 0 <= q < prev.len() implies next2_label(
            g2,
            seed,
            prev,
            row_of(q),
            col_of(q),
        ) == next2_label(g1, seed, prev, row_of(q), col_of(q)) by {
            assert(pair_row(g2, prev, row_of(q), col_of(q)) =~= pair_row(
                g1,
                prev,
                row_of(q),
                col_of(q),
            ));
        }
        assert(step2_labels(g2, seed, prev) =~= step2_labels(g1, seed, prev));
    }
    lemma_representation2_next(g1, g2, seed, k);
}

proof fn lemma_representation2_next(g1: Graph, g2: Graph, seed: u64, k: nat)
    requires
        g2.spec_n() == g1.spec_n(),
        labels2_after(g2, seed, k) == labels2_after(g1, seed, k),
    ensures
        labels2_after(g2, seed, (k + 1) as nat) == labels2_after(g1, seed, (k + 1) as nat),
        stable2_at(g2, seed, k) <==> stable2_at(g1, seed, k),
        invariant2_after(g2, seed, k) == invariant2_after(g1, seed, k),
{
    let cur = labels2_after(g1, seed, k);
    assert forall|q: int| 0 <= q < cur.len() implies next2_label(
        g2,
        seed,
        cur,
        row_of(q),
        col_of(q),
    ) == next2_label(g1, seed, cur, row_of(q), col_of(q)) by {
        assert(pair_row(g2, cur, row_of(q), col_of(q)) =~= pair_row(
            g1,
            cur,
            row_of(q),
            col_of(q),
        ));
    }
    assert(step2_labels(g2, seed, cur) =~= step2_labels(g1, seed, cur));
}

/// Permutation invariance of the two-dimensional refinement in full: if `h`
/// lists, in any order, the edges of `g` with every node index relabeled
/// through a bijection (each edge written either way around), the two graphs
/// share every round's two-dimensional invariant and stabilization behaviour.
pub proof fn lemma_permutation_invariance_2wl_any_order(
    g: Graph,
    mid: Graph,
    h: Graph,
    p: Seq<usize>,
    seed: u64,
    k: nat,
)
    requires
        g.wf(),
        !g.spec_directed(),
        g.spec_n() * g.spec_n() <= usize::MAX,
        bijection(p, g.spec_n()),
        relabeled(g, mid, p),
        same_edge_multiset(mid, h),
    ensures
        invariant2_after(h, seed, k) == invariant2_after(g, seed, k),
        stable2_at(h, seed, k) <==> stable2_at(g, seed, k),
{
    lemma_permutation_invariance_2wl(g, mid, p, seed, k);
    lemma_representation_independent_2wl(mid, h, seed, k);
}

/// Soundness (no false negatives): if two graphs' invariants differ at some
/// round, no relabeling bijection turns one into the other, so they are not
/// isomorphic.
pub proof fn lemma_soundness(g: Graph, h: Graph, p: Seq<usize>, seed: u64, k: nat)
    requires
        g.wf(),
        invariant_after(g, seed, k) != invariant_after(h, seed, k),
    ensures
        !(bijection(p, g.spec_n()) && relabeled(g, h, p)),
{
    if bijection(p, g.spec_n()) && relabeled(g, h, p) {
        lemma_permutation_invariance(g, h, p, seed, k);
    }
}

} // verus!
