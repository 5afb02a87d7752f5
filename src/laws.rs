//! Laws that relate clustering runs: a wider relation, isolated entities,
//! no entities, and repeated runs.
use vstd::prelude::*;
use crate::engine::{Label, dbscan, run, expand, all_unvisited};
use crate::properties::{
    has_member, is_symmetric, only_adds, lemma_only_adds_trans, lemma_dbscan_labelling,
    lemma_near_cores_share_cluster,
};
use crate::relation::{is_relation, neighbours_of, neighbours_upto, is_core, borders_core, lemma_neighbours_of};

verus! {

proof fn lemma_neighbours_upto_wider(m1: Seq<Seq<bool>>, m2: Seq<Seq<bool>>, i: int, k: int)
    requires
        is_relation(m1),
        is_relation(m2),
        m1.len() == m2.len(),
        0 <= i < m1.len(),
        k <= m1.len(),
        forall|j: int| 0 <= j < m1.len() && #[trigger] m1[i][j] ==> m2[i][j],
    ensures
        neighbours_upto(m1, i, k).len() <= neighbours_upto(m2, i, k).len(),
    decreases k,
{
    if k > 0 {
        lemma_neighbours_upto_wider(m1, m2, i, k - 1);
    }
}

/// `m2` holds every pair that `m1` holds, as the relation of a larger radius
/// holds every pair of a smaller one.
pub open spec fn is_narrower(m1: Seq<Seq<bool>>, m2: Seq<Seq<bool>>) -> bool {
    &&& m1.len() == m2.len()
    &&& forall|i: int, j: int| 0 <= i < m1.len() && 0 <= j < m1.len() && #[trigger] m1[i][j] ==> m2[i][j]
}

proof fn lemma_cores_of_wider(m1: Seq<Seq<bool>>, m2: Seq<Seq<bool>>, min_pts: nat)
    requires
        is_relation(m1),
        is_relation(m2),
        is_narrower(m1, m2),
    ensures
        forall|q: int| 0 <= q < m1.len() && #[trigger] is_core(m1, min_pts, q) ==> is_core(m2, min_pts, q),
{
    assert forall|q: int| 0 <= q < m1.len() && #[trigger] is_core(m1, min_pts, q) implies is_core(m2, min_pts, q) by {
        lemma_neighbours_upto_wider(m1, m2, q, m1.len() as int);
    }
}

/// A wider relation, as a larger radius gives, never turns a clustered
/// entity into noise: whatever is clustered under `m1` is clustered under
/// any `m2` that holds every pair of `m1`.
pub proof fn lemma_wider_relation_keeps_clusters(m1: Seq<Seq<bool>>, m2: Seq<Seq<bool>>, min_pts: nat)
    requires
        is_relation(m1),
        is_relation(m2),
        is_narrower(m1, m2),
    ensures
        forall|j: int|
            0 <= j < m1.len() && #[trigger] dbscan(m1, min_pts).0[j] is Cluster ==> dbscan(m2, min_pts).0[j] is Cluster,
{
    lemma_dbscan_labelling(m1, min_pts);
    lemma_dbscan_labelling(m2, min_pts);
    lemma_cores_of_wider(m1, m2, min_pts);
    assert forall|j: int|
        0 <= j < m1.len() && #[trigger] dbscan(m1, min_pts).0[j] is Cluster implies dbscan(m2, min_pts).0[j] is Cluster by {
        if !is_core(m1, min_pts, j) {
            let q = choose|q: int| 0 <= q < m1.len() && q != j && #[trigger] is_core(m1, min_pts, q) && m1[q][j];
            assert(is_core(m2, min_pts, q));
            assert(borders_core(m2, min_pts, j));
        } else {
            assert(is_core(m2, min_pts, j));
        }
    }
}

/// Some core point of cluster `id` has `w` within its radius.
spec fn fed_by(m: Seq<Seq<bool>>, min_pts: nat, labels: Seq<Label>, w: int, id: nat) -> bool {
    exists|q: int|
        0 <= q < m.len() && q != w && is_core(m, min_pts, q) && #[trigger] labels[q] == Label::Cluster(id as usize)
            && m[q][w]
}

/// `other` gives near core points of `m2` the same label.
spec fn agrees_on_core_links(m2: Seq<Seq<bool>>, min_pts: nat, other: Seq<Label>) -> bool {
    forall|q: int, j: int|
        0 <= q < m2.len() && 0 <= j < m2.len() && q != j && #[trigger] m2[q][j] && is_core(m2, min_pts, q)
            && is_core(m2, min_pts, j) ==> other[q] == other[j]
}

proof fn lemma_expand_refines(
    m1: Seq<Seq<bool>>,
    m2: Seq<Seq<bool>>,
    min_pts: nat,
    other: Seq<Label>,
    labels: Seq<Label>,
    work: Seq<usize>,
    k: nat,
    id: nat,
    seed: int,
)
    requires
        is_relation(m1),
        is_relation(m2),
        is_narrower(m1, m2),
        forall|q: int| 0 <= q < m1.len() && #[trigger] is_core(m1, min_pts, q) ==> is_core(m2, min_pts, q),
        agrees_on_core_links(m2, min_pts, other),
        labels.len() == m1.len(),
        k <= work.len(),
        forall|j: int| 0 <= j < labels.len() && #[trigger] labels[j] is Noise ==> !is_core(m1, min_pts, j),
        forall|a: int|
            0 <= a < labels.len() && is_core(m1, min_pts, a) && #[trigger] labels[a] == Label::Cluster(id as usize)
                ==> other[a] == other[seed],
        forall|t: int|
            0 <= t < work.len() ==> (#[trigger] work[t] as int) < m1.len() && fed_by(m1, min_pts, labels, work[t] as int, id),
    ensures
        only_adds(labels, expand(m1, min_pts, labels, work, k, id), id),
        forall|a: int|
            0 <= a < labels.len() && is_core(m1, min_pts, a)
                && #[trigger] expand(m1, min_pts, labels, work, k, id)[a] == Label::Cluster(id as usize)
                ==> other[a] == other[seed],
    decreases crate::engine::unvisited(labels), work.len() - k,
{
    let r = expand(m1, min_pts, labels, work, k, id);
    if k < work.len() {
        let q = work[k as int] as int;
        let cl = Label::Cluster(id as usize);
        match labels[q] {
            Label::Noise => {
                let l2 = labels.update(q, cl);
                crate::engine::lemma_unvisited_update(labels, q, cl);
                assert forall|t: int| 0 <= t < work.len() implies (#[trigger] work[t] as int) < m1.len()
                    && fed_by(m1, min_pts, l2, work[t] as int, id) by {
                    let w = work[t] as int;
                    let p = choose|p: int| 0 <= p < m1.len() && p != w && is_core(m1, min_pts, p)
                        && #[trigger] labels[p] == cl && m1[p][w];
                    assert(l2[p] == cl);
                }
                lemma_expand_refines(m1, m2, min_pts, other, l2, work, k + 1, id, seed);
                lemma_only_adds_trans(labels, l2, r, id);
            },
            Label::Cluster(_) => {
                crate::engine::lemma_unvisited_update(labels, q, labels[q]);
                lemma_expand_refines(m1, m2, min_pts, other, labels, work, k + 1, id, seed);
            },
            Label::Unvisited => {
                let l2 = labels.update(q, cl);
                crate::engine::lemma_unvisited_update(labels, q, cl);
                let nq = neighbours_of(m1, q);
                lemma_neighbours_of(m1, q);
                let w2 = if nq.len() > min_pts {
                    work + nq
                } else {
                    work
                };
                let p = choose|p: int| 0 <= p < m1.len() && p != q && is_core(m1, min_pts, p)
                    && #[trigger] labels[p] == cl && m1[p][q];
                if is_core(m1, min_pts, q) {
                    assert(m2[p][q]);
                    assert(other[p] == other[q]);
                }
                assert forall|t: int| 0 <= t < w2.len() implies (#[trigger] w2[t] as int) < m1.len()
                    && fed_by(m1, min_pts, l2, w2[t] as int, id) by {
                    let w = w2[t] as int;
                    if t < work.len() {
                        assert(w2[t] == work[t]);
                        let f = choose|f: int| 0 <= f < m1.len() && f != w && is_core(m1, min_pts, f)
                            && #[trigger] labels[f] == cl && m1[f][w];
                        assert(l2[f] == cl);
                    } else {
                        assert(w2[t] == nq[t - work.len()]);
                        assert(l2[q] == cl);
                    }
                }
                lemma_expand_refines(m1, m2, min_pts, other, l2, w2, k + 1, id, seed);
                lemma_only_adds_trans(labels, l2, r, id);
            },
        }
    }
}

proof fn lemma_run_refines(
    m1: Seq<Seq<bool>>,
    m2: Seq<Seq<bool>>,
    min_pts: nat,
    other: Seq<Label>,
    labels: Seq<Label>,
    i: nat,
    id: nat,
)
    requires
        is_relation(m1),
        is_relation(m2),
        is_narrower(m1, m2),
        forall|q: int| 0 <= q < m1.len() && #[trigger] is_core(m1, min_pts, q) ==> is_core(m2, min_pts, q),
        agrees_on_core_links(m2, min_pts, other),
        labels.len() == m1.len(),
        i <= m1.len(),
        id <= i,
        forall|j: int| 0 <= j < labels.len() && #[trigger] labels[j] is Noise ==> !is_core(m1, min_pts, j),
        forall|j: int| 0 <= j < labels.len() && #[trigger] labels[j] is Cluster ==> (labels[j]->Cluster_0 as nat) < id,
        forall|a: int, b: int|
            0 <= a < labels.len() && 0 <= b < labels.len() && is_core(m1, min_pts, a) && is_core(m1, min_pts, b)
                && #[trigger] labels[a] is Cluster && #[trigger] labels[b] == labels[a] ==> other[a] == other[b],
    ensures
        forall|a: int, b: int|
            0 <= a < m1.len() && 0 <= b < m1.len() && is_core(m1, min_pts, a) && is_core(m1, min_pts, b)
                && #[trigger] run(m1, min_pts, labels, i, id).0[a] is Cluster
                && #[trigger] run(m1, min_pts, labels, i, id).0[b] == run(m1, min_pts, labels, i, id).0[a]
                ==> other[a] == other[b],
    decreases m1.len() - i,
{
    if i >= m1.len() {
    } else if !(labels[i as int] is Unvisited) {
        lemma_run_refines(m1, m2, min_pts, other, labels, i + 1, id);
    } else {
        let ni = neighbours_of(m1, i as int);
        lemma_neighbours_of(m1, i as int);
        if ni.len() <= min_pts {
            let l2 = labels.update(i as int, Label::Noise);
            lemma_run_refines(m1, m2, min_pts, other, l2, i + 1, id);
        } else {
            let cl = Label::Cluster(id as usize);
            let l1 = labels.update(i as int, cl);
            assert forall|t: int| 0 <= t < ni.len() implies (#[trigger] ni[t] as int) < m1.len()
                && fed_by(m1, min_pts, l1, ni[t] as int, id) by {
                assert(l1[i as int] == cl);
            }
            assert forall|a: int|
                0 <= a < l1.len() && is_core(m1, min_pts, a) && #[trigger] l1[a] == cl implies other[a]
                == other[i as int] by {
                if a != i {
                    assert(labels[a] is Cluster);
                }
            }
            lemma_expand_refines(m1, m2, min_pts, other, l1, ni, 0, id, i as int);
            let r2 = expand(m1, min_pts, l1, ni, 0, id);
            assert forall|a: int, b: int|
                0 <= a < r2.len() && 0 <= b < r2.len() && is_core(m1, min_pts, a) && is_core(m1, min_pts, b)
                    && #[trigger] r2[a] is Cluster && #[trigger] r2[b] == r2[a] implies other[a] == other[b] by {
                if r2[a] != cl {
                    assert(r2[a] == l1[a]);
                    assert(r2[b] == l1[b]);
                    assert(a != i && b != i);
                    assert(labels[a] == l1[a]);
                    assert(labels[b] == l1[b]);
                }
            }
            assert forall|j: int| 0 <= j < r2.len() && #[trigger] r2[j] is Noise implies !is_core(m1, min_pts, j) by {
                assert(r2[j] == l1[j]);
            }
            assert forall|j: int| 0 <= j < r2.len() && #[trigger] r2[j] is Cluster implies (r2[j]->Cluster_0 as nat) < id + 1 by {
                if r2[j] != cl {
                    assert(r2[j] == l1[j]);
                }
            }
            lemma_run_refines(m1, m2, min_pts, other, r2, i + 1, id + 1);
        }
    }
}

/// Under a symmetric relation, widening it never splits the core points of
/// a cluster: core points of `m1` that share a cluster share one under any
/// symmetric `m2` that holds every pair of `m1`.
pub proof fn lemma_wider_relation_keeps_core_groups(m1: Seq<Seq<bool>>, m2: Seq<Seq<bool>>, min_pts: nat)
    requires
        is_relation(m1),
        is_relation(m2),
        is_narrower(m1, m2),
        is_symmetric(m2),
    ensures
        forall|a: int, b: int|
            0 <= a < m1.len() && 0 <= b < m1.len() && is_core(m1, min_pts, a) && is_core(m1, min_pts, b)
                && #[trigger] dbscan(m1, min_pts).0[a] == #[trigger] dbscan(m1, min_pts).0[b]
                ==> dbscan(m2, min_pts).0[a] == dbscan(m2, min_pts).0[b],
{
    lemma_cores_of_wider(m1, m2, min_pts);
    lemma_dbscan_labelling(m1, min_pts);
    lemma_near_cores_share_cluster(m2, min_pts);
    let other = dbscan(m2, min_pts).0;
    lemma_run_refines(m1, m2, min_pts, other, all_unvisited(m1.len()), 0, 0);
    let r = dbscan(m1, min_pts).0;
    assert forall|a: int, b: int|
        0 <= a < m1.len() && 0 <= b < m1.len() && is_core(m1, min_pts, a) && is_core(m1, min_pts, b)
            && #[trigger] r[a] == #[trigger] r[b] implies other[a] == other[b] by {
        assert(!(r[a] is Noise));
        assert(r[a] is Cluster);
    }
}

/// Where no two distinct entities are near each other, every entity is noise
/// and there is no cluster.
pub proof fn lemma_isolated_entities_are_noise(m: Seq<Seq<bool>>, min_pts: nat)
    requires
        is_relation(m),
        forall|i: int, j: int| 0 <= i < m.len() && 0 <= j < m.len() && i != j ==> !#[trigger] m[i][j],
    ensures
        forall|j: int| 0 <= j < m.len() ==> #[trigger] dbscan(m, min_pts).0[j] is Noise,
        dbscan(m, min_pts).1 == 0,
{
    lemma_dbscan_labelling(m, min_pts);
    let r = dbscan(m, min_pts).0;
    assert forall|q: int| 0 <= q < m.len() implies !#[trigger] is_core(m, min_pts, q) by {
        lemma_neighbours_of(m, q);
        if neighbours_of(m, q).len() > 0 {
            let t = neighbours_of(m, q)[0] as int;
            assert(m[q][t]);
        }
    }
    assert forall|j: int| 0 <= j < m.len() implies #[trigger] r[j] is Noise by {
        if borders_core(m, min_pts, j) {
            let q = choose|q: int| 0 <= q < m.len() && q != j && #[trigger] is_core(m, min_pts, q) && m[q][j];
        }
    }
    if dbscan(m, min_pts).1 > 0 {
        assert(has_member(r, 0));
        let j = choose|j: int| 0 <= j < r.len() && r[j] == Label::Cluster(0);
        assert(r[j] is Noise);
    }
}

/// No entities: no labels and no cluster.
pub proof fn lemma_empty_input(m: Seq<Seq<bool>>, min_pts: nat)
    requires
        m.len() == 0,
    ensures
        dbscan(m, min_pts).0.len() == 0,
        dbscan(m, min_pts).1 == 0,
{
    lemma_dbscan_labelling(m, min_pts);
}

/// The same entities in the same order, under the same threshold, get the
/// same labels and the same number of clusters on every run.
pub proof fn lemma_same_input_same_labels(m1: Seq<Seq<bool>>, m2: Seq<Seq<bool>>, min_pts: nat)
    requires
        m1 == m2,
    ensures
        dbscan(m1, min_pts) == dbscan(m2, min_pts),
{
}

} // verus!
