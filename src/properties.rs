//! What the labels of a finished pass satisfy, and laws relating passes.
use vstd::prelude::*;
use crate::engine::{Label, dbscan, run, expand, all_unvisited};
use crate::relation::{is_relation, neighbours_of, is_core, borders_core, lemma_neighbours_of};

verus! {

/// Every label agrees with the relation: noise is no core point, and a
/// clustered entity is a core point or borders one, with an id below `id`.
spec fn labels_sound(m: Seq<Seq<bool>>, min_pts: nat, labels: Seq<Label>, id: nat) -> bool {
    &&& labels.len() == m.len()
    &&& forall|j: int|
        0 <= j < labels.len() ==> {
            &&& (#[trigger] labels[j] is Noise ==> !is_core(m, min_pts, j))
            &&& (labels[j] is Cluster ==> {
                &&& (labels[j]->Cluster_0 as nat) < id
                &&& (is_core(m, min_pts, j) || borders_core(m, min_pts, j))
            })
        }
}

/// Every neighbour of a clustered core point is clustered too, or still
/// waits in the worklist from position `k` on.
spec fn closed_but(m: Seq<Seq<bool>>, min_pts: nat, labels: Seq<Label>, work: Seq<usize>, k: int) -> bool {
    forall|q: int, j: int|
        0 <= q < labels.len() && 0 <= j < labels.len() && q != j && #[trigger] m[q][j]
            && labels[q] is Cluster && is_core(m, min_pts, q) ==> {
            ||| #[trigger] labels[j] is Cluster
            ||| exists|t: int| k <= t < work.len() && work[t] as int == j
        }
}

/// Every neighbour of a clustered core point is clustered too.
spec fn closed(m: Seq<Seq<bool>>, min_pts: nat, labels: Seq<Label>) -> bool {
    closed_but(m, min_pts, labels, Seq::empty(), 0)
}

/// Some entity has cluster id `c`.
pub open spec fn has_member(labels: Seq<Label>, c: nat) -> bool {
    exists|j: int| 0 <= j < labels.len() && labels[j] == Label::Cluster(c as usize)
}

/// Each id below `id` labels some entity.
pub open spec fn ids_dense(labels: Seq<Label>, id: nat) -> bool {
    forall|c: nat| c < id ==> #[trigger] has_member(labels, c)
}

/// Each worklist item lies within an entity's range and borders a core point.
spec fn work_sound(m: Seq<Seq<bool>>, min_pts: nat, work: Seq<usize>) -> bool {
    forall|t: int| 0 <= t < work.len() ==> {
        &&& (#[trigger] work[t] as int) < m.len()
        &&& borders_core(m, min_pts, work[t] as int)
    }
}

/// Labels only move forward: a visited entity stays visited, a clustered one
/// keeps its cluster.
spec fn moves_forward(a: Seq<Label>, b: Seq<Label>) -> bool {
    &&& a.len() == b.len()
    &&& forall|j: int| 0 <= j < a.len() ==> {
        &&& (#[trigger] a[j] !is Unvisited ==> b[j] !is Unvisited)
        &&& (a[j] is Cluster ==> b[j] == a[j])
    }
}

/// The relation is symmetric, as the one a distance gives is.
pub open spec fn is_symmetric(m: Seq<Seq<bool>>) -> bool {
    forall|i: int, j: int| 0 <= i < m.len() && 0 <= j < m.len() ==> #[trigger] m[i][j] == m[j][i]
}

/// Two near core points share their cluster, unless the first is in cluster
/// `id` and the second still waits in the worklist from position `k` on.
spec fn cores_agree_but(
    m: Seq<Seq<bool>>,
    min_pts: nat,
    labels: Seq<Label>,
    work: Seq<usize>,
    k: int,
    id: nat,
) -> bool {
    forall|q: int, j: int|
        0 <= q < labels.len() && 0 <= j < labels.len() && q != j && #[trigger] m[q][j]
            && is_core(m, min_pts, q) && is_core(m, min_pts, j) && #[trigger] labels[q] is Cluster ==> {
            ||| labels[j] == labels[q]
            ||| (labels[q] == Label::Cluster(id as usize) && exists|t: int|
                k <= t < work.len() && work[t] as int == j)
        }
}

/// Two near core points share their cluster.
spec fn cores_agree(m: Seq<Seq<bool>>, min_pts: nat, labels: Seq<Label>) -> bool {
    forall|q: int, j: int|
        0 <= q < labels.len() && 0 <= j < labels.len() && q != j && #[trigger] m[q][j]
            && is_core(m, min_pts, q) && is_core(m, min_pts, j) && #[trigger] labels[q] is Cluster
            ==> labels[j] == labels[q]
}

/// `b` differs from `a` only where it holds cluster `id`.
pub(crate) open spec fn only_adds(a: Seq<Label>, b: Seq<Label>, id: nat) -> bool {
    &&& a.len() == b.len()
    &&& forall|j: int| 0 <= j < a.len() ==> #[trigger] b[j] == a[j] || b[j] == Label::Cluster(id as usize)
}

/// What a finished labelling satisfies: every entity is noise or in one
/// cluster with an id below `count`; noise is exactly the entities that are
/// no core point and lie within the radius of none; each id below `count`
/// labels some entity.
pub open spec fn is_dbscan_labelling(m: Seq<Seq<bool>>, min_pts: nat, labels: Seq<Label>, count: nat) -> bool {
    &&& labels.len() == m.len()
    &&& count <= m.len()
    &&& forall|j: int|
        0 <= j < labels.len() ==> (#[trigger] labels[j] is Noise || (labels[j] is Cluster
            && (labels[j]->Cluster_0 as nat) < count))
    &&& forall|j: int|
        0 <= j < labels.len() ==> (#[trigger] labels[j] is Noise <==> (!is_core(m, min_pts, j)
            && !borders_core(m, min_pts, j)))
    &&& ids_dense(labels, count)
}

proof fn lemma_moves_forward_trans(a: Seq<Label>, b: Seq<Label>, c: Seq<Label>)
    requires
        moves_forward(a, b),
        moves_forward(b, c),
    ensures
        moves_forward(a, c),
{
    assert forall|j: int| 0 <= j < a.len() implies {
        &&& (#[trigger] a[j] !is Unvisited ==> c[j] !is Unvisited)
        &&& (a[j] is Cluster ==> c[j] == a[j])
    } by {
        assert(b[j] == b[j]);
    }
}

pub(crate) proof fn lemma_only_adds_trans(a: Seq<Label>, b: Seq<Label>, c: Seq<Label>, id: nat)
    requires
        only_adds(a, b, id),
        only_adds(b, c, id),
    ensures
        only_adds(a, c, id),
{
    assert forall|j: int| 0 <= j < a.len() implies #[trigger] c[j] == a[j] || c[j] == Label::Cluster(id as usize) by {
        assert(b[j] == b[j]);
    }
}

proof fn lemma_expand(
    m: Seq<Seq<bool>>,
    min_pts: nat,
    labels: Seq<Label>,
    work: Seq<usize>,
    k: nat,
    id: nat,
)
    requires
        is_relation(m),
        id < m.len(),
        k <= work.len(),
        labels_sound(m, min_pts, labels, id + 1),
        closed_but(m, min_pts, labels, work, k as int),
        work_sound(m, min_pts, work),
        is_symmetric(m) ==> cores_agree_but(m, min_pts, labels, work, k as int, id),
    ensures
        labels_sound(m, min_pts, expand(m, min_pts, labels, work, k, id), id + 1),
        closed(m, min_pts, expand(m, min_pts, labels, work, k, id)),
        moves_forward(labels, expand(m, min_pts, labels, work, k, id)),
        only_adds(labels, expand(m, min_pts, labels, work, k, id), id),
        is_symmetric(m) ==> cores_agree(m, min_pts, expand(m, min_pts, labels, work, k, id)),
    decreases crate::engine::unvisited(labels), work.len() - k,
{
    let r = expand(m, min_pts, labels, work, k, id);
    if k >= work.len() {
        assert(closed(m, min_pts, labels));
        if is_symmetric(m) {
            assert(cores_agree(m, min_pts, labels));
        }
    } else {
        let q = work[k as int] as int;
        let cl = Label::Cluster(id as usize);
        match labels[q] {
            Label::Noise => {
                let l2 = labels.update(q, cl);
                crate::engine::lemma_unvisited_update(labels, q, cl);
                assert(closed_but(m, min_pts, l2, work, (k + 1) as int)) by {
                    assert forall|a: int, j: int|
                        0 <= a < l2.len() && 0 <= j < l2.len() && a != j && #[trigger] m[a][j]
                            && l2[a] is Cluster && is_core(m, min_pts, a) implies {
                            ||| #[trigger] l2[j] is Cluster
                            ||| exists|t: int| k + 1 <= t < work.len() && work[t] as int == j
                        } by {
                        assert(labels[a] is Cluster);
                        if !(l2[j] is Cluster) {
                            let t = choose|t: int| k <= t < work.len() && work[t] as int == j;
                            assert(t != k);
                        }
                    }
                }
                if is_symmetric(m) {
                    assert(cores_agree_but(m, min_pts, l2, work, (k + 1) as int, id)) by {
                        assert forall|a: int, j: int|
                            0 <= a < l2.len() && 0 <= j < l2.len() && a != j && #[trigger] m[a][j]
                                && is_core(m, min_pts, a) && is_core(m, min_pts, j) && #[trigger] l2[a] is Cluster implies {
                                ||| l2[j] == l2[a]
                                ||| (l2[a] == cl && exists|t: int| k + 1 <= t < work.len() && work[t] as int == j)
                            } by {
                            assert(a != q && j != q);
                            assert(labels[a] is Cluster);
                            if l2[j] != l2[a] {
                                let t = choose|t: int| k <= t < work.len() && work[t] as int == j;
                                assert(t != k);
                            }
                        }
                    }
                }
                lemma_expand(m, min_pts, l2, work, k + 1, id);
                assert(moves_forward(labels, l2));
                lemma_moves_forward_trans(labels, l2, r);
                lemma_only_adds_trans(labels, l2, r, id);
            },
            Label::Cluster(_) => {
                crate::engine::lemma_unvisited_update(labels, q, labels[q]);
                assert(closed_but(m, min_pts, labels, work, (k + 1) as int)) by {
                    assert forall|a: int, j: int|
                        0 <= a < labels.len() && 0 <= j < labels.len() && a != j && #[trigger] m[a][j]
                            && labels[a] is Cluster && is_core(m, min_pts, a) implies {
                            ||| #[trigger] labels[j] is Cluster
                            ||| exists|t: int| k + 1 <= t < work.len() && work[t] as int == j
                        } by {
                        if !(labels[j] is Cluster) {
                            let t = choose|t: int| k <= t < work.len() && work[t] as int == j;
                            assert(t != k);
                        }
                    }
                }
                if is_symmetric(m) {
                    assert(cores_agree_but(m, min_pts, labels, work, (k + 1) as int, id)) by {
                        assert forall|a: int, j: int|
                            0 <= a < labels.len() && 0 <= j < labels.len() && a != j && #[trigger] m[a][j]
                                && is_core(m, min_pts, a) && is_core(m, min_pts, j) && #[trigger] labels[a] is Cluster implies {
                                ||| labels[j] == labels[a]
                                ||| (labels[a] == cl && exists|t: int| k + 1 <= t < work.len() && work[t] as int == j)
                            } by {
                            if labels[j] != labels[a] {
                                let t = choose|t: int| k <= t < work.len() && work[t] as int == j;
                                if t == k {
                                    assert(m[j][a]);
                                    assert(labels[j] is Cluster);
                                }
                            }
                        }
                    }
                }
                lemma_expand(m, min_pts, labels, work, k + 1, id);
            },
            Label::Unvisited => {
                let l2 = labels.update(q, cl);
                crate::engine::lemma_unvisited_update(labels, q, cl);
                let nq = neighbours_of(m, q);
                lemma_neighbours_of(m, q);
                let w2 = if nq.len() > min_pts {
                    work + nq
                } else {
                    work
                };
                assert(work_sound(m, min_pts, w2)) by {
                    assert forall|t: int| 0 <= t < w2.len() implies {
                        &&& (#[trigger] w2[t] as int) < m.len()
                        &&& borders_core(m, min_pts, w2[t] as int)
                    } by {
                        if t >= work.len() {
                            assert(w2[t] == nq[t - work.len()]);
                            assert(is_core(m, min_pts, q));
                        }
                    }
                }
                assert(closed_but(m, min_pts, l2, w2, (k + 1) as int)) by {
                    assert forall|a: int, j: int|
                        0 <= a < l2.len() && 0 <= j < l2.len() && a != j && #[trigger] m[a][j]
                            && l2[a] is Cluster && is_core(m, min_pts, a) implies {
                            ||| #[trigger] l2[j] is Cluster
                            ||| exists|t: int| k + 1 <= t < w2.len() && w2[t] as int == j
                        } by {
                        if !(l2[j] is Cluster) {
                            if a == q {
                                assert(nq.contains(j as usize));
                                let s = choose|s: int| 0 <= s < nq.len() && nq[s] == j as usize;
                                assert(w2[work.len() + s] as int == j);
                            } else {
                                assert(labels[a] is Cluster);
                                let t = choose|t: int| k <= t < work.len() && work[t] as int == j;
                                assert(t != k);
                                assert(w2[t] == work[t]);
                            }
                        }
                    }
                }
                if is_symmetric(m) {
                    assert(cores_agree_but(m, min_pts, l2, w2, (k + 1) as int, id)) by {
                        assert forall|a: int, j: int|
                            0 <= a < l2.len() && 0 <= j < l2.len() && a != j && #[trigger] m[a][j]
                                && is_core(m, min_pts, a) && is_core(m, min_pts, j) && #[trigger] l2[a] is Cluster implies {
                                ||| l2[j] == l2[a]
                                ||| (l2[a] == cl && exists|t: int| k + 1 <= t < w2.len() && w2[t] as int == j)
                            } by {
                            if l2[j] != l2[a] {
                                if a == q {
                                    assert(nq.contains(j as usize));
                                    let s = choose|s: int| 0 <= s < nq.len() && nq[s] == j as usize;
                                    assert(w2[work.len() + s] as int == j);
                                } else {
                                    assert(labels[a] is Cluster);
                                    let t = choose|t: int| k <= t < work.len() && work[t] as int == j;
                                    assert(t != k);
                                    assert(w2[t] == work[t]);
                                }
                            }
                        }
                    }
                }
                lemma_expand(m, min_pts, l2, w2, k + 1, id);
                assert(moves_forward(labels, l2));
                lemma_moves_forward_trans(labels, l2, r);
                lemma_only_adds_trans(labels, l2, r, id);
            },
        }
    }
}

proof fn lemma_run(m: Seq<Seq<bool>>, min_pts: nat, labels: Seq<Label>, i: nat, id: nat)
    requires
        is_relation(m),
        i <= m.len(),
        id <= i,
        labels_sound(m, min_pts, labels, id),
        closed(m, min_pts, labels),
        ids_dense(labels, id),
        forall|j: int| 0 <= j < i ==> #[trigger] labels[j] !is Unvisited,
        is_symmetric(m) ==> cores_agree(m, min_pts, labels),
    ensures
        is_symmetric(m) ==> cores_agree(m, min_pts, run(m, min_pts, labels, i, id).0),
        labels_sound(m, min_pts, run(m, min_pts, labels, i, id).0, run(m, min_pts, labels, i, id).1),
        closed(m, min_pts, run(m, min_pts, labels, i, id).0),
        ids_dense(run(m, min_pts, labels, i, id).0, run(m, min_pts, labels, i, id).1),
        run(m, min_pts, labels, i, id).1 <= m.len(),
        forall|j: int| 0 <= j < m.len() ==> #[trigger] run(m, min_pts, labels, i, id).0[j] !is Unvisited,
    decreases m.len() - i,
{
    if i >= m.len() {
    } else if !(labels[i as int] is Unvisited) {
        lemma_run(m, min_pts, labels, i + 1, id);
    } else {
        let ni = neighbours_of(m, i as int);
        lemma_neighbours_of(m, i as int);
        if ni.len() <= min_pts {
            let l2 = labels.update(i as int, Label::Noise);
            assert(ids_dense(l2, id)) by {
                assert forall|c: nat| c < id implies #[trigger] has_member(l2, c) by {
                    assert(has_member(labels, c));
                    let j = choose|j: int| 0 <= j < labels.len() && labels[j] == Label::Cluster(c as usize);
                    assert(l2[j] == labels[j]);
                }
            }
            assert(closed(m, min_pts, l2)) by {
                assert forall|a: int, j: int|
                    0 <= a < l2.len() && 0 <= j < l2.len() && a != j && #[trigger] m[a][j]
                        && l2[a] is Cluster && is_core(m, min_pts, a) implies {
                        ||| #[trigger] l2[j] is Cluster
                        ||| exists|t: int| 0 <= t < Seq::<usize>::empty().len() && Seq::<usize>::empty()[t] as int == j
                    } by {
                    assert(labels[a] is Cluster);
                    assert(labels[j] is Cluster);
                }
            }
            if is_symmetric(m) {
                assert(cores_agree(m, min_pts, l2)) by {
                    assert forall|a: int, j: int|
                        0 <= a < l2.len() && 0 <= j < l2.len() && a != j && #[trigger] m[a][j]
                            && is_core(m, min_pts, a) && is_core(m, min_pts, j) && #[trigger] l2[a] is Cluster
                            implies l2[j] == l2[a] by {
                        assert(labels[a] is Cluster);
                    }
                }
            }
            lemma_run(m, min_pts, l2, i + 1, id);
        } else {
            let cl = Label::Cluster(id as usize);
            let l1 = labels.update(i as int, cl);
            assert(labels_sound(m, min_pts, l1, id + 1));
            assert(work_sound(m, min_pts, ni)) by {
                assert forall|t: int| 0 <= t < ni.len() implies {
                    &&& (#[trigger] ni[t] as int) < m.len()
                    &&& borders_core(m, min_pts, ni[t] as int)
                } by {
                    assert(is_core(m, min_pts, i as int));
                }
            }
            assert(closed_but(m, min_pts, l1, ni, 0)) by {
                assert forall|a: int, j: int|
                    0 <= a < l1.len() && 0 <= j < l1.len() && a != j && #[trigger] m[a][j]
                        && l1[a] is Cluster && is_core(m, min_pts, a) implies {
                        ||| #[trigger] l1[j] is Cluster
                        ||| exists|t: int| 0 <= t < ni.len() && ni[t] as int == j
                    } by {
                    if a == i {
                        assert(ni.contains(j as usize));
                    } else {
                        assert(labels[a] is Cluster);
                        assert(labels[j] is Cluster);
                    }
                }
            }
            if is_symmetric(m) {
                assert(cores_agree_but(m, min_pts, l1, ni, 0, id)) by {
                    assert forall|a: int, j: int|
                        0 <= a < l1.len() && 0 <= j < l1.len() && a != j && #[trigger] m[a][j]
                            && is_core(m, min_pts, a) && is_core(m, min_pts, j) && #[trigger] l1[a] is Cluster implies {
                            ||| l1[j] == l1[a]
                            ||| (l1[a] == cl && exists|t: int| 0 <= t < ni.len() && ni[t] as int == j)
                        } by {
                        if a == i {
                            assert(ni.contains(j as usize));
                        } else {
                            assert(labels[a] is Cluster);
                        }
                    }
                }
            }
            lemma_expand(m, min_pts, l1, ni, 0, id);
            let r2 = expand(m, min_pts, l1, ni, 0, id);
            assert(ids_dense(r2, id + 1)) by {
                assert forall|c: nat| c < id + 1 implies #[trigger] has_member(r2, c) by {
                    if c < id {
                        assert(has_member(labels, c));
                        let j = choose|j: int| 0 <= j < labels.len() && labels[j] == Label::Cluster(c as usize);
                        assert(l1[j] == labels[j]);
                        assert(r2[j] == l1[j]);
                    } else {
                        assert(r2[i as int] == l1[i as int]);
                    }
                }
            }
            assert forall|j: int| 0 <= j < i + 1 implies #[trigger] r2[j] !is Unvisited by {
                assert(l1[j] !is Unvisited);
            }
            lemma_run(m, min_pts, r2, i + 1, id + 1);
        }
    }
}

proof fn lemma_run_cores(m: Seq<Seq<bool>>, min_pts: nat)
    requires
        is_relation(m),
    ensures
        is_symmetric(m) ==> cores_agree(m, min_pts, dbscan(m, min_pts).0),
{
    lemma_run(m, min_pts, all_unvisited(m.len()), 0, 0);
}

/// Under a symmetric relation, two core points near each other are in the
/// same cluster.
pub proof fn lemma_near_cores_share_cluster(m: Seq<Seq<bool>>, min_pts: nat)
    requires
        is_relation(m),
        is_symmetric(m),
    ensures
        forall|q: int, j: int|
            0 <= q < m.len() && 0 <= j < m.len() && q != j && #[trigger] m[q][j] && is_core(m, min_pts, q)
                && is_core(m, min_pts, j) ==> dbscan(m, min_pts).0[q] == dbscan(m, min_pts).0[j]
                && dbscan(m, min_pts).0[q] is Cluster,
{
    lemma_dbscan_labelling(m, min_pts);
    lemma_run_cores(m, min_pts);
    let r = dbscan(m, min_pts).0;
    assert forall|q: int, j: int|
        0 <= q < m.len() && 0 <= j < m.len() && q != j && #[trigger] m[q][j] && is_core(m, min_pts, q)
            && is_core(m, min_pts, j) implies r[q] == r[j] && r[q] is Cluster by {
        assert(!(r[q] is Noise));
        assert(r[q] is Cluster);
    }
}

/// The labelling that DBSCAN computes is total and matches the relation:
/// see `is_dbscan_labelling`.
pub proof fn lemma_dbscan_labelling(m: Seq<Seq<bool>>, min_pts: nat)
    requires
        is_relation(m),
    ensures
        is_dbscan_labelling(m, min_pts, dbscan(m, min_pts).0, dbscan(m, min_pts).1),
{
    let init = all_unvisited(m.len());
    lemma_run(m, min_pts, init, 0, 0);
    let r = dbscan(m, min_pts).0;
    let c = dbscan(m, min_pts).1;
    assert forall|j: int| 0 <= j < r.len() implies (#[trigger] r[j] is Noise <==> (!is_core(m, min_pts, j)
        && !borders_core(m, min_pts, j))) by {
        if r[j] is Noise {
            if borders_core(m, min_pts, j) {
                let q = choose|q: int| 0 <= q < m.len() && q != j && #[trigger] is_core(m, min_pts, q) && m[q][j];
                assert(r[q] !is Unvisited);
                assert(r[q] is Cluster);
                assert(r[j] is Cluster);
            }
        }
    }
}

} // verus!
