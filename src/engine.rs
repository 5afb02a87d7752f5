//! The clustering engine: labels, the expansion of one cluster, and the pass
//! over all entities.
use vstd::prelude::*;
use crate::properties::{is_dbscan_labelling, lemma_dbscan_labelling};
use crate::relation::{is_relation, neighbours, neighbours_of, lemma_neighbours_of};

verus! {

/// The label of one entity.
#[derive(Clone, Copy, Debug, PartialEq, Eq, Structural)]
pub enum Label {
    /// Not reached yet; no entity keeps this label once clustering is done.
    Unvisited,
    /// Not density-reachable from any core point.
    Noise,
    /// Member of the cluster with this id; ids count from zero in the order
    /// clusters are discovered.
    Cluster(usize),
}

/// The number of entities still unvisited.
pub open spec fn unvisited(labels: Seq<Label>) -> nat
    decreases labels.len(),
{
    if labels.len() == 0 {
        0
    } else {
        unvisited(labels.drop_last()) + if labels.last() is Unvisited {
            1nat
        } else {
            0nat
        }
    }
}

/// Relabelling one entity changes the unvisited count by what it changes
/// at that entity.
pub proof fn lemma_unvisited_update(labels: Seq<Label>, j: int, l: Label)
    requires
        0 <= j < labels.len(),
    ensures
        unvisited(labels.update(j, l)) + (if labels[j] is Unvisited {
            1int
        } else {
            0int
        }) == unvisited(labels) + (if l is Unvisited {
            1int
        } else {
            0int
        }),
    decreases labels.len(),
{
    let u = labels.update(j, l);
    if j == labels.len() - 1 {
        assert(u.drop_last() =~= labels.drop_last());
    } else {
        lemma_unvisited_update(labels.drop_last(), j, l);
        assert(u.drop_last() =~= labels.drop_last().update(j, l));
    }
}

/// Expansion of cluster `id` from the worklist `work`, whose first `k` items
/// are done. Each remaining item `q`, in turn: a noise point joins the
/// cluster as a border point; a clustered point stays as it is; an
/// unvisited point joins the cluster and, when it is a core point, appends
/// its own neighbours to the worklist.
pub open spec fn expand(
    m: Seq<Seq<bool>>,
    min_pts: nat,
    labels: Seq<Label>,
    work: Seq<usize>,
    k: nat,
    id: nat,
) -> Seq<Label>
    decreases unvisited(labels), work.len() - k,
    via expand_decreases
{
    if k >= work.len() {
        labels
    } else {
        let q = work[k as int] as int;
        if q >= labels.len() {
            expand(m, min_pts, labels, work, k + 1, id)
        } else {
            match labels[q] {
                Label::Noise => expand(
                    m,
                    min_pts,
                    labels.update(q, Label::Cluster(id as usize)),
                    work,
                    k + 1,
                    id,
                ),
                Label::Cluster(_) => expand(m, min_pts, labels, work, k + 1, id),
                Label::Unvisited => {
                    let nq = neighbours_of(m, q);
                    expand(
                        m,
                        min_pts,
                        labels.update(q, Label::Cluster(id as usize)),
                        if nq.len() > min_pts {
                            work + nq
                        } else {
                            work
                        },
                        k + 1,
                        id,
                    )
                },
            }
        }
    }
}

#[via_fn]
proof fn expand_decreases(
    m: Seq<Seq<bool>>,
    min_pts: nat,
    labels: Seq<Label>,
    work: Seq<usize>,
    k: nat,
    id: nat,
) {
    if k < work.len() {
        let q = work[k as int] as int;
        if q < labels.len() {
            lemma_unvisited_update(labels, q, Label::Cluster(id as usize));
        }
    }
}

/// The pass over the entities from index `i` on, with `id` clusters found so
/// far. An unvisited entity with at most `min_pts` neighbours becomes noise;
/// one with more seeds cluster `id`, which is expanded from its neighbours.
/// Returns the final labels and the number of clusters.
pub open spec fn run(m: Seq<Seq<bool>>, min_pts: nat, labels: Seq<Label>, i: nat, id: nat) -> (
    Seq<Label>,
    nat,
)
    decreases m.len() - i,
{
    if i >= m.len() {
        (labels, id)
    } else if !(labels[i as int] is Unvisited) {
        run(m, min_pts, labels, i + 1, id)
    } else {
        let ni = neighbours_of(m, i as int);
        if ni.len() <= min_pts {
            run(m, min_pts, labels.update(i as int, Label::Noise), i + 1, id)
        } else {
            run(
                m,
                min_pts,
                expand(m, min_pts, labels.update(i as int, Label::Cluster(id as usize)), ni, 0, id),
                i + 1,
                id + 1,
            )
        }
    }
}

/// Every entity unvisited.
pub open spec fn all_unvisited(n: nat) -> Seq<Label> {
    Seq::new(n, |_j: int| Label::Unvisited)
}

/// The labels that DBSCAN gives the entities of relation `m`, and the number
/// of clusters.
pub open spec fn dbscan(m: Seq<Seq<bool>>, min_pts: nat) -> (Seq<Label>, nat) {
    run(m, min_pts, all_unvisited(m.len()), 0, 0)
}

/// Labels every entity of `near`, by position, as DBSCAN does with
/// neighbour threshold `min_pts`, and returns the labels with the number of
/// clusters.
pub fn cluster_labels(near: &Vec<Vec<bool>>, min_pts: usize) -> (r: (Vec<Label>, usize))
    requires
        is_relation(near.deep_view()),
    ensures
        r.0@ == dbscan(near.deep_view(), min_pts as nat).0,
        r.1 as nat == dbscan(near.deep_view(), min_pts as nat).1,
        is_dbscan_labelling(near.deep_view(), min_pts as nat, r.0@, r.1 as nat),
{
    proof {
        lemma_dbscan_labelling(near.deep_view(), min_pts as nat);
    }
    let ghost m = near.deep_view();
    let n = near.len();
    let mut labels: Vec<Label> = Vec::new();
    let mut j: usize = 0;
    while j < n
        invariant
            j <= n,
            labels@ == all_unvisited(j as nat),
        decreases n - j,
    {
        labels.push(Label::Unvisited);
        j += 1;
        assert(labels@ =~= all_unvisited(j as nat));
    }
    let ghost target = dbscan(m, min_pts as nat);
    let mut count: usize = 0;
    let mut i: usize = 0;
    while i < n
        invariant
            m == near.deep_view(),
            is_relation(m),
            n == m.len(),
            i <= n,
            count <= i,
            labels@.len() == n,
            run(m, min_pts as nat, labels@, i as nat, count as nat) == target,
        decreases n - i,
    {
        if labels[i] == Label::Unvisited {
            let mut work = neighbours(near, i);
            proof {
                lemma_neighbours_of(m, i as int);
            }
            if work.len() <= min_pts {
                labels.set(i, Label::Noise);
            } else {
                labels.set(i, Label::Cluster(count));
                let ghost start = labels@;
                let mut k: usize = 0;
                while k < work.len()
                    invariant
                        m == near.deep_view(),
                        is_relation(m),
                        n == m.len(),
                        labels@.len() == n,
                        k <= work@.len(),
                        forall|t: int| 0 <= t < work@.len() ==> #[trigger] work@[t] < n,
                        expand(m, min_pts as nat, labels@, work@, k as nat, count as nat)
                            == expand(m, min_pts as nat, start, neighbours_of(m, i as int), 0, count as nat),
                    decreases unvisited(labels@), work@.len() - k,
                {
                    let q = work[k];
                    match labels[q] {
                        Label::Noise => {
                            proof {
                                lemma_unvisited_update(labels@, q as int, Label::Cluster(count));
                            }
                            labels.set(q, Label::Cluster(count));
                        },
                        Label::Cluster(_) => {},
                        Label::Unvisited => {
                            proof {
                                lemma_unvisited_update(labels@, q as int, Label::Cluster(count));
                                lemma_neighbours_of(m, q as int);
                            }
                            labels.set(q, Label::Cluster(count));
                            let mut nq = neighbours(near, q);
                            if nq.len() > min_pts {
                                work.append(&mut nq);
                            }
                        },
                    }
                    k += 1;
                }
                count += 1;
            }
        }
        i += 1;
    }
    (labels, count)
}

} // verus!
