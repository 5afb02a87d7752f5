//! The result view: the entities with their labels, grouped on demand into
//! clusters and noise.
use vstd::prelude::*;
use crate::engine::{Label, cluster_labels, dbscan};
use crate::properties::is_dbscan_labelling;
use crate::relation::is_relation;

verus! {

/// The entities among the first `k` whose label is `l`, in input order.
pub open spec fn members_upto<T>(es: Seq<T>, ls: Seq<Label>, l: Label, k: int) -> Seq<T>
    decreases k,
{
    if k <= 0 {
        Seq::empty()
    } else {
        let prev = members_upto(es, ls, l, k - 1);
        if ls[k - 1] == l {
            prev.push(es[k - 1])
        } else {
            prev
        }
    }
}

/// The entities whose label is `l`, in input order.
pub open spec fn members<T>(es: Seq<T>, ls: Seq<Label>, l: Label) -> Seq<T> {
    members_upto(es, ls, l, es.len() as int)
}

/// The total size, over the first `k` entities, of the groups of clusters
/// `0 .. count`.
pub open spec fn cluster_sizes<T>(es: Seq<T>, ls: Seq<Label>, count: nat, k: int) -> nat
    decreases count,
{
    if count == 0 {
        0
    } else {
        cluster_sizes(es, ls, (count - 1) as nat, k) + members_upto(
            es,
            ls,
            Label::Cluster((count - 1) as usize),
            k,
        ).len()
    }
}

proof fn lemma_cluster_sizes_step<T>(es: Seq<T>, ls: Seq<Label>, count: nat, k: int)
    requires
        0 <= k,
        count <= usize::MAX + 1,
    ensures
        cluster_sizes(es, ls, count, k + 1) == cluster_sizes(es, ls, count, k) + if ls[k] is Cluster
            && (ls[k]->Cluster_0 as nat) < count {
            1nat
        } else {
            0nat
        },
    decreases count,
{
    if count > 0 {
        lemma_cluster_sizes_step(es, ls, (count - 1) as nat, k);
    }
}

proof fn lemma_cluster_sizes_none<T>(es: Seq<T>, ls: Seq<Label>, count: nat)
    ensures
        cluster_sizes(es, ls, count, 0) == 0,
    decreases count,
{
    if count > 0 {
        lemma_cluster_sizes_none(es, ls, (count - 1) as nat);
    }
}

proof fn lemma_groups_upto<T>(es: Seq<T>, ls: Seq<Label>, count: usize, k: int)
    requires
        es.len() == ls.len(),
        0 <= k <= es.len(),
        forall|j: int|
            0 <= j < ls.len() ==> #[trigger] ls[j] is Noise || (ls[j] is Cluster && ls[j]->Cluster_0 < count),
    ensures
        cluster_sizes(es, ls, count as nat, k) + members_upto(es, ls, Label::Noise, k).len() == k,
    decreases k,
{
    if k > 0 {
        lemma_groups_upto(es, ls, count, k - 1);
        lemma_cluster_sizes_step(es, ls, count as nat, k - 1);
    } else {
        lemma_cluster_sizes_none(es, ls, count as nat);
    }
}

/// The groups partition the entities: each entity is in the noise or in
/// the group of exactly one cluster, so the group sizes add up to the
/// number of entities.
pub proof fn lemma_groups_partition_entities<T>(es: Seq<T>, ls: Seq<Label>, count: usize)
    requires
        es.len() == ls.len(),
        forall|j: int|
            0 <= j < ls.len() ==> #[trigger] ls[j] is Noise || (ls[j] is Cluster && ls[j]->Cluster_0 < count),
    ensures
        cluster_sizes(es, ls, count as nat, es.len() as int) + members(es, ls, Label::Noise).len() == es.len(),
{
    lemma_groups_upto(es, ls, count, es.len() as int);
}

/// The entities of one clustering run, each with its label.
pub struct Results<T> {
    entities: Vec<T>,
    labels: Vec<Label>,
    count: usize,
}

impl<T> Results<T> {
    /// The entities, in input order.
    pub closed spec fn entities(&self) -> Seq<T> {
        self.entities@
    }

    /// The label of each entity, by position.
    pub closed spec fn labels(&self) -> Seq<Label> {
        self.labels@
    }

    /// The number of clusters.
    pub closed spec fn count(&self) -> nat {
        self.count as nat
    }

    #[verifier::type_invariant]
    spec fn inv(&self) -> bool {
        &&& self.entities@.len() == self.labels@.len()
    }

    /// The label of each entity, by position.
    pub fn inner(&self) -> (r: &Vec<Label>)
        ensures
            r@ == self.labels(),
    {
        &self.labels
    }

    /// The number of clusters.
    pub fn cluster_count(&self) -> (r: usize)
        ensures
            r as nat == self.count(),
    {
        self.count
    }
}

impl<T: Copy> Results<T> {
    /// The entities labelled `l`, in input order.
    fn collect(&self, l: Label) -> (r: Vec<T>)
        ensures
            r@ == members(self.entities(), self.labels(), l),
    {
        proof {
            use_type_invariant(self);
        }
        let n = self.entities.len();
        let mut r: Vec<T> = Vec::new();
        let mut j: usize = 0;
        while j < n
            invariant
                n == self.entities@.len(),
                n == self.labels@.len(),
                j <= n,
                r@ == members_upto(self.entities@, self.labels@, l, j as int),
            decreases n - j,
        {
            if self.labels[j] == l {
                r.push(self.entities[j]);
            }
            j += 1;
        }
        r
    }

    /// One group per cluster, by id; each group holds the cluster's
    /// entities in input order.
    pub fn clusters(&self) -> (r: Vec<Vec<T>>)
        ensures
            r@.len() == self.count(),
            forall|c: int|
                0 <= c < r@.len() ==> #[trigger] r@[c]@ == members(
                    self.entities(),
                    self.labels(),
                    Label::Cluster(c as usize),
                ),
    {
        let mut r: Vec<Vec<T>> = Vec::new();
        let mut c: usize = 0;
        while c < self.count
            invariant
                c <= self.count,
                r@.len() == c,
                forall|d: int|
                    0 <= d < c ==> #[trigger] r@[d]@ == members(
                        self.entities(),
                        self.labels(),
                        Label::Cluster(d as usize),
                    ),
            decreases self.count - c,
        {
            let group = self.collect(Label::Cluster(c));
            r.push(group);
            c += 1;
        }
        r
    }

    /// The entities labelled noise, in input order.
    pub fn noise(&self) -> (r: Vec<T>)
        ensures
            r@ == members(self.entities(), self.labels(), Label::Noise),
    {
        self.collect(Label::Noise)
    }
}

/// Clusters `entities` with DBSCAN, where `near[i][j]` says that entity `j`
/// lies within the radius of entity `i`, and an entity with more than
/// `min_pts` neighbours is a core point.
pub fn cluster<T>(entities: Vec<T>, near: &Vec<Vec<bool>>, min_pts: usize) -> (r: Results<T>)
    requires
        is_relation(near.deep_view()),
        near@.len() == entities@.len(),
    ensures
        r.entities() == entities@,
        r.labels() == dbscan(near.deep_view(), min_pts as nat).0,
        r.count() == dbscan(near.deep_view(), min_pts as nat).1,
        is_dbscan_labelling(near.deep_view(), min_pts as nat, r.labels(), r.count()),
{
    let (labels, count) = cluster_labels(near, min_pts);
    Results { entities, labels, count }
}

} // verus!
