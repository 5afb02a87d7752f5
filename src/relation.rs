//! The neighbourhood relation and the neighbour query.
use vstd::prelude::*;

verus! {

/// A relation over `m.len()` entities: one row per entity, each row as long
/// as there are entities.
pub open spec fn is_relation(m: Seq<Seq<bool>>) -> bool {
    &&& m.len() <= usize::MAX
    &&& forall|i: int| 0 <= i < m.len() ==> #[trigger] m[i].len() == m.len()
}

/// The indices `j < k`, other than `i`, that row `i` marks as near, in
/// increasing order.
pub open spec fn neighbours_upto(m: Seq<Seq<bool>>, i: int, k: int) -> Seq<usize>
    decreases k,
{
    if k <= 0 {
        Seq::empty()
    } else {
        let prev = neighbours_upto(m, i, k - 1);
        if k - 1 != i && m[i][k - 1] {
            prev.push((k - 1) as usize)
        } else {
            prev
        }
    }
}

/// All other entities within the radius of entity `i`, in input order.
pub open spec fn neighbours_of(m: Seq<Seq<bool>>, i: int) -> Seq<usize> {
    neighbours_upto(m, i, m.len() as int)
}

/// Entity `i` is a core point: it has more than `min_pts` neighbours.
pub open spec fn is_core(m: Seq<Seq<bool>>, min_pts: nat, i: int) -> bool {
    neighbours_of(m, i).len() > min_pts
}

/// Entity `j` lies within the radius of some core point other than itself.
pub open spec fn borders_core(m: Seq<Seq<bool>>, min_pts: nat, j: int) -> bool {
    exists|q: int|
        0 <= q < m.len() && q != j && #[trigger] is_core(m, min_pts, q) && m[q][j]
}

/// What `neighbours_upto` holds: exactly the near indices below `k`, each once,
/// in increasing order.
pub proof fn lemma_neighbours_upto(m: Seq<Seq<bool>>, i: int, k: int)
    requires
        0 <= i < m.len(),
        0 <= k <= m.len(),
        is_relation(m),
    ensures
        neighbours_upto(m, i, k).len() <= k,
        forall|t: int|
            0 <= t < neighbours_upto(m, i, k).len() ==> {
                let j = #[trigger] neighbours_upto(m, i, k)[t] as int;
                0 <= j < k && j != i && m[i][j]
            },
        forall|j: int|
            0 <= j < k && j != i && m[i][j] ==> #[trigger] neighbours_upto(m, i, k).contains(
                j as usize,
            ),
    decreases k,
{
    if k > 0 {
        lemma_neighbours_upto(m, i, k - 1);
        let prev = neighbours_upto(m, i, k - 1);
        let cur = neighbours_upto(m, i, k);
        assert forall|j: int| 0 <= j < k && j != i && m[i][j] implies cur.contains(j as usize) by {
            if j < k - 1 {
                assert(prev.contains(j as usize));
                let t = choose|t: int| 0 <= t < prev.len() && prev[t] == j as usize;
                assert(cur[t] == j as usize);
            } else {
                assert(cur[cur.len() - 1] == j as usize);
            }
        }
    }
}

/// What `neighbours_of` holds: exactly the other entities that row `i` marks
/// as near.
pub proof fn lemma_neighbours_of(m: Seq<Seq<bool>>, i: int)
    requires
        0 <= i < m.len(),
        is_relation(m),
    ensures
        neighbours_of(m, i).len() < m.len(),
        forall|t: int|
            0 <= t < neighbours_of(m, i).len() ==> {
                let j = #[trigger] neighbours_of(m, i)[t] as int;
                0 <= j < m.len() && j != i && m[i][j]
            },
        forall|j: int|
            0 <= j < m.len() && j != i && m[i][j] ==> #[trigger] neighbours_of(m, i).contains(
                j as usize,
            ),
{
    lemma_neighbours_upto(m, i, m.len() as int);
    lemma_neighbours_not_self(m, i, m.len() as int);
}

/// The neighbour list below `k` is shorter than `k` once `k` passes `i`.
proof fn lemma_neighbours_not_self(m: Seq<Seq<bool>>, i: int, k: int)
    requires
        0 <= i < k <= m.len(),
        is_relation(m),
    ensures
        neighbours_upto(m, i, k).len() < k,
    decreases k,
{
    if k - 1 > i {
        lemma_neighbours_not_self(m, i, k - 1);
    } else {
        lemma_neighbours_upto(m, i, k - 1);
    }
}

/// The neighbour query: every other entity that row `i` of `near` marks as
/// near, in input order.
pub fn neighbours(near: &Vec<Vec<bool>>, i: usize) -> (r: Vec<usize>)
    requires
        is_relation(near.deep_view()),
        i < near.len(),
    ensures
        r@ == neighbours_of(near.deep_view(), i as int),
{
    let ghost m = near.deep_view();
    let n = near.len();
    let row = &near[i];
    assert(row@ == m[i as int]);
    let mut r: Vec<usize> = Vec::new();
    let mut j: usize = 0;
    while j < n
        invariant
            m == near.deep_view(),
            is_relation(m),
            n == m.len(),
            i < n,
            row@ == m[i as int],
            j <= n,
            r@ == neighbours_upto(m, i as int, j as int),
        decreases n - j,
    {
        if j != i && row[j] {
            r.push(j);
        }
        j += 1;
    }
    r
}

} // verus!
