//! How much traffic each road of a settlement's road tree carries: a road
//! carries every file beyond it on its way to the square.

use vstd::prelude::*;

verus! {

/// What edge `e` of `edges` (parent, child) carries, counting only the
/// edges after it: the files of its child and what every later edge out
/// of that child carries.
pub open spec fn carried(files: Seq<usize>, edges: Seq<(usize, usize)>, e: int) -> int
    decreases edges.len() - e, 1int,
{
    if 0 <= e < edges.len() {
        files[edges[e].1 as int] + carried_after(files, edges, edges[e].1 as int, e + 1)
    } else {
        0
    }
}

/// What the edges from `k` on that leave place `x` carry.
pub open spec fn carried_after(files: Seq<usize>, edges: Seq<(usize, usize)>, x: int, k: int) -> int
    decreases edges.len() - k, 2int,
{
    if 0 <= k < edges.len() {
        (if edges[k].0 as int == x {
            carried(files, edges, k)
        } else {
            0
        }) + carried_after(files, edges, x, k + 1)
    } else {
        0
    }
}

proof fn lemma_carried_nonneg(files: Seq<usize>, edges: Seq<(usize, usize)>, x: int, k: int)
    requires
        0 <= k,
    ensures
        carried_after(files, edges, x, k) >= 0,
        k < edges.len() ==> carried(files, edges, k) >= 0,
    decreases edges.len() - k,
{
    if k < edges.len() {
        lemma_carried_nonneg(files, edges, x, k + 1);
        lemma_carried_nonneg(files, edges, edges[k].1 as int, k + 1);
        assert(carried(files, edges, k) == files[edges[k].1 as int] + carried_after(files, edges, edges[k].1 as int, k + 1));
        assert(carried(files, edges, k) >= 0);
        assert(carried_after(files, edges, x, k) == (if edges[k].0 as int == x {
            carried(files, edges, k)
        } else {
            0
        }) + carried_after(files, edges, x, k + 1));
    }
}

/// How many files travel each edge of the road tree to reach the square: a
/// place's files and everything carried by the edges out of it, which for a
/// tree listed with every place after the edge that reached it is the whole
/// subtree beyond the edge.
pub fn edge_traffic(files: &Vec<usize>, edges: &Vec<(usize, usize)>) -> (r: Vec<usize>)
    requires
        forall|e: int| 0 <= e < edges.len() ==> (#[trigger] edges@[e]).0 < files.len() && edges@[e].1 < files.len(),
        forall|x: int| 0 <= x < files.len() ==> #[trigger] files@[x] + carried_after(files@, edges@, x, 0) <= usize::MAX,
    ensures
        r.len() == edges.len(),
        forall|e: int|
            0 <= e < edges.len() ==> #[trigger] r@[e] == files@[edges@[e].1 as int] + carried_after(
                files@,
                edges@,
                edges@[e].1 as int,
                0,
            ),
{
    let mut subtree: Vec<usize> = files.clone();
    let mut k = edges.len();
    proof {
        assert forall|x: int| 0 <= x < files.len() implies #[trigger] subtree@[x] == files@[x] + carried_after(
            files@,
            edges@,
            x,
            k as int,
        ) by {}
    }
    while k > 0
        invariant
            k <= edges.len(),
            subtree.len() == files.len(),
            forall|e: int| 0 <= e < edges.len() ==> (#[trigger] edges@[e]).0 < files.len() && edges@[e].1 < files.len(),
            forall|x: int| 0 <= x < files.len() ==> #[trigger] files@[x] + carried_after(files@, edges@, x, 0) <= usize::MAX,
            forall|x: int| 0 <= x < files.len() ==> #[trigger] subtree@[x] == files@[x] + carried_after(files@, edges@, x, k as int),
        decreases k,
    {
        k = k - 1;
        let (parent, child) = edges[k];
        proof {
            lemma_bounded_after(files@, edges@, parent as int, k as int);
            lemma_carried_nonneg(files@, edges@, parent as int, k as int);
            assert(carried(files@, edges@, k as int) == subtree@[child as int]);
        }
        let add = subtree[child];
        let before = subtree[parent];
        subtree.set(parent, before + add);
        proof {
            assert forall|x: int| 0 <= x < files.len() implies #[trigger] subtree@[x] == files@[x] + carried_after(
                files@,
                edges@,
                x,
                k as int,
            ) by {}
        }
    }
    let mut traffic: Vec<usize> = Vec::new();
    let mut e: usize = 0;
    while e < edges.len()
        invariant
            e <= edges.len(),
            k == 0,
            subtree.len() == files.len(),
            forall|j: int| 0 <= j < edges.len() ==> (#[trigger] edges@[j]).0 < files.len() && edges@[j].1 < files.len(),
            forall|x: int| 0 <= x < files.len() ==> #[trigger] subtree@[x] == files@[x] + carried_after(files@, edges@, x, 0),
            traffic.len() == e,
            forall|j: int|
                0 <= j < e ==> #[trigger] traffic@[j] == files@[edges@[j].1 as int] + carried_after(
                    files@,
                    edges@,
                    edges@[j].1 as int,
                    0,
                ),
        decreases edges.len() - e,
    {
        traffic.push(subtree[edges[e].1]);
        e = e + 1;
    }
    traffic
}

/// The edges after `k` out of `x` carry no more than all the edges out of
/// `x` do.
proof fn lemma_bounded_after(files: Seq<usize>, edges: Seq<(usize, usize)>, x: int, k: int)
    requires
        0 <= k,
    ensures
        carried_after(files, edges, x, k) <= carried_after(files, edges, x, 0),
        k < edges.len() && edges[k].0 as int == x ==> carried(files, edges, k) + carried_after(files, edges, x, k + 1)
            <= carried_after(files, edges, x, 0),
    decreases k,
{
    if k > 0 {
        lemma_bounded_after(files, edges, x, k - 1);
        lemma_carried_nonneg(files, edges, x, k - 1);
        if k - 1 < edges.len() {
            lemma_carried_nonneg(files, edges, edges[k - 1].1 as int, k);
        }
    }
}

/// A road tree as the planner lists it: grown from place zero, every edge
/// reaching a new place other than zero, and leaving from zero or from a
/// place an earlier edge reached.
pub open spec fn grown_from_square(edges: Seq<(usize, usize)>) -> bool {
    &&& forall|e: int| 0 <= e < edges.len() ==> (#[trigger] edges[e]).1 != 0
    &&& forall|a: int, b: int| 0 <= a < b < edges.len() ==> (#[trigger] edges[a]).1 != (#[trigger] edges[b]).1
    &&& forall|e: int|
        0 <= e < edges.len() ==> (#[trigger] edges[e]).0 == 0 || exists|a: int| 0 <= a < e && (#[trigger] edges[a]).1 == edges[e].0
}

proof fn lemma_carried_after_skip(files: Seq<usize>, edges: Seq<(usize, usize)>, x: int, m: int)
    requires
        0 <= m <= edges.len(),
        forall|k: int| 0 <= k < m ==> (#[trigger] edges[k]).0 as int != x,
    ensures
        carried_after(files, edges, x, 0) == carried_after(files, edges, x, m),
    decreases m,
{
    if m > 0 {
        lemma_carried_after_skip(files, edges, x, m - 1);
    }
}

/// On a road tree, every edge carries its whole subtree: what
/// [`edge_traffic`] gives an edge is its child's files and what every edge
/// beyond that child carries.
pub proof fn law_an_edge_carries_its_whole_subtree(files: Seq<usize>, edges: Seq<(usize, usize)>, e: int)
    requires
        grown_from_square(edges),
        0 <= e < edges.len(),
    ensures
        files[edges[e].1 as int] + carried_after(files, edges, edges[e].1 as int, 0) == carried(files, edges, e),
{
    let c = edges[e].1;
    assert forall|k: int| 0 <= k < e + 1 implies (#[trigger] edges[k]).0 as int != c as int by {
        if edges[k].0 == c {
            assert(c != 0);
            let a = choose|a: int| 0 <= a < k && (#[trigger] edges[a]).1 == edges[k].0;
            assert(edges[a].1 == edges[e].1);
        }
    }
    lemma_carried_after_skip(files, edges, c as int, e + 1);
}

/// Whether edge `e`'s traffic drives through place `x`: it arrives at `x`,
/// which is not the square, at a gate other than the one `x` leaves by.
pub open spec fn drives_through(
    edges: Seq<(usize, usize)>,
    arrival: Seq<Option<usize>>,
    uphill: Seq<Option<usize>>,
    x: int,
    e: int,
) -> bool {
    &&& edges[e].0 as int == x
    &&& x != 0
    &&& uphill[x] is Some
    &&& arrival[e] != uphill[x]
}

/// The traffic of the first `k` edges that drives through place `x`.
pub open spec fn crossing_of(
    edges: Seq<(usize, usize)>,
    arrival: Seq<Option<usize>>,
    uphill: Seq<Option<usize>>,
    traffic: Seq<usize>,
    x: int,
    k: int,
) -> int
    decreases k,
{
    if k <= 0 {
        0
    } else {
        crossing_of(edges, arrival, uphill, traffic, x, k - 1) + if drives_through(edges, arrival, uphill, x, k - 1) {
            traffic[k - 1] as int
        } else {
            0
        }
    }
}

proof fn lemma_crossing_grows(
    edges: Seq<(usize, usize)>,
    arrival: Seq<Option<usize>>,
    uphill: Seq<Option<usize>>,
    traffic: Seq<usize>,
    x: int,
    k: int,
)
    requires
        0 <= k <= edges.len(),
    ensures
        0 <= crossing_of(edges, arrival, uphill, traffic, x, k) <= crossing_of(edges, arrival, uphill, traffic, x, edges.len() as int),
    decreases edges.len() - k,
{
    if k < edges.len() {
        lemma_crossing_grows(edges, arrival, uphill, traffic, x, k + 1);
    }
    lemma_crossing_nonneg(edges, arrival, uphill, traffic, x, k);
}

proof fn lemma_crossing_nonneg(
    edges: Seq<(usize, usize)>,
    arrival: Seq<Option<usize>>,
    uphill: Seq<Option<usize>>,
    traffic: Seq<usize>,
    x: int,
    k: int,
)
    ensures
        crossing_of(edges, arrival, uphill, traffic, x, k) >= 0,
    decreases k,
{
    if k > 0 {
        lemma_crossing_nonneg(edges, arrival, uphill, traffic, x, k - 1);
    }
}

/// How much traffic drives straight through each place instead of stopping:
/// the traffic of every road that reaches a place other than the square at
/// another of its entrances than the one the place is left by. For each
/// road, `arrival` is which entrance of its parent place it meets; for each
/// place, `uphill` is which entrance it is left by, where it has any.
pub fn ward_crossings(
    places: usize,
    edges: &Vec<(usize, usize)>,
    arrival: &Vec<Option<usize>>,
    uphill: &Vec<Option<usize>>,
    traffic: &Vec<usize>,
) -> (r: Vec<usize>)
    requires
        arrival.len() == edges.len(),
        traffic.len() == edges.len(),
        uphill.len() == places,
        forall|e: int| 0 <= e < edges.len() ==> (#[trigger] edges@[e]).0 < places,
        forall|x: int| 0 <= x < places ==> crossing_of(edges@, arrival@, uphill@, traffic@, x, edges.len() as int) <= usize::MAX,
    ensures
        r.len() == places,
        forall|x: int| 0 <= x < places ==> #[trigger] r@[x] == crossing_of(edges@, arrival@, uphill@, traffic@, x, edges.len() as int),
{
    let mut crossing: Vec<usize> = Vec::new();
    let mut x: usize = 0;
    while x < places
        invariant
            x <= places,
            crossing.len() == x,
            forall|y: int| 0 <= y < x ==> #[trigger] crossing@[y] == 0,
        decreases places - x,
    {
        crossing.push(0);
        x = x + 1;
    }
    let mut index: usize = 0;
    while index < edges.len()
        invariant
            index <= edges.len(),
            arrival.len() == edges.len(),
            traffic.len() == edges.len(),
            uphill.len() == places,
            crossing.len() == places,
            forall|e: int| 0 <= e < edges.len() ==> (#[trigger] edges@[e]).0 < places,
            forall|y: int| 0 <= y < places ==> crossing_of(edges@, arrival@, uphill@, traffic@, y, edges.len() as int) <= usize::MAX,
            forall|y: int| 0 <= y < places ==> #[trigger] crossing@[y] == crossing_of(edges@, arrival@, uphill@, traffic@, y, index as int),
        decreases edges.len() - index,
    {
        let parent = edges[index].0;
        if parent != 0 && uphill[parent].is_some() && arrival[index] != uphill[parent] {
            proof {
                lemma_crossing_grows(edges@, arrival@, uphill@, traffic@, parent as int, index + 1);
            }
            let before = crossing[parent];
            crossing.set(parent, before + traffic[index]);
        }
        index = index + 1;
    }
    crossing
}

/// The journeys into a town: one for each of its holdings, and one more for
/// every reference to one, given each holding's reference count.
pub open spec fn journeys_of(references: Seq<usize>) -> int
    decreases references.len(),
{
    if references.len() == 0 {
        0
    } else {
        journeys_of(references.drop_last()) + 1 + references.last()
    }
}

proof fn lemma_journeys_prefix(references: Seq<usize>, i: int)
    requires
        0 <= i <= references.len(),
    ensures
        0 <= journeys_of(references.take(i)) <= journeys_of(references),
    decreases references.len() - i,
{
    if i < references.len() {
        lemma_journeys_prefix(references, i + 1);
        assert(references.take(i + 1).drop_last() =~= references.take(i));
    } else {
        assert(references.take(i) =~= references);
    }
    lemma_journeys_nonneg(references.take(i));
}

proof fn lemma_journeys_nonneg(references: Seq<usize>)
    ensures
        journeys_of(references) >= 0,
    decreases references.len(),
{
    if references.len() > 0 {
        lemma_journeys_nonneg(references.drop_last());
    }
}

/// What a highway into a town has to carry: every holding's own traffic
/// and every reference reaching into it.
pub fn town_journeys(references: &Vec<usize>) -> (r: usize)
    requires
        journeys_of(references@) <= usize::MAX,
    ensures
        r == journeys_of(references@),
{
    let mut total: usize = 0;
    let mut i: usize = 0;
    while i < references.len()
        invariant
            i <= references.len(),
            journeys_of(references@) <= usize::MAX,
            total == journeys_of(references@.take(i as int)),
        decreases references.len() - i,
    {
        proof {
            lemma_journeys_prefix(references@, i + 1);
            assert(references@.take(i + 1).drop_last() =~= references@.take(i as int));
        }
        total = total + 1 + references[i];
        i = i + 1;
    }
    assert(references@.take(references.len() as int) =~= references@);
    total
}

} // verus!
