//! Flat index buffers built from the polygons of a navigation mesh, and back.

use itertools::Itertools;
use vstd::prelude::*;

verus! {

/// The view of each polygon's vertex list.
pub open spec fn polygon_views(polygons: Seq<Vec<u32>>) -> Seq<Seq<u32>> {
    polygons.map_values(|p: Vec<u32>| p@)
}

/// The fan of one polygon from its first vertex, limited to its first `n`
/// vertices: `(v0, v[i-1], v[i])` for each `i` in `2..n`, three indices each.
pub open spec fn fan_upto(p: Seq<u32>, n: int) -> Seq<u32>
    decreases n,
{
    if n <= 2 {
        Seq::empty()
    } else {
        fan_upto(p, n - 1) + seq![p[0], p[n - 2], p[n - 1]]
    }
}

/// The triangle-list indices of one polygon, fanned from its first vertex.
pub open spec fn fan_of(p: Seq<u32>) -> Seq<u32> {
    fan_upto(p, p.len() as int)
}

/// The triangle-list indices of all polygons, one fan after another.
pub open spec fn fan_indices(polygons: Seq<Seq<u32>>) -> Seq<u32>
    decreases polygons.len(),
{
    if polygons.len() == 0 {
        Seq::empty()
    } else {
        fan_indices(polygons.drop_last()) + fan_of(polygons.last())
    }
}

/// Fans every polygon from its first vertex into a flat triangle list.
pub fn fan_triangle_indices(polygons: &Vec<Vec<u32>>) -> (r: Vec<u32>)
    ensures
        r@ == fan_indices(polygon_views(polygons@)),
{
    let mut r: Vec<u32> = Vec::new();
    let mut k: usize = 0;
    while k < polygons.len()
        invariant
            k <= polygons.len(),
            r@ == fan_indices(polygon_views(polygons@.take(k as int))),
        decreases polygons.len() - k,
    {
        let p = &polygons[k];
        let ghost before = r@;
        let mut i: usize = 2;
        while i < p.len()
            invariant
                2 <= i,
                i <= p.len() || i == 2,
                r@ == before + fan_upto(p@, i as int),
            decreases p.len() - i,
        {
            r.push(p[0]);
            r.push(p[i - 1]);
            r.push(p[i]);
            i = i + 1;
        }
        proof {
            if p.len() >= 2 {
                assert(i == p.len());
                assert(fan_upto(p@, i as int) == fan_of(p@));
            } else {
                assert(fan_upto(p@, p.len() as int) == Seq::<u32>::empty());
                assert(fan_upto(p@, i as int) == Seq::<u32>::empty());
                assert(r@ =~= before);
            }
            let pv = polygon_views(polygons@.take(k as int + 1));
            assert(pv.drop_last() =~= polygon_views(polygons@.take(k as int)));
            assert(pv.last() == p@);
            assert(fan_indices(pv) == fan_indices(pv.drop_last()) + fan_of(pv.last()));
            assert(r@ =~= before + fan_of(p@));
        }
        k = k + 1;
    }
    assert(polygons@.take(polygons.len() as int) =~= polygons@);
    r
}

/// The closed ring of edges of one polygon: each vertex with the next one,
/// the last with the first.
pub open spec fn ring_edges(p: Seq<u32>) -> Seq<(u32, u32)> {
    Seq::new(p.len(), |i: int| (p[i], p[(i + 1) % (p.len() as int)]))
}

/// The edges of all polygons, ring after ring.
pub open spec fn all_edges(polygons: Seq<Seq<u32>>) -> Seq<(u32, u32)>
    decreases polygons.len(),
{
    if polygons.len() == 0 {
        Seq::empty()
    } else {
        all_edges(polygons.drop_last()) + ring_edges(polygons.last())
    }
}

/// An edge as an undirected key: its smaller index first.
pub open spec fn undirected(e: (u32, u32)) -> (u32, u32) {
    if e.0 < e.1 {
        e
    } else {
        (e.1, e.0)
    }
}

/// Whether some edge of `s` has the undirected key of `e`.
pub open spec fn key_seen(s: Seq<(u32, u32)>, e: (u32, u32)) -> bool {
    exists|j: int| 0 <= j < s.len() && undirected(#[trigger] s[j]) == undirected(e)
}

/// The edges whose undirected key has not been seen earlier, in order: of
/// each set of edges with one key, the first one stays.
pub open spec fn first_by_undirected(s: Seq<(u32, u32)>) -> Seq<(u32, u32)>
    decreases s.len(),
{
    if s.len() == 0 {
        Seq::empty()
    } else if key_seen(s.drop_last(), s.last()) {
        first_by_undirected(s.drop_last())
    } else {
        first_by_undirected(s.drop_last()).push(s.last())
    }
}

/// The edges of a wireframe: every polygon edge, each undirected edge once.
pub open spec fn wireframe_edges(polygons: Seq<Seq<u32>>) -> Seq<(u32, u32)> {
    first_by_undirected(all_edges(polygons))
}

/// A line list: both indices of each edge, edge after edge.
pub open spec fn line_indices(edges: Seq<(u32, u32)>) -> Seq<u32>
    decreases edges.len(),
{
    if edges.len() == 0 {
        Seq::empty()
    } else {
        line_indices(edges.drop_last()) + seq![edges.last().0, edges.last().1]
    }
}

/// The undirected key of an edge.
pub fn undirected_edge(e: (u32, u32)) -> (r: (u32, u32))
    ensures
        r == undirected(e),
{
    if e.0 < e.1 {
        e
    } else {
        (e.1, e.0)
    }
}

/// Relies on itertools' `Itertools::unique_by`: the items whose key was not
/// produced before, in their order, the first of each key kept.
#[verifier::external_body]
fn unique_undirected(edges: Vec<(u32, u32)>) -> (r: Vec<(u32, u32)>)
    ensures
        r@ == first_by_undirected(edges@),
{
    edges.into_iter().unique_by(|e| undirected_edge(*e)).collect()
}

/// Every edge of every polygon, as a directed pair, ring after ring.
pub fn polygon_edges(polygons: &Vec<Vec<u32>>) -> (r: Vec<(u32, u32)>)
    ensures
        r@ == all_edges(polygon_views(polygons@)),
{
    let mut r: Vec<(u32, u32)> = Vec::new();
    let mut k: usize = 0;
    while k < polygons.len()
        invariant
            k <= polygons.len(),
            r@ == all_edges(polygon_views(polygons@.take(k as int))),
        decreases polygons.len() - k,
    {
        let p = &polygons[k];
        let ghost before = r@;
        let mut i: usize = 0;
        while i < p.len()
            invariant
                i <= p.len(),
                r@ == before + ring_edges(p@).take(i as int),
            decreases p.len() - i,
        {
            let next: usize = if i + 1 == p.len() { 0 } else { i + 1 };
            proof {
                let n = p.len() as int;
                if i + 1 == p.len() {
                    assert(n % n == 0) by (nonlinear_arith)
                        requires
                            n > 0,
                    ;
                } else {
                    vstd::arithmetic::div_mod::lemma_small_mod((i + 1) as nat, n as nat);
                }
            }
            r.push((p[i], p[next]));
            assert(ring_edges(p@).take(i as int + 1) =~= ring_edges(p@).take(i as int).push((p[i as int], p[next as int])));
            i = i + 1;
        }
        proof {
            assert(ring_edges(p@).take(i as int) =~= ring_edges(p@));
            let pv = polygon_views(polygons@.take(k as int + 1));
            assert(pv.drop_last() =~= polygon_views(polygons@.take(k as int)));
            assert(pv.last() == p@);
        }
        k = k + 1;
    }
    assert(polygons@.take(polygons.len() as int) =~= polygons@);
    r
}

/// The line-list indices of the wireframe of the polygons: each undirected
/// edge once, where it first occurs.
pub fn wireframe_indices(polygons: &Vec<Vec<u32>>) -> (r: Vec<u32>)
    ensures
        r@ == line_indices(wireframe_edges(polygon_views(polygons@))),
{
    let edges = unique_undirected(polygon_edges(polygons));
    let mut r: Vec<u32> = Vec::new();
    let mut i: usize = 0;
    while i < edges.len()
        invariant
            i <= edges.len(),
            r@ == line_indices(edges@.take(i as int)),
        decreases edges.len() - i,
    {
        r.push(edges[i].0);
        r.push(edges[i].1);
        assert(edges@.take(i as int + 1).drop_last() =~= edges@.take(i as int));
        i = i + 1;
    }
    assert(edges@.take(edges.len() as int) =~= edges@);
    r
}


/// Each edge kept is an edge of the input.
proof fn lemma_first_members(s: Seq<(u32, u32)>)
    ensures
        forall|i: int|
            0 <= i < first_by_undirected(s).len() ==> s.contains(
                #[trigger] first_by_undirected(s)[i],
            ),
    decreases s.len(),
{
    if s.len() > 0 {
        let d = s.drop_last();
        lemma_first_members(d);
        let u = first_by_undirected(d);
        let w = first_by_undirected(s);
        assert forall|i: int| 0 <= i < w.len() implies s.contains(#[trigger] w[i]) by {
            if i < u.len() {
                assert(w[i] == u[i]);
                let k = choose|k: int| 0 <= k < d.len() && d[k] == u[i];
                assert(s[k] == d[k]);
            } else {
                assert(s[s.len() - 1] == w[i]);
            }
        }
    }
}

/// Every key of the input is the key of an edge kept.
proof fn lemma_first_covers(s: Seq<(u32, u32)>)
    ensures
        forall|k: int| 0 <= k < s.len() ==> key_seen(first_by_undirected(s), #[trigger] s[k]),
    decreases s.len(),
{
    if s.len() > 0 {
        let d = s.drop_last();
        lemma_first_covers(d);
        let u = first_by_undirected(d);
        let w = first_by_undirected(s);
        assert forall|i: int| 0 <= i < u.len() implies #[trigger] w[i] == u[i] by {}
        assert forall|k: int| 0 <= k < s.len() implies key_seen(w, #[trigger] s[k]) by {
            if k < d.len() {
                assert(d[k] == s[k]);
                assert(key_seen(u, d[k]));
                let i = choose|i: int| 0 <= i < u.len() && undirected(#[trigger] u[i]) == undirected(d[k]);
                assert(w[i] == u[i]);
            } else if key_seen(d, s.last()) {
                let j = choose|j: int| 0 <= j < d.len() && undirected(#[trigger] d[j]) == undirected(s.last());
                assert(key_seen(u, d[j]));
                let i = choose|i: int| 0 <= i < u.len() && undirected(#[trigger] u[i]) == undirected(d[j]);
                assert(w[i] == u[i]);
            } else {
                assert(w[w.len() - 1] == s[k]);
            }
        }
    }
}

/// No two edges kept share a key.
proof fn lemma_first_distinct(s: Seq<(u32, u32)>)
    ensures
        forall|i: int, j: int|
            0 <= i < j < first_by_undirected(s).len() ==> undirected(
                #[trigger] first_by_undirected(s)[i],
            ) != undirected(#[trigger] first_by_undirected(s)[j]),
    decreases s.len(),
{
    if s.len() > 0 {
        let d = s.drop_last();
        lemma_first_distinct(d);
        lemma_first_members(d);
        let u = first_by_undirected(d);
        let w = first_by_undirected(s);
        if !key_seen(d, s.last()) {
            assert forall|i: int, j: int| 0 <= i < j < w.len() implies undirected(#[trigger] w[i])
                != undirected(#[trigger] w[j]) by {
                assert(w[i] == u[i]);
                if j == w.len() - 1 {
                    assert(d.contains(u[i]));
                    let k = choose|k: int| 0 <= k < d.len() && d[k] == u[i];
                    assert(undirected(d[k]) != undirected(s.last()));
                } else {
                    assert(w[j] == u[j]);
                }
            }
        }
    }
}

/// A wireframe holds each undirected edge of the polygons exactly once: no
/// two of its edges share a key, every polygon edge has its key among them,
/// and each of them is an edge of some polygon.
pub proof fn lemma_wireframe_edges_unique(polygons: Seq<Seq<u32>>)
    ensures
        forall|i: int, j: int|
            0 <= i < j < wireframe_edges(polygons).len() ==> undirected(
                #[trigger] wireframe_edges(polygons)[i],
            ) != undirected(#[trigger] wireframe_edges(polygons)[j]),
        forall|k: int|
            0 <= k < all_edges(polygons).len() ==> key_seen(
                wireframe_edges(polygons),
                #[trigger] all_edges(polygons)[k],
            ),
        forall|i: int|
            0 <= i < wireframe_edges(polygons).len() ==> all_edges(polygons).contains(
                #[trigger] wireframe_edges(polygons)[i],
            ),
{
    let e = all_edges(polygons);
    lemma_first_members(e);
    lemma_first_covers(e);
    lemma_first_distinct(e);
}

/// A flat index list read as consecutive triples; a trailing remainder of
/// fewer than three indices forms no triple.
pub open spec fn triples_of(s: Seq<u32>) -> Seq<(u32, u32, u32)> {
    Seq::new(s.len() / 3, |i: int| (s[3 * i], s[3 * i + 1], s[3 * i + 2]))
}

/// Relies on itertools' `Itertools::tuples`: consecutive triples of the
/// items, those left over after the last full triple dropped.
#[verifier::external_body]
fn consecutive_triples(indices: &Vec<u32>) -> (r: Vec<(u32, u32, u32)>)
    ensures
        r@ == triples_of(indices@),
{
    indices.iter().copied().tuples::<(u32, u32, u32)>().collect()
}

/// Groups a triangle-list index buffer into its triangles.
pub fn triangles_from_indices(indices: &Vec<u32>) -> (r: Vec<(u32, u32, u32)>)
    requires
        indices.len() % 3 == 0,
    ensures
        r@ == triples_of(indices@),
        r.len() * 3 == indices.len(),
{
    consecutive_triples(indices)
}

/// The fan of a polygon with three vertices is that triangle.
proof fn lemma_fan_of_triangle(p: Seq<u32>)
    requires
        p.len() == 3,
    ensures
        fan_of(p) == seq![p[0], p[1], p[2]],
{
    assert(fan_upto(p, 2) == Seq::<u32>::empty());
    assert(fan_of(p) =~= seq![p[0], p[1], p[2]]);
}

/// Where every polygon is a triangle, the fan buffer lists the polygons'
/// vertices in order, three per polygon.
proof fn lemma_fan_of_triangles(polygons: Seq<Seq<u32>>)
    requires
        forall|i: int| 0 <= i < polygons.len() ==> (#[trigger] polygons[i]).len() == 3,
    ensures
        fan_indices(polygons).len() == 3 * polygons.len(),
        forall|i: int, j: int|
            0 <= i < polygons.len() && 0 <= j < 3 ==> fan_indices(polygons)[3 * i + j]
                == #[trigger] polygons[i][j],
    decreases polygons.len(),
{
    if polygons.len() > 0 {
        let d = polygons.drop_last();
        assert forall|i: int| 0 <= i < d.len() implies (#[trigger] d[i]).len() == 3 by {
            assert(d[i] == polygons[i]);
        }
        lemma_fan_of_triangles(d);
        lemma_fan_of_triangle(polygons.last());
        let f = fan_indices(polygons);
        assert forall|i: int, j: int| 0 <= i < polygons.len() && 0 <= j < 3 implies f[3 * i + j]
            == #[trigger] polygons[i][j] by {
            if i < d.len() {
                assert(d[i] == polygons[i]);
                assert(3 * i + j < 3 * d.len()) by (nonlinear_arith)
                    requires
                        0 <= i < d.len(),
                        0 <= j < 3,
                ;
            }
        }
    }
}

/// Grouping the fan buffer of triangles back into triples gives the
/// triangles as they were, in their order.
pub proof fn lemma_triangle_fans_regroup(polygons: Seq<Seq<u32>>)
    requires
        forall|i: int| 0 <= i < polygons.len() ==> (#[trigger] polygons[i]).len() == 3,
    ensures
        triples_of(fan_indices(polygons)).len() == polygons.len(),
        forall|i: int|
            0 <= i < polygons.len() ==> #[trigger] triples_of(fan_indices(polygons))[i] == (
                polygons[i][0],
                polygons[i][1],
                polygons[i][2],
            ),
{
    lemma_fan_of_triangles(polygons);
    let f = fan_indices(polygons);
    assert(f.len() / 3 == polygons.len());
    assert forall|i: int| 0 <= i < polygons.len() implies #[trigger] triples_of(f)[i] == (
        polygons[i][0],
        polygons[i][1],
        polygons[i][2],
    ) by {
        assert(f[3 * i + 0] == polygons[i][0]);
        assert(f[3 * i + 1] == polygons[i][1]);
        assert(f[3 * i + 2] == polygons[i][2]);
    }
}

} // verus!
