//! Road polylines assembled from raw ways and node coordinates, as the
//! early plotting front end consumes them.

use vstd::prelude::*;
use crate::raster::{spec_assoc, assoc_lookup};

verus! {

/// A polyline of plot points.
#[derive(Debug, Clone)]
pub struct Path {
    pub points: Vec<(i32, i32)>,
}

/// The resolvable points of one way, in order.
pub open spec fn spec_way_points(way: Seq<i64>, coords: Seq<(i64, (i32, i32))>) -> Seq<(i32, i32)>
    decreases way.len(),
{
    if way.len() == 0 {
        Seq::empty()
    } else {
        let rest = spec_way_points(way.drop_first(), coords);
        match spec_assoc(coords, way.first()) {
            Some(p) => seq![p] + rest,
            None => rest,
        }
    }
}

/// The paths built from the ways: each way's resolvable points, with
/// ways that resolve to nothing dropped.
pub open spec fn spec_paths_from_ways(
    ways: Seq<Seq<i64>>,
    coords: Seq<(i64, (i32, i32))>,
) -> Seq<Seq<(i32, i32)>>
    decreases ways.len(),
{
    if ways.len() == 0 {
        Seq::empty()
    } else {
        let prev = spec_paths_from_ways(ways.drop_last(), coords);
        let pts = spec_way_points(ways.last(), coords);
        if pts.len() == 0 {
            prev
        } else {
            prev.push(pts)
        }
    }
}

/// The point lists of the built paths.
pub open spec fn path_points(v: Seq<Path>) -> Seq<Seq<(i32, i32)>> {
    v.map(|i: int, p: Path| p.points@)
}

fn way_points(way: &Vec<i64>, coords: &Vec<(i64, (i32, i32))>) -> (r: Vec<(i32, i32)>)
    ensures
        r@ == spec_way_points(way@, coords@),
{
    let mut r: Vec<(i32, i32)> = Vec::new();
    let mut i: usize = 0;
    proof {
        assert(way@.skip(0) =~= way@);
        assert(r@ + spec_way_points(way@.skip(0), coords@) =~= spec_way_points(way@, coords@));
    }
    while i < way.len()
        invariant
            i <= way.len(),
            r@ + spec_way_points(way@.skip(i as int), coords@) == spec_way_points(way@, coords@),
        decreases way.len() - i,
    {
        let ghost pre = r@;
        let ghost sk = way@.skip(i as int);
        proof {
            assert(sk.first() == way@[i as int]);
            assert(sk.drop_first() =~= way@.skip(i as int + 1));
        }
        match assoc_lookup(coords, way[i]) {
            Some(p) => {
                r.push(p);
                proof {
                    assert(r@ + spec_way_points(way@.skip(i as int + 1), coords@) =~= pre
                        + spec_way_points(sk, coords@));
                }
            },
            None => {},
        }
        i = i + 1;
    }
    proof {
        assert(way@.skip(way@.len() as int) =~= Seq::<i64>::empty());
        assert(r@ + spec_way_points(way@.skip(way@.len() as int), coords@) =~= r@);
    }
    r
}

/// Join each way's node refs with the node coordinates, dropping refs
/// without a coordinate and ways without any resolvable point.
pub fn paths_from_ways(ways: &Vec<Vec<i64>>, coords: &Vec<(i64, (i32, i32))>) -> (r: Vec<Path>)
    ensures
        path_points(r@) == spec_paths_from_ways(crate::wire::views_of(ways@), coords@),
{
    let ghost wv = crate::wire::views_of(ways@);
    let mut r: Vec<Path> = Vec::new();
    let mut i: usize = 0;
    proof {
        assert(wv.take(0) =~= Seq::<Seq<i64>>::empty());
        assert(path_points(r@) =~= spec_paths_from_ways(wv.take(0), coords@));
    }
    while i < ways.len()
        invariant
            i <= ways.len(),
            wv == crate::wire::views_of(ways@),
            wv.len() == ways@.len(),
            path_points(r@) == spec_paths_from_ways(wv.take(i as int), coords@),
        decreases ways.len() - i,
    {
        let ghost before = path_points(r@);
        proof {
            assert(wv.take(i as int + 1).drop_last() =~= wv.take(i as int));
            assert(wv.take(i as int + 1).last() == wv[i as int]);
            assert(wv[i as int] == ways@[i as int]@);
        }
        let pts = way_points(&ways[i], coords);
        if pts.len() > 0 {
            let ghost pts_view = pts@;
            r.push(Path { points: pts });
            proof {
                assert(path_points(r@) =~= before.push(pts_view));
            }
        }
        i = i + 1;
    }
    proof {
        assert(wv.take(wv.len() as int) =~= wv);
    }
    r
}

} // verus!
