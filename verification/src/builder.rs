//! Staging rows and tile building.
//!
//! A staged node carries its fine (resolution 12) and coarse (resolution
//! 3) cell, with the invariant that the coarse cell is the parent of the
//! fine one; tag texts are interned into the global string table on
//! insert.  For an accepted cell, the tile is built from the nodes and
//! paths the staging queries return; a cell whose queries return no
//! paths gets no tile.

use vstd::prelude::*;
use crate::coords::GeoCoord;
use crate::codec::{ZanaNode, ZanaPath, spec_intern1, tags_valid, path_tag_views, path_views,
    string_views, spec_densify, spec_record_bytes, lz4_frame_of, write_zana_data};
use crate::strings::StringTable;
use crate::h3cell::{cell_valid, resolution_of, parent_of, cell_is_valid, cell_resolution,
    cell_parent};

verus! {

/// A staged node row: id, coordinate, fine and coarse cell, and tag
/// pairs in global string-table ids.
#[derive(Debug, Clone)]
pub struct StagedNode {
    pub id: i64,
    pub coords: GeoCoord,
    pub cell12: u64,
    pub cell3: u64,
    pub tags: Vec<(u64, u64)>,
}

/// A staged path row: id, node refs and tag pairs in global ids.
#[derive(Debug, Clone)]
pub struct StagedPath {
    pub id: i64,
    pub nodes: Vec<i64>,
    pub tags: Vec<(u64, u64)>,
}

/// The text views of `(key, value)` string pairs.
pub open spec fn pair_views(v: Seq<(String, String)>) -> Seq<(Seq<char>, Seq<char>)> {
    v.map(|i: int, p: (String, String)| (p.0@, p.1@))
}

/// Intern the key and value of each pair in order: the grown table and
/// the pairs as ids.
pub open spec fn spec_stage_tags(pairs: Seq<(Seq<char>, Seq<char>)>, t: Seq<Seq<char>>) -> (
    Seq<Seq<char>>,
    Seq<(u64, u64)>,
)
    decreases pairs.len(),
{
    if pairs.len() == 0 {
        (t, Seq::empty())
    } else {
        let prev = spec_stage_tags(pairs.drop_last(), t);
        let k = spec_intern1(prev.0, pairs.last().0);
        let v = spec_intern1(k.0, pairs.last().1);
        (v.0, prev.1.push((k.1, v.1)))
    }
}

/// Intern every tag pair of one staged row into the global table.
fn stage_tags(tags: &Vec<(String, String)>, table: &mut StringTable) -> (r: Vec<(u64, u64)>)
    requires
        old(table).wf(),
        old(table)@.len() + 2 * tags@.len() < u64::MAX,
    ensures
        final(table).wf(),
        final(table)@ == spec_stage_tags(pair_views(tags@), old(table)@).0,
        r@ == spec_stage_tags(pair_views(tags@), old(table)@).1,
{
    let ghost pv = pair_views(tags@);
    let ghost t0 = table@;
    let mut r: Vec<(u64, u64)> = Vec::new();
    let mut i: usize = 0;
    proof {
        assert(pv.take(0) =~= Seq::<(Seq<char>, Seq<char>)>::empty());
        assert(r@ =~= spec_stage_tags(pv.take(0), t0).1);
    }
    while i < tags.len()
        invariant
            i <= tags.len(),
            pv == pair_views(tags@),
            pv.len() == tags@.len(),
            table.wf(),
            table@.len() <= old(table)@.len() + 2 * i,
            old(table)@.len() + 2 * tags@.len() < u64::MAX,
            t0 == old(table)@,
            table@ == spec_stage_tags(pv.take(i as int), t0).0,
            r@ == spec_stage_tags(pv.take(i as int), t0).1,
        decreases tags.len() - i,
    {
        let ghost st = spec_stage_tags(pv.take(i as int), t0);
        proof {
            assert(pv[i as int] == (tags@[i as int].0@, tags@[i as int].1@));
        }
        let ghost t_before_k = table@;
        let kid = table.intern(tags[i].0.as_str());
        proof {
            assert((table@, kid) == spec_intern1(t_before_k, pv[i as int].0));
        }
        let ghost t_before_v = table@;
        let vid = table.intern(tags[i].1.as_str());
        proof {
            assert((table@, vid) == spec_intern1(t_before_v, pv[i as int].1));
        }
        r.push((kid, vid));
        proof {
            assert(pv.take(i as int + 1).drop_last() =~= pv.take(i as int));
            assert(pv.take(i as int + 1).last() == pv[i as int]);
            assert(table@ == spec_stage_tags(pv.take(i as int + 1), t0).0);
            assert(r@ =~= spec_stage_tags(pv.take(i as int + 1), t0).1);
        }
        i = i + 1;
    }
    proof {
        assert(pv.take(tags@.len() as int) =~= pv);
    }
    r
}

/// Stage one node: assign its coarse cell as the parent at resolution 3
/// of its fine cell, and intern its tags into the global table.  A fine
/// cell that is invalid or coarser than resolution 3 is rejected with no
/// change to the table.
pub fn stage_node(
    id: i64,
    decimicro_lat: i32,
    decimicro_lon: i32,
    cell12: u64,
    tags: &Vec<(String, String)>,
    table: &mut StringTable,
) -> (r: Option<StagedNode>)
    requires
        old(table).wf(),
        old(table)@.len() + 2 * tags@.len() < u64::MAX,
    ensures
        final(table).wf(),
        r is Some <==> cell_valid(cell12) && resolution_of(cell12) >= 3,
        match r {
            Some(n) => {
                &&& n.id == id
                &&& n.coords == (GeoCoord { decimicro_lat, decimicro_lon })
                &&& n.cell12 == cell12
                &&& n.cell3 == parent_of(cell12, 3)
                &&& final(table)@ == spec_stage_tags(pair_views(tags@), old(table)@).0
                &&& n.tags@ == spec_stage_tags(pair_views(tags@), old(table)@).1
            },
            None => final(table)@ == old(table)@,
        },
{
    if !cell_is_valid(cell12) {
        return None;
    }
    if cell_resolution(cell12) < 3 {
        return None;
    }
    let cell3 = cell_parent(cell12, 3);
    let ids = stage_tags(tags, table);
    Some(
        StagedNode {
            id,
            coords: GeoCoord { decimicro_lat, decimicro_lon },
            cell12,
            cell3,
            tags: ids,
        },
    )
}

/// Stage one path: keep its node refs and intern its tags into the
/// global table.
pub fn stage_path(
    id: i64,
    nodes: Vec<i64>,
    tags: &Vec<(String, String)>,
    table: &mut StringTable,
) -> (r: StagedPath)
    requires
        old(table).wf(),
        old(table)@.len() + 2 * tags@.len() < u64::MAX,
    ensures
        final(table).wf(),
        r.id == id,
        r.nodes@ == nodes@,
        final(table)@ == spec_stage_tags(pair_views(tags@), old(table)@).0,
        r.tags@ == spec_stage_tags(pair_views(tags@), old(table)@).1,
{
    let ids = stage_tags(tags, table);
    StagedPath { id, nodes, tags: ids }
}

/// Build the tile for an accepted cell from the nodes and paths its
/// staging queries returned: no paths means no tile; otherwise the
/// compressed tile bytes.
pub fn build_tile(nodes: &Vec<ZanaNode>, paths: &Vec<ZanaPath>, lookup: &Vec<String>) -> (r: Option<
    Vec<u8>,
>)
    requires
        tags_valid(path_tag_views(paths@), lookup@.len() as nat),
        lookup@.len() < u64::MAX,
    ensures
        r is None <==> paths@.len() == 0,
        match r {
            Some(bytes) => bytes@ == lz4_frame_of(
                spec_record_bytes(
                    spec_densify(nodes@, path_views(paths@), string_views(lookup@)),
                ),
            ),
            None => true,
        },
{
    if paths.len() == 0 {
        return None;
    }
    Some(write_zana_data(nodes, paths, lookup))
}

} // verus!
