//! Tag-driven styling and node-ref resolution for painting a tile.
//!
//! The stroke engine itself is floating-point work left to the caller;
//! the library decides which style a path gets, resolves node refs to
//! coordinates (filtering dangling refs out), and reports dangling refs
//! on demand.

use vstd::prelude::*;
use crate::coords::GeoCoord;
use crate::codec::{ZanaObj, ZanaObjView, ZanaPath, DecodeError, obj_views};

verus! {

/// The first value associated with `id`, if any.
pub open spec fn spec_assoc<T>(pairs: Seq<(i64, T)>, id: i64) -> Option<T>
    decreases pairs.len(),
{
    if pairs.len() == 0 {
        None
    } else if pairs.first().0 == id {
        Some(pairs.first().1)
    } else {
        spec_assoc(pairs.drop_first(), id)
    }
}

proof fn lemma_assoc_hit<T>(pairs: Seq<(i64, T)>, id: i64, i: int)
    requires
        0 <= i < pairs.len(),
        pairs[i].0 == id,
        forall|j: int| 0 <= j < i ==> (#[trigger] pairs[j]).0 != id,
    ensures
        spec_assoc(pairs, id) == Some(pairs[i].1),
    decreases i,
{
    if i > 0 {
        assert(pairs.first().0 != id);
        assert(forall|j: int|
            0 <= j < pairs.drop_first().len() ==> #[trigger] pairs.drop_first()[j] == pairs[j + 1]);
        lemma_assoc_hit(pairs.drop_first(), id, i - 1);
    }
}

proof fn lemma_assoc_miss<T>(pairs: Seq<(i64, T)>, id: i64)
    requires
        forall|j: int| 0 <= j < pairs.len() ==> (#[trigger] pairs[j]).0 != id,
    ensures
        spec_assoc(pairs, id) is None,
    decreases pairs.len(),
{
    if pairs.len() > 0 {
        assert(forall|j: int|
            0 <= j < pairs.drop_first().len() ==> #[trigger] pairs.drop_first()[j] == pairs[j + 1]);
        lemma_assoc_miss(pairs.drop_first(), id);
    }
}

/// Look `id` up among `(id, value)` pairs, first match wins.
pub fn assoc_lookup<T: Copy>(pairs: &Vec<(i64, T)>, id: i64) -> (r: Option<T>)
    ensures
        r == spec_assoc(pairs@, id),
{
    let mut i: usize = 0;
    while i < pairs.len()
        invariant
            i <= pairs.len(),
            forall|j: int| 0 <= j < i ==> (#[trigger] pairs@[j]).0 != id,
        decreases pairs.len() - i,
    {
        if pairs[i].0 == id {
            proof {
                lemma_assoc_hit(pairs@, id, i as int);
            }
            return Some(pairs[i].1);
        }
        i = i + 1;
    }
    proof {
        lemma_assoc_miss(pairs@, id);
    }
    None
}

/// The `(id, coordinate)` pairs of the node objects, in order.
pub open spec fn spec_node_pairs(objs: Seq<ZanaObjView>) -> Seq<(i64, GeoCoord)>
    decreases objs.len(),
{
    if objs.len() == 0 {
        Seq::empty()
    } else {
        let rest = spec_node_pairs(objs.drop_first());
        match objs.first() {
            ZanaObjView::Node(n) => seq![(n.id, n.coords)] + rest,
            ZanaObjView::Path(_) => rest,
        }
    }
}

/// Collect every node's `(id, coordinate)` pair, in order.
pub fn node_coords(objs: &Vec<ZanaObj>) -> (r: Vec<(i64, GeoCoord)>)
    ensures
        r@ == spec_node_pairs(obj_views(objs@)),
{
    let ghost ov = obj_views(objs@);
    let mut r: Vec<(i64, GeoCoord)> = Vec::new();
    let mut i: usize = 0;
    proof {
        assert(ov.skip(0) =~= ov);
        assert(r@ + spec_node_pairs(ov.skip(0)) =~= spec_node_pairs(ov));
    }
    while i < objs.len()
        invariant
            i <= objs.len(),
            ov == obj_views(objs@),
            ov.len() == objs@.len(),
            r@ + spec_node_pairs(ov.skip(i as int)) == spec_node_pairs(ov),
        decreases objs.len() - i,
    {
        let ghost pre = r@;
        let ghost sk = ov.skip(i as int);
        proof {
            assert(sk.first() == ov[i as int]);
            assert(ov[i as int] == objs@[i as int]@);
            assert(sk.drop_first() =~= ov.skip(i as int + 1));
        }
        match &objs[i] {
            ZanaObj::Node(n) => {
                r.push((n.id, n.coords));
                proof {
                    assert(r@ + spec_node_pairs(ov.skip(i as int + 1)) =~= pre + spec_node_pairs(
                        sk,
                    ));
                }
            },
            ZanaObj::Path(_) => {},
        }
        i = i + 1;
    }
    proof {
        assert(ov.skip(ov.len() as int) =~= Seq::<ZanaObjView>::empty());
        assert(r@ + spec_node_pairs(ov.skip(ov.len() as int)) =~= r@);
    }
    r
}

/// The coordinates of the refs that resolve, in ref order; dangling
/// refs are filtered out.
pub open spec fn spec_resolve(refs: Seq<i64>, pairs: Seq<(i64, GeoCoord)>) -> Seq<GeoCoord>
    decreases refs.len(),
{
    if refs.len() == 0 {
        Seq::empty()
    } else {
        let rest = spec_resolve(refs.drop_first(), pairs);
        match spec_assoc(pairs, refs.first()) {
            Some(c) => seq![c] + rest,
            None => rest,
        }
    }
}

/// Resolve a path's node refs to coordinates, dropping refs that point
/// at no node in the tile.
pub fn resolve_refs(refs: &Vec<i64>, pairs: &Vec<(i64, GeoCoord)>) -> (r: Vec<GeoCoord>)
    ensures
        r@ == spec_resolve(refs@, pairs@),
{
    let mut r: Vec<GeoCoord> = Vec::new();
    let mut i: usize = 0;
    proof {
        assert(refs@.skip(0) =~= refs@);
        assert(r@ + spec_resolve(refs@.skip(0), pairs@) =~= spec_resolve(refs@, pairs@));
    }
    while i < refs.len()
        invariant
            i <= refs.len(),
            r@ + spec_resolve(refs@.skip(i as int), pairs@) == spec_resolve(refs@, pairs@),
        decreases refs.len() - i,
    {
        let ghost pre = r@;
        let ghost sk = refs@.skip(i as int);
        proof {
            assert(sk.first() == refs@[i as int]);
            assert(sk.drop_first() =~= refs@.skip(i as int + 1));
        }
        match assoc_lookup(pairs, refs[i]) {
            Some(c) => {
                r.push(c);
                proof {
                    assert(r@ + spec_resolve(refs@.skip(i as int + 1), pairs@) =~= pre
                        + spec_resolve(sk, pairs@));
                }
            },
            None => {},
        }
        i = i + 1;
    }
    proof {
        assert(refs@.skip(refs@.len() as int) =~= Seq::<i64>::empty());
        assert(r@ + spec_resolve(refs@.skip(refs@.len() as int), pairs@) =~= r@);
    }
    r
}

/// The first id a table entry with this exact text carries, or `0` for
/// a text the table does not hold (`0` is never a real id).
pub open spec fn spec_find_tag(table: Seq<(Seq<char>, u64)>, s: Seq<char>) -> u64
    decreases table.len(),
{
    if table.len() == 0 {
        0
    } else if table.first().0 == s {
        table.first().1
    } else {
        spec_find_tag(table.drop_first(), s)
    }
}

proof fn lemma_find_tag_hit(table: Seq<(Seq<char>, u64)>, s: Seq<char>, i: int)
    requires
        0 <= i < table.len(),
        table[i].0 == s,
        forall|j: int| 0 <= j < i ==> (#[trigger] table[j]).0 != s,
    ensures
        spec_find_tag(table, s) == table[i].1,
    decreases i,
{
    if i > 0 {
        assert(forall|j: int|
            0 <= j < table.drop_first().len() ==> #[trigger] table.drop_first()[j] == table[j + 1]);
        lemma_find_tag_hit(table.drop_first(), s, i - 1);
    }
}

proof fn lemma_find_tag_miss(table: Seq<(Seq<char>, u64)>, s: Seq<char>)
    requires
        forall|j: int| 0 <= j < table.len() ==> (#[trigger] table[j]).0 != s,
    ensures
        spec_find_tag(table, s) == 0,
    decreases table.len(),
{
    if table.len() > 0 {
        assert(forall|j: int|
            0 <= j < table.drop_first().len() ==> #[trigger] table.drop_first()[j] == table[j + 1]);
        lemma_find_tag_miss(table.drop_first(), s);
    }
}

/// Look a style key up in a tile's local string table: its id, or `0`
/// when the table does not hold the text.
pub fn find_tag(table: &Vec<(String, u64)>, name: &str) -> (id: u64)
    ensures
        id == spec_find_tag(crate::wire::entries_of(table@), name@),
{
    let ghost tv = crate::wire::entries_of(table@);
    let owned: String = name.to_owned();
    let mut i: usize = 0;
    while i < table.len()
        invariant
            i <= table.len(),
            tv == crate::wire::entries_of(table@),
            tv.len() == table@.len(),
            owned@ == name@,
            forall|j: int| 0 <= j < i ==> (#[trigger] tv[j]).0 != name@,
        decreases table.len() - i,
    {
        proof {
            assert(tv[i as int] == (table@[i as int].0@, table@[i as int].1));
        }
        if table[i].0 == owned {
            proof {
                lemma_find_tag_hit(tv, name@, i as int);
            }
            return table[i].1;
        }
        i = i + 1;
    }
    proof {
        lemma_find_tag_miss(tv, name@);
    }
    0
}

/// The styles a path can be painted with; first matching key wins.
#[derive(Debug, Clone, Copy, PartialEq, Eq, Structural)]
pub enum StyleClass {
    /// Stroke 20,100,20,200 at width 1.0.
    Building,
    /// Stroke 0,100,255,150 at width 1.0.
    Power,
    /// Stroke 255,150,20,200 at width 1.0.
    Highway,
}

/// Some tag of the path has this key.
pub open spec fn spec_has_tag(tags: Seq<(u64, u64)>, key: u64) -> bool {
    exists|i: int| 0 <= i < tags.len() && (#[trigger] tags[i]).0 == key
}

/// Whether some tag of the path has this key.
pub fn has_tag(p: &ZanaPath, key: u64) -> (r: bool)
    ensures
        r == spec_has_tag(p.tags@, key),
{
    let mut i: usize = 0;
    while i < p.tags.len()
        invariant
            i <= p.tags.len(),
            forall|j: int| 0 <= j < i ==> (#[trigger] p.tags@[j]).0 != key,
        decreases p.tags.len() - i,
    {
        if p.tags[i].0 == key {
            assert(p.tags@[i as int].0 == key);
            return true;
        }
        i = i + 1;
    }
    proof {
        if spec_has_tag(p.tags@, key) {
            let j = choose|j: int| 0 <= j < p.tags@.len() && (#[trigger] p.tags@[j]).0 == key;
            assert(false);
        }
    }
    false
}

/// The style of a path under the recognized keys, in precedence order:
/// building, then power, then highway; unmatched paths get none.
pub open spec fn spec_style(tags: Seq<(u64, u64)>, building: u64, power: u64, highway: u64) -> Option<
    StyleClass,
> {
    if spec_has_tag(tags, building) {
        Some(StyleClass::Building)
    } else if spec_has_tag(tags, power) {
        Some(StyleClass::Power)
    } else if spec_has_tag(tags, highway) {
        Some(StyleClass::Highway)
    } else {
        None
    }
}

/// Pick a path's style from its tags and the local ids of the three
/// recognized keys.
pub fn style_for_path(p: &ZanaPath, building: u64, power: u64, highway: u64) -> (r: Option<
    StyleClass,
>)
    ensures
        r == spec_style(p.tags@, building, power, highway),
{
    if has_tag(p, building) {
        Some(StyleClass::Building)
    } else if has_tag(p, power) {
        Some(StyleClass::Power)
    } else if has_tag(p, highway) {
        Some(StyleClass::Highway)
    } else {
        None
    }
}

/// Whether object `j`, if it is a path, has all its refs resolving
/// inside the tile's node array.
pub open spec fn spec_path_refs_resolve(objs: Seq<ZanaObjView>, j: int) -> bool {
    match objs[j] {
        ZanaObjView::Path(p) => forall|l: int|
            0 <= l < p.nodes.len() ==> spec_assoc(
                spec_node_pairs(objs),
                #[trigger] p.nodes[l],
            ) is Some,
        ZanaObjView::Node(_) => true,
    }
}

/// Every ref of every path resolves inside the tile's node array.
pub open spec fn spec_all_refs_resolve(objs: Seq<ZanaObjView>) -> bool {
    forall|j: int| 0 <= j < objs.len() ==> #[trigger] spec_path_refs_resolve(objs, j)
}

/// Check a decoded tile's soft invariant: report a dangling node
/// reference if some path references an id outside the node array.
pub fn validate_refs(objs: &Vec<ZanaObj>) -> (r: Result<(), DecodeError>)
    ensures
        r is Ok <==> spec_all_refs_resolve(obj_views(objs@)),
        r matches Err(e) ==> e == DecodeError::DanglingRef,
{
    let ghost ov = obj_views(objs@);
    let pairs = node_coords(objs);
    let mut i: usize = 0;
    while i < objs.len()
        invariant
            i <= objs.len(),
            ov == obj_views(objs@),
            ov.len() == objs@.len(),
            pairs@ == spec_node_pairs(ov),
            forall|j: int| 0 <= j < i ==> #[trigger] spec_path_refs_resolve(ov, j),
        decreases objs.len() - i,
    {
        proof {
            assert(ov[i as int] == objs@[i as int]@);
        }
        match &objs[i] {
            ZanaObj::Node(_) => {
                assert(spec_path_refs_resolve(ov, i as int));
            },
            ZanaObj::Path(p) => {
                let mut l: usize = 0;
                while l < p.nodes.len()
                    invariant
                        l <= p.nodes.len(),
                        ov == obj_views(objs@),
                        pairs@ == spec_node_pairs(ov),
                        i < objs@.len(),
                        ov[i as int] matches ZanaObjView::Path(pv) && pv.nodes == p.nodes@,
                        forall|k: int|
                            0 <= k < l ==> spec_assoc(
                                spec_node_pairs(ov),
                                #[trigger] p.nodes@[k],
                            ) is Some,
                    decreases p.nodes.len() - l,
                {
                    if assoc_lookup(&pairs, p.nodes[l]).is_none() {
                        proof {
                            assert(!spec_path_refs_resolve(ov, i as int));
                        }
                        return Err(DecodeError::DanglingRef);
                    }
                    l = l + 1;
                }
                assert(spec_path_refs_resolve(ov, i as int));
            },
        }
        i = i + 1;
    }
    Ok(())
}

} // verus!
