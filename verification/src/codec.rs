//! The tile codec: the on-disk tile is one LZ4 frame holding one record
//! with exactly these fields in this order: dense nodes (delta-encoded
//! ids, lats, lons), dense paths (reserved ids, per-path delta-encoded
//! node refs, a flat sentinel-separated tag stream) and a local string
//! table.

use vstd::prelude::*;
use crate::coords::GeoCoord;
use crate::wire::{
    spec_i64_col, spec_i32_col, spec_u64_col, spec_nested_col, spec_table_col, views_of,
    entries_of, spec_parse_i64_col, spec_parse_i32_col, spec_parse_u64_col,
    spec_parse_nested_col, spec_parse_table_col, push_i64_col, push_i32_col, push_u64_col,
    push_nested_col, push_table_col, read_i64_col, read_i32_col, read_u64_col, read_nested_col,
    read_table_col, lemma_subrange_split, lemma_parse_i64_col_of, lemma_parse_i32_col_of,
    lemma_parse_u64_col_of, lemma_parse_nested_col_of, lemma_parse_table_col_of, fits_u64,
};
use vstd::utf8::encode_utf8;

verus! {

/// A decoded polyline of geographic points.
#[derive(Debug, Clone)]
pub struct Path {
    pub points: Vec<GeoCoord>,
}

/// Delta-encoded node columns: parallel arrays of ids, latitudes and
/// longitudes.
#[derive(Debug)]
pub struct ZanaDenseNodes {
    pub dids: Vec<i64>,
    pub dlats: Vec<i32>,
    pub dlons: Vec<i32>,
}

/// Dense paths: reserved path ids, one delta-encoded node-ref sequence
/// per path, and the flat tag stream.
#[derive(Debug)]
pub struct ZanaDensePaths {
    pub dids: Vec<i64>,
    pub dnodes: Vec<Vec<i64>>,
    /// (key_i, val_i)*, 0
    pub tags: Vec<u64>,
}

/// The record stored inside a tile's LZ4 frame.
#[derive(Debug)]
pub struct ZanaDenseData {
    pub nodes: ZanaDenseNodes,
    pub paths: ZanaDensePaths,
    pub string_table: Vec<(String, u64)>,
}

/// A decoded node: id and fixed-point coordinate.
#[derive(Debug, Clone, Copy, PartialEq, Eq, Structural)]
pub struct ZanaNode {
    pub id: i64,
    pub coords: GeoCoord,
}

/// A decoded path: node refs and locally-renumbered `(key, value)` tag
/// pairs.
#[derive(Debug, Clone)]
pub struct ZanaPath {
    pub nodes: Vec<i64>,
    pub tags: Vec<(u64, u64)>,
}

/// One decoded tile object: nodes come first, then paths.
#[derive(Debug, Clone)]
pub enum ZanaObj {
    Node(ZanaNode),
    Path(ZanaPath),
}

/// Points relative to their predecessor; useful for varint encoding.
#[derive(Debug)]
pub struct RelativePath {
    pub relative_points: Vec<(i32, i32)>,
}

/// The mathematical content of a [`ZanaPath`].
#[verifier::ext_equal]
pub struct ZanaPathView {
    pub nodes: Seq<i64>,
    pub tags: Seq<(u64, u64)>,
}

impl View for ZanaPath {
    type V = ZanaPathView;

    open spec fn view(&self) -> ZanaPathView {
        ZanaPathView { nodes: self.nodes@, tags: self.tags@ }
    }
}

/// The mathematical content of a [`ZanaObj`].
pub enum ZanaObjView {
    Node(ZanaNode),
    Path(ZanaPathView),
}

impl View for ZanaObj {
    type V = ZanaObjView;

    open spec fn view(&self) -> ZanaObjView {
        match self {
            ZanaObj::Node(n) => ZanaObjView::Node(*n),
            ZanaObj::Path(p) => ZanaObjView::Path(p@),
        }
    }
}

/// Why a tile failed to decode.  A dangling node reference is a soft
/// condition: decoding succeeds and the rasterizer filters the reference
/// out; [`crate::raster::validate_refs`] reports it.
#[derive(Debug, Clone, Copy, PartialEq, Eq, Structural)]
pub enum DecodeError {
    /// The byte stream ended early or is not a tile record.
    Truncated,
    /// A coordinate column's running sum leaves the decimicro range.
    BadDelta,
    /// A path references a node id that is not in the node array.
    DanglingRef,
}

/// The mathematical content of a tile record.
#[verifier::ext_equal]
pub struct TileRecord {
    pub dids: Seq<i64>,
    pub dlats: Seq<i32>,
    pub dlons: Seq<i32>,
    pub path_dids: Seq<i64>,
    pub dnodes: Seq<Seq<i64>>,
    pub tags: Seq<u64>,
    pub table: Seq<(Seq<char>, u64)>,
}

/// The record a [`ZanaDenseData`] value holds.
pub open spec fn model_of(r: ZanaDenseData) -> TileRecord {
    TileRecord {
        dids: r.nodes.dids@,
        dlats: r.nodes.dlats@,
        dlons: r.nodes.dlons@,
        path_dids: r.paths.dids@,
        dnodes: views_of(r.paths.dnodes@),
        tags: r.paths.tags@,
        table: entries_of(r.string_table@),
    }
}

/// The wire bytes of a record: its seven columns in normative order.
pub open spec fn spec_record_bytes(m: TileRecord) -> Seq<u8> {
    spec_i64_col(m.dids) + spec_i32_col(m.dlats) + spec_i32_col(m.dlons) + spec_i64_col(
        m.path_dids,
    ) + spec_nested_col(m.dnodes) + spec_u64_col(m.tags) + spec_table_col(m.table)
}

/// Parse a record from the front of `b`; bytes after the record are
/// ignored, as the reference reader ignores them.
pub open spec fn spec_parse_record(b: Seq<u8>) -> Option<TileRecord> {
    match spec_parse_i64_col(b, 0) {
        Some((dids, p1)) => match spec_parse_i32_col(b, p1) {
            Some((dlats, p2)) => match spec_parse_i32_col(b, p2) {
                Some((dlons, p3)) => match spec_parse_i64_col(b, p3) {
                    Some((path_dids, p4)) => match spec_parse_nested_col(b, p4) {
                        Some((dnodes, p5)) => match spec_parse_u64_col(b, p5) {
                            Some((tags, p6)) => match spec_parse_table_col(b, p6) {
                                Some((table, _p7)) => Some(
                                    TileRecord { dids, dlats, dlons, path_dids, dnodes, tags, table },
                                ),
                                None => None,
                            },
                            None => None,
                        },
                        None => None,
                    },
                    None => None,
                },
                None => None,
            },
            None => None,
        },
        None => None,
    }
}

/// All counts of a record fit the wire format's count fields.
pub open spec fn record_fits(m: TileRecord) -> bool {
    &&& fits_u64(m.dids.len())
    &&& fits_u64(m.dlats.len())
    &&& fits_u64(m.dlons.len())
    &&& fits_u64(m.path_dids.len())
    &&& fits_u64(m.dnodes.len())
    &&& (forall|i: int| 0 <= i < m.dnodes.len() ==> fits_u64(#[trigger] m.dnodes[i].len()))
    &&& fits_u64(m.tags.len())
    &&& fits_u64(m.table.len())
    &&& (forall|i: int|
        0 <= i < m.table.len() ==> fits_u64(encode_utf8(#[trigger] m.table[i].0).len()))
}

/// Parsing the wire bytes of any record recovers that record.
#[verifier::rlimit(100)]
pub proof fn lemma_parse_record_of(m: TileRecord)
    requires
        record_fits(m),
    ensures
        spec_parse_record(spec_record_bytes(m)) == Some(m),
{
    let c1 = spec_i64_col(m.dids);
    let c2 = spec_i32_col(m.dlats);
    let c3 = spec_i32_col(m.dlons);
    let c4 = spec_i64_col(m.path_dids);
    let c5 = spec_nested_col(m.dnodes);
    let c6 = spec_u64_col(m.tags);
    let c7 = spec_table_col(m.table);
    let b = spec_record_bytes(m);
    let r7 = c7;
    let r6 = c6 + r7;
    let r5 = c5 + r6;
    let r4 = c4 + r5;
    let r3 = c3 + r4;
    let r2 = c2 + r3;
    assert(b =~= c1 + r2);
    assert(b.subrange(0, c1.len() + r2.len() as int) =~= c1 + r2);
    lemma_subrange_split(b, 0, c1, r2);
    lemma_parse_i64_col_of(b, 0, m.dids);
    let p1 = c1.len() as int;
    assert(b.subrange(p1, p1 + c2.len() + r3.len()) =~= c2 + r3);
    lemma_subrange_split(b, p1, c2, r3);
    lemma_parse_i32_col_of(b, p1, m.dlats);
    let p2 = p1 + c2.len();
    assert(b.subrange(p2, p2 + c3.len() + r4.len()) =~= c3 + r4);
    lemma_subrange_split(b, p2, c3, r4);
    lemma_parse_i32_col_of(b, p2, m.dlons);
    let p3 = p2 + c3.len();
    assert(b.subrange(p3, p3 + c4.len() + r5.len()) =~= c4 + r5);
    lemma_subrange_split(b, p3, c4, r5);
    lemma_parse_i64_col_of(b, p3, m.path_dids);
    let p4 = p3 + c4.len();
    assert(b.subrange(p4, p4 + c5.len() + r6.len()) =~= c5 + r6);
    lemma_subrange_split(b, p4, c5, r6);
    lemma_parse_nested_col_of(b, p4, m.dnodes);
    let p5 = p4 + c5.len();
    assert(b.subrange(p5, p5 + c6.len() + r7.len()) =~= c6 + r7);
    lemma_subrange_split(b, p5, c6, r7);
    lemma_parse_u64_col_of(b, p5, m.tags);
    let p6 = p5 + c6.len();
    assert(b.subrange(p6, p6 + c7.len()) =~= c7);
    lemma_parse_table_col_of(b, p6, m.table);
}

/// Serialize a record into wire bytes.
pub fn encode_record(r: &ZanaDenseData) -> (out: Vec<u8>)
    ensures
        out@ == spec_record_bytes(model_of(*r)),
{
    let mut out: Vec<u8> = Vec::new();
    push_i64_col(&mut out, &r.nodes.dids);
    push_i32_col(&mut out, &r.nodes.dlats);
    push_i32_col(&mut out, &r.nodes.dlons);
    push_i64_col(&mut out, &r.paths.dids);
    push_nested_col(&mut out, &r.paths.dnodes);
    push_u64_col(&mut out, &r.paths.tags);
    push_table_col(&mut out, &r.string_table);
    proof {
        assert(out@ =~= spec_record_bytes(model_of(*r)));
    }
    out
}

/// Parse a record from wire bytes, as [`spec_parse_record`] describes.
pub fn decode_record(b: &Vec<u8>) -> (r: Option<ZanaDenseData>)
    ensures
        match r {
            Some(rec) => spec_parse_record(b@) == Some(model_of(rec)),
            None => spec_parse_record(b@) is None,
        },
{
    let (dids, p1) = match read_i64_col(b, 0) {
        Some(x) => x,
        None => {
            return None;
        },
    };
    let (dlats, p2) = match read_i32_col(b, p1) {
        Some(x) => x,
        None => {
            return None;
        },
    };
    let (dlons, p3) = match read_i32_col(b, p2) {
        Some(x) => x,
        None => {
            return None;
        },
    };
    let (path_dids, p4) = match read_i64_col(b, p3) {
        Some(x) => x,
        None => {
            return None;
        },
    };
    let (dnodes, p5) = match read_nested_col(b, p4) {
        Some(x) => x,
        None => {
            return None;
        },
    };
    let (tags, p6) = match read_u64_col(b, p5) {
        Some(x) => x,
        None => {
            return None;
        },
    };
    let (table, _p7) = match read_table_col(b, p6) {
        Some(x) => x,
        None => {
            return None;
        },
    };
    Some(
        ZanaDenseData {
            nodes: ZanaDenseNodes { dids, dlats, dlons },
            paths: ZanaDensePaths { dids: path_dids, dnodes, tags },
            string_table: table,
        },
    )
}

/// The LZ4 frame holding the given bytes.
pub uninterp spec fn lz4_frame_of(data: Seq<u8>) -> Seq<u8>;

/// Relies on lz4_flex's frame compression: a pure function of its input
/// bytes.  Writing into a `Vec` sink cannot fail.
#[verifier::external_body]
pub(crate) fn lz4_compress(data: &Vec<u8>) -> (r: Vec<u8>)
    ensures
        r@ == lz4_frame_of(data@),
{
    let mut enc = lz4_flex::frame::FrameEncoder::new(Vec::new());
    std::io::Write::write_all(&mut enc, data.as_slice()).expect("writing to a vec cannot fail");
    enc.finish().expect("flushing to a vec cannot fail")
}

/// Relies on lz4_flex's frame decompression, the documented inverse of
/// its frame compression: a frame decompresses to the bytes it was made
/// from; anything claimed of other inputs is only that a value comes
/// back or an error is reported.
#[verifier::external_body]
pub(crate) fn lz4_decompress(data: &Vec<u8>) -> (r: Option<Vec<u8>>)
    ensures
        match r {
            Some(d) => forall|p: Seq<u8>| data@ == lz4_frame_of(p) ==> d@ == p,
            None => forall|p: Seq<u8>| data@ != lz4_frame_of(p),
        },
{
    let mut out = Vec::new();
    let mut dec = lz4_flex::frame::FrameDecoder::new(data.as_slice());
    match std::io::Read::read_to_end(&mut dec, &mut out) {
        Ok(_) => Some(out),
        Err(_) => None,
    }
}

// ---------------------------------------------------------------------
// from columns to objects
// ---------------------------------------------------------------------

/// Split the flat tag stream at each `0` sentinel; the stream always
/// holds at least one (possibly empty) group, as slice `split` does.
pub open spec fn spec_split(tags: Seq<u64>) -> Seq<Seq<u64>>
    decreases tags.len(),
{
    if tags.len() == 0 {
        seq![Seq::<u64>::empty()]
    } else if tags.first() == 0 {
        seq![Seq::<u64>::empty()] + spec_split(tags.drop_first())
    } else {
        let rest = spec_split(tags.drop_first());
        seq![seq![tags.first()] + rest.first()] + rest.drop_first()
    }
}

/// Splitting yields at least one group.
pub proof fn lemma_split_len(tags: Seq<u64>)
    ensures
        spec_split(tags).len() >= 1,
    decreases tags.len(),
{
    if tags.len() > 0 {
        lemma_split_len(tags.drop_first());
    }
}

/// How one more stream element changes the split: a sentinel opens a new
/// empty group, anything else joins the last group.
pub proof fn lemma_split_push(s: Seq<u64>, e: u64)
    ensures
        spec_split(s.push(e)) == if e == 0 {
            spec_split(s).push(Seq::<u64>::empty())
        } else {
            spec_split(s).update(
                spec_split(s).len() - 1,
                spec_split(s).last().push(e),
            )
        },
    decreases s.len(),
{
    lemma_split_len(s);
    if s.len() == 0 {
        assert(spec_split(s) == seq![Seq::<u64>::empty()]);
        assert(s.push(e).drop_first() =~= s);
        if e == 0 {
            assert(s.push(e).first() == 0);
            assert(spec_split(s.push(e)) == seq![Seq::<u64>::empty()] + spec_split(
                s.push(e).drop_first(),
            ));
            assert(spec_split(s.push(e)) =~= spec_split(s).push(Seq::<u64>::empty()));
        } else {
            assert(s.push(e).first() == e);
            assert(spec_split(s.push(e)) == seq![seq![e] + spec_split(
                s.push(e).drop_first(),
            ).first()] + spec_split(s.push(e).drop_first()).drop_first());
            assert(seq![e] + Seq::<u64>::empty() =~= seq![e]);
            assert(spec_split(s.push(e)) =~= spec_split(s).update(
                spec_split(s).len() - 1,
                spec_split(s).last().push(e),
            ));
        }
    } else {
        assert(s.push(e).first() == s.first());
        assert(s.push(e).drop_first() =~= s.drop_first().push(e));
        lemma_split_push(s.drop_first(), e);
        lemma_split_len(s.drop_first());
        if s.first() == 0 {
            assert(spec_split(s) == seq![Seq::<u64>::empty()] + spec_split(s.drop_first()));
            assert(spec_split(s.push(e)) == seq![Seq::<u64>::empty()] + spec_split(
                s.drop_first().push(e),
            ));
            let rest = spec_split(s.drop_first());
            if e == 0 {
                assert(spec_split(s.drop_first().push(e)) == rest.push(Seq::<u64>::empty()));
                assert(spec_split(s.push(e)) =~= spec_split(s).push(Seq::<u64>::empty()));
            } else {
                assert(spec_split(s.drop_first().push(e)) == rest.update(
                    rest.len() - 1,
                    rest.last().push(e),
                ));
                assert(spec_split(s).last() == rest.last());
                assert(spec_split(s.push(e)) =~= spec_split(s).update(
                    spec_split(s).len() - 1,
                    spec_split(s).last().push(e),
                ));
            }
        } else {
            let rest = spec_split(s.drop_first());
            if e == 0 {
                assert(rest.push(Seq::<u64>::empty()).first() == rest.first());
                assert(rest.push(Seq::<u64>::empty()).drop_first() =~= rest.drop_first().push(
                    Seq::<u64>::empty(),
                ));
                assert(spec_split(s.push(e)) =~= spec_split(s).push(Seq::<u64>::empty()));
            } else {
                let rest2 = rest.update(rest.len() - 1, rest.last().push(e));
                assert(rest2.len() == rest.len());
                if rest.len() == 1 {
                    assert(rest2.first() == rest.first().push(e));
                    assert(rest2.drop_first() =~= rest.drop_first());
                    assert(spec_split(s) =~= seq![seq![s.first()] + rest.first()]);
                    assert(spec_split(s.push(e)) =~= spec_split(s).update(
                        spec_split(s).len() - 1,
                        spec_split(s).last().push(e),
                    ));
                } else {
                    assert(rest2.first() == rest.first());
                    assert(rest2.drop_first() =~= rest.drop_first().update(
                        rest.drop_first().len() - 1,
                        rest.drop_first().last().push(e),
                    ));
                    assert(spec_split(s).last() == rest.last());
                    assert(spec_split(s.push(e)) =~= spec_split(s).update(
                        spec_split(s).len() - 1,
                        spec_split(s).last().push(e),
                    ));
                }
            }
        }
    }
}

/// Join groups with a `0` sentinel between each pair; no trailing
/// sentinel.
pub open spec fn spec_join(groups: Seq<Seq<u64>>) -> Seq<u64>
    decreases groups.len(),
{
    if groups.len() == 0 {
        Seq::empty()
    } else if groups.len() == 1 {
        groups.first()
    } else {
        groups.first() + seq![0u64] + spec_join(groups.drop_first())
    }
}

/// A group carries no sentinel of its own.
pub open spec fn group_sentinel_free(g: Seq<u64>) -> bool {
    forall|i: int| 0 <= i < g.len() ==> g[i] != 0
}

/// Every group is sentinel-free.
pub open spec fn groups_sentinel_free(gs: Seq<Seq<u64>>) -> bool {
    forall|i: int| 0 <= i < gs.len() ==> group_sentinel_free(#[trigger] gs[i])
}

proof fn lemma_split_of_single(g: Seq<u64>)
    requires
        group_sentinel_free(g),
    ensures
        spec_split(g) == seq![g],
    decreases g.len(),
{
    if g.len() == 0 {
        assert(g =~= Seq::<u64>::empty());
        assert(spec_split(g) == seq![Seq::<u64>::empty()]);
        assert(spec_split(g) =~= seq![g]);
    } else {
        assert(g.first() != 0);
        assert(group_sentinel_free(g.drop_first()));
        lemma_split_of_single(g.drop_first());
        let rest = spec_split(g.drop_first());
        assert(rest == seq![g.drop_first()]);
        assert(rest.first() == g.drop_first());
        assert(rest.drop_first() =~= Seq::<Seq<u64>>::empty());
        assert(seq![g.first()] + g.drop_first() =~= g);
        assert(spec_split(g) == seq![seq![g.first()] + rest.first()] + rest.drop_first());
        assert(seq![g.first()] + rest.first() == g);
        assert(spec_split(g) =~= seq![g]);
    }
}

proof fn lemma_split_prepend(g: Seq<u64>, t: Seq<u64>)
    requires
        group_sentinel_free(g),
    ensures
        spec_split(g + seq![0u64] + t) == seq![g] + spec_split(t),
    decreases g.len(),
{
    let whole = g + seq![0u64] + t;
    if g.len() == 0 {
        assert(g =~= Seq::<u64>::empty());
        assert(whole.first() == 0);
        assert(whole.drop_first() =~= t);
        assert(spec_split(whole) == seq![Seq::<u64>::empty()] + spec_split(whole.drop_first()));
        assert(spec_split(whole) =~= seq![g] + spec_split(t));
    } else {
        assert(whole.first() == g.first());
        assert(whole.first() != 0);
        assert(whole.drop_first() =~= g.drop_first() + seq![0u64] + t);
        assert(group_sentinel_free(g.drop_first()));
        lemma_split_prepend(g.drop_first(), t);
        let rest = spec_split(g.drop_first() + seq![0u64] + t);
        assert(rest == seq![g.drop_first()] + spec_split(t));
        lemma_split_len(t);
        assert(rest.first() == g.drop_first());
        assert(rest.drop_first() =~= spec_split(t));
        assert(seq![g.first()] + g.drop_first() =~= g);
        assert(spec_split(whole) == seq![seq![whole.first()] + rest.first()] + rest.drop_first());
        assert(seq![whole.first()] + rest.first() =~= g);
        assert(spec_split(whole) =~= seq![g] + spec_split(t));
    }
}

/// Round trip of the tag stream: splitting the join of sentinel-free
/// groups recovers the groups.
pub proof fn lemma_split_join(gs: Seq<Seq<u64>>)
    requires
        gs.len() >= 1,
        groups_sentinel_free(gs),
    ensures
        spec_split(spec_join(gs)) == gs,
    decreases gs.len(),
{
    if gs.len() == 1 {
        lemma_split_of_single(gs.first());
        assert(seq![gs.first()] =~= gs);
    } else {
        assert(groups_sentinel_free(gs.drop_first()));
        lemma_split_join(gs.drop_first());
        lemma_split_prepend(gs.first(), spec_join(gs.drop_first()));
        assert(seq![gs.first()] + gs.drop_first() =~= gs);
    }
}

/// What appending one more group does to the join.
pub proof fn lemma_join_push(gs: Seq<Seq<u64>>, g: Seq<u64>)
    ensures
        spec_join(gs.push(g)) == if gs.len() == 0 {
            g
        } else {
            spec_join(gs) + seq![0u64] + g
        },
    decreases gs.len(),
{
    if gs.len() == 0 {
        assert(gs.push(g).first() == g);
        assert(spec_join(gs.push(g)) =~= g);
    } else {
        assert(gs.push(g).first() == gs.first());
        assert(gs.push(g).drop_first() =~= gs.drop_first().push(g));
        lemma_join_push(gs.drop_first(), g);
        if gs.len() == 1 {
            assert(spec_join(gs.push(g)) =~= spec_join(gs) + seq![0u64] + g);
        } else {
            assert(spec_join(gs.push(g)) =~= spec_join(gs) + seq![0u64] + g);
        }
    }
}

/// Consecutive pairs of a group; an odd leftover element is dropped.
pub open spec fn spec_pairs(g: Seq<u64>) -> Seq<(u64, u64)>
    decreases g.len(),
{
    if g.len() < 2 {
        Seq::empty()
    } else {
        seq![(g[0], g[1])] + spec_pairs(g.skip(2))
    }
}

/// On an even-length group, pairing is positional.
pub proof fn lemma_pairs_of_even(g: Seq<u64>)
    requires
        g.len() % 2 == 0,
    ensures
        spec_pairs(g).len() == g.len() / 2,
        forall|l: int|
            0 <= l < g.len() / 2 ==> #[trigger] spec_pairs(g)[l] == (g[2 * l], g[2 * l + 1]),
    decreases g.len(),
{
    if g.len() >= 2 {
        assert(g.skip(2).len() % 2 == 0);
        lemma_pairs_of_even(g.skip(2));
        assert(forall|l: int|
            0 <= l < g.skip(2).len() / 2 ==> #[trigger] spec_pairs(g.skip(2))[l] == (
                g.skip(2)[2 * l],
                g.skip(2)[2 * l + 1],
            ));
        assert forall|l: int| 0 <= l < g.len() / 2 implies #[trigger] spec_pairs(g)[l] == (
            g[2 * l],
            g[2 * l + 1],
        ) by {
            if l > 0 {
                assert(spec_pairs(g)[l] == spec_pairs(g.skip(2))[l - 1]);
                assert(g.skip(2)[2 * (l - 1)] == g[2 * l]);
                assert(g.skip(2)[2 * (l - 1) + 1] == g[2 * l + 1]);
            }
        }
    }
}

/// The smaller of two lengths.
pub open spec fn spec_min2(a: nat, b: nat) -> nat {
    if a <= b {
        a
    } else {
        b
    }
}

/// The smallest of three lengths.
pub open spec fn spec_min3(a: nat, b: nat, c: nat) -> nat {
    spec_min2(spec_min2(a, b), c)
}

/// The nodes a record decodes to: the three columns are undone by
/// prefix sums and walked together up to the shortest.
pub open spec fn spec_tile_nodes(m: TileRecord) -> Seq<ZanaNode> {
    let ids = crate::delta::spec_undelta_i64(m.dids);
    let lats = crate::delta::spec_undelta_i32(m.dlats);
    let lons = crate::delta::spec_undelta_i32(m.dlons);
    Seq::new(
        spec_min3(m.dids.len(), m.dlats.len(), m.dlons.len()),
        |i: int|
            ZanaNode {
                id: ids[i],
                coords: GeoCoord { decimicro_lat: lats[i], decimicro_lon: lons[i] },
            },
    )
}

/// A record has a bad delta when some decoded coordinate leaves the
/// decimicro range.
pub open spec fn spec_has_bad_delta(m: TileRecord) -> bool {
    exists|i: int|
        0 <= i < spec_tile_nodes(m).len() && !(#[trigger] spec_tile_nodes(m)[i]).coords.valid()
}

/// The paths a record decodes to: each node-ref sequence is undone by
/// prefix sums, and tag groups are paired.
pub open spec fn spec_tile_paths(m: TileRecord) -> Seq<ZanaPathView> {
    let groups = spec_split(m.tags);
    Seq::new(
        spec_min2(m.dnodes.len(), groups.len()),
        |j: int|
            ZanaPathView {
                nodes: crate::delta::spec_undelta_i64(m.dnodes[j]),
                tags: spec_pairs(groups[j]),
            },
    )
}

/// Every object a record decodes to: nodes first, then paths.
pub open spec fn spec_tile_objs(m: TileRecord) -> Seq<ZanaObjView> {
    spec_tile_nodes(m).map(|i: int, n: ZanaNode| ZanaObjView::Node(n)) + spec_tile_paths(m).map(
        |i: int, p: ZanaPathView| ZanaObjView::Path(p),
    )
}

/// What decoding a (decompressed) tile byte stream yields: the local
/// string table and the objects, or the reason it fails.
pub open spec fn spec_read_tile(b: Seq<u8>) -> Result<
    (Seq<(Seq<char>, u64)>, Seq<ZanaObjView>),
    DecodeError,
> {
    match spec_parse_record(b) {
        None => Err(DecodeError::Truncated),
        Some(m) => if spec_has_bad_delta(m) {
            Err(DecodeError::BadDelta)
        } else {
            Ok((m.table, spec_tile_objs(m)))
        },
    }
}

/// The views of a sequence of decoded objects.
pub open spec fn obj_views(v: Seq<ZanaObj>) -> Seq<ZanaObjView> {
    v.map(|i: int, o: ZanaObj| o@)
}

/// The views of the tag streams of a sequence of `u64` vectors.
pub open spec fn u64_views(v: Seq<Vec<u64>>) -> Seq<Seq<u64>> {
    v.map(|i: int, e: Vec<u64>| e@)
}

/// Pair every two consecutive elements of a group; a leftover element
/// is dropped.
fn pairs_of_group(g: &Vec<u64>) -> (r: Vec<(u64, u64)>)
    ensures
        r@ == spec_pairs(g@),
{
    let mut r: Vec<(u64, u64)> = Vec::new();
    let mut k: usize = 0;
    proof {
        assert(g@.skip(0) =~= g@);
        assert(r@ + spec_pairs(g@.skip(0)) =~= spec_pairs(g@));
    }
    while k < g.len() && k + 1 < g.len()
        invariant
            k <= g.len(),
            r@ + spec_pairs(g@.skip(k as int)) == spec_pairs(g@),
        decreases g.len() - k,
    {
        let ghost pre = r@;
        let ghost sk = g@.skip(k as int);
        proof {
            assert(sk[0] == g@[k as int]);
            assert(sk[1] == g@[k as int + 1]);
            assert(sk.skip(2) =~= g@.skip(k as int + 2));
        }
        r.push((g[k], g[k + 1]));
        proof {
            assert(r@ + spec_pairs(g@.skip(k as int + 2)) =~= pre + spec_pairs(sk));
        }
        k = k + 2;
    }
    proof {
        assert(spec_pairs(g@.skip(k as int)) =~= Seq::<(u64, u64)>::empty());
        assert(r@ + spec_pairs(g@.skip(k as int)) =~= r@);
    }
    r
}

/// Split a flat tag stream into its sentinel-separated groups.
fn split_tag_groups(tags: &Vec<u64>) -> (r: Vec<Vec<u64>>)
    ensures
        u64_views(r@) == spec_split(tags@),
{
    let mut done: Vec<Vec<u64>> = Vec::new();
    let mut cur: Vec<u64> = Vec::new();
    let mut i: usize = 0;
    proof {
        assert(tags@.take(0) =~= Seq::<u64>::empty());
        assert(u64_views(done@).push(cur@) =~= spec_split(tags@.take(0)));
    }
    while i < tags.len()
        invariant
            i <= tags.len(),
            u64_views(done@).push(cur@) == spec_split(tags@.take(i as int)),
        decreases tags.len() - i,
    {
        let ghost gs = spec_split(tags@.take(i as int));
        proof {
            assert(tags@.take(i as int + 1).drop_last() =~= tags@.take(i as int));
            assert(tags@.take(i as int + 1).last() == tags@[i as int]);
            assert(tags@.take(i as int + 1) =~= tags@.take(i as int).push(tags@[i as int]));
            lemma_split_push(tags@.take(i as int), tags@[i as int]);
        }
        let t = tags[i];
        if t == 0 {
            done.push(cur);
            cur = Vec::new();
            proof {
                assert(u64_views(done@).push(cur@) =~= gs.push(Seq::<u64>::empty()));
            }
        } else {
            cur.push(t);
            proof {
                assert(gs.last() == u64_views(done@).push(cur@).drop_last().push(
                    cur@.drop_last(),
                ).last());
                assert(u64_views(done@).push(cur@) =~= gs.update(gs.len() - 1, gs.last().push(t)));
            }
        }
        i = i + 1;
    }
    done.push(cur);
    proof {
        assert(tags@.take(tags@.len() as int) =~= tags@);
        assert(u64_views(done@) =~= spec_split(tags@));
    }
    done
}

/// Turn a parsed record into the local string table and the decoded
/// objects, or report the bad column.
pub fn undensify(rec: ZanaDenseData) -> (r: Result<(Vec<(String, u64)>, Vec<ZanaObj>), DecodeError>)
    ensures
        ({
            let m = model_of(rec);
            match r {
                Ok((tbl, objs)) => {
                    &&& !spec_has_bad_delta(m)
                    &&& entries_of(tbl@) == m.table
                    &&& obj_views(objs@) == spec_tile_objs(m)
                },
                Err(e) => e == DecodeError::BadDelta && spec_has_bad_delta(m),
            }
        }),
{
    let ghost m = model_of(rec);
    proof {
        crate::delta::lemma_undelta_len_i64(m.dids);
        crate::delta::lemma_undelta_len_i32(m.dlats);
        crate::delta::lemma_undelta_len_i32(m.dlons);
    }
    let ids = crate::delta::delta_decode_i64(&rec.nodes.dids);
    let lats = crate::delta::delta_decode_i32(&rec.nodes.dlats);
    let lons = crate::delta::delta_decode_i32(&rec.nodes.dlons);
    let mut n: usize = ids.len();
    if lats.len() < n {
        n = lats.len();
    }
    if lons.len() < n {
        n = lons.len();
    }
    assert(n as nat == spec_min3(m.dids.len(), m.dlats.len(), m.dlons.len()));
    let mut objs: Vec<ZanaObj> = Vec::new();
    let mut i: usize = 0;
    while i < n
        invariant
            m == model_of(rec),
            i <= n,
            n <= ids@.len() && n <= lats@.len() && n <= lons@.len(),
            ids@ == crate::delta::spec_undelta_i64(m.dids),
            lats@ == crate::delta::spec_undelta_i32(m.dlats),
            lons@ == crate::delta::spec_undelta_i32(m.dlons),
            n as nat == spec_tile_nodes(m).len(),
            objs@.len() == i as int,
            forall|j: int|
                0 <= j < i ==> #[trigger] objs@[j]@ == ZanaObjView::Node(spec_tile_nodes(m)[j]),
            forall|j: int| 0 <= j < i ==> (#[trigger] spec_tile_nodes(m)[j]).coords.valid(),
        decreases n - i,
    {
        let c = GeoCoord { decimicro_lat: lats[i], decimicro_lon: lons[i] };
        assert(spec_tile_nodes(m)[i as int].coords == c);
        if !c.in_range() {
            assert(!spec_tile_nodes(m)[i as int].coords.valid());
            assert(spec_has_bad_delta(m));
            return Err(DecodeError::BadDelta);
        }
        let node = ZanaNode { id: ids[i], coords: c };
        assert(spec_tile_nodes(m)[i as int] == node);
        let ghost objs_pre = objs@;
        objs.push(ZanaObj::Node(node));
        proof {
            assert(objs@ == objs_pre.push(ZanaObj::Node(node)));
            assert forall|j: int| 0 <= j < i + 1 implies #[trigger] objs@[j]@ == ZanaObjView::Node(
                spec_tile_nodes(m)[j],
            ) by {
                if j < i as int {
                    assert(objs@[j] == objs_pre[j]);
                }
            }
        }
        i = i + 1;
    }
    assert(!spec_has_bad_delta(m)) by {
        if spec_has_bad_delta(m) {
            let bad = choose|k: int|
                0 <= k < spec_tile_nodes(m).len() && !(#[trigger] spec_tile_nodes(
                    m,
                )[k]).coords.valid();
            assert(spec_tile_nodes(m)[bad].coords.valid());
        }
    }
    let groups = split_tag_groups(&rec.paths.tags);
    let mut np: usize = rec.paths.dnodes.len();
    if groups.len() < np {
        np = groups.len();
    }
    proof {
        assert(u64_views(groups@).len() == groups@.len());
        assert(np as nat == spec_min2(m.dnodes.len(), spec_split(m.tags).len()));
        assert(np as nat == spec_tile_paths(m).len());
    }
    let mut j: usize = 0;
    while j < np
        invariant
            m == model_of(rec),
            j <= np,
            np <= rec.paths.dnodes@.len() && np <= groups@.len(),
            u64_views(groups@) == spec_split(m.tags),
            views_of(rec.paths.dnodes@) == m.dnodes,
            np as nat == spec_tile_paths(m).len(),
            objs@.len() == n as int + j as int,
            n as nat == spec_tile_nodes(m).len(),
            forall|k: int|
                0 <= k < n ==> #[trigger] objs@[k]@ == ZanaObjView::Node(spec_tile_nodes(m)[k]),
            forall|k: int|
                0 <= k < j ==> #[trigger] objs@[n + k]@ == ZanaObjView::Path(
                    spec_tile_paths(m)[k],
                ),
        decreases np - j,
    {
        let pnodes = crate::delta::delta_decode_i64(&rec.paths.dnodes[j]);
        let ptags = pairs_of_group(&groups[j]);
        let p = ZanaPath { nodes: pnodes, tags: ptags };
        proof {
            assert(m.dnodes[j as int] == rec.paths.dnodes@[j as int]@);
            assert(spec_split(m.tags)[j as int] == u64_views(groups@)[j as int]);
            assert(u64_views(groups@)[j as int] == groups@[j as int]@);
            assert(p@.nodes == spec_tile_paths(m)[j as int].nodes);
            assert(p@.tags == spec_tile_paths(m)[j as int].tags);
            assert(p@ =~= spec_tile_paths(m)[j as int]);
        }
        let ghost objs_pre = objs@;
        objs.push(ZanaObj::Path(p));
        proof {
            assert forall|k: int| 0 <= k < n implies #[trigger] objs@[k]@ == ZanaObjView::Node(
                spec_tile_nodes(m)[k],
            ) by {
                assert(objs@[k] == objs_pre[k]);
            }
            assert forall|k: int| 0 <= k < j + 1 implies #[trigger] objs@[n + k]@
                == ZanaObjView::Path(spec_tile_paths(m)[k]) by {
                if k < j as int {
                    assert(objs@[n + k] == objs_pre[n + k]);
                }
            }
        }
        j = j + 1;
    }
    proof {
        assert forall|k: int| 0 <= k < obj_views(objs@).len() implies #[trigger] obj_views(
            objs@,
        )[k] == spec_tile_objs(m)[k] by {
            assert(obj_views(objs@)[k] == objs@[k]@);
            if k < n as int {
                assert(spec_tile_objs(m)[k] == ZanaObjView::Node(spec_tile_nodes(m)[k]));
            } else {
                assert(objs@[n + (k - n)]@ == ZanaObjView::Path(spec_tile_paths(m)[k - n]));
                assert(spec_tile_objs(m)[k] == ZanaObjView::Path(spec_tile_paths(m)[k - n]));
            }
        }
        assert(obj_views(objs@).len() == spec_tile_objs(m).len());
        assert(obj_views(objs@) =~= spec_tile_objs(m));
    }
    Ok((rec.string_table, objs))
}

/// Decode one decompressed tile byte stream, exactly as
/// [`spec_read_tile`] describes.
pub fn decode_tile_bytes(b: &Vec<u8>) -> (r: Result<(Vec<(String, u64)>, Vec<ZanaObj>), DecodeError>)
    ensures
        ({
            let s = spec_read_tile(b@);
            match r {
                Ok((tbl, objs)) => {
                    &&& s matches Ok(p)
                    &&& entries_of(tbl@) == p.0
                    &&& obj_views(objs@) == p.1
                },
                Err(e) => s matches Err(e2) && e == e2,
            }
        }),
{
    let rec = match decode_record(b) {
        Some(x) => x,
        None => {
            return Err(DecodeError::Truncated);
        },
    };
    undensify(rec)
}

/// Read one tile: undo the LZ4 frame, then decode the record inside it.
/// For a frame made from plain bytes `p`, the result is exactly what
/// [`spec_read_tile`] yields on `p`; input that is no LZ4 frame is
/// reported as truncated.
pub fn read_zana_data(data: &Vec<u8>) -> (r: Result<(Vec<(String, u64)>, Vec<ZanaObj>), DecodeError>)
    ensures
        forall|p: Seq<u8>|
            data@ == lz4_frame_of(p) ==> ({
                let s = spec_read_tile(p);
                match r {
                    Ok((tbl, objs)) => {
                        &&& s matches Ok(sp)
                        &&& entries_of(tbl@) == sp.0
                        &&& obj_views(objs@) == sp.1
                    },
                    Err(e) => s matches Err(e2) && e == e2,
                }
            }),
{
    let plain = match lz4_decompress(data) {
        Some(d) => d,
        None => {
            return Err(DecodeError::Truncated);
        },
    };
    decode_tile_bytes(&plain)
}

// ---------------------------------------------------------------------
// from objects to columns
// ---------------------------------------------------------------------

/// The text views of a vector of strings.
pub open spec fn string_views(v: Seq<String>) -> Seq<Seq<char>> {
    v.map(|i: int, s: String| s@)
}

/// The tag pair lists of a vector of paths.
pub open spec fn path_tag_views(v: Seq<ZanaPath>) -> Seq<Seq<(u64, u64)>> {
    v.map(|i: int, p: ZanaPath| p.tags@)
}

/// The views of a vector of paths.
pub open spec fn path_views(v: Seq<ZanaPath>) -> Seq<ZanaPathView> {
    v.map(|i: int, p: ZanaPath| p@)
}

/// The tag pair lists of path views.
pub open spec fn pview_tags(pviews: Seq<ZanaPathView>) -> Seq<Seq<(u64, u64)>> {
    pviews.map(|j: int, p: ZanaPathView| p.tags)
}

/// The ids of a node column.
pub open spec fn node_ids_of(nodes: Seq<ZanaNode>) -> Seq<i64> {
    nodes.map(|i: int, n: ZanaNode| n.id)
}

/// The latitudes of a node column.
pub open spec fn node_lats_of(nodes: Seq<ZanaNode>) -> Seq<i32> {
    nodes.map(|i: int, n: ZanaNode| n.coords.decimicro_lat)
}

/// The longitudes of a node column.
pub open spec fn node_lons_of(nodes: Seq<ZanaNode>) -> Seq<i32> {
    nodes.map(|i: int, n: ZanaNode| n.coords.decimicro_lon)
}

/// The `(text, id)` pairs of an interning table, in id order.
pub open spec fn table_pairs_of(t: Seq<Seq<char>>) -> Seq<(Seq<char>, u64)> {
    Seq::new(t.len(), |i: int| (t[i], (i + 1) as u64))
}

/// Every tag id is a valid 1-based index into the lookup table.
pub open spec fn tags_valid_one(tags: Seq<(u64, u64)>, nlookup: nat) -> bool {
    forall|l: int|
        0 <= l < tags.len() ==> 1 <= (#[trigger] tags[l]).0 <= nlookup && 1 <= tags[l].1 <= nlookup
}

/// Every path's tag ids are valid indexes into the lookup table.
pub open spec fn tags_valid(ptags: Seq<Seq<(u64, u64)>>, nlookup: nat) -> bool {
    forall|j: int| 0 <= j < ptags.len() ==> tags_valid_one(#[trigger] ptags[j], nlookup)
}

/// Intern one text into a table: the id it already has, else the table
/// extended by it with the next id.
pub open spec fn spec_intern1(t: Seq<Seq<char>>, s: Seq<char>) -> (Seq<Seq<char>>, u64) {
    match crate::strings::spec_find(t, s) {
        Some(i) => (t, (i + 1) as u64),
        None => (t.push(s), (t.len() + 1) as u64),
    }
}

/// Intern the key and value texts of one path's tag pairs, in order,
/// yielding the grown table and the path's flat id group.
pub open spec fn spec_flatten_one(
    tags: Seq<(u64, u64)>,
    lookup: Seq<Seq<char>>,
    t: Seq<Seq<char>>,
) -> (Seq<Seq<char>>, Seq<u64>)
    decreases tags.len(),
{
    if tags.len() == 0 {
        (t, Seq::empty())
    } else {
        let prev = spec_flatten_one(tags.drop_last(), lookup, t);
        let k = spec_intern1(prev.0, lookup[tags.last().0 - 1]);
        let v = spec_intern1(k.0, lookup[tags.last().1 - 1]);
        (v.0, prev.1.push(k.1).push(v.1))
    }
}

/// Intern all paths' tags in path order, yielding the local table and
/// one id group per path.
pub open spec fn spec_flatten_paths(
    ptags: Seq<Seq<(u64, u64)>>,
    lookup: Seq<Seq<char>>,
    t: Seq<Seq<char>>,
) -> (Seq<Seq<char>>, Seq<Seq<u64>>)
    decreases ptags.len(),
{
    if ptags.len() == 0 {
        (t, Seq::empty())
    } else {
        let prev = spec_flatten_paths(ptags.drop_last(), lookup, t);
        let one = spec_flatten_one(ptags.last(), lookup, prev.0);
        (one.0, prev.1.push(one.1))
    }
}

/// One group per path.
pub proof fn lemma_flatten_paths_len(
    ptags: Seq<Seq<(u64, u64)>>,
    lookup: Seq<Seq<char>>,
    t: Seq<Seq<char>>,
)
    ensures
        spec_flatten_paths(ptags, lookup, t).1.len() == ptags.len(),
    decreases ptags.len(),
{
    if ptags.len() > 0 {
        lemma_flatten_paths_len(ptags.drop_last(), lookup, t);
    }
}

/// What one interning step guarantees: the table only grows at the end,
/// stays duplicate-free, the id points at the interned text, and any new
/// entry is the interned text itself.
pub proof fn lemma_intern1_props(t: Seq<Seq<char>>, s: Seq<char>)
    ensures
        ({
            let r = spec_intern1(t, s);
            &&& t.len() <= r.0.len()
            &&& t.is_prefix_of(r.0)
            &&& (t.len() < u64::MAX ==> 1 <= r.1 <= r.0.len() && r.0[r.1 - 1] == s)
            &&& (t.no_duplicates() ==> r.0.no_duplicates())
            &&& (forall|i: int| 0 <= i < r.0.len() ==> t.contains(#[trigger] r.0[i]) || r.0[i] == s)
        }),
{
    crate::strings::lemma_find_spec(t, s);
    let r = spec_intern1(t, s);
    match crate::strings::spec_find(t, s) {
        Some(i) => {
            assert(t.subrange(0, t.len() as int) =~= t);
            assert(t.is_prefix_of(r.0));
            assert(forall|i2: int| 0 <= i2 < t.len() ==> t.contains(#[trigger] t[i2]));
        },
        None => {
            assert(t.push(s).subrange(0, t.len() as int) =~= t);
            assert(t.is_prefix_of(r.0));
            if t.no_duplicates() {
                assert forall|i2: int, j2: int| 0 <= i2 < j2 < r.0.len() implies r.0[i2]
                    != r.0[j2] by {
                    if j2 < t.len() {
                    } else {
                        assert(r.0[j2] == s);
                        assert(r.0[i2] == t[i2]);
                        if t[i2] == s {
                            assert(t.contains(s));
                        }
                    }
                }
            }
            assert(forall|i2: int| 0 <= i2 < t.len() ==> t.contains(#[trigger] t[i2]));
            assert(forall|i2: int|
                0 <= i2 < r.0.len() ==> t.contains(#[trigger] r.0[i2]) || r.0[i2] == s);
        },
    }
}

/// What flattening one path's tags guarantees: the table grows at the
/// end only, stays duplicate-free and drawn from the lookup texts, the
/// group has two nonzero valid ids per pair, and each id resolves to
/// the text the pair's global id names.
pub proof fn lemma_flatten_one_props(
    tags: Seq<(u64, u64)>,
    lookup: Seq<Seq<char>>,
    t: Seq<Seq<char>>,
)
    requires
        tags_valid_one(tags, lookup.len()),
        t.no_duplicates(),
        lookup.len() < u64::MAX,
        forall|i: int| 0 <= i < t.len() ==> lookup.contains(#[trigger] t[i]),
    ensures
        ({
            let r = spec_flatten_one(tags, lookup, t);
            &&& t.is_prefix_of(r.0)
            &&& r.0.no_duplicates()
            &&& r.0.len() <= lookup.len()
            &&& (forall|i: int| 0 <= i < r.0.len() ==> lookup.contains(#[trigger] r.0[i]))
            &&& r.1.len() == 2 * tags.len()
            &&& (forall|l: int| 0 <= l < r.1.len() ==> 1 <= #[trigger] r.1[l] <= r.0.len())
            &&& (forall|l: int|
                0 <= l < tags.len() ==> r.0[#[trigger] r.1[2 * l] - 1] == lookup[tags[l].0 - 1]
                    && r.0[r.1[2 * l + 1] - 1] == lookup[tags[l].1 - 1])
        }),
    decreases tags.len(),
{
    crate::strings::lemma_distinct_in_pool_len(t, lookup);
    if tags.len() == 0 {
        assert(t.subrange(0, t.len() as int) =~= t);
        assert(t.is_prefix_of(t));
    } else {
        assert(tags_valid_one(tags.drop_last(), lookup.len())) by {
            assert(forall|l: int|
                0 <= l < tags.drop_last().len() ==> #[trigger] tags.drop_last()[l] == tags[l]);
        }
        lemma_flatten_one_props(tags.drop_last(), lookup, t);
        let prev = spec_flatten_one(tags.drop_last(), lookup, t);
        crate::strings::lemma_distinct_in_pool_len(prev.0, lookup);
        assert(tags.last() == tags[tags.len() - 1]);
        let sk = lookup[tags.last().0 - 1];
        let sv = lookup[tags.last().1 - 1];
        assert(lookup.contains(sk));
        assert(lookup.contains(sv));
        lemma_intern1_props(prev.0, sk);
        let k = spec_intern1(prev.0, sk);
        assert(forall|i: int| 0 <= i < k.0.len() ==> lookup.contains(#[trigger] k.0[i]));
        crate::strings::lemma_distinct_in_pool_len(k.0, lookup);
        lemma_intern1_props(k.0, sv);
        let v = spec_intern1(k.0, sv);
        assert(forall|i: int| 0 <= i < v.0.len() ==> lookup.contains(#[trigger] v.0[i]));
        crate::strings::lemma_distinct_in_pool_len(v.0, lookup);
        let r = spec_flatten_one(tags, lookup, t);
        assert(r.0 == v.0);
        assert(r.1 == prev.1.push(k.1).push(v.1));
        assert(t.is_prefix_of(prev.0));
        assert(prev.0.is_prefix_of(k.0));
        assert(k.0.is_prefix_of(v.0));
        assert(t.is_prefix_of(r.0)) by {
            assert(forall|i2: int| 0 <= i2 < t.len() ==> t[i2] == prev.0[i2]);
            assert(forall|i2: int| 0 <= i2 < prev.0.len() ==> prev.0[i2] == k.0[i2]);
            assert(forall|i2: int| 0 <= i2 < k.0.len() ==> k.0[i2] == v.0[i2]);
            assert(r.0.subrange(0, t.len() as int) =~= t);
        }
        assert(r.1.len() == 2 * tags.len());
        assert forall|l: int| 0 <= l < tags.len() implies r.0[#[trigger] r.1[2 * l] - 1]
            == lookup[tags[l].0 - 1] && r.0[r.1[2 * l + 1] - 1] == lookup[tags[l].1 - 1] by {
            if l < tags.len() - 1 {
                assert(tags.drop_last()[l] == tags[l]);
                assert(r.1[2 * l] == prev.1[2 * l]);
                assert(r.1[2 * l + 1] == prev.1[2 * l + 1]);
                assert(prev.0[prev.1[2 * l] - 1] == lookup[tags[l].0 - 1]);
                assert(prev.0[prev.1[2 * l + 1] - 1] == lookup[tags[l].1 - 1]);
                assert(1 <= prev.1[2 * l] <= prev.0.len());
                assert(1 <= prev.1[2 * l + 1] <= prev.0.len());
                assert(r.0[prev.1[2 * l] - 1] == prev.0[prev.1[2 * l] - 1]);
                assert(r.0[prev.1[2 * l + 1] - 1] == prev.0[prev.1[2 * l + 1] - 1]);
            } else {
                assert(r.1[2 * l] == k.1);
                assert(r.1[2 * l + 1] == v.1);
                assert(k.0[k.1 - 1] == sk);
                assert(r.0[k.1 - 1] == k.0[k.1 - 1]);
                assert(v.0[v.1 - 1] == sv);
            }
        }
    }
}

/// What flattening all paths guarantees, aggregated over the groups.
pub proof fn lemma_flatten_paths_props(
    ptags: Seq<Seq<(u64, u64)>>,
    lookup: Seq<Seq<char>>,
    t: Seq<Seq<char>>,
)
    requires
        tags_valid(ptags, lookup.len()),
        t.no_duplicates(),
        lookup.len() < u64::MAX,
        forall|i: int| 0 <= i < t.len() ==> lookup.contains(#[trigger] t[i]),
    ensures
        ({
            let r = spec_flatten_paths(ptags, lookup, t);
            &&& t.is_prefix_of(r.0)
            &&& r.0.no_duplicates()
            &&& r.0.len() <= lookup.len()
            &&& (forall|i: int| 0 <= i < r.0.len() ==> lookup.contains(#[trigger] r.0[i]))
            &&& r.1.len() == ptags.len()
            &&& (forall|j: int|
                0 <= j < ptags.len() ==> (#[trigger] r.1[j]).len() == 2 * ptags[j].len())
            &&& groups_sentinel_free(r.1)
            &&& (forall|j: int, l: int|
                0 <= j < ptags.len() && 0 <= l < r.1[j].len() ==> 1 <= #[trigger] r.1[j][l]
                    <= r.0.len())
            &&& (forall|j: int, l: int|
                0 <= j < ptags.len() && 0 <= l < ptags[j].len() ==> r.0[#[trigger] r.1[j][2 * l]
                    - 1] == lookup[ptags[j][l].0 - 1] && r.0[r.1[j][2 * l + 1] - 1]
                    == lookup[ptags[j][l].1 - 1])
        }),
    decreases ptags.len(),
{
    crate::strings::lemma_distinct_in_pool_len(t, lookup);
    if ptags.len() == 0 {
        assert(t.subrange(0, t.len() as int) =~= t);
        assert(t.is_prefix_of(t));
    } else {
        assert(tags_valid(ptags.drop_last(), lookup.len())) by {
            assert(forall|j: int|
                0 <= j < ptags.drop_last().len() ==> #[trigger] ptags.drop_last()[j] == ptags[j]);
        }
        lemma_flatten_paths_props(ptags.drop_last(), lookup, t);
        let prev = spec_flatten_paths(ptags.drop_last(), lookup, t);
        assert(ptags.last() == ptags[ptags.len() - 1]);
        assert(tags_valid_one(ptags.last(), lookup.len()));
        lemma_flatten_one_props(ptags.last(), lookup, prev.0);
        let one = spec_flatten_one(ptags.last(), lookup, prev.0);
        let r = spec_flatten_paths(ptags, lookup, t);
        assert(r.0 == one.0 && r.1 == prev.1.push(one.1));
        assert(t.is_prefix_of(r.0)) by {
            assert(forall|i2: int| 0 <= i2 < t.len() ==> t[i2] == prev.0[i2]);
            assert(forall|i2: int| 0 <= i2 < prev.0.len() ==> prev.0[i2] == one.0[i2]);
            assert(r.0.subrange(0, t.len() as int) =~= t);
        }
        assert forall|j: int| 0 <= j < ptags.len() implies (#[trigger] r.1[j]).len() == 2
            * ptags[j].len() by {
            if j < ptags.len() - 1 {
                assert(r.1[j] == prev.1[j]);
                assert(ptags.drop_last()[j] == ptags[j]);
            } else {
                assert(r.1[j] == one.1);
            }
        }
        assert forall|j: int, l: int|
            0 <= j < ptags.len() && 0 <= l < r.1[j].len() implies 1 <= #[trigger] r.1[j][l]
            <= r.0.len() by {
            if j < ptags.len() - 1 {
                assert(r.1[j] == prev.1[j]);
                assert(ptags.drop_last()[j] == ptags[j]);
                assert(1 <= prev.1[j][l] <= prev.0.len());
                assert(prev.0.len() <= r.0.len());
            } else {
                assert(r.1[j] == one.1);
            }
        }
        assert forall|j: int| 0 <= j < r.1.len() implies group_sentinel_free(
            #[trigger] r.1[j],
        ) by {
            if j < ptags.len() - 1 {
                assert(r.1[j] == prev.1[j]);
            } else {
                assert(r.1[j] == one.1);
                assert(forall|l: int| 0 <= l < one.1.len() ==> 1 <= #[trigger] one.1[l]);
            }
        }
        assert forall|j: int, l: int|
            0 <= j < ptags.len() && 0 <= l < ptags[j].len() implies r.0[#[trigger] r.1[j][2 * l]
            - 1] == lookup[ptags[j][l].0 - 1] && r.0[r.1[j][2 * l + 1] - 1] == lookup[ptags[j][l].1
            - 1] by {
            if j < ptags.len() - 1 {
                assert(r.1[j] == prev.1[j]);
                assert(ptags.drop_last()[j] == ptags[j]);
                assert(prev.0[prev.1[j][2 * l] - 1] == lookup[ptags[j][l].0 - 1]);
                assert(prev.0[prev.1[j][2 * l + 1] - 1] == lookup[ptags[j][l].1 - 1]);
                assert(1 <= prev.1[j][2 * l] <= prev.0.len());
                assert(1 <= prev.1[j][2 * l + 1] <= prev.0.len());
                assert(forall|i2: int| 0 <= i2 < prev.0.len() ==> prev.0[i2] == one.0[i2]);
                assert(r.0[prev.1[j][2 * l] - 1] == prev.0[prev.1[j][2 * l] - 1]);
                assert(r.0[prev.1[j][2 * l + 1] - 1] == prev.0[prev.1[j][2 * l + 1] - 1]);
            } else {
                assert(r.1[j] == one.1);
            }
        }
    }
}

/// The record a tile is built from: delta-encoded node columns, one
/// delta-encoded node-ref sequence per path, the joined stream of the
/// locally interned tag ids, and the local table.
pub open spec fn spec_densify(
    nodes: Seq<ZanaNode>,
    pviews: Seq<ZanaPathView>,
    lookup: Seq<Seq<char>>,
) -> TileRecord {
    let f = spec_flatten_paths(pview_tags(pviews), lookup, Seq::empty());
    TileRecord {
        dids: crate::delta::spec_deltas_i64(node_ids_of(nodes)),
        dlats: crate::delta::spec_deltas_i32(node_lats_of(nodes)),
        dlons: crate::delta::spec_deltas_i32(node_lons_of(nodes)),
        path_dids: Seq::empty(),
        dnodes: pviews.map(|j: int, p: ZanaPathView| crate::delta::spec_deltas_i64(p.nodes)),
        tags: spec_join(f.1),
        table: table_pairs_of(f.0),
    }
}

/// Intern every path's tags into a fresh local table and build the flat
/// sentinel-separated tag stream.
fn flatten_tags(paths: &Vec<ZanaPath>, lookup: &Vec<String>) -> (r: (
    Vec<u64>,
    crate::strings::StringTable,
))
    requires
        tags_valid(path_tag_views(paths@), lookup@.len() as nat),
        lookup@.len() < u64::MAX,
    ensures
        ({
            let f = spec_flatten_paths(path_tag_views(paths@), string_views(lookup@), Seq::empty());
            &&& r.0@ == spec_join(f.1)
            &&& r.1@ == f.0
            &&& r.1.wf()
            &&& r.1@.len() <= lookup@.len()
        }),
{
    let ghost lk = string_views(lookup@);
    let ghost ptv = path_tag_views(paths@);
    proof {
        assert(lk.len() == lookup@.len());
        assert(tags_valid(ptv, lk.len()));
    }
    let lookup_n = lookup.len();
    proof {
        assert(lookup@.len() <= usize::MAX);
    }
    let mut table: crate::strings::StringTable = Default::default();
    let mut flat: Vec<u64> = Vec::new();
    let mut i: usize = 0;
    proof {
        assert(ptv.take(0) =~= Seq::<Seq<(u64, u64)>>::empty());
        assert(table@ == spec_flatten_paths(ptv.take(0), lk, Seq::empty()).0);
        assert(flat@ =~= spec_join(spec_flatten_paths(ptv.take(0), lk, Seq::empty()).1));
    }
    while i < paths.len()
        invariant
            i <= paths.len(),
            lk == string_views(lookup@),
            ptv == path_tag_views(paths@),
            ptv.len() == paths@.len(),
            tags_valid(ptv, lk.len()),
            lk.len() == lookup@.len(),
            lookup@.len() < u64::MAX,
            lookup@.len() <= usize::MAX,
            table@ == spec_flatten_paths(ptv.take(i as int), lk, Seq::empty()).0,
            flat@ == spec_join(spec_flatten_paths(ptv.take(i as int), lk, Seq::empty()).1),
            table.wf(),
            forall|e: int| 0 <= e < table@.len() ==> lk.contains(#[trigger] table@[e]),
        decreases paths.len() - i,
    {
        let ghost st = spec_flatten_paths(ptv.take(i as int), lk, Seq::empty());
        let ghost t_enter = table@;
        proof {
            lemma_flatten_paths_len(ptv.take(i as int), lk, Seq::empty());
        }
        if i > 0 {
            flat.push(0);
        }
        let tags = &paths[i].tags;
        proof {
            assert(ptv[i as int] == paths@[i as int].tags@);
            assert(tags_valid_one(tags@, lk.len()));
            assert(tags@.take(0) =~= Seq::<(u64, u64)>::empty());
        }
        let mut g: Vec<u64> = Vec::new();
        let mut k: usize = 0;
        while k < tags.len()
            invariant
                k <= tags.len(),
                lk == string_views(lookup@),
                lk.len() == lookup@.len(),
                lookup@.len() < u64::MAX,
                lookup@.len() <= usize::MAX,
                tags_valid_one(tags@, lk.len()),
                table@ == spec_flatten_one(tags@.take(k as int), lk, t_enter).0,
                g@ == spec_flatten_one(tags@.take(k as int), lk, t_enter).1,
                table.wf(),
                forall|e: int| 0 <= e < table@.len() ==> lk.contains(#[trigger] table@[e]),
            decreases tags.len() - k,
        {
            let ghost so = spec_flatten_one(tags@.take(k as int), lk, t_enter);
            let kid_g = tags[k].0;
            let vid_g = tags[k].1;
            assert(1 <= kid_g <= lookup@.len() && 1 <= vid_g <= lookup@.len());
            proof {
                crate::strings::lemma_distinct_in_pool_len(table@, lk);
            }
            let ks = &lookup[(kid_g - 1) as usize];
            let ghost t_before_k = table@;
            let kid = table.intern(ks.as_str());
            proof {
                assert(lk[kid_g - 1] == lookup@[kid_g - 1]@);
                assert(ks@ == lk[kid_g - 1]);
                assert((table@, kid) == spec_intern1(t_before_k, lk[kid_g - 1]));
                assert(lk.contains(lk[kid_g - 1]));
                lemma_intern1_props(t_before_k, lk[kid_g - 1]);
                crate::strings::lemma_distinct_in_pool_len(table@, lk);
            }
            let vs = &lookup[(vid_g - 1) as usize];
            let ghost t_before_v = table@;
            let vid = table.intern(vs.as_str());
            proof {
                assert(lk[vid_g - 1] == lookup@[vid_g - 1]@);
                assert(vs@ == lk[vid_g - 1]);
                assert((table@, vid) == spec_intern1(t_before_v, lk[vid_g - 1]));
                assert(lk.contains(lk[vid_g - 1]));
                lemma_intern1_props(t_before_v, lk[vid_g - 1]);
            }
            g.push(kid);
            g.push(vid);
            proof {
                assert(tags@.take(k as int + 1).drop_last() =~= tags@.take(k as int));
                assert(tags@.take(k as int + 1).last() == tags@[k as int]);
                assert(table@ == spec_flatten_one(tags@.take(k as int + 1), lk, t_enter).0);
                assert(g@ =~= spec_flatten_one(tags@.take(k as int + 1), lk, t_enter).1);
            }
            k = k + 1;
        }
        proof {
            assert(tags@.take(tags@.len() as int) =~= tags@);
        }
        let ghost flat_before = flat@;
        flat.extend_from_slice(g.as_slice());
        proof {
            assert(ptv.take(i as int + 1).drop_last() =~= ptv.take(i as int));
            assert(ptv.take(i as int + 1).last() == ptv[i as int]);
            let stn = spec_flatten_paths(ptv.take(i as int + 1), lk, Seq::empty());
            assert(stn.0 == table@);
            assert(stn.1 == st.1.push(g@));
            lemma_join_push(st.1, g@);
            if i == 0 {
                assert(st.1.len() == 0);
                assert(flat@ =~= spec_join(stn.1));
            } else {
                assert(st.1.len() == i as int);
                assert(flat@ =~= spec_join(st.1) + seq![0u64] + g@);
                assert(flat@ =~= spec_join(stn.1));
            }
        }
        i = i + 1;
    }
    proof {
        assert(ptv.take(paths@.len() as int) =~= ptv);
        crate::strings::lemma_distinct_in_pool_len(table@, lk);
    }
    (flat, table)
}

/// Build the dense record for a tile and return its compressed bytes:
/// delta-encode the node columns and each path's node refs, intern every
/// tag into a fresh local table, and wrap the record in an LZ4 frame.
pub fn write_zana_data(nodes: &Vec<ZanaNode>, paths: &Vec<ZanaPath>, lookup: &Vec<String>) -> (r:
    Vec<u8>)
    requires
        tags_valid(path_tag_views(paths@), lookup@.len() as nat),
        lookup@.len() < u64::MAX,
    ensures
        r@ == lz4_frame_of(
            spec_record_bytes(spec_densify(nodes@, path_views(paths@), string_views(lookup@))),
        ),
{
    let ghost target = spec_densify(nodes@, path_views(paths@), string_views(lookup@));
    let mut ids: Vec<i64> = Vec::new();
    let mut lats: Vec<i32> = Vec::new();
    let mut lons: Vec<i32> = Vec::new();
    let mut i: usize = 0;
    while i < nodes.len()
        invariant
            i <= nodes.len(),
            ids@.len() == i as int && lats@.len() == i as int && lons@.len() == i as int,
            forall|j: int| 0 <= j < i ==> #[trigger] ids@[j] == nodes@[j].id,
            forall|j: int| 0 <= j < i ==> #[trigger] lats@[j] == nodes@[j].coords.decimicro_lat,
            forall|j: int| 0 <= j < i ==> #[trigger] lons@[j] == nodes@[j].coords.decimicro_lon,
        decreases nodes.len() - i,
    {
        ids.push(nodes[i].id);
        lats.push(nodes[i].coords.decimicro_lat);
        lons.push(nodes[i].coords.decimicro_lon);
        i = i + 1;
    }
    proof {
        assert(ids@ =~= node_ids_of(nodes@));
        assert(lats@ =~= node_lats_of(nodes@));
        assert(lons@ =~= node_lons_of(nodes@));
    }
    let dids = crate::delta::delta_encode_i64(&ids);
    let dlats = crate::delta::delta_encode_i32(&lats);
    let dlons = crate::delta::delta_encode_i32(&lons);
    let mut dnodes: Vec<Vec<i64>> = Vec::new();
    let mut j: usize = 0;
    while j < paths.len()
        invariant
            j <= paths.len(),
            dnodes@.len() == j as int,
            forall|k: int|
                0 <= k < j ==> #[trigger] dnodes@[k]@ == crate::delta::spec_deltas_i64(
                    paths@[k].nodes@,
                ),
        decreases paths.len() - j,
    {
        dnodes.push(crate::delta::delta_encode_i64(&paths[j].nodes));
        j = j + 1;
    }
    let (tags, table) = flatten_tags(paths, lookup);
    let string_table = table.get_map();
    let rec = ZanaDenseData {
        nodes: ZanaDenseNodes { dids, dlats, dlons },
        paths: ZanaDensePaths { dids: Vec::new(), dnodes, tags },
        string_table,
    };
    proof {
        let f = spec_flatten_paths(path_tag_views(paths@), string_views(lookup@), Seq::empty());
        assert forall|k: int| 0 <= k < paths@.len() implies pview_tags(path_views(paths@))[k]
            == path_tag_views(paths@)[k] by {
            assert(path_views(paths@)[k] == paths@[k]@);
            assert(pview_tags(path_views(paths@))[k] == path_views(paths@)[k].tags);
            assert(path_tag_views(paths@)[k] == paths@[k].tags@);
        }
        assert(pview_tags(path_views(paths@)) =~= path_tag_views(paths@));
        let dn_target = path_views(paths@).map(
            |jj: int, p: ZanaPathView| crate::delta::spec_deltas_i64(p.nodes),
        );
        assert forall|k: int| 0 <= k < paths@.len() implies views_of(rec.paths.dnodes@)[k]
            == dn_target[k] by {
            assert(views_of(rec.paths.dnodes@)[k] == rec.paths.dnodes@[k]@);
            assert(path_views(paths@)[k] == paths@[k]@);
            assert(dn_target[k] == crate::delta::spec_deltas_i64(path_views(paths@)[k].nodes));
        }
        assert(views_of(rec.paths.dnodes@) =~= dn_target);
        assert forall|k: int| 0 <= k < rec.string_table@.len() implies entries_of(
            rec.string_table@,
        )[k] == table_pairs_of(f.0)[k] by {
            assert(entries_of(rec.string_table@)[k] == (
                rec.string_table@[k].0@,
                rec.string_table@[k].1,
            ));
        }
        assert(entries_of(rec.string_table@) =~= table_pairs_of(f.0));
        assert(rec.paths.dids@ =~= Seq::<i64>::empty());
        assert(model_of(rec) =~= target);
    }
    let plain = encode_record(&rec);
    lz4_compress(&plain)
}

/// Path `j` as a freshly-built tile decodes it: the node refs as given,
/// and each tag pair replaced by the two local ids its texts were
/// interned under.
pub open spec fn spec_renumbered_path(
    pviews: Seq<ZanaPathView>,
    lookup: Seq<Seq<char>>,
    j: int,
) -> ZanaPathView {
    let f = spec_flatten_paths(pview_tags(pviews), lookup, Seq::empty());
    ZanaPathView {
        nodes: pviews[j].nodes,
        tags: Seq::new(pviews[j].tags.len(), |l: int| (f.1[j][2 * l], f.1[j][2 * l + 1])),
    }
}

/// What decoding a freshly-built tile must yield: the nodes in order,
/// then each path renumbered into the local table.
pub open spec fn spec_expected_objs(
    nodes: Seq<ZanaNode>,
    pviews: Seq<ZanaPathView>,
    lookup: Seq<Seq<char>>,
) -> Seq<ZanaObjView> {
    nodes.map(|i: int, n: ZanaNode| ZanaObjView::Node(n)) + Seq::new(
        pviews.len(),
        |j: int| ZanaObjView::Path(spec_renumbered_path(pviews, lookup, j)),
    )
}

proof fn lemma_tile_nodes_round(
    nodes: Seq<ZanaNode>,
    pviews: Seq<ZanaPathView>,
    lookup: Seq<Seq<char>>,
)
    requires
        forall|i: int| 0 <= i < nodes.len() ==> (#[trigger] nodes[i]).coords.valid(),
    ensures
        spec_tile_nodes(spec_densify(nodes, pviews, lookup)) == nodes,
        !spec_has_bad_delta(spec_densify(nodes, pviews, lookup)),
{
    let m = spec_densify(nodes, pviews, lookup);
    crate::delta::lemma_delta_round_trip_i64(node_ids_of(nodes));
    crate::delta::lemma_delta_round_trip_i32(node_lats_of(nodes));
    crate::delta::lemma_delta_round_trip_i32(node_lons_of(nodes));
    let n = nodes.len() as int;
    assert(m.dids.len() == n && m.dlats.len() == n && m.dlons.len() == n);
    assert(spec_tile_nodes(m).len() == n);
    assert forall|i: int| 0 <= i < n implies spec_tile_nodes(m)[i] == nodes[i] by {
        assert(node_ids_of(nodes)[i] == nodes[i].id);
        assert(node_lats_of(nodes)[i] == nodes[i].coords.decimicro_lat);
        assert(node_lons_of(nodes)[i] == nodes[i].coords.decimicro_lon);
        assert(crate::delta::spec_undelta_i64(m.dids)[i] == nodes[i].id);
        assert(crate::delta::spec_undelta_i32(m.dlats)[i] == nodes[i].coords.decimicro_lat);
        assert(crate::delta::spec_undelta_i32(m.dlons)[i] == nodes[i].coords.decimicro_lon);
    }
    assert(spec_tile_nodes(m) =~= nodes);
    assert(!spec_has_bad_delta(m)) by {
        if spec_has_bad_delta(m) {
            let bad = choose|k: int|
                0 <= k < spec_tile_nodes(m).len() && !(#[trigger] spec_tile_nodes(
                    m,
                )[k]).coords.valid();
            assert(spec_tile_nodes(m)[bad] == nodes[bad]);
            assert(nodes[bad].coords.valid());
        }
    }
}

proof fn lemma_tile_paths_round(
    nodes: Seq<ZanaNode>,
    pviews: Seq<ZanaPathView>,
    lookup: Seq<Seq<char>>,
)
    requires
        tags_valid(pview_tags(pviews), lookup.len()),
        lookup.len() < u64::MAX,
    ensures
        spec_tile_paths(spec_densify(nodes, pviews, lookup)) == Seq::new(
            pviews.len(),
            |j: int| spec_renumbered_path(pviews, lookup, j),
        ),
{
    let m = spec_densify(nodes, pviews, lookup);
    let ptags = pview_tags(pviews);
    let f = spec_flatten_paths(ptags, lookup, Seq::empty());
    assert(Seq::<Seq<char>>::empty().no_duplicates());
    lemma_flatten_paths_props(ptags, lookup, Seq::empty());
    lemma_flatten_paths_len(ptags, lookup, Seq::empty());
    assert(ptags.len() == pviews.len());
    let groups = spec_split(m.tags);
    assert(m.dnodes.len() == pviews.len());
    if pviews.len() == 0 {
        assert(spec_tile_paths(m).len() == 0);
        assert(spec_tile_paths(m) =~= Seq::new(
            pviews.len(),
            |j: int| spec_renumbered_path(pviews, lookup, j),
        ));
    } else {
        lemma_split_join(f.1);
        assert(groups == f.1);
        assert(spec_tile_paths(m).len() == pviews.len());
        assert forall|j: int| 0 <= j < pviews.len() implies spec_tile_paths(m)[j]
            == spec_renumbered_path(pviews, lookup, j) by {
            assert(m.dnodes[j] == crate::delta::spec_deltas_i64(pviews[j].nodes));
            crate::delta::lemma_delta_round_trip_i64(pviews[j].nodes);
            assert(groups[j] == f.1[j]);
            assert(ptags[j] == pviews[j].tags);
            assert(f.1[j].len() == 2 * pviews[j].tags.len());
            lemma_pairs_of_even(f.1[j]);
            assert(spec_pairs(f.1[j]) =~= Seq::new(
                pviews[j].tags.len(),
                |l: int| (f.1[j][2 * l], f.1[j][2 * l + 1]),
            ));
            assert(spec_tile_paths(m)[j].nodes == spec_renumbered_path(pviews, lookup, j).nodes);
            assert(spec_tile_paths(m)[j].tags == spec_renumbered_path(pviews, lookup, j).tags);
            assert(spec_tile_paths(m)[j] =~= spec_renumbered_path(pviews, lookup, j));
        }
        assert(spec_tile_paths(m) =~= Seq::new(
            pviews.len(),
            |j: int| spec_renumbered_path(pviews, lookup, j),
        ));
    }
}

/// Round-trip law for a whole tile: decoding the record built from
/// well-formed nodes, paths and a lookup table yields exactly those
/// nodes in order, then the paths with their node refs unchanged and
/// their tags renumbered into the fresh local table, together with that
/// table.  [`lemma_flatten_paths_props`] states that each renumbered id
/// resolves in the local table to the same text the global id named.
pub proof fn lemma_tile_round_trip(
    nodes: Seq<ZanaNode>,
    pviews: Seq<ZanaPathView>,
    lookup: Seq<Seq<char>>,
)
    requires
        forall|i: int| 0 <= i < nodes.len() ==> (#[trigger] nodes[i]).coords.valid(),
        tags_valid(pview_tags(pviews), lookup.len()),
        lookup.len() < u64::MAX,
        record_fits(spec_densify(nodes, pviews, lookup)),
    ensures
        spec_read_tile(spec_record_bytes(spec_densify(nodes, pviews, lookup))) == Ok::<
            _,
            DecodeError,
        >(
            (
                table_pairs_of(spec_flatten_paths(pview_tags(pviews), lookup, Seq::empty()).0),
                spec_expected_objs(nodes, pviews, lookup),
            ),
        ),
{
    let m = spec_densify(nodes, pviews, lookup);
    let b = spec_record_bytes(m);
    lemma_parse_record_of(m);
    assert(spec_parse_record(b) == Some(m));
    lemma_tile_nodes_round(nodes, pviews, lookup);
    lemma_tile_paths_round(nodes, pviews, lookup);
    let f = spec_flatten_paths(pview_tags(pviews), lookup, Seq::empty());
    let expected = spec_expected_objs(nodes, pviews, lookup);
    let n = nodes.len() as int;
    assert forall|k: int| 0 <= k < spec_tile_objs(m).len() implies spec_tile_objs(m)[k]
        == expected[k] by {
        if k < n {
            assert(spec_tile_objs(m)[k] == ZanaObjView::Node(spec_tile_nodes(m)[k]));
            assert(expected[k] == ZanaObjView::Node(nodes[k]));
        } else {
            assert(spec_tile_objs(m)[k] == ZanaObjView::Path(spec_tile_paths(m)[k - n]));
            assert(spec_tile_paths(m)[k - n] == Seq::new(
                pviews.len(),
                |j: int| spec_renumbered_path(pviews, lookup, j),
            )[k - n]);
            assert(expected[k] == ZanaObjView::Path(spec_renumbered_path(pviews, lookup, k - n)));
        }
    }
    assert(spec_tile_objs(m).len() == expected.len());
    assert(spec_tile_objs(m) =~= expected);
    assert(m.table == table_pairs_of(f.0));
    assert(spec_read_tile(b) == Ok::<_, DecodeError>((table_pairs_of(f.0), expected)));
}

proof fn lemma_join_elems(gs: Seq<Seq<u64>>)
    ensures
        forall|i: int|
            0 <= i < spec_join(gs).len() ==> #[trigger] spec_join(gs)[i] == 0 || exists|
                j: int,
                l: int,
            | 0 <= j < gs.len() && 0 <= l < gs[j].len() && gs[j][l] == spec_join(gs)[i],
    decreases gs.len(),
{
    if gs.len() == 0 {
    } else if gs.len() == 1 {
        assert forall|i: int| 0 <= i < spec_join(gs).len() implies #[trigger] spec_join(gs)[i] == 0
            || exists|j: int, l: int|
            0 <= j < gs.len() && 0 <= l < gs[j].len() && gs[j][l] == spec_join(gs)[i] by {
            assert(spec_join(gs)[i] == gs[0][i]);
        }
    } else {
        lemma_join_elems(gs.drop_first());
        let g0 = gs.first();
        let rest = spec_join(gs.drop_first());
        assert(spec_join(gs) == g0 + seq![0u64] + rest);
        assert forall|i: int| 0 <= i < spec_join(gs).len() implies #[trigger] spec_join(gs)[i] == 0
            || exists|j: int, l: int|
            0 <= j < gs.len() && 0 <= l < gs[j].len() && gs[j][l] == spec_join(gs)[i] by {
            if i < g0.len() {
                assert(spec_join(gs)[i] == g0[i]);
                assert(gs[0][i] == spec_join(gs)[i]);
            } else if i == g0.len() {
                assert(spec_join(gs)[i] == 0);
            } else {
                let i2 = i - g0.len() - 1;
                assert(spec_join(gs)[i] == rest[i2]);
                if rest[i2] != 0 {
                    let (j, l) = choose|j: int, l: int|
                        0 <= j < gs.drop_first().len() && 0 <= l < gs.drop_first()[j].len()
                            && gs.drop_first()[j][l] == rest[i2];
                    assert(gs[j + 1] == gs.drop_first()[j]);
                    assert(gs[j + 1][l] == spec_join(gs)[i]);
                }
            }
        }
    }
}

/// Local-table soundness law: `0` is never an id in a freshly-built
/// tile's local string table, and every value of the flat tag stream is
/// either the sentinel `0` or an id of at most the table's size.
pub proof fn lemma_tile_tags_sound(
    nodes: Seq<ZanaNode>,
    pviews: Seq<ZanaPathView>,
    lookup: Seq<Seq<char>>,
)
    requires
        tags_valid(pview_tags(pviews), lookup.len()),
        lookup.len() < u64::MAX,
    ensures
        ({
            let m = spec_densify(nodes, pviews, lookup);
            &&& forall|i: int| 0 <= i < m.table.len() ==> (#[trigger] m.table[i]).1 != 0
            &&& forall|i: int|
                0 <= i < m.tags.len() ==> #[trigger] m.tags[i] == 0 || 1 <= m.tags[i]
                    <= m.table.len()
        }),
{
    let m = spec_densify(nodes, pviews, lookup);
    let ptags = pview_tags(pviews);
    let f = spec_flatten_paths(ptags, lookup, Seq::empty());
    assert(Seq::<Seq<char>>::empty().no_duplicates());
    lemma_flatten_paths_props(ptags, lookup, Seq::empty());
    lemma_join_elems(f.1);
    assert(m.table.len() == f.0.len());
    assert forall|i: int| 0 <= i < m.table.len() implies (#[trigger] m.table[i]).1 != 0 by {
        assert(m.table[i].1 == i + 1);
    }
    assert forall|i: int| 0 <= i < m.tags.len() implies #[trigger] m.tags[i] == 0 || 1 <= m.tags[i]
        <= m.table.len() by {
        assert(m.tags == spec_join(f.1));
        if m.tags[i] != 0 {
            let (j, l) = choose|j: int, l: int|
                0 <= j < f.1.len() && 0 <= l < f.1[j].len() && f.1[j][l] == spec_join(f.1)[i];
            assert(1 <= f.1[j][l] <= f.0.len());
        }
    }
}

} // verus!
