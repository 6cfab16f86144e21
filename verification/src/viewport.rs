//! Viewport-driven cell selection.
//!
//! The geometric test — does a cell's hex polygon intersect the
//! viewport's geographic rectangle — is floating-point work done by the
//! caller; the library selects cells from the answers, keeping input
//! order, and plans which visible cells still need drawing.

use vstd::prelude::*;

verus! {

/// The cells whose flag is set, in input order.
pub open spec fn spec_filter_flags(cells: Seq<u64>, keep: Seq<bool>) -> Seq<u64>
    decreases cells.len(),
{
    if cells.len() == 0 {
        Seq::empty()
    } else {
        let prev = spec_filter_flags(cells.drop_last(), keep.drop_last());
        if keep.last() {
            prev.push(cells.last())
        } else {
            prev
        }
    }
}

/// Keep the cells whose intersection flag is set, in input order.
pub fn filter_cells_with_flags(cells: &Vec<u64>, keep: &Vec<bool>) -> (r: Vec<u64>)
    requires
        keep@.len() == cells@.len(),
    ensures
        r@ == spec_filter_flags(cells@, keep@),
{
    let mut r: Vec<u64> = Vec::new();
    let mut i: usize = 0;
    proof {
        assert(cells@.take(0) =~= Seq::<u64>::empty());
        assert(keep@.take(0) =~= Seq::<bool>::empty());
        assert(r@ =~= spec_filter_flags(cells@.take(0), keep@.take(0)));
    }
    while i < cells.len()
        invariant
            i <= cells.len(),
            keep@.len() == cells@.len(),
            r@ == spec_filter_flags(cells@.take(i as int), keep@.take(i as int)),
        decreases cells.len() - i,
    {
        proof {
            assert(cells@.take(i as int + 1).drop_last() =~= cells@.take(i as int));
            assert(keep@.take(i as int + 1).drop_last() =~= keep@.take(i as int));
            assert(cells@.take(i as int + 1).last() == cells@[i as int]);
            assert(keep@.take(i as int + 1).last() == keep@[i as int]);
        }
        if keep[i] {
            r.push(cells[i]);
        }
        i = i + 1;
    }
    proof {
        assert(cells@.take(cells@.len() as int) =~= cells@);
        assert(keep@.take(keep@.len() as int) =~= keep@);
    }
    r
}

/// Every selected cell was flagged, and every flagged cell is selected.
pub proof fn lemma_filter_flags_sound(cells: Seq<u64>, keep: Seq<bool>)
    requires
        keep.len() == cells.len(),
    ensures
        ({
            let r = spec_filter_flags(cells, keep);
            &&& r.len() <= cells.len()
            &&& (forall|k: int| 0 <= k < r.len() ==> cells.contains(#[trigger] r[k]))
            &&& (forall|i: int| 0 <= i < cells.len() && keep[i] ==> r.contains(#[trigger] cells[i]))
        }),
    decreases cells.len(),
{
    if cells.len() > 0 {
        lemma_filter_flags_sound(cells.drop_last(), keep.drop_last());
        let r = spec_filter_flags(cells, keep);
        let prev = spec_filter_flags(cells.drop_last(), keep.drop_last());
        assert forall|k: int| 0 <= k < r.len() implies cells.contains(#[trigger] r[k]) by {
            if k < prev.len() {
                assert(prev[k] == r[k]);
                assert(cells.drop_last().contains(r[k]));
                let w = choose|w: int|
                    0 <= w < cells.drop_last().len() && cells.drop_last()[w] == r[k];
                assert(cells[w] == r[k]);
            } else {
                assert(r[k] == cells.last());
                assert(cells[cells.len() - 1] == r[k]);
            }
        }
        assert forall|i: int| 0 <= i < cells.len() && keep[i] implies r.contains(
            #[trigger] cells[i],
        ) by {
            if i < cells.len() - 1 {
                assert(cells.drop_last()[i] == cells[i]);
                assert(keep.drop_last()[i] == keep[i]);
                assert(prev.contains(cells[i]));
                let w = choose|w: int| 0 <= w < prev.len() && prev[w] == cells[i];
                assert(r[w] == cells[i]);
            } else {
                assert(keep.last());
                assert(r.last() == cells[i]);
            }
        }
    }
}

/// The visible cells that are not yet drawn, in input order.
pub open spec fn spec_undrawn(visible: Seq<u64>, drawn: Seq<u64>) -> Seq<u64>
    decreases visible.len(),
{
    if visible.len() == 0 {
        Seq::empty()
    } else {
        let prev = spec_undrawn(visible.drop_last(), drawn);
        if drawn.contains(visible.last()) {
            prev
        } else {
            prev.push(visible.last())
        }
    }
}

/// Plan which visible cells still need a rendered tile: those not
/// already drawn, in input order.
pub fn cells_to_draw(visible: &Vec<u64>, drawn: &Vec<u64>) -> (r: Vec<u64>)
    ensures
        r@ == spec_undrawn(visible@, drawn@),
{
    let mut r: Vec<u64> = Vec::new();
    let mut i: usize = 0;
    proof {
        assert(visible@.take(0) =~= Seq::<u64>::empty());
        assert(r@ =~= spec_undrawn(visible@.take(0), drawn@));
    }
    while i < visible.len()
        invariant
            i <= visible.len(),
            r@ == spec_undrawn(visible@.take(i as int), drawn@),
        decreases visible.len() - i,
    {
        proof {
            assert(visible@.take(i as int + 1).drop_last() =~= visible@.take(i as int));
            assert(visible@.take(i as int + 1).last() == visible@[i as int]);
        }
        let mut found = false;
        let mut j: usize = 0;
        while j < drawn.len()
            invariant
                j <= drawn.len(),
                i < visible@.len(),
                found <==> exists|k: int| 0 <= k < j && drawn@[k] == visible@[i as int],
            decreases drawn.len() - j,
        {
            if drawn[j] == visible[i] {
                found = true;
            }
            j = j + 1;
        }
        proof {
            if found {
                assert(drawn@.contains(visible@[i as int]));
            } else {
                if drawn@.contains(visible@[i as int]) {
                    let k = choose|k: int| 0 <= k < drawn@.len() && drawn@[k] == visible@[i as int];
                    assert(false);
                }
            }
        }
        if !found {
            r.push(visible[i]);
        }
        i = i + 1;
    }
    proof {
        assert(visible@.take(visible@.len() as int) =~= visible@);
    }
    r
}

/// The drawn cells that are still visible, in input order: the client
/// drops rendered tiles that drifted out of the viewport.
pub open spec fn spec_still_visible(drawn: Seq<u64>, visible: Seq<u64>) -> Seq<u64>
    decreases drawn.len(),
{
    if drawn.len() == 0 {
        Seq::empty()
    } else {
        let prev = spec_still_visible(drawn.drop_last(), visible);
        if visible.contains(drawn.last()) {
            prev.push(drawn.last())
        } else {
            prev
        }
    }
}

/// Keep only the drawn cells that are still visible, in input order.
pub fn retain_visible(drawn: &Vec<u64>, visible: &Vec<u64>) -> (r: Vec<u64>)
    ensures
        r@ == spec_still_visible(drawn@, visible@),
{
    let mut r: Vec<u64> = Vec::new();
    let mut i: usize = 0;
    proof {
        assert(drawn@.take(0) =~= Seq::<u64>::empty());
        assert(r@ =~= spec_still_visible(drawn@.take(0), visible@));
    }
    while i < drawn.len()
        invariant
            i <= drawn.len(),
            r@ == spec_still_visible(drawn@.take(i as int), visible@),
        decreases drawn.len() - i,
    {
        proof {
            assert(drawn@.take(i as int + 1).drop_last() =~= drawn@.take(i as int));
            assert(drawn@.take(i as int + 1).last() == drawn@[i as int]);
        }
        let mut found = false;
        let mut j: usize = 0;
        while j < visible.len()
            invariant
                j <= visible.len(),
                i < drawn@.len(),
                found <==> exists|k: int| 0 <= k < j && visible@[k] == drawn@[i as int],
            decreases visible.len() - j,
        {
            if visible[j] == drawn[i] {
                found = true;
            }
            j = j + 1;
        }
        proof {
            if found {
                assert(visible@.contains(drawn@[i as int]));
            } else {
                if visible@.contains(drawn@[i as int]) {
                    let k = choose|k: int|
                        0 <= k < visible@.len() && visible@[k] == drawn@[i as int];
                    assert(false);
                }
            }
        }
        if found {
            r.push(drawn[i]);
        }
        i = i + 1;
    }
    proof {
        assert(drawn@.take(drawn@.len() as int) =~= drawn@);
    }
    r
}

} // verus!
