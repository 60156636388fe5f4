//! Portable representation of a crossword: the placement records
//! (word symbols, label, anchor, orientation) that are sufficient to
//! reconstruct the grid, together with the verified round trip.

use vstd::prelude::*;
use crate::word::{label_view, clone_label, clone_symbols};
use crate::grid::{
    Crossword, Placement, PlacementV, Orientation, all_sane, consistent, agrees, pv_sane,
    cell_row, cell_col, pv_covers, pv_sym, covers, sym_at, cell_index, lemma_extend_consistent,
};

verus! {

/// One serialized placement: plain values only, sufficient together with
/// the others to rebuild the grid.
#[derive(Debug)]
pub struct PlacementRecord {
    pub symbols: Vec<u8>,
    pub label: Option<String>,
    pub row: i32,
    pub col: i32,
    pub horizontal: bool,
}

impl View for PlacementRecord {
    type V = PlacementV;

    open spec fn view(&self) -> PlacementV {
        PlacementV {
            symbols: self.symbols@,
            label: label_view(self.label),
            row: self.row as int,
            col: self.col as int,
            horizontal: self.horizontal,
        }
    }
}

/// The mathematical values of a record sequence.
pub open spec fn rec_views(rs: Seq<PlacementRecord>) -> Seq<PlacementV> {
    rs.map_values(|r: PlacementRecord| r@)
}

/// An arrangement that `reconstruct` accepts: individually sane
/// placements that agree wherever they overlap.
pub open spec fn reconstructable(ps: Seq<PlacementV>) -> bool {
    &&& all_sane(ps)
    &&& consistent(ps)
}

/// Serializes a crossword into portable placement records whose
/// mathematical values are exactly the crossword's placements.
#[verifier::loop_isolation(false)]
pub fn serialize(cw: &Crossword) -> (recs: Vec<PlacementRecord>)
    ensures
        rec_views(recs@) == cw@,
{
    let mut recs: Vec<PlacementRecord> = Vec::new();
    let mut k: usize = 0;
    while k < cw.placements.len()
        invariant
            k <= cw.placements@.len(),
            recs@.len() == k,
            forall|i: int| 0 <= i < k ==> (#[trigger] recs@[i])@ == cw@[i],
        decreases cw.placements@.len() - k,
    {
        let p = &cw.placements[k];
        assert(p@ == cw@[k as int]);
        recs.push(
            PlacementRecord {
                symbols: clone_symbols(&p.symbols),
                label: clone_label(&p.label),
                row: p.row,
                col: p.col,
                horizontal: matches!(p.orientation, Orientation::Horizontal),
            },
        );
        k += 1;
    }
    assert(rec_views(recs@) =~= cw@);
    recs
}

/// Is this placement individually sane? Exec mirror of `pv_sane`.
fn placement_sane(p: &Placement) -> (r: bool)
    ensures
        r == pv_sane(p@),
{
    let len = p.symbols.len();
    1 <= len && len <= 1024 && -1000000 <= p.row && p.row <= 1000000 && -1000000 <= p.col
        && p.col <= 1000000
}

/// Does candidate `q` agree with everything already rebuilt? Exec mirror
/// of `agrees`.
#[verifier::loop_isolation(false)]
fn check_agrees(cw: &Crossword, q: &Placement) -> (res: bool)
    requires
        all_sane(cw@),
        pv_sane(q@),
    ensures
        res == agrees(cw@, q@),
{
    let qlen = q.symbols.len();
    let mut k: usize = 0;
    while k < qlen
        invariant
            k <= qlen,
            forall|j: int, kk: int|
                0 <= j < cw@.len() && 0 <= kk < k
                    && #[trigger] pv_covers(cw@[j], cell_row(q@, kk), cell_col(q@, kk))
                    ==> pv_sym(cw@[j], cell_row(q@, kk), cell_col(q@, kk)) == q@.symbols[kk],
        decreases qlen - k,
    {
        let r: i32 = match q.orientation {
            Orientation::Horizontal => q.row,
            Orientation::Vertical => q.row + k as i32,
        };
        let c: i32 = match q.orientation {
            Orientation::Horizontal => q.col + k as i32,
            Orientation::Vertical => q.col,
        };
        assert(r as int == cell_row(q@, k as int));
        assert(c as int == cell_col(q@, k as int));
        let mut j: usize = 0;
        while j < cw.placements.len()
            invariant
                j <= cw.placements@.len(),
                forall|jj: int|
                    0 <= jj < j && #[trigger] pv_covers(cw@[jj], r as int, c as int)
                        ==> pv_sym(cw@[jj], r as int, c as int) == q@.symbols[k as int],
            decreases cw.placements@.len() - j,
        {
            let p = &cw.placements[j];
            assert(p@ == cw@[j as int]);
            if covers(p, r, c) {
                if sym_at(p, r, c) != q.symbols[k] {
                    return false;
                }
            }
            j += 1;
        }
        k += 1;
    }
    true
}

/// Rebuilds a crossword from placement records, validating sanity and
/// intersection consistency. Succeeds exactly on reconstructable record
/// sequences, and then returns the arrangement with exactly the records'
/// placements — hence the identical derived grid.
#[verifier::loop_isolation(false)]
pub fn reconstruct(recs: &Vec<PlacementRecord>) -> (out: Option<Crossword>)
    ensures
        out matches Some(cw) ==> cw@ == rec_views(recs@) && reconstructable(rec_views(recs@)),
        out is None ==> !reconstructable(rec_views(recs@)),
{
    let ghost ps = rec_views(recs@);
    let mut cw = Crossword { placements: Vec::new() };
    assert(cw@ =~= Seq::<PlacementV>::empty());
    let mut k: usize = 0;
    while k < recs.len()
        invariant
            k <= recs@.len(),
            cw@ =~= ps.subrange(0, k as int),
            all_sane(cw@),
            consistent(cw@),
        decreases recs@.len() - k,
    {
        let rec = &recs[k];
        assert(rec@ == ps[k as int]);
        let q = Placement {
            symbols: clone_symbols(&rec.symbols),
            label: clone_label(&rec.label),
            row: rec.row,
            col: rec.col,
            orientation: if rec.horizontal {
                Orientation::Horizontal
            } else {
                Orientation::Vertical
            },
        };
        assert(q@ == ps[k as int]);
        if !placement_sane(&q) {
            proof {
                assert(!pv_sane(ps[k as int]));
            }
            return None;
        }
        if !check_agrees(&cw, &q) {
            proof {
                let (j, kk) = choose|j: int, kk: int|
                    0 <= j < cw@.len() && 0 <= kk < q@.symbols.len()
                        && #[trigger] pv_covers(cw@[j], cell_row(q@, kk), cell_col(q@, kk))
                        && pv_sym(cw@[j], cell_row(q@, kk), cell_col(q@, kk)) != q@.symbols[kk];
                let r = cell_row(q@, kk);
                let c = cell_col(q@, kk);
                assert(pv_covers(ps[k as int], r, c));
                assert(pv_sym(ps[k as int], r, c) == q@.symbols[kk]);
                assert(pv_covers(ps[j], r, c));
                assert(!consistent(ps));
            }
            return None;
        }
        let ghost pre_cw = cw@;
        proof {
            lemma_extend_consistent(cw@, q@);
        }
        cw.placements.push(q);
        assert(cw@ =~= pre_cw.push(ps[k as int]));
        assert(cw@ =~= ps.subrange(0, k + 1));
        k += 1;
    }
    assert(cw@ =~= ps);
    Some(cw)
}

/// Consistency is exactly per-placement agreement with the whole
/// arrangement.
pub proof fn lemma_consistent_iff_agrees(ps: Seq<PlacementV>)
    ensures
        consistent(ps) <==> (forall|i: int| 0 <= i < ps.len() ==> agrees(ps, #[trigger] ps[i])),
{
    if consistent(ps) {
        assert forall|i: int| 0 <= i < ps.len() implies agrees(ps, #[trigger] ps[i]) by {
            let q = ps[i];
            assert forall|j: int, k: int|
                0 <= j < ps.len() && 0 <= k < q.symbols.len()
                    && #[trigger] pv_covers(ps[j], cell_row(q, k), cell_col(q, k))
                implies pv_sym(ps[j], cell_row(q, k), cell_col(q, k)) == q.symbols[k] by {
                let r = cell_row(q, k);
                let c = cell_col(q, k);
                assert(pv_covers(q, r, c));
                assert(pv_sym(ps[j], r, c) == pv_sym(ps[i], r, c));
            }
        }
    }
    if forall|i: int| 0 <= i < ps.len() ==> agrees(ps, #[trigger] ps[i]) {
        assert forall|i: int, j: int, r: int, c: int|
            0 <= i < ps.len() && 0 <= j < ps.len()
                && #[trigger] pv_covers(ps[i], r, c) && #[trigger] pv_covers(ps[j], r, c)
            implies pv_sym(ps[i], r, c) == pv_sym(ps[j], r, c) by {
            let q = ps[i];
            let k = cell_index(q, r, c);
            assert(agrees(ps, q));
            assert(cell_row(q, k) == r && cell_col(q, k) == c);
            assert(pv_covers(ps[j], cell_row(q, k), cell_col(q, k)));
            assert(pv_sym(ps[j], r, c) == q.symbols[k]);
            assert(pv_sym(ps[i], r, c) == q.symbols[k]);
        }
    }
}

/// The shape every emitted crossword has, as one spec: reconstructable,
/// supported symbols, anchored at the origin, within the engine's
/// dimension bound.
pub open spec fn emitted_shape(ps: Seq<PlacementV>) -> bool {
    &&& ps.len() > 0
    &&& all_sane(ps)
    &&& crate::grid::all_symbols_ok(ps)
    &&& consistent(ps)
    &&& crate::grid::row_lo(ps) == 0
    &&& crate::grid::col_lo(ps) == 0
    &&& crate::grid::row_hi(ps) < crate::grid::max_dim()
    &&& crate::grid::col_hi(ps) < crate::grid::max_dim()
}

/// Every well-formed result has the emitted shape.
pub proof fn lemma_result_emitted_shape(ps: Seq<PlacementV>, w: int, h: int, req: nat)
    requires
        crate::grid::result_wf(ps, w, h, req),
        1 <= w <= crate::grid::max_dim(),
        1 <= h <= crate::grid::max_dim(),
    ensures
        emitted_shape(ps),
{
}

/// Decides `emitted_shape` for a crossword value, so that an unverified
/// caller can re-establish it before asking for a rendering.
#[verifier::loop_isolation(false)]
pub fn check_emitted_shape(cw: &Crossword) -> (r: bool)
    ensures
        r == emitted_shape(cw@),
{
    if cw.placements.len() == 0 {
        return false;
    }
    let mut k: usize = 0;
    while k < cw.placements.len()
        invariant
            k <= cw@.len(),
            forall|i: int| 0 <= i < k ==> pv_sane(#[trigger] cw@[i]),
            forall|i: int| 0 <= i < k ==> crate::word::symbols_ok((#[trigger] cw@[i]).symbols),
        decreases cw@.len() - k,
    {
        let p = &cw.placements[k];
        assert(p@ == cw@[k as int]);
        if !placement_sane(p) {
            return false;
        }
        let mut t: usize = 0;
        while t < p.symbols.len()
            invariant
                t <= p.symbols@.len(),
                forall|i: int| 0 <= i < t ==> crate::word::symbol_ok(#[trigger] p.symbols@[i]),
            decreases p.symbols@.len() - t,
        {
            if !crate::word::symbol_supported(p.symbols[t]) {
                return false;
            }
            t += 1;
        }
        k += 1;
    }
    let mut j: usize = 0;
    while j < cw.placements.len()
        invariant
            j <= cw@.len(),
            all_sane(cw@),
            forall|i: int| 0 <= i < j ==> agrees(cw@, #[trigger] cw@[i]),
        decreases cw@.len() - j,
    {
        let p = &cw.placements[j];
        assert(p@ == cw@[j as int]);
        if !check_agrees(cw, p) {
            proof {
                lemma_consistent_iff_agrees(cw@);
            }
            return false;
        }
        j += 1;
    }
    proof {
        lemma_consistent_iff_agrees(cw@);
    }
    let (rlo, rhi, clo, chi) = crate::grid::bounding_box(cw);
    rlo == 0 && clo == 0 && rhi < 1024 && chi < 1024
}

/// Does every placement satisfy the individual sanity bounds?
#[verifier::loop_isolation(false)]
pub fn check_all_sane(cw: &Crossword) -> (r: bool)
    ensures
        r == all_sane(cw@),
{
    let mut k: usize = 0;
    while k < cw.placements.len()
        invariant
            k <= cw@.len(),
            forall|i: int| 0 <= i < k ==> pv_sane(#[trigger] cw@[i]),
        decreases cw@.len() - k,
    {
        let p = &cw.placements[k];
        assert(p@ == cw@[k as int]);
        if !placement_sane(p) {
            return false;
        }
        k += 1;
    }
    true
}

/// Renders the dense character preview of a crossword relative to its
/// own bounding box: the arrangement is first translated to the origin,
/// so any consistent arrangement within the dimension bound renders,
/// wherever its coordinates lie. Reports failure instead of panicking.
pub fn try_preview(cw: &Crossword) -> (r: Option<Vec<Vec<char>>>)
    ensures
        r is Some <==> cw@.len() > 0 && all_sane(cw@) && emitted_shape(
            crate::grid::shift(cw@, -crate::grid::row_lo(cw@), -crate::grid::col_lo(cw@)),
        ),
        r matches Some(t) ==> {
            let t0 = crate::grid::shift(
                cw@,
                -crate::grid::row_lo(cw@),
                -crate::grid::col_lo(cw@),
            );
            &&& t@.len() == crate::grid::row_hi(t0) + 1
            &&& forall|i: int|
                0 <= i < t@.len() ==> (#[trigger] t@[i])@.len() == crate::grid::col_hi(t0) + 1
            &&& forall|i: int, c: int|
                0 <= i < t@.len() && 0 <= c < crate::grid::col_hi(t0) + 1
                    ==> (#[trigger] t@[i]@[c]) == if crate::grid::covered(t0, i, c) {
                    crate::grid::grid_at(t0, i, c) as char
                } else {
                    ' '
                }
        },
{
    if cw.placements.len() == 0 {
        return None;
    }
    if !check_all_sane(cw) {
        return None;
    }
    let t = crate::grid::translate_to_origin(cw);
    if check_emitted_shape(&t) {
        Some(crate::grid::preview(&t))
    } else {
        None
    }
}

/// The serialization round trip: every well-formed emitted crossword is
/// reconstructable. With `serialize`'s contract (the records carry
/// exactly the placements) and `reconstruct`'s contract (on
/// reconstructable records it returns exactly those placements), this
/// gives that reconstruction after serialization reproduces the
/// identical placement sequence, and with it the identical derived grid.
pub proof fn lemma_round_trip(ps: Seq<PlacementV>, w: int, h: int, req: nat)
    requires
        crate::grid::result_wf(ps, w, h, req),
    ensures
        reconstructable(ps),
{
}

} // verus!
