//! Crossword model: placements, the derived grid, and its invariants
//! (intersection consistency, connectivity, bounding-box limits).

use vstd::prelude::*;
use crate::word::{label_view, symbols_ok, clone_label, clone_symbols};

verus! {

/// The direction a word is laid out in.
#[derive(Clone, Copy, Debug, PartialEq, Eq, Structural)]
pub enum Orientation {
    Horizontal,
    Vertical,
}

/// A word positioned at an anchor coordinate with an orientation.
#[derive(Debug)]
pub struct Placement {
    pub symbols: Vec<u8>,
    pub label: Option<String>,
    pub row: i32,
    pub col: i32,
    pub orientation: Orientation,
}

/// The mathematical shape of a placement.
#[verifier::ext_equal]
pub struct PlacementV {
    pub symbols: Seq<u8>,
    pub label: Option<Seq<char>>,
    pub row: int,
    pub col: int,
    pub horizontal: bool,
}

impl View for Placement {
    type V = PlacementV;

    open spec fn view(&self) -> PlacementV {
        PlacementV {
            symbols: self.symbols@,
            label: label_view(self.label),
            row: self.row as int,
            col: self.col as int,
            horizontal: self.orientation is Horizontal,
        }
    }
}

/// Does placement `p` cover coordinate `(r, c)`?
pub open spec fn pv_covers(p: PlacementV, r: int, c: int) -> bool {
    if p.horizontal {
        r == p.row && p.col <= c < p.col + p.symbols.len()
    } else {
        c == p.col && p.row <= r < p.row + p.symbols.len()
    }
}

/// The symbol placement `p` puts at coordinate `(r, c)` (meaningful only
/// when `pv_covers(p, r, c)`).
pub open spec fn pv_sym(p: PlacementV, r: int, c: int) -> u8 {
    if p.horizontal {
        p.symbols[c - p.col]
    } else {
        p.symbols[r - p.row]
    }
}

/// A sparse arrangement of placed words; the grid is derived from the
/// placements.
#[derive(Debug)]
pub struct Crossword {
    pub placements: Vec<Placement>,
}

impl View for Crossword {
    type V = Seq<PlacementV>;

    open spec fn view(&self) -> Seq<PlacementV> {
        self.placements@.map_values(|p: Placement| p@)
    }
}

/// Is coordinate `(r, c)` covered by some placement of the arrangement?
pub open spec fn covered(ps: Seq<PlacementV>, r: int, c: int) -> bool {
    exists|i: int| 0 <= i < ps.len() && pv_covers(#[trigger] ps[i], r, c)
}

/// Is coordinate `(r, c)` covered by one of the first `n` placements?
pub open spec fn covered_by_prefix(ps: Seq<PlacementV>, n: int, r: int, c: int) -> bool {
    exists|i: int| 0 <= i < n && i < ps.len() && pv_covers(#[trigger] ps[i], r, c)
}

/// The symbol the grid holds at a covered coordinate: the symbol of an
/// arbitrary covering placement. Under `consistent` all covering
/// placements agree, so this is the unique grid symbol.
pub open spec fn grid_at(ps: Seq<PlacementV>, r: int, c: int) -> u8 {
    let i = choose|i: int| 0 <= i < ps.len() && pv_covers(#[trigger] ps[i], r, c);
    pv_sym(ps[i], r, c)
}

/// Intersection consistency: any two placements that cover the same
/// coordinate agree on the symbol there.
pub open spec fn consistent(ps: Seq<PlacementV>) -> bool {
    forall|i: int, j: int, r: int, c: int|
        0 <= i < ps.len() && 0 <= j < ps.len()
            && #[trigger] pv_covers(ps[i], r, c) && #[trigger] pv_covers(ps[j], r, c)
            ==> pv_sym(ps[i], r, c) == pv_sym(ps[j], r, c)
}

/// The row of the `k`-th cell of placement `p`.
pub open spec fn cell_row(p: PlacementV, k: int) -> int {
    if p.horizontal { p.row } else { p.row + k }
}

/// The column of the `k`-th cell of placement `p`.
pub open spec fn cell_col(p: PlacementV, k: int) -> int {
    if p.horizontal { p.col + k } else { p.col }
}

/// Number of cells among the first `k` cells of placement `p` that are
/// already covered by the first `n` placements of `ps` (the crossings the
/// placement makes with the earlier set).
pub open spec fn cross_count(ps: Seq<PlacementV>, n: int, p: PlacementV, k: nat) -> nat
    decreases k,
{
    if k == 0 {
        0
    } else {
        cross_count(ps, n, p, (k - 1) as nat) + if covered_by_prefix(
            ps,
            n,
            cell_row(p, k - 1),
            cell_col(p, k - 1),
        ) {
            1nat
        } else {
            0nat
        }
    }
}

/// How many crossings each placement after the first must make with the
/// already-placed set: none when isolated words are allowed, otherwise at
/// least one and at least the configured minimum.
pub open spec fn required_crossings(min_inter: nat, allow_isolated: bool) -> nat {
    if allow_isolated {
        0
    } else if min_inter < 1 {
        1
    } else {
        min_inter
    }
}

/// Connectivity: every placement except the first makes at least the
/// required number of crossings with the placements before it.
pub open spec fn linked(ps: Seq<PlacementV>, req: nat) -> bool {
    forall|i: int| 1 <= i < ps.len()
        ==> cross_count(ps, i, #[trigger] ps[i], ps[i].symbols.len()) >= req
}

/// The last row a placement touches.
pub open spec fn pv_row_end(p: PlacementV) -> int {
    if p.horizontal { p.row } else { p.row + p.symbols.len() - 1 }
}

/// The last column a placement touches.
pub open spec fn pv_col_end(p: PlacementV) -> int {
    if p.horizontal { p.col + p.symbols.len() - 1 } else { p.col }
}

/// Minimum anchor row over a non-empty arrangement.
pub open spec fn row_lo(ps: Seq<PlacementV>) -> int
    decreases ps.len(),
{
    if ps.len() <= 1 {
        ps[0].row
    } else {
        let rest = row_lo(ps.drop_last());
        if ps.last().row < rest { ps.last().row } else { rest }
    }
}

/// Minimum anchor column over a non-empty arrangement.
pub open spec fn col_lo(ps: Seq<PlacementV>) -> int
    decreases ps.len(),
{
    if ps.len() <= 1 {
        ps[0].col
    } else {
        let rest = col_lo(ps.drop_last());
        if ps.last().col < rest { ps.last().col } else { rest }
    }
}

/// Maximum touched row over a non-empty arrangement.
pub open spec fn row_hi(ps: Seq<PlacementV>) -> int
    decreases ps.len(),
{
    if ps.len() <= 1 {
        pv_row_end(ps[0])
    } else {
        let rest = row_hi(ps.drop_last());
        if pv_row_end(ps.last()) > rest { pv_row_end(ps.last()) } else { rest }
    }
}

/// Maximum touched column over a non-empty arrangement.
pub open spec fn col_hi(ps: Seq<PlacementV>) -> int
    decreases ps.len(),
{
    if ps.len() <= 1 {
        pv_col_end(ps[0])
    } else {
        let rest = col_hi(ps.drop_last());
        if pv_col_end(ps.last()) > rest { pv_col_end(ps.last()) } else { rest }
    }
}

/// The bounding box stays within the configured limits.
pub open spec fn within_limits(ps: Seq<PlacementV>, w: int, h: int) -> bool {
    ps.len() > 0 ==> {
        &&& col_hi(ps) - col_lo(ps) + 1 <= w
        &&& row_hi(ps) - row_lo(ps) + 1 <= h
    }
}

/// The largest grid dimension the engine accepts: keeps every coordinate
/// and every rendered table comfortably within machine integer ranges.
pub open spec fn max_dim() -> int {
    1024
}

/// Coordinate sanity bound on anchors the engine will consider.
pub open spec fn coord_limit() -> int {
    1000000
}

/// One placement is individually sane: non-empty, not longer than the
/// largest grid dimension, anchor within the coordinate sanity bound.
pub open spec fn pv_sane(p: PlacementV) -> bool {
    &&& 1 <= p.symbols.len() <= max_dim()
    &&& -coord_limit() <= p.row <= coord_limit()
    &&& -coord_limit() <= p.col <= coord_limit()
}

pub open spec fn all_sane(ps: Seq<PlacementV>) -> bool {
    forall|i: int| 0 <= i < ps.len() ==> pv_sane(#[trigger] ps[i])
}

/// Every placed symbol lies in the supported alphabet.
pub open spec fn all_symbols_ok(ps: Seq<PlacementV>) -> bool {
    forall|i: int| 0 <= i < ps.len() ==> symbols_ok((#[trigger] ps[i]).symbols)
}

/// How many cells of placement `p` are not already covered by the given
/// prefix arrangement: the fresh cells it contributes to the grid.
pub open spec fn fresh_cells(prefix: Seq<PlacementV>, p: PlacementV) -> nat {
    (p.symbols.len() - cross_count(prefix, prefix.len() as int, p, p.symbols.len())) as nat
}

/// The quality score of an arrangement: the number of distinct covered
/// coordinates, an ordinal derived from the laid-down symbols. It grows
/// as words are added, which makes a partial arrangement's score an
/// admissible optimistic bound for every completion reachable from it,
/// and it discriminates between complete arrangements: the more the
/// words overlap, the smaller the grid and the earlier the emission.
pub open spec fn score_of(ps: Seq<PlacementV>) -> nat
    decreases ps.len(),
{
    if ps.len() == 0 {
        0
    } else {
        score_of(ps.drop_last()) + fresh_cells(ps.drop_last(), ps.last())
    }
}

/// A placement makes no more crossings with a prefix than it has cells.
pub proof fn lemma_cross_count_le(ps: Seq<PlacementV>, n: int, p: PlacementV, k: nat)
    ensures
        cross_count(ps, n, p, k) <= k,
    decreases k,
{
    if k > 0 {
        lemma_cross_count_le(ps, n, p, (k - 1) as nat);
    }
}

/// Everything an emitted crossword guarantees: a sane, consistent,
/// connected (per the policy) arrangement whose bounding box is anchored
/// at the origin and within the configured limits.
pub open spec fn result_wf(ps: Seq<PlacementV>, w: int, h: int, req: nat) -> bool {
    &&& ps.len() > 0
    &&& all_sane(ps)
    &&& all_symbols_ok(ps)
    &&& consistent(ps)
    &&& linked(ps, req)
    &&& within_limits(ps, w, h)
    &&& row_lo(ps) == 0
    &&& col_lo(ps) == 0
}

/// Candidate placement `q` agrees with every placement of `ps` on every
/// coordinate they share: no symbol conflict anywhere.
pub open spec fn agrees(ps: Seq<PlacementV>, q: PlacementV) -> bool {
    forall|j: int, k: int|
        0 <= j < ps.len() && 0 <= k < q.symbols.len()
            && #[trigger] pv_covers(ps[j], cell_row(q, k), cell_col(q, k))
            ==> pv_sym(ps[j], cell_row(q, k), cell_col(q, k)) == q.symbols[k]
}

/// The engine's notion of a legal extension of a partial arrangement:
/// the candidate is non-empty and within sanity bounds, conflicts with
/// nothing, is the origin-anchored horizontal seed when the arrangement
/// is empty and makes the required crossings otherwise, and keeps the
/// bounding box within the configured limits.
pub open spec fn extend_ok(ps: Seq<PlacementV>, q: PlacementV, w: int, h: int, req: nat) -> bool {
    &&& 1 <= q.symbols.len() <= max_dim()
    &&& -coord_limit() <= q.row <= coord_limit()
    &&& -coord_limit() <= q.col <= coord_limit()
    &&& agrees(ps, q)
    &&& if ps.len() == 0 {
        q.row == 0 && q.col == 0 && q.horizontal
    } else {
        cross_count(ps, ps.len() as int, q, q.symbols.len()) >= req
    }
    &&& within_limits(ps.push(q), w, h)
}

/// Does placement `p` cover `(r, c)`? Exec mirror of `pv_covers`.
pub fn covers(p: &Placement, r: i32, c: i32) -> (res: bool)
    requires
        pv_sane(p@),
    ensures
        res == pv_covers(p@, r as int, c as int),
{
    let len = p.symbols.len() as i64;
    match p.orientation {
        Orientation::Horizontal => r == p.row && p.col <= c && (c as i64) - (p.col as i64) < len,
        Orientation::Vertical => c == p.col && p.row <= r && (r as i64) - (p.row as i64) < len,
    }
}

/// The symbol `p` puts at a coordinate it covers. Exec mirror of `pv_sym`.
pub fn sym_at(p: &Placement, r: i32, c: i32) -> (res: u8)
    requires
        pv_sane(p@),
        pv_covers(p@, r as int, c as int),
    ensures
        res == pv_sym(p@, r as int, c as int),
{
    match p.orientation {
        Orientation::Horizontal => p.symbols[(c - p.col) as usize],
        Orientation::Vertical => p.symbols[(r - p.row) as usize],
    }
}

/// The bounding box of a non-empty arrangement:
/// `(row_lo, row_hi, col_lo, col_hi)`, all touched coordinates inclusive.
#[verifier::loop_isolation(false)]
pub fn bounding_box(cw: &Crossword) -> (b: (i32, i32, i32, i32))
    requires
        cw.placements.len() > 0,
        all_sane(cw@),
    ensures
        b.0 == row_lo(cw@),
        b.1 == row_hi(cw@),
        b.2 == col_lo(cw@),
        b.3 == col_hi(cw@),
{
    let p0 = &cw.placements[0];
    assert(p0@ == cw@[0]);
    let mut rlo: i32 = p0.row;
    let mut rhi: i32 = row_end(p0);
    let mut clo: i32 = p0.col;
    let mut chi: i32 = col_end(p0);
    let mut k: usize = 1;
    while k < cw.placements.len()
        invariant
            1 <= k <= cw.placements.len(),
            rlo == row_lo(cw@.subrange(0, k as int)),
            rhi == row_hi(cw@.subrange(0, k as int)),
            clo == col_lo(cw@.subrange(0, k as int)),
            chi == col_hi(cw@.subrange(0, k as int)),
        decreases cw.placements.len() - k,
    {
        let p = &cw.placements[k];
        assert(pv_sane(cw@[k as int]));
        proof {
            assert(cw@.subrange(0, k + 1).drop_last() =~= cw@.subrange(0, k as int));
            assert(cw@.subrange(0, k + 1).last() == cw@[k as int]);
        }
        if p.row < rlo {
            rlo = p.row;
        }
        let re = row_end(p);
        if re > rhi {
            rhi = re;
        }
        if p.col < clo {
            clo = p.col;
        }
        let ce = col_end(p);
        if ce > chi {
            chi = ce;
        }
        k += 1;
    }
    proof {
        assert(cw@.subrange(0, cw@.len() as int) =~= cw@);
    }
    (rlo, rhi, clo, chi)
}

/// The last row placement `p` touches. Exec mirror of `pv_row_end`.
pub fn row_end(p: &Placement) -> (r: i32)
    requires
        pv_sane(p@),
    ensures
        r == pv_row_end(p@),
{
    match p.orientation {
        Orientation::Horizontal => p.row,
        Orientation::Vertical => p.row + p.symbols.len() as i32 - 1,
    }
}

/// The last column placement `p` touches. Exec mirror of `pv_col_end`.
pub fn col_end(p: &Placement) -> (r: i32)
    requires
        pv_sane(p@),
    ensures
        r == pv_col_end(p@),
{
    match p.orientation {
        Orientation::Horizontal => p.col + p.symbols.len() as i32 - 1,
        Orientation::Vertical => p.col,
    }
}

/// The box bounds of an arrangement extended by one placement.
pub proof fn lemma_box_push(ps: Seq<PlacementV>, q: PlacementV)
    ensures
        ps.len() == 0 ==> row_lo(ps.push(q)) == q.row && row_hi(ps.push(q)) == pv_row_end(q)
            && col_lo(ps.push(q)) == q.col && col_hi(ps.push(q)) == pv_col_end(q),
        ps.len() > 0 ==> {
            &&& row_lo(ps.push(q)) == if q.row < row_lo(ps) { q.row } else { row_lo(ps) }
            &&& row_hi(ps.push(q)) == if pv_row_end(q) > row_hi(ps) { pv_row_end(q) } else {
                row_hi(ps)
            }
            &&& col_lo(ps.push(q)) == if q.col < col_lo(ps) { q.col } else { col_lo(ps) }
            &&& col_hi(ps.push(q)) == if pv_col_end(q) > col_hi(ps) { pv_col_end(q) } else {
                col_hi(ps)
            }
        },
{
    assert(ps.push(q).drop_last() =~= ps);
    assert(ps.push(q).last() == q);
}

/// Checks whether `q` is a legal extension of the arrangement.
/// Decides `extend_ok` exactly.
#[verifier::loop_isolation(false)]
pub fn can_extend(cw: &Crossword, q: &Placement, w: usize, h: usize, req: usize) -> (res: bool)
    requires
        all_sane(cw@),
        1 <= w <= max_dim(),
        1 <= h <= max_dim(),
    ensures
        res == extend_ok(cw@, q@, w as int, h as int, req as nat),
{
    let qlen = q.symbols.len();
    if qlen < 1 || qlen > 1024 {
        return false;
    }
    if q.row < -1000000 || q.row > 1000000 || q.col < -1000000 || q.col > 1000000 {
        return false;
    }
    if cw.placements.len() == 0 {
        if !(q.row == 0 && q.col == 0 && matches!(q.orientation, Orientation::Horizontal)) {
            return false;
        }
    }
    let n = cw.placements.len();
    let mut crossings: usize = 0;
    let mut k: usize = 0;
    while k < qlen
        invariant
            k <= qlen,
            crossings == cross_count(cw@, n as int, q@, k as nat),
            crossings <= k,
            forall|j: int, kk: int|
                0 <= j < n && 0 <= kk < k
                    && #[trigger] pv_covers(cw@[j], cell_row(q@, kk), cell_col(q@, kk))
                    ==> pv_sym(cw@[j], cell_row(q@, kk), cell_col(q@, kk)) == q@.symbols[kk],
        decreases qlen - k,
    {
        let r: i32 = match q.orientation {
            Orientation::Horizontal => q.row,
            Orientation::Vertical => q.row + k as i32,
        };
        let c: i32 = match q.orientation {
            Orientation::Horizontal => q.col + k as i32,
            Orientation::Vertical => q.col,
        };
        assert(r as int == cell_row(q@, k as int));
        assert(c as int == cell_col(q@, k as int));
        let mut hit = false;
        let mut j: usize = 0;
        while j < n
            invariant
                j <= n,
                hit == covered_by_prefix(cw@, j as int, r as int, c as int),
                forall|jj: int|
                    0 <= jj < j && #[trigger] pv_covers(cw@[jj], r as int, c as int)
                        ==> pv_sym(cw@[jj], r as int, c as int) == q@.symbols[k as int],
            decreases n - j,
        {
            let p = &cw.placements[j];
            assert(p@ == cw@[j as int]);
            if covers(p, r, c) {
                if sym_at(p, r, c) != q.symbols[k] {
                    return false;
                }
                hit = true;
            }
            j += 1;
        }
        if hit {
            crossings += 1;
        }
        k += 1;
    }
    assert(agrees(cw@, q@));
    if n > 0 && crossings < req {
        return false;
    }
    proof {
        lemma_box_push(cw@, q@);
    }
    if n == 0 {
        let width = qlen as i64;
        let height = 1i64;
        let (bw, bh) = match q.orientation {
            Orientation::Horizontal => (width, height),
            Orientation::Vertical => (height, width),
        };
        bw <= w as i64 && bh <= h as i64
    } else {
        let (rlo, rhi, clo, chi) = bounding_box(cw);
        let qre = row_end(q);
        let qce = col_end(q);
        let nrlo: i64 = if q.row < rlo { q.row as i64 } else { rlo as i64 };
        let nrhi: i64 = if qre > rhi { qre as i64 } else { rhi as i64 };
        let nclo: i64 = if q.col < clo { q.col as i64 } else { clo as i64 };
        let nchi: i64 = if qce > chi { qce as i64 } else { chi as i64 };
        nchi - nclo + 1 <= w as i64 && nrhi - nrlo + 1 <= h as i64
    }
}

/// Counts the crossings a candidate placement makes with the
/// arrangement: its cells that the grid already covers.
#[verifier::loop_isolation(false)]
pub fn count_crossings(cw: &Crossword, q: &Placement) -> (n: usize)
    requires
        all_sane(cw@),
        pv_sane(q@),
    ensures
        n == cross_count(cw@, cw@.len() as int, q@, q@.symbols.len()),
        n <= q@.symbols.len(),
{
    let qlen = q.symbols.len();
    let mut n: usize = 0;
    let mut k: usize = 0;
    while k < qlen
        invariant
            k <= qlen,
            n <= k,
            n == cross_count(cw@, cw@.len() as int, q@, k as nat),
        decreases qlen - k,
    {
        let r: i32 = match q.orientation {
            Orientation::Horizontal => q.row,
            Orientation::Vertical => q.row + k as i32,
        };
        let c: i32 = match q.orientation {
            Orientation::Horizontal => q.col + k as i32,
            Orientation::Vertical => q.col,
        };
        assert(r as int == cell_row(q@, k as int));
        assert(c as int == cell_col(q@, k as int));
        let mut hit = false;
        let mut j: usize = 0;
        while j < cw.placements.len()
            invariant
                j <= cw.placements@.len(),
                hit == covered_by_prefix(cw@, j as int, r as int, c as int),
            decreases cw.placements@.len() - j,
        {
            let p = &cw.placements[j];
            assert(p@ == cw@[j as int]);
            if covers(p, r, c) {
                hit = true;
            }
            j += 1;
        }
        if hit {
            n += 1;
        }
        k += 1;
    }
    n
}

/// The index of the cell of `q` that sits at a coordinate `q` covers.
pub open spec fn cell_index(q: PlacementV, r: int, c: int) -> int {
    if q.horizontal { c - q.col } else { r - q.row }
}

/// A legal extension keeps the arrangement consistent.
pub proof fn lemma_extend_consistent(ps: Seq<PlacementV>, q: PlacementV)
    requires
        consistent(ps),
        agrees(ps, q),
    ensures
        consistent(ps.push(q)),
{
    let t = ps.push(q);
    assert forall|i: int, j: int, r: int, c: int|
        0 <= i < t.len() && 0 <= j < t.len()
            && #[trigger] pv_covers(t[i], r, c) && #[trigger] pv_covers(t[j], r, c)
        implies pv_sym(t[i], r, c) == pv_sym(t[j], r, c) by {
        let n = ps.len() as int;
        if i < n && j < n {
            assert(pv_sym(ps[i], r, c) == pv_sym(ps[j], r, c));
        } else {
            if i == n || j == n {
                let k = cell_index(q, r, c);
                assert(0 <= k < q.symbols.len());
                assert(cell_row(q, k) == r && cell_col(q, k) == c);
                assert(pv_sym(q, r, c) == q.symbols[k]);
                if i < n {
                    assert(pv_covers(ps[i], cell_row(q, k), cell_col(q, k)));
                    assert(pv_sym(ps[i], r, c) == q.symbols[k]);
                }
                if j < n {
                    assert(pv_covers(ps[j], cell_row(q, k), cell_col(q, k)));
                    assert(pv_sym(ps[j], r, c) == q.symbols[k]);
                }
            }
        }
    }
}

/// Coverage by a prefix is unchanged when a later placement is appended.
pub proof fn lemma_prefix_push(ps: Seq<PlacementV>, q: PlacementV, n: int, r: int, c: int)
    requires
        n <= ps.len(),
    ensures
        covered_by_prefix(ps.push(q), n, r, c) == covered_by_prefix(ps, n, r, c),
{
    if covered_by_prefix(ps.push(q), n, r, c) {
        let i = choose|i: int|
            0 <= i < n && i < ps.push(q).len() && pv_covers(#[trigger] ps.push(q)[i], r, c);
        assert(pv_covers(ps[i], r, c));
    }
    if covered_by_prefix(ps, n, r, c) {
        let i = choose|i: int| 0 <= i < n && i < ps.len() && pv_covers(#[trigger] ps[i], r, c);
        assert(pv_covers(ps.push(q)[i], r, c));
    }
}

/// Crossing counts against a prefix are unchanged when a later placement
/// is appended.
pub proof fn lemma_cross_count_push(
    ps: Seq<PlacementV>,
    q: PlacementV,
    n: int,
    p: PlacementV,
    k: nat,
)
    requires
        n <= ps.len(),
    ensures
        cross_count(ps.push(q), n, p, k) == cross_count(ps, n, p, k),
    decreases k,
{
    if k > 0 {
        lemma_cross_count_push(ps, q, n, p, (k - 1) as nat);
        lemma_prefix_push(ps, q, n, cell_row(p, k - 1), cell_col(p, k - 1));
    }
}

/// A legal extension keeps the arrangement connected.
pub proof fn lemma_extend_linked(ps: Seq<PlacementV>, q: PlacementV, req: nat)
    requires
        linked(ps, req),
        ps.len() > 0 ==> cross_count(ps, ps.len() as int, q, q.symbols.len()) >= req,
    ensures
        linked(ps.push(q), req),
{
    let t = ps.push(q);
    let n = ps.len() as int;
    assert forall|i: int| 1 <= i < t.len()
        implies cross_count(t, i, #[trigger] t[i], t[i].symbols.len()) >= req by {
        if i < n {
            lemma_cross_count_push(ps, q, i, ps[i], ps[i].symbols.len());
            assert(cross_count(ps, i, ps[i], ps[i].symbols.len()) >= req);
        } else {
            lemma_cross_count_push(ps, q, n, q, q.symbols.len());
        }
    }
}

/// Appending a placement adds its fresh cells to the score.
pub proof fn lemma_score_push(ps: Seq<PlacementV>, q: PlacementV)
    ensures
        score_of(ps.push(q)) == score_of(ps) + fresh_cells(ps, q),
{
    assert(ps.push(q).drop_last() =~= ps);
    assert(ps.push(q).last() == q);
}

/// Every placement of a non-empty arrangement lies within its bounding
/// box.
pub proof fn lemma_box_bounds(ps: Seq<PlacementV>, i: int)
    requires
        0 <= i < ps.len(),
    ensures
        row_lo(ps) <= ps[i].row,
        pv_row_end(ps[i]) <= row_hi(ps),
        col_lo(ps) <= ps[i].col,
        pv_col_end(ps[i]) <= col_hi(ps),
    decreases ps.len(),
{
    if ps.len() > 1 && i < ps.len() - 1 {
        lemma_box_bounds(ps.drop_last(), i);
        assert(ps.drop_last()[i] == ps[i]);
    }
}

/// The bounding box of a sane arrangement stays within the coordinate
/// sanity bounds.
pub proof fn lemma_box_sane(ps: Seq<PlacementV>)
    requires
        ps.len() > 0,
        all_sane(ps),
    ensures
        -coord_limit() <= row_lo(ps) <= coord_limit(),
        -coord_limit() <= col_lo(ps) <= coord_limit(),
        -coord_limit() <= row_hi(ps) <= coord_limit() + max_dim(),
        -coord_limit() <= col_hi(ps) <= coord_limit() + max_dim(),
    decreases ps.len(),
{
    assert(pv_sane(ps[0]));
    assert(pv_sane(ps[ps.len() - 1]));
    if ps.len() > 1 {
        assert(all_sane(ps.drop_last())) by {
            assert(forall|i: int|
                0 <= i < ps.drop_last().len() ==> #[trigger] ps.drop_last()[i] == ps[i]);
        }
        lemma_box_sane(ps.drop_last());
    }
}

/// A placement shifted by a fixed offset.
pub open spec fn pv_shift(p: PlacementV, dr: int, dc: int) -> PlacementV {
    PlacementV {
        symbols: p.symbols,
        label: p.label,
        row: p.row + dr,
        col: p.col + dc,
        horizontal: p.horizontal,
    }
}

/// A whole arrangement shifted by a fixed offset: a pure translation.
pub open spec fn shift(ps: Seq<PlacementV>, dr: int, dc: int) -> Seq<PlacementV> {
    ps.map_values(|p: PlacementV| pv_shift(p, dr, dc))
}

/// Coverage commutes with translation.
pub proof fn lemma_shift_covers(p: PlacementV, dr: int, dc: int, r: int, c: int)
    ensures
        pv_covers(pv_shift(p, dr, dc), r, c) == pv_covers(p, r - dr, c - dc),
        pv_covers(p, r - dr, c - dc) ==> pv_sym(pv_shift(p, dr, dc), r, c) == pv_sym(
            p,
            r - dr,
            c - dc,
        ),
{
}

/// Prefix coverage commutes with translation.
pub proof fn lemma_shift_prefix(ps: Seq<PlacementV>, dr: int, dc: int, n: int, r: int, c: int)
    ensures
        covered_by_prefix(shift(ps, dr, dc), n, r, c) == covered_by_prefix(ps, n, r - dr, c - dc),
{
    let t = shift(ps, dr, dc);
    if covered_by_prefix(t, n, r, c) {
        let i = choose|i: int| 0 <= i < n && i < t.len() && pv_covers(#[trigger] t[i], r, c);
        lemma_shift_covers(ps[i], dr, dc, r, c);
        assert(pv_covers(ps[i], r - dr, c - dc));
    }
    if covered_by_prefix(ps, n, r - dr, c - dc) {
        let i = choose|i: int|
            0 <= i < n && i < ps.len() && pv_covers(#[trigger] ps[i], r - dr, c - dc);
        lemma_shift_covers(ps[i], dr, dc, r, c);
        assert(pv_covers(t[i], r, c));
    }
}

/// Crossing counts commute with translation.
pub proof fn lemma_shift_cross_count(
    ps: Seq<PlacementV>,
    dr: int,
    dc: int,
    n: int,
    p: PlacementV,
    k: nat,
)
    ensures
        cross_count(shift(ps, dr, dc), n, pv_shift(p, dr, dc), k) == cross_count(ps, n, p, k),
    decreases k,
{
    if k > 0 {
        lemma_shift_cross_count(ps, dr, dc, n, p, (k - 1) as nat);
        assert(cell_row(pv_shift(p, dr, dc), k - 1) == cell_row(p, k - 1) + dr);
        assert(cell_col(pv_shift(p, dr, dc), k - 1) == cell_col(p, k - 1) + dc);
        lemma_shift_prefix(ps, dr, dc, n, cell_row(p, k - 1) + dr, cell_col(p, k - 1) + dc);
    }
}

/// The bounding box, score, consistency and connectivity of an
/// arrangement all commute with translation.
pub proof fn lemma_shift_props(ps: Seq<PlacementV>, dr: int, dc: int, req: nat)
    ensures
        ps.len() > 0 ==> row_lo(shift(ps, dr, dc)) == row_lo(ps) + dr,
        ps.len() > 0 ==> row_hi(shift(ps, dr, dc)) == row_hi(ps) + dr,
        ps.len() > 0 ==> col_lo(shift(ps, dr, dc)) == col_lo(ps) + dc,
        ps.len() > 0 ==> col_hi(shift(ps, dr, dc)) == col_hi(ps) + dc,
        score_of(shift(ps, dr, dc)) == score_of(ps),
        consistent(ps) ==> consistent(shift(ps, dr, dc)),
        linked(ps, req) ==> linked(shift(ps, dr, dc), req),
        all_symbols_ok(ps) ==> all_symbols_ok(shift(ps, dr, dc)),
    decreases ps.len(),
{
    let t = shift(ps, dr, dc);
    if ps.len() > 0 {
        assert(t.drop_last() =~= shift(ps.drop_last(), dr, dc));
        lemma_shift_props(ps.drop_last(), dr, dc, req);
        assert(t.last() == pv_shift(ps.last(), dr, dc));
        lemma_shift_cross_count(
            ps.drop_last(),
            dr,
            dc,
            ps.drop_last().len() as int,
            ps.last(),
            ps.last().symbols.len(),
        );
        assert(fresh_cells(t.drop_last(), t.last()) == fresh_cells(ps.drop_last(), ps.last()));
    }
    if consistent(ps) {
        assert forall|i: int, j: int, r: int, c: int|
            0 <= i < t.len() && 0 <= j < t.len()
                && #[trigger] pv_covers(t[i], r, c) && #[trigger] pv_covers(t[j], r, c)
            implies pv_sym(t[i], r, c) == pv_sym(t[j], r, c) by {
            lemma_shift_covers(ps[i], dr, dc, r, c);
            lemma_shift_covers(ps[j], dr, dc, r, c);
            assert(pv_covers(ps[i], r - dr, c - dc) && pv_covers(ps[j], r - dr, c - dc));
            assert(pv_sym(ps[i], r - dr, c - dc) == pv_sym(ps[j], r - dr, c - dc));
        }
    }
    if linked(ps, req) {
        assert forall|i: int| 1 <= i < t.len()
            implies cross_count(t, i, #[trigger] t[i], t[i].symbols.len()) >= req by {
            assert(t[i] == pv_shift(ps[i], dr, dc));
            lemma_shift_cross_count(ps, dr, dc, i, ps[i], ps[i].symbols.len());
            assert(cross_count(ps, i, ps[i], ps[i].symbols.len()) >= req);
        }
    }
    if all_symbols_ok(ps) {
        assert forall|i: int| 0 <= i < t.len() implies symbols_ok((#[trigger] t[i]).symbols) by {
            assert(t[i] == pv_shift(ps[i], dr, dc));
            assert(symbols_ok(ps[i].symbols));
        }
    }
}

/// Translates an arrangement so that its bounding box starts at the
/// origin. Emission canonicalization: pure translations of one another
/// become identical.
#[verifier::loop_isolation(false)]
pub fn translate_to_origin(cw: &Crossword) -> (r: Crossword)
    requires
        cw.placements.len() > 0,
        all_sane(cw@),
    ensures
        r@ == shift(cw@, -row_lo(cw@), -col_lo(cw@)),
{
    proof {
        lemma_box_sane(cw@);
    }
    let (rlo, _rhi, clo, _chi) = bounding_box(cw);
    let mut out: Vec<Placement> = Vec::new();
    let mut k: usize = 0;
    while k < cw.placements.len()
        invariant
            k <= cw.placements.len(),
            out@.len() == k,
            forall|i: int|
                0 <= i < k ==> (#[trigger] out@[i])@ == pv_shift(
                    cw@[i],
                    -row_lo(cw@),
                    -col_lo(cw@),
                ),
        decreases cw.placements.len() - k,
    {
        let p = &cw.placements[k];
        assert(p@ == cw@[k as int]);
        out.push(
            Placement {
                symbols: clone_symbols(&p.symbols),
                label: clone_label(&p.label),
                row: p.row - rlo,
                col: p.col - clo,
                orientation: p.orientation,
            },
        );
        k += 1;
    }
    let r = Crossword { placements: out };
    assert(r@ =~= shift(cw@, -row_lo(cw@), -col_lo(cw@)));
    r
}

/// A complete, in-limits partial arrangement becomes a well-formed
/// emitted result once translated to the origin.
pub proof fn lemma_translate_result(ps: Seq<PlacementV>, w: int, h: int, req: nat)
    requires
        ps.len() > 0,
        all_sane(ps),
        all_symbols_ok(ps),
        consistent(ps),
        linked(ps, req),
        within_limits(ps, w, h),
        1 <= w <= max_dim(),
        1 <= h <= max_dim(),
    ensures
        result_wf(shift(ps, -row_lo(ps), -col_lo(ps)), w, h, req),
        score_of(shift(ps, -row_lo(ps), -col_lo(ps))) == score_of(ps),
{
    let dr = -row_lo(ps);
    let dc = -col_lo(ps);
    let t = shift(ps, dr, dc);
    lemma_shift_props(ps, dr, dc, req);
    assert forall|i: int| 0 <= i < t.len() implies pv_sane(#[trigger] t[i]) by {
        assert(t[i] == pv_shift(ps[i], dr, dc));
        assert(pv_sane(ps[i]));
        lemma_box_bounds(ps, i);
        assert(ps[i].row - row_lo(ps) >= 0);
        assert(ps[i].row <= pv_row_end(ps[i]));
        assert(ps[i].row - row_lo(ps) <= row_hi(ps) - row_lo(ps) <= h - 1);
        assert(ps[i].col - col_lo(ps) >= 0);
        assert(ps[i].col <= pv_col_end(ps[i]));
        assert(ps[i].col - col_lo(ps) <= col_hi(ps) - col_lo(ps) <= w - 1);
    }
}

/// Every covered coordinate of a consistent arrangement maps to exactly
/// one symbol: any placement crossing the coordinate agrees with the
/// grid's symbol there.
pub proof fn lemma_covered_symbol_unique(ps: Seq<PlacementV>, i: int, r: int, c: int)
    requires
        consistent(ps),
        0 <= i < ps.len(),
        pv_covers(ps[i], r, c),
    ensures
        covered(ps, r, c),
        pv_sym(ps[i], r, c) == grid_at(ps, r, c),
{
    assert(covered(ps, r, c));
    let i0 = choose|j: int| 0 <= j < ps.len() && pv_covers(#[trigger] ps[j], r, c);
    assert(pv_covers(ps[i0], r, c));
    assert(pv_sym(ps[i], r, c) == pv_sym(ps[i0], r, c));
}

/// A positive crossing count exhibits a shared cell.
pub proof fn lemma_cross_count_pos(ps: Seq<PlacementV>, n: int, p: PlacementV, k: nat)
    requires
        cross_count(ps, n, p, k) > 0,
    ensures
        exists|kk: int|
            0 <= kk < k && #[trigger] covered_by_prefix(ps, n, cell_row(p, kk), cell_col(p, kk)),
    decreases k,
{
    if k > 0 {
        if covered_by_prefix(ps, n, cell_row(p, k - 1), cell_col(p, k - 1)) {
            assert(0 <= k - 1 < k && covered_by_prefix(
                ps,
                n,
                cell_row(p, k - 1),
                cell_col(p, k - 1),
            ));
        } else {
            lemma_cross_count_pos(ps, n, p, (k - 1) as nat);
        }
    }
}

/// Connectivity made explicit: in a connected arrangement, every
/// placement after the first shares at least one coordinate with an
/// earlier placement.
pub proof fn lemma_linked_intersects(ps: Seq<PlacementV>, req: nat, i: int)
    requires
        linked(ps, req),
        req >= 1,
        1 <= i < ps.len(),
    ensures
        exists|j: int, r: int, c: int|
            0 <= j < i && #[trigger] pv_covers(ps[j], r, c) && pv_covers(ps[i], r, c),
{
    let p = ps[i];
    assert(cross_count(ps, i, p, p.symbols.len()) >= req);
    lemma_cross_count_pos(ps, i, p, p.symbols.len());
    let kk = choose|kk: int|
        0 <= kk < p.symbols.len() && #[trigger] covered_by_prefix(
            ps,
            i,
            cell_row(p, kk),
            cell_col(p, kk),
        );
    let r = cell_row(p, kk);
    let c = cell_col(p, kk);
    assert(covered_by_prefix(ps, i, r, c));
    let j = choose|j: int| 0 <= j < i && j < ps.len() && pv_covers(#[trigger] ps[j], r, c);
    assert(pv_covers(ps[j], r, c));
    assert(pv_covers(ps[i], r, c));
}

/// In every emitted crossword, each covered coordinate maps to exactly
/// one symbol, and every placement crossing that coordinate agrees with
/// it: there are no silent conflicts.
pub proof fn lemma_result_no_conflicts(ps: Seq<PlacementV>, w: int, h: int, req: nat)
    requires
        result_wf(ps, w, h, req),
    ensures
        forall|i: int, r: int, c: int|
            0 <= i < ps.len() && #[trigger] pv_covers(ps[i], r, c)
                ==> pv_sym(ps[i], r, c) == grid_at(ps, r, c),
{
    assert forall|i: int, r: int, c: int|
        0 <= i < ps.len() && #[trigger] pv_covers(ps[i], r, c)
        implies pv_sym(ps[i], r, c) == grid_at(ps, r, c) by {
        lemma_covered_symbol_unique(ps, i, r, c);
    }
}

/// In every emitted crossword generated with connectivity enforced, the
/// placement set is connected via intersections: every placement except
/// the first shares at least one coordinate with an earlier placement
/// (vacuous for a single-word result).
pub proof fn lemma_result_connected(ps: Seq<PlacementV>, w: int, h: int, req: nat)
    requires
        result_wf(ps, w, h, req),
        req >= 1,
    ensures
        forall|i: int| #![trigger ps[i]]
            1 <= i < ps.len() ==> exists|j: int, r: int, c: int|
                0 <= j < i && #[trigger] pv_covers(ps[j], r, c) && pv_covers(ps[i], r, c),
{
    assert forall|i: int| #![trigger ps[i]] 1 <= i < ps.len()
        implies exists|j: int, r: int, c: int|
            0 <= j < i && #[trigger] pv_covers(ps[j], r, c) && pv_covers(ps[i], r, c) by {
        lemma_linked_intersects(ps, req, i);
    }
}

/// The symbol the grid shows at a coordinate: the placed symbol where
/// covered, the blank marker where not.
#[verifier::loop_isolation(false)]
pub fn cell_lookup(cw: &Crossword, r: i32, c: i32) -> (s: u8)
    requires
        all_sane(cw@),
        consistent(cw@),
    ensures
        covered(cw@, r as int, c as int) ==> s == grid_at(cw@, r as int, c as int),
        !covered(cw@, r as int, c as int) ==> s == 0,
{
    let mut j: usize = 0;
    while j < cw.placements.len()
        invariant
            j <= cw.placements@.len(),
            forall|i: int| 0 <= i < j ==> !pv_covers(#[trigger] cw@[i], r as int, c as int),
        decreases cw.placements@.len() - j,
    {
        let p = &cw.placements[j];
        assert(p@ == cw@[j as int]);
        if covers(p, r, c) {
            let s = sym_at(p, r, c);
            proof {
                lemma_covered_symbol_unique(cw@, j as int, r as int, c as int);
            }
            return s;
        }
        j += 1;
    }
    0
}

/// Renders the arrangement as a dense table of symbol bytes sized to the
/// bounding box, with 0 as the blank marker for uncovered cells.
/// Deterministic, purely a projection of the grid.
#[verifier::loop_isolation(false)]
pub fn generate_char_table(cw: &Crossword) -> (table: Vec<Vec<u8>>)
    requires
        cw.placements.len() > 0,
        all_sane(cw@),
        consistent(cw@),
        row_lo(cw@) == 0,
        col_lo(cw@) == 0,
        row_hi(cw@) < max_dim(),
        col_hi(cw@) < max_dim(),
    ensures
        table@.len() == row_hi(cw@) + 1,
        forall|r: int| 0 <= r < table@.len() ==> (#[trigger] table@[r])@.len() == col_hi(cw@) + 1,
        forall|r: int, c: int|
            0 <= r < table@.len() && 0 <= c < col_hi(cw@) + 1 ==> (#[trigger] table@[r]@[c])
                == if covered(cw@, r, c) {
                grid_at(cw@, r, c)
            } else {
                0u8
            },
{
    let (rlo, rhi, clo, chi) = bounding_box(cw);
    let height: usize = (rhi + 1) as usize;
    let width: usize = (chi + 1) as usize;
    let mut table: Vec<Vec<u8>> = Vec::new();
    let mut r: usize = 0;
    while r < height
        invariant
            r <= height,
            table@.len() == r,
            forall|i: int| 0 <= i < r ==> (#[trigger] table@[i])@.len() == width,
            forall|i: int, c: int|
                0 <= i < r && 0 <= c < width ==> (#[trigger] table@[i]@[c]) == if covered(
                    cw@,
                    i,
                    c,
                ) {
                    grid_at(cw@, i, c)
                } else {
                    0u8
                },
        decreases height - r,
    {
        let mut row: Vec<u8> = Vec::new();
        let mut c: usize = 0;
        while c < width
            invariant
                c <= width,
                row@.len() == c,
                forall|k: int|
                    0 <= k < c ==> (#[trigger] row@[k]) == if covered(cw@, r as int, k) {
                        grid_at(cw@, r as int, k)
                    } else {
                        0u8
                    },
            decreases width - c,
        {
            row.push(cell_lookup(cw, r as i32, c as i32));
            c += 1;
        }
        table.push(row);
        r += 1;
    }
    table
}

/// Renders the arrangement as rows of display characters, a blank space
/// marking uncovered cells, as the dense preview shown to a caller.
#[verifier::loop_isolation(false)]
pub fn preview(cw: &Crossword) -> (table: Vec<Vec<char>>)
    requires
        cw.placements.len() > 0,
        all_sane(cw@),
        all_symbols_ok(cw@),
        consistent(cw@),
        row_lo(cw@) == 0,
        col_lo(cw@) == 0,
        row_hi(cw@) < max_dim(),
        col_hi(cw@) < max_dim(),
    ensures
        table@.len() == row_hi(cw@) + 1,
        forall|r: int| 0 <= r < table@.len() ==> (#[trigger] table@[r])@.len() == col_hi(cw@) + 1,
        forall|r: int, c: int|
            0 <= r < table@.len() && 0 <= c < col_hi(cw@) + 1 ==> (#[trigger] table@[r]@[c])
                == if covered(cw@, r, c) {
                grid_at(cw@, r, c) as char
            } else {
                ' '
            },
{
    let bytes = generate_char_table(cw);
    let mut table: Vec<Vec<char>> = Vec::new();
    let mut r: usize = 0;
    while r < bytes.len()
        invariant
            r <= bytes@.len(),
            table@.len() == r,
            forall|i: int| 0 <= i < r ==> (#[trigger] table@[i])@.len() == col_hi(cw@) + 1,
            forall|i: int, c: int|
                0 <= i < r && 0 <= c < col_hi(cw@) + 1 ==> (#[trigger] table@[i]@[c])
                    == if covered(cw@, i, c) {
                    grid_at(cw@, i, c) as char
                } else {
                    ' '
                },
        decreases bytes@.len() - r,
    {
        let brow = &bytes[r];
        let mut row: Vec<char> = Vec::new();
        let mut c: usize = 0;
        while c < brow.len()
            invariant
                c <= brow@.len(),
                brow@.len() == col_hi(cw@) + 1,
                brow == bytes@[r as int],
                r < bytes@.len(),
                row@.len() == c,
                forall|k: int|
                    0 <= k < c ==> (#[trigger] row@[k]) == if covered(cw@, r as int, k) {
                        grid_at(cw@, r as int, k) as char
                    } else {
                        ' '
                    },
            decreases brow@.len() - c,
        {
            let b = brow[c];
            if b != 0 {
                proof {
                    if covered(cw@, r as int, c as int) {
                        let i0 = choose|j: int|
                            0 <= j < cw@.len() && pv_covers(#[trigger] cw@[j], r as int, c as int);
                        assert(symbols_ok(cw@[i0].symbols));
                    }
                }
                row.push(b as char);
            } else {
                proof {
                    if covered(cw@, r as int, c as int) {
                        let i0 = choose|j: int|
                            0 <= j < cw@.len() && pv_covers(#[trigger] cw@[j], r as int, c as int);
                        assert(symbols_ok(cw@[i0].symbols));
                        assert(grid_at(cw@, r as int, c as int) != 0);
                    }
                }
                row.push(' ');
            }
            c += 1;
        }
        table.push(row);
        r += 1;
    }
    table
}

/// Clones one placement, preserving its mathematical value.
pub fn clone_placement(p: &Placement) -> (r: Placement)
    ensures
        r@ == p@,
{
    Placement {
        symbols: clone_symbols(&p.symbols),
        label: clone_label(&p.label),
        row: p.row,
        col: p.col,
        orientation: p.orientation,
    }
}

/// Clones an arrangement, preserving its mathematical value.
pub fn clone_crossword(cw: &Crossword) -> (r: Crossword)
    ensures
        r@ == cw@,
{
    let mut out: Vec<Placement> = Vec::new();
    let mut k: usize = 0;
    while k < cw.placements.len()
        invariant
            k <= cw.placements.len(),
            out@.len() == k,
            forall|i: int| 0 <= i < k ==> (#[trigger] out@[i])@ == cw.placements@[i]@,
        decreases cw.placements.len() - k,
    {
        out.push(clone_placement(&cw.placements[k]));
        k += 1;
    }
    let r = Crossword { placements: out };
    assert(r@ =~= cw@);
    r
}

} // verus!
