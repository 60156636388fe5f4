//! Placement search and streaming controller: best-first enumeration of
//! complete arrangements, emitted lazily in non-decreasing score order
//! under the generation request protocol.

use vstd::prelude::*;
use crate::word::{Word, symbols_ok};
use crate::grid::{
    Crossword, Placement, PlacementV, Orientation, all_sane, all_symbols_ok, consistent, linked,
    within_limits, score_of, max_dim, required_crossings, can_extend, count_crossings,
    clone_crossword,
    lemma_extend_consistent, lemma_extend_linked, lemma_score_push, pv_sane,
};
use crate::word::{clone_label, clone_symbols};

verus! {

/// Recognized configuration options for one generation episode.
#[derive(Clone, Copy, Debug)]
pub struct Settings {
    /// Largest allowed bounding-box width.
    pub max_width: usize,
    /// Largest allowed bounding-box height.
    pub max_height: usize,
    /// Connectivity strictness: crossings each placed word must make with
    /// the words already placed.
    pub min_intersections_per_word: usize,
    /// When true, the connectivity invariant is not enforced.
    pub allow_isolated_words: bool,
    /// Cap on the total number of emitted crosswords; unbounded if absent.
    pub max_results: Option<usize>,
    /// Total search effort the episode may spend, over all requests.
    /// Each request performs at most a bounded slice of it before
    /// reporting a suspension; when the whole allowance is spent, the
    /// episode is terminally exhausted.
    pub search_step_budget: u64,
}

impl Settings {
    /// Machine-limit sanity of a settings snapshot: grid bounds fit the
    /// engine's coordinate ranges and a request is allowed some work.
    pub closed spec fn wf(self) -> bool {
        &&& 1 <= self.max_width <= max_dim()
        &&& 1 <= self.max_height <= max_dim()
        &&& self.search_step_budget >= 1
    }

    /// The crossings each placement after the first must make under this
    /// snapshot.
    pub open spec fn req(self) -> nat {
        required_crossings(self.min_intersections_per_word as nat, self.allow_isolated_words)
    }

    /// Decides `wf`, so an unverified caller can test a snapshot before
    /// starting an episode with it.
    pub fn is_valid(&self) -> (r: bool)
        ensures
            r == self.wf(),
    {
        1 <= self.max_width && self.max_width <= 1024 && 1 <= self.max_height
            && self.max_height <= 1024 && self.search_step_budget >= 1
    }
}

impl Default for Settings {
    /// The default snapshot: a 20-by-20 board, every word crossing at
    /// least one earlier word, no result cap, a generous effort
    /// allowance.
    fn default() -> (s: Settings)
        ensures
            s.wf(),
            s.max_width == 20,
            s.max_height == 20,
            s.min_intersections_per_word == 1,
            s.allow_isolated_words == false,
            s.max_results is None,
            s.search_step_budget == 10000,
    {
        Settings {
            max_width: 20,
            max_height: 20,
            min_intersections_per_word: 1,
            allow_isolated_words: false,
            max_results: None,
            search_step_budget: 10000,
        }
    }
}

/// Every word of the configured list holds only supported symbols.
pub open spec fn words_ok(ws: Seq<Word>) -> bool {
    forall|i: int| 0 <= i < ws.len() ==> symbols_ok((#[trigger] ws[i])@.symbols)
}

/// `m` assigns to each placement the configured word it lays down:
/// every index is a distinct word of the list, placements carry exactly
/// that word's symbols and label, and every word of the list is used.
pub open spec fn word_map_ok(ps: Seq<PlacementV>, ws: Seq<Word>, m: Seq<int>) -> bool {
    &&& m.len() == ps.len()
    &&& forall|k: int| 0 <= k < m.len() ==> 0 <= #[trigger] m[k] < ws.len()
    &&& forall|k: int|
        0 <= k < m.len() ==> (#[trigger] ps[k]).symbols == ws[m[k]]@.symbols
            && ps[k].label == ws[m[k]]@.label
    &&& forall|k1: int, k2: int|
        0 <= k1 < k2 < m.len() ==> #[trigger] m[k1] != #[trigger] m[k2]
    &&& forall|i: int| 0 <= i < ws.len() ==> m.contains(i)
}

/// The arrangement places each configured word exactly once and nothing
/// else: its placements are in one-to-one correspondence with the word
/// list, preserving symbols and label.
pub open spec fn places_words(ps: Seq<PlacementV>, ws: Seq<Word>) -> bool {
    exists|m: Seq<int>| #[trigger] word_map_ok(ps, ws, m)
}

/// A partially built arrangement awaiting further expansion: the grid so
/// far, the per-word used flags, the cached score, and the ghost record
/// of which configured word each placement laid down.
pub struct SearchState {
    pub cw: Crossword,
    pub used: Vec<bool>,
    pub score: u128,
    pub placed: Ghost<Seq<int>>,
}

/// Well-formedness of a search state under a configuration: the partial
/// arrangement satisfies every invariant an emitted result must satisfy,
/// except translation to the origin; the cached score is exact; and the
/// ghost record ties each placement to a distinct configured word, in
/// step with the used flags.
pub open spec fn state_wf(st: SearchState, ws: Seq<Word>, w: int, h: int, req: nat) -> bool {
    &&& st.used@.len() == ws.len()
    &&& st.cw@.len() <= usize::MAX
    &&& all_sane(st.cw@)
    &&& all_symbols_ok(st.cw@)
    &&& consistent(st.cw@)
    &&& linked(st.cw@, req)
    &&& within_limits(st.cw@, w, h)
    &&& st.score == score_of(st.cw@)
    &&& st.placed@.len() == st.cw@.len()
    &&& forall|k: int| 0 <= k < st.placed@.len() ==> 0 <= #[trigger] st.placed@[k] < ws.len()
    &&& forall|k: int|
        0 <= k < st.placed@.len() ==> (#[trigger] st.cw@[k]).symbols
            == ws[st.placed@[k]]@.symbols && st.cw@[k].label == ws[st.placed@[k]]@.label
    &&& forall|k1: int, k2: int|
        0 <= k1 < k2 < st.placed@.len() ==> #[trigger] st.placed@[k1]
            != #[trigger] st.placed@[k2]
    &&& forall|i: int| 0 <= i < ws.len() ==> ((#[trigger] st.used@[i]) <==> st.placed@.contains(i))
}

/// The score of a sane arrangement is bounded by the largest dimension
/// times the number of placements.
pub proof fn lemma_score_bound(ps: Seq<crate::grid::PlacementV>)
    requires
        all_sane(ps),
    ensures
        score_of(ps) <= max_dim() * ps.len(),
    decreases ps.len(),
{
    if ps.len() > 0 {
        assert(all_sane(ps.drop_last())) by {
            assert(forall|i: int|
                0 <= i < ps.drop_last().len() ==> #[trigger] ps.drop_last()[i] == ps[i]);
        }
        lemma_score_bound(ps.drop_last());
        assert(pv_sane(ps.last()));
        crate::grid::lemma_cross_count_le(
            ps.drop_last(),
            ps.drop_last().len() as int,
            ps.last(),
            ps.last().symbols.len(),
        );
    }
}

/// Copies a flag vector, preserving its mathematical value.
fn clone_bools(v: &Vec<bool>) -> (r: Vec<bool>)
    ensures
        r@ == v@,
{
    let mut out: Vec<bool> = Vec::new();
    let mut k: usize = 0;
    while k < v.len()
        invariant
            k <= v.len(),
            out@ == v@.subrange(0, k as int),
        decreases v.len() - k,
    {
        out.push(v[k]);
        assert(out@ == v@.subrange(0, k + 1 as int));
        k += 1;
    }
    assert(v@.subrange(0, v@.len() as int) == v@);
    out
}

/// Are all words placed? Exec mirror of the completeness test.
fn all_used(v: &Vec<bool>) -> (r: bool)
    ensures
        r == (forall|i: int| 0 <= i < v@.len() ==> v@[i]),
{
    let mut k: usize = 0;
    while k < v.len()
        invariant
            k <= v.len(),
            forall|i: int| 0 <= i < k ==> v@[i],
        decreases v.len() - k,
    {
        if !v[k] {
            return false;
        }
        k += 1;
    }
    true
}

/// Tries to extend a state by placing word `wi` at the given anchor and
/// orientation. Returns the child state when the engine's extension rule
/// accepts the candidate; the child keeps every state invariant and its
/// score is no smaller than the parent's.
#[verifier::loop_isolation(false)]
fn try_candidate(
    words: &Vec<Word>,
    st: &SearchState,
    wi: usize,
    row: i32,
    col: i32,
    horizontal: bool,
    w: usize,
    h: usize,
    req: usize,
) -> (r: Option<SearchState>)
    requires
        state_wf(*st, words@, w as int, h as int, req as nat),
        words_ok(words@),
        wi < words@.len(),
        !st.used@[wi as int],
        1 <= w <= max_dim(),
        1 <= h <= max_dim(),
    ensures
        r matches Some(kid) ==> state_wf(kid, words@, w as int, h as int, req as nat)
            && score_of(kid.cw@) >= score_of(st.cw@),
{
    let word = &words[wi];
    let q = Placement {
        symbols: clone_symbols(&word.symbols),
        label: clone_label(&word.label),
        row,
        col,
        orientation: if horizontal {
            Orientation::Horizontal
        } else {
            Orientation::Vertical
        },
    };
    if can_extend(&st.cw, &q, w, h, req) {
        proof {
            lemma_extend_consistent(st.cw@, q@);
            lemma_extend_linked(st.cw@, q@, req as nat);
            lemma_score_push(st.cw@, q@);
            lemma_score_bound(st.cw@);
        }
        let ghost qv = q@;
        let crossings = count_crossings(&st.cw, &q);
        proof {
            crate::grid::lemma_cross_count_le(
                st.cw@,
                st.cw@.len() as int,
                q@,
                q@.symbols.len(),
            );
        }
        let fresh = q.symbols.len() - crossings;
        let mut cw2 = clone_crossword(&st.cw);
        cw2.placements.push(q);
        assert(cw2@ =~= st.cw@.push(qv));
        let cw2_len = cw2.placements.len();
        assert(cw2@.len() == cw2_len);
        let mut used2 = clone_bools(&st.used);
        used2.set(wi, true);
        let score2: u128 = st.score + fresh as u128;
        let ghost placed2 = st.placed@.push(wi as int);
        let kid = SearchState { cw: cw2, used: used2, score: score2, placed: Ghost(placed2) };
        assert(all_sane(kid.cw@)) by {
            assert(forall|i: int|
                0 <= i < st.cw@.len() ==> kid.cw@[i] == #[trigger] st.cw@[i]);
        }
        assert(all_symbols_ok(kid.cw@)) by {
            assert(forall|i: int|
                0 <= i < st.cw@.len() ==> kid.cw@[i] == #[trigger] st.cw@[i]);
            assert(symbols_ok(kid.cw@.last().symbols));
        }
        proof {
            assert(!st.placed@.contains(wi as int));
            assert(forall|k: int|
                0 <= k < st.placed@.len() ==> #[trigger] st.placed@[k] != wi as int);
            assert(forall|k: int|
                0 <= k < st.placed@.len() ==> #[trigger] placed2[k] == st.placed@[k]);
            assert(kid.cw@[st.cw@.len() as int].symbols == words@[wi as int]@.symbols);
            assert(kid.cw@[st.cw@.len() as int].label == words@[wi as int]@.label);
            assert forall|i: int| 0 <= i < words@.len()
                implies ((#[trigger] kid.used@[i]) <==> placed2.contains(i)) by {
                if i == wi as int {
                    assert(placed2[placed2.len() - 1] == wi as int);
                    assert(placed2.contains(wi as int));
                } else {
                    if placed2.contains(i) {
                        let k = choose|k: int| 0 <= k < placed2.len() && placed2[k] == i;
                        assert(k < st.placed@.len());
                        assert(st.placed@.contains(i));
                    }
                    if st.placed@.contains(i) {
                        let k = choose|k: int|
                            0 <= k < st.placed@.len() && st.placed@[k] == i;
                        assert(placed2[k] == i);
                        assert(placed2.contains(i));
                    }
                }
            }
        }
        Some(kid)
    } else {
        None
    }
}

/// Enumerates the children of a state: every candidate placement of an
/// unused word that the extension rule accepts. Anchors are derived from
/// intersections with cells already on the grid (or the origin seed for
/// an empty state); when isolated words are allowed, a window around the
/// current bounding box is scanned as well. Every child satisfies the
/// state invariants and scores at least the parent.
#[verifier::loop_isolation(false)]
fn expand(
    words: &Vec<Word>,
    st: &SearchState,
    w: usize,
    h: usize,
    req: usize,
    allow_isolated: bool,
) -> (kids: Vec<SearchState>)
    requires
        state_wf(*st, words@, w as int, h as int, req as nat),
        words_ok(words@),
        1 <= w <= max_dim(),
        1 <= h <= max_dim(),
    ensures
        forall|i: int|
            0 <= i < kids@.len() ==> state_wf(
                #[trigger] kids@[i],
                words@,
                w as int,
                h as int,
                req as nat,
            ) && score_of(kids@[i].cw@) >= score_of(st.cw@),
{
    let ghost good = |kid: SearchState|
        state_wf(kid, words@, w as int, h as int, req as nat)
            && score_of(kid.cw@) >= score_of(st.cw@);
    let mut kids: Vec<SearchState> = Vec::new();
    let mut wi: usize = 0;
    while wi < words.len()
        invariant
            forall|i: int| 0 <= i < kids@.len() ==> good(#[trigger] kids@[i]),
        decreases words@.len() - wi,
    {
        if !st.used[wi] {
            let wlen = words[wi].symbols.len();
            if 1 <= wlen && wlen <= 1024 {
                if st.cw.placements.len() == 0 {
                    if let Some(kid) = try_candidate(words, st, wi, 0, 0, true, w, h, req) {
                        kids.push(kid);
                    }
                } else {
                    let mut j: usize = 0;
                    while j < st.cw.placements.len()
                        invariant
                            forall|i: int| 0 <= i < kids@.len() ==> good(#[trigger] kids@[i]),
                        decreases st.cw.placements@.len() - j,
                    {
                        let plen = st.cw.placements[j].symbols.len();
                        assert(pv_sane(st.cw@[j as int]));
                        let mut t: usize = 0;
                        while t < plen
                            invariant
                                forall|i: int| 0 <= i < kids@.len() ==> good(#[trigger] kids@[i]),
                            decreases plen - t,
                        {
                            let p = &st.cw.placements[j];
                            let (cr, cc): (i32, i32) = match p.orientation {
                                Orientation::Horizontal => (p.row, p.col + t as i32),
                                Orientation::Vertical => (p.row + t as i32, p.col),
                            };
                            let psym = p.symbols[t];
                            let mut k: usize = 0;
                            while k < wlen
                                invariant
                                    forall|i: int|
                                        0 <= i < kids@.len() ==> good(#[trigger] kids@[i]),
                                decreases wlen - k,
                            {
                                if words[wi].symbols[k] == psym {
                                    if let Some(kid) = try_candidate(
                                        words,
                                        st,
                                        wi,
                                        cr,
                                        cc - k as i32,
                                        true,
                                        w,
                                        h,
                                        req,
                                    ) {
                                        kids.push(kid);
                                    }
                                    if let Some(kid) = try_candidate(
                                        words,
                                        st,
                                        wi,
                                        cr - k as i32,
                                        cc,
                                        false,
                                        w,
                                        h,
                                        req,
                                    ) {
                                        kids.push(kid);
                                    }
                                }
                                k += 1;
                            }
                            t += 1;
                        }
                        j += 1;
                    }
                    if allow_isolated {
                        proof {
                            crate::grid::lemma_box_sane(st.cw@);
                        }
                        let (rlo, _rhi, clo, _chi) = crate::grid::bounding_box(&st.cw);
                        let hw: i32 = h as i32;
                        let ww: i32 = w as i32;
                        let mut dr: i32 = -hw;
                        while dr <= hw
                            invariant
                                -hw <= dr <= hw + 1,
                                forall|i: int| 0 <= i < kids@.len() ==> good(#[trigger] kids@[i]),
                            decreases hw + 1 - dr,
                        {
                            let mut dc: i32 = -ww;
                            while dc <= ww
                                invariant
                                    -ww <= dc <= ww + 1,
                                    forall|i: int|
                                        0 <= i < kids@.len() ==> good(#[trigger] kids@[i]),
                                decreases ww + 1 - dc,
                            {
                                if let Some(kid) = try_candidate(
                                    words,
                                    st,
                                    wi,
                                    rlo + dr,
                                    clo + dc,
                                    true,
                                    w,
                                    h,
                                    req,
                                ) {
                                    kids.push(kid);
                                }
                                if let Some(kid) = try_candidate(
                                    words,
                                    st,
                                    wi,
                                    rlo + dr,
                                    clo + dc,
                                    false,
                                    w,
                                    h,
                                    req,
                                ) {
                                    kids.push(kid);
                                }
                                dc += 1;
                            }
                            dr += 1;
                        }
                    }
                }
            }
        }
        wi += 1;
    }
    kids
}

/// Frontier order: scores non-increasing, so the minimum sits at the end
/// and is popped first.
pub open spec fn frontier_sorted(fs: Seq<SearchState>) -> bool {
    forall|i: int, j: int|
        0 <= i < j < fs.len() ==> (#[trigger] fs[i]).score >= (#[trigger] fs[j]).score
}

/// Inserts a state into the frontier, keeping it sorted. Every element
/// of the result is the new state or one of the old elements.
#[verifier::loop_isolation(false)]
fn insert_state(frontier: &mut Vec<SearchState>, st: SearchState)
    requires
        frontier_sorted(old(frontier)@),
    ensures
        frontier_sorted(final(frontier)@),
        final(frontier)@.len() == old(frontier)@.len() + 1,
        forall|i: int|
            0 <= i < final(frontier)@.len() ==> (#[trigger] final(frontier)@[i] == st
                || old(frontier)@.contains(final(frontier)@[i])),
{
    let mut pos: usize = 0;
    while pos < frontier.len() && frontier[pos].score >= st.score
        invariant
            pos <= frontier@.len(),
            forall|j: int| 0 <= j < pos ==> (#[trigger] frontier@[j]).score >= st.score,
        decreases frontier@.len() - pos,
    {
        pos += 1;
    }
    let ghost before = frontier@;
    let ghost p = pos as int;
    frontier.insert(pos, st);
    proof {
        before.insert_ensures(p, st);
        assert forall|i: int, j: int| 0 <= i < j < frontier@.len()
            implies (#[trigger] frontier@[i]).score >= (#[trigger] frontier@[j]).score by {
            if i < p && j < p {
            } else if i < p && j == p {
            } else if i < p && j > p {
                assert(frontier@[j] == before[j - 1]);
            } else if i == p && j > p {
                assert(frontier@[j] == before[j - 1]);
                if p < before.len() {
                    assert(before[p].score < st.score);
                    assert(before[p].score >= before[j - 1].score);
                }
            } else {
                assert(frontier@[i] == before[i - 1]);
                assert(frontier@[j] == before[j - 1]);
            }
        }
        assert forall|i: int| 0 <= i < frontier@.len()
            implies (#[trigger] frontier@[i] == st || before.contains(frontier@[i])) by {
            if i < p {
                assert(frontier@[i] == before[i]);
            } else if i > p {
                assert(frontier@[i] == before[i - 1]);
            }
        }
    }
}

/// Byte-sequence equality, decided at the level of views.
#[verifier::loop_isolation(false)]
fn bytes_eq(a: &Vec<u8>, b: &Vec<u8>) -> (r: bool)
    ensures
        r == (a@ == b@),
{
    if a.len() != b.len() {
        return false;
    }
    let mut k: usize = 0;
    while k < a.len()
        invariant
            k <= a@.len(),
            a@.len() == b@.len(),
            forall|i: int| 0 <= i < k ==> a@[i] == b@[i],
        decreases a@.len() - k,
    {
        if a[k] != b[k] {
            return false;
        }
        k += 1;
    }
    proof {
        assert(a@ =~= b@);
    }
    true
}

/// Structural equality of two placements, decided at the level of their
/// mathematical values.
fn placement_eq(a: &Placement, b: &Placement) -> (r: bool)
    ensures
        r == (a@ == b@),
{
    let syms = bytes_eq(&a.symbols, &b.symbols);
    let lab = match (&a.label, &b.label) {
        (Some(x), Some(y)) => *x == *y,
        (None, None) => true,
        _ => false,
    };
    let geo = a.row == b.row && a.col == b.col && a.orientation == b.orientation;
    let r = syms && lab && geo;
    proof {
        if r {
            assert(a@.symbols =~= b@.symbols);
            assert(a@ =~= b@);
        } else {
            if a@ == b@ {
                assert(a.symbols@ == b.symbols@);
                assert(a.symbols@.len() == b.symbols@.len());
                assert(forall|i: int|
                    0 <= i < a.symbols@.len() ==> a.symbols@[i] == b.symbols@[i]);
            }
        }
    }
    r
}

/// How many times placement `x` occurs in the arrangement.
pub open spec fn occ(s: Seq<PlacementV>, x: PlacementV) -> nat
    decreases s.len(),
{
    if s.len() == 0 {
        0
    } else {
        occ(s.drop_last(), x) + if s.last() == x {
            1nat
        } else {
            0nat
        }
    }
}

/// Two arrangements are the same up to placement order: equal length and
/// equal multiplicity of every placement.
pub open spec fn same_arrangement(a: Seq<PlacementV>, b: Seq<PlacementV>) -> bool {
    &&& a.len() == b.len()
    &&& forall|x: PlacementV| #[trigger] occ(a, x) == occ(b, x)
}

/// A placement occurs zero times exactly when no position holds it.
pub proof fn lemma_occ_zero(s: Seq<PlacementV>, x: PlacementV)
    ensures
        (occ(s, x) == 0) <==> (forall|i: int| 0 <= i < s.len() ==> s[i] != x),
    decreases s.len(),
{
    if s.len() > 0 {
        lemma_occ_zero(s.drop_last(), x);
        assert(forall|i: int| 0 <= i < s.len() - 1 ==> s.drop_last()[i] == #[trigger] s[i]);
        if occ(s, x) == 0 {
            assert(s.last() != x);
            assert(forall|i: int| 0 <= i < s.len() - 1 ==> s[i] != x);
        }
    }
}

/// Counts how often a placement occurs in an arrangement.
#[verifier::loop_isolation(false)]
fn count_occ(cw: &Crossword, x: &Placement) -> (n: usize)
    ensures
        n == occ(cw@, x@),
{
    let mut n: usize = 0;
    let mut k: usize = 0;
    while k < cw.placements.len()
        invariant
            k <= cw.placements@.len(),
            n <= k,
            n == occ(cw@.subrange(0, k as int), x@),
        decreases cw.placements@.len() - k,
    {
        proof {
            assert(cw@.subrange(0, k + 1).drop_last() =~= cw@.subrange(0, k as int));
            assert(cw@.subrange(0, k + 1).last() == cw@[k as int]);
        }
        if placement_eq(&cw.placements[k], x) {
            n += 1;
        }
        k += 1;
    }
    proof {
        assert(cw@.subrange(0, cw@.len() as int) =~= cw@);
    }
    n
}

/// Decides whether two crosswords are the same arrangement up to
/// placement order.
#[verifier::loop_isolation(false)]
fn same_arrangement_exec(a: &Crossword, b: &Crossword) -> (r: bool)
    ensures
        r == same_arrangement(a@, b@),
{
    if a.placements.len() != b.placements.len() {
        return false;
    }
    let mut i: usize = 0;
    while i < a.placements.len()
        invariant
            i <= a@.len(),
            forall|k: int| 0 <= k < i ==> occ(a@, #[trigger] a@[k]) == occ(b@, a@[k]),
        decreases a@.len() - i,
    {
        if count_occ(a, &a.placements[i]) != count_occ(b, &a.placements[i]) {
            proof {
                assert(occ(a@, a@[i as int]) != occ(b@, a@[i as int]));
            }
            return false;
        }
        i += 1;
    }
    let mut j: usize = 0;
    while j < b.placements.len()
        invariant
            j <= b@.len(),
            forall|k: int| 0 <= k < a@.len() ==> occ(a@, #[trigger] a@[k]) == occ(b@, a@[k]),
            forall|k: int| 0 <= k < j ==> occ(a@, #[trigger] b@[k]) == occ(b@, b@[k]),
        decreases b@.len() - j,
    {
        if count_occ(a, &b.placements[j]) != count_occ(b, &b.placements[j]) {
            proof {
                assert(occ(a@, b@[j as int]) != occ(b@, b@[j as int]));
            }
            return false;
        }
        j += 1;
    }
    proof {
        assert forall|x: PlacementV| #[trigger] occ(a@, x) == occ(b@, x) by {
            if occ(a@, x) > 0 {
                lemma_occ_zero(a@, x);
                let k = choose|k: int| 0 <= k < a@.len() && a@[k] == x;
                assert(occ(a@, a@[k]) == occ(b@, a@[k]));
            } else if occ(b@, x) > 0 {
                lemma_occ_zero(b@, x);
                let k = choose|k: int| 0 <= k < b@.len() && b@[k] == x;
                assert(occ(a@, b@[k]) == occ(b@, b@[k]));
            }
        }
    }
    true
}

/// Has this arrangement already been emitted?
#[verifier::loop_isolation(false)]
fn contains_arrangement(es: &Vec<Crossword>, c: &Crossword) -> (r: bool)
    ensures
        r == exists|i: int| 0 <= i < es@.len() && same_arrangement((#[trigger] es@[i])@, c@),
{
    let mut k: usize = 0;
    while k < es.len()
        invariant
            k <= es@.len(),
            forall|i: int| 0 <= i < k ==> !same_arrangement((#[trigger] es@[i])@, c@),
        decreases es@.len() - k,
    {
        if same_arrangement_exec(&es[k], c) {
            return true;
        }
        k += 1;
    }
    false
}

/// The admission-control request: everything remaining, the next `n`
/// results, or discard the episode.
#[derive(Clone, Copy, Debug, PartialEq, Eq, Structural)]
pub enum GenerationRequest {
    All,
    Count(usize),
    Cancel,
}

/// How a request ended: satisfied with more possibly remaining (`Idle`),
/// terminally out of results (`Exhausted`), or out of step budget with
/// the episode resumable (`Suspended`).
#[derive(Clone, Copy, Debug, PartialEq, Eq, Structural)]
pub enum EpisodeStatus {
    Idle,
    Exhausted,
    Suspended,
}

/// The crosswords one request emitted, in order, and how it ended.
pub struct GenerationOutcome {
    pub items: Vec<Crossword>,
    pub status: EpisodeStatus,
}

/// The mathematical values of a sequence of crosswords.
pub open spec fn views_of(es: Seq<Crossword>) -> Seq<Seq<PlacementV>> {
    es.map_values(|c: Crossword| c@)
}

/// The score of the most recently emitted crossword (zero before any).
pub open spec fn last_score(es: Seq<Crossword>) -> nat {
    if es.len() == 0 {
        0
    } else {
        score_of(es.last()@)
    }
}

/// Emission order is non-decreasing in the score.
pub open spec fn results_sorted(es: Seq<Crossword>) -> bool {
    forall|i: int, j: int|
        0 <= i < j < es.len() ==> score_of((#[trigger] es[i])@) <= score_of((#[trigger] es[j])@)
}

/// One generation episode: a frozen configuration snapshot, the search
/// frontier, and the log of everything emitted so far.
pub struct Episode {
    words: Vec<Word>,
    settings: Settings,
    frontier: Vec<SearchState>,
    emitted: Vec<Crossword>,
    exhausted: bool,
    fuel: u64,
}

impl Episode {
    pub closed spec fn spec_words(self) -> Seq<Word> {
        self.words@
    }

    pub closed spec fn spec_settings(self) -> Settings {
        self.settings
    }

    pub closed spec fn spec_emitted(self) -> Seq<Crossword> {
        self.emitted@
    }

    pub closed spec fn spec_exhausted(self) -> bool {
        self.exhausted
    }

    /// The search effort remaining in this episode: a measure of
    /// remaining work that every performed search step decreases, so a
    /// suspended episode cannot be pulled forever without terminating.
    pub closed spec fn spec_fuel(self) -> u64 {
        self.fuel
    }

    /// How many partial arrangements await expansion.
    pub closed spec fn spec_frontier_len(self) -> nat {
        self.frontier@.len()
    }

    /// The episode invariant. Everything in the frontier is a
    /// well-formed partial arrangement scoring at least the last
    /// emission (the best-first bound); the emission log is sorted by
    /// score and holds only well-formed origin-anchored results.
    pub closed spec fn wf(self) -> bool {
        let w = self.settings.max_width as int;
        let h = self.settings.max_height as int;
        let req = self.settings.req();
        &&& self.settings.wf()
        &&& words_ok(self.words@)
        &&& forall|i: int|
            0 <= i < self.frontier@.len() ==> state_wf(
                #[trigger] self.frontier@[i],
                self.words@,
                w,
                h,
                req,
            )
        &&& frontier_sorted(self.frontier@)
        &&& forall|i: int|
            0 <= i < self.frontier@.len() ==> score_of((#[trigger] self.frontier@[i]).cw@)
                >= last_score(self.emitted@)
        &&& results_sorted(self.emitted@)
        &&& forall|i: int|
            0 <= i < self.emitted@.len() ==> crate::grid::result_wf(
                (#[trigger] self.emitted@[i])@,
                w,
                h,
                req,
            )
        &&& forall|i: int, j: int|
            0 <= i < j < self.emitted@.len() ==> !same_arrangement(
                (#[trigger] self.emitted@[i])@,
                (#[trigger] self.emitted@[j])@,
            )
        &&& forall|i: int|
            0 <= i < self.emitted@.len() ==> places_words(
                (#[trigger] self.emitted@[i])@,
                self.words@,
            )
        &&& self.exhausted ==> self.frontier@.len() == 0
        &&& self.settings.max_results matches Some(m) ==> self.emitted@.len() <= m
    }

    /// Starts an episode over an atomic configuration snapshot. The
    /// frontier is seeded with exactly one state, the empty arrangement
    /// over the whole snapshot; nothing is emitted yet, and the full
    /// effort allowance of the settings is available.
    pub fn new(words: Vec<Word>, settings: Settings) -> (ep: Episode)
        requires
            settings.wf(),
            words_ok(words@),
        ensures
            ep.wf(),
            ep.spec_words() == words@,
            ep.spec_settings() == settings,
            ep.spec_emitted().len() == 0,
            !ep.spec_exhausted(),
            ep.spec_frontier_len() == 1,
            ep.spec_fuel() == settings.search_step_budget,
    {
        let used: Vec<bool> = vec![false; words.len()];
        let root = SearchState {
            cw: Crossword { placements: Vec::new() },
            used,
            score: 0,
            placed: Ghost(Seq::empty()),
        };
        assert(root.cw@ =~= Seq::<PlacementV>::empty());
        proof {
            assert(forall|i: int| !(#[trigger] root.placed@.contains(i)));
        }
        let mut frontier: Vec<SearchState> = Vec::new();
        frontier.push(root);
        let fuel = settings.search_step_budget;
        Episode { words, settings, frontier, emitted: Vec::new(), exhausted: false, fuel }
    }

    /// Is the episode terminally out of results?
    pub fn is_exhausted(&self) -> (r: bool)
        ensures
            r == self.spec_exhausted(),
    {
        self.exhausted
    }

    /// How many crosswords the episode has emitted so far.
    pub fn emitted_count(&self) -> (n: usize)
        ensures
            n == self.spec_emitted().len(),
    {
        self.emitted.len()
    }

    /// Performs one admission-controlled request against the episode.
    ///
    /// Guarantees, beyond preserving the episode invariant:
    /// every emitted crossword is a well-formed result that places each
    /// configured word exactly once; emission order is non-decreasing by
    /// score, within this request and across requests of the episode;
    /// the emission log only grows, by exactly the items returned, and
    /// never holds the same arrangement twice; a `Count(n)` request
    /// emits at most `n` crosswords and exactly `n` when it reports
    /// `Idle`; a request on an exhausted episode emits nothing and the
    /// episode stays exhausted; `Cancel` discards the frontier and makes
    /// the episode exhausted; a request that reports `Suspended` has
    /// strictly decreased the episode's remaining fuel, so repeated
    /// pulls cannot suspend forever; and the episode only turns
    /// exhausted for a reason: cancellation, an already-empty frontier,
    /// spent fuel, or the result cap.
    #[verifier::loop_isolation(false)]
    pub fn request(&mut self, req: GenerationRequest) -> (out: GenerationOutcome)
        requires
            old(self).wf(),
        ensures
            final(self).wf(),
            final(self).spec_words() == old(self).spec_words(),
            final(self).spec_settings() == old(self).spec_settings(),
            views_of(final(self).spec_emitted()) =~= views_of(old(self).spec_emitted())
                + views_of(out.items@),
            forall|i: int|
                0 <= i < out.items@.len() ==> crate::grid::result_wf(
                    (#[trigger] out.items@[i])@,
                    old(self).spec_settings().max_width as int,
                    old(self).spec_settings().max_height as int,
                    old(self).spec_settings().req(),
                ),
            forall|i: int, j: int|
                0 <= i < j < out.items@.len() ==> score_of((#[trigger] out.items@[i])@)
                    <= score_of((#[trigger] out.items@[j])@),
            forall|i: int|
                0 <= i < out.items@.len() ==> score_of((#[trigger] out.items@[i])@)
                    >= last_score(old(self).spec_emitted()),
            forall|i: int|
                0 <= i < out.items@.len() ==> places_words(
                    (#[trigger] out.items@[i])@,
                    old(self).spec_words(),
                ),
            forall|i: int, j: int|
                0 <= i < j < final(self).spec_emitted().len() ==> !same_arrangement(
                    (#[trigger] final(self).spec_emitted()[i])@,
                    (#[trigger] final(self).spec_emitted()[j])@,
                ),
            old(self).spec_exhausted() ==> out.items@.len() == 0,
            old(self).spec_exhausted() ==> final(self).spec_exhausted(),
            final(self).spec_fuel() <= old(self).spec_fuel(),
            out.status is Suspended ==> final(self).spec_fuel() < old(self).spec_fuel(),
            out.status is Exhausted && !old(self).spec_exhausted() ==> (req is Cancel
                || old(self).spec_frontier_len() == 0 || old(self).spec_fuel() == 0
                || final(self).spec_fuel() < old(self).spec_fuel()
                || (old(self).spec_settings().max_results matches Some(m)
                    && final(self).spec_emitted().len() >= m)),
            req is Cancel ==> out.items@.len() == 0,
            req is Cancel ==> final(self).spec_exhausted(),
            req matches GenerationRequest::Count(n) ==> out.items@.len() <= n,
            req matches GenerationRequest::Count(n) ==> (out.status is Idle
                ==> out.items@.len() == n),
            out.status is Exhausted <==> final(self).spec_exhausted(),
            req is All ==> !(out.status is Idle),
    {
        if self.exhausted {
            return GenerationOutcome { items: Vec::new(), status: EpisodeStatus::Exhausted };
        }
        if matches!(req, GenerationRequest::Cancel) {
            self.frontier.clear();
            self.exhausted = true;
            return GenerationOutcome { items: Vec::new(), status: EpisodeStatus::Exhausted };
        }
        let limit: Option<usize> = match req {
            GenerationRequest::All => None,
            GenerationRequest::Count(n) => Some(n),
            GenerationRequest::Cancel => None,
        };
        let w = self.settings.max_width;
        let h = self.settings.max_height;
        let reqc = crossings_needed(&self.settings);
        let allow_isolated = self.settings.allow_isolated_words;
        let ghost fuel0 = self.fuel;
        let mut steps: u64 = 0;
        let mut items: Vec<Crossword> = Vec::new();
        loop
            invariant
                self.wf(),
                !self.exhausted,
                self.words@ == old(self).words@,
                self.settings == old(self).settings,
                w == self.settings.max_width,
                h == self.settings.max_height,
                reqc as nat == self.settings.req(),
                allow_isolated == self.settings.allow_isolated_words,
                steps <= 64,
                self.fuel == fuel0 - steps,
                steps <= fuel0,
                fuel0 == old(self).fuel,
                steps == 0 ==> self.frontier@ == old(self).frontier@,
                views_of(self.emitted@) =~= views_of(old(self).emitted@) + views_of(items@),
                forall|i: int|
                    0 <= i < items@.len() ==> crate::grid::result_wf(
                        (#[trigger] items@[i])@,
                        w as int,
                        h as int,
                        reqc as nat,
                    ),
                forall|i: int|
                    0 <= i < items@.len() ==> places_words((#[trigger] items@[i])@, old(self).words@),
                forall|i: int, j: int|
                    0 <= i < j < items@.len() ==> score_of((#[trigger] items@[i])@) <= score_of(
                        (#[trigger] items@[j])@,
                    ),
                forall|i: int|
                    0 <= i < items@.len() ==> score_of((#[trigger] items@[i])@) >= last_score(
                        old(self).emitted@,
                    ),
                items@.len() > 0 ==> last_score(self.emitted@) == score_of(items@.last()@),
                items@.len() == 0 ==> last_score(self.emitted@) == last_score(old(self).emitted@),
                limit matches Some(n) ==> items@.len() <= n,
                limit is None <==> req is All,
            decreases 64 - steps,
        {
            if let Some(n) = limit {
                if items.len() == n {
                    return GenerationOutcome { items, status: EpisodeStatus::Idle };
                }
            }
            if let Some(m) = self.settings.max_results {
                if self.emitted.len() >= m {
                    self.frontier.clear();
                    self.exhausted = true;
                    return GenerationOutcome { items, status: EpisodeStatus::Exhausted };
                }
            }
            if self.fuel == 0 {
                self.frontier.clear();
                self.exhausted = true;
                return GenerationOutcome { items, status: EpisodeStatus::Exhausted };
            }
            if self.frontier.len() == 0 {
                self.exhausted = true;
                return GenerationOutcome { items, status: EpisodeStatus::Exhausted };
            }
            if steps >= 64 {
                return GenerationOutcome { items, status: EpisodeStatus::Suspended };
            }
            steps += 1;
            self.fuel = self.fuel - 1;
            let ghost pre_frontier = self.frontier@;
            let popped = self.frontier.pop();
            let st = match popped {
                Some(st) => st,
                None => {
                    proof {
                        assert(false);
                    }
                    return GenerationOutcome { items, status: EpisodeStatus::Suspended };
                },
            };
            proof {
                assert(st == pre_frontier.last());
                assert(self.frontier@ =~= pre_frontier.drop_last());
                assert(forall|i: int|
                    0 <= i < self.frontier@.len() ==> #[trigger] self.frontier@[i]
                        == pre_frontier[i]);
                assert(state_wf(st, self.words@, w as int, h as int, reqc as nat));
                assert(forall|i: int|
                    0 <= i < self.frontier@.len()
                        ==> (#[trigger] self.frontier@[i]).score >= st.score);
            }
            if st.cw.placements.len() > 0 && all_used(&st.used) {
                let canon = crate::grid::translate_to_origin(&st.cw);
                proof {
                    crate::grid::lemma_translate_result(st.cw@, w as int, h as int, reqc as nat);
                }
                if !contains_arrangement(&self.emitted, &canon) {
                    let ghost pre_emitted = self.emitted@;
                    let ghost pre_items = items@;
                    let copy = clone_crossword(&canon);
                    proof {
                        assert(score_of(st.cw@) >= last_score(pre_emitted));
                        assert(score_of(canon@) == score_of(st.cw@));
                        let dr = -crate::grid::row_lo(st.cw@);
                        let dc = -crate::grid::col_lo(st.cw@);
                        assert(forall|k: int|
                            0 <= k < canon@.len() ==> #[trigger] canon@[k]
                                == crate::grid::pv_shift(st.cw@[k], dr, dc));
                        assert forall|i: int| 0 <= i < self.words@.len()
                            implies #[trigger] st.placed@.contains(i) by {
                            assert(st.used@[i]);
                        }
                        assert(word_map_ok(canon@, self.words@, st.placed@));
                        assert(places_words(canon@, self.words@));
                    }
                    self.emitted.push(copy);
                    items.push(canon);
                    proof {
                        assert(self.emitted@.last() == copy);
                        assert(views_of(self.emitted@) =~= views_of(pre_emitted).push(copy@));
                        assert(views_of(items@) =~= views_of(pre_items).push(canon@));
                        assert(copy@ == canon@);
                        assert(last_score(self.emitted@) == score_of(canon@));
                        assert(forall|i: int|
                            0 <= i < pre_emitted.len() ==> #[trigger] self.emitted@[i]
                                == pre_emitted[i]);
                        assert(forall|i: int|
                            0 <= i < pre_items.len() ==> #[trigger] items@[i] == pre_items[i]);
                        assert(forall|i: int|
                            0 <= i < pre_emitted.len() ==> score_of(
                                (#[trigger] pre_emitted[i])@,
                            ) <= last_score(pre_emitted));
                        assert(forall|i: int|
                            0 <= i < self.frontier@.len() ==> score_of(
                                (#[trigger] self.frontier@[i]).cw@,
                            ) >= score_of(st.cw@));
                        let last = pre_emitted.len() as int;
                        assert forall|i: int, j: int| 0 <= i < j < self.emitted@.len()
                            implies !same_arrangement(
                                (#[trigger] self.emitted@[i])@,
                                (#[trigger] self.emitted@[j])@,
                            ) by {
                            if j < last {
                                assert(self.emitted@[i] == pre_emitted[i]);
                                assert(self.emitted@[j] == pre_emitted[j]);
                            } else {
                                assert(self.emitted@[i] == pre_emitted[i]);
                                assert(self.emitted@[j]@ == canon@);
                                assert(!same_arrangement(pre_emitted[i]@, canon@));
                            }
                        }
                    }
                }
            } else {
                let mut kids = expand(&self.words, &st, w, h, reqc, allow_isolated);
                let ghost mid_emitted = self.emitted@;
                let ghost kid_good = |kid: SearchState|
                    state_wf(kid, self.words@, w as int, h as int, reqc as nat)
                        && score_of(kid.cw@) >= score_of(st.cw@);
                while kids.len() > 0
                    invariant
                        self.wf(),
                        !self.exhausted,
                        self.words@ == old(self).words@,
                        self.settings == old(self).settings,
                        self.emitted@ == mid_emitted,
                        self.fuel == fuel0 - steps,
                        steps <= fuel0,
                        fuel0 == old(self).fuel,
                        forall|i: int|
                            0 <= i < kids@.len() ==> kid_good(#[trigger] kids@[i]),
                        forall|i: int|
                            0 <= i < self.frontier@.len() ==> score_of(
                                (#[trigger] self.frontier@[i]).cw@,
                            ) >= last_score(self.emitted@),
                    decreases kids@.len(),
                {
                    let kid = match kids.pop() {
                        Some(k) => k,
                        None => {
                            proof {
                                assert(false);
                            }
                            return GenerationOutcome { items, status: EpisodeStatus::Suspended };
                        },
                    };
                    insert_state(&mut self.frontier, kid);
                }
            }
        }
    }
}

/// Copies a word list, preserving the mathematical value of every word.
fn clone_words(v: &Vec<Word>) -> (r: Vec<Word>)
    ensures
        r@.len() == v@.len(),
        forall|i: int| 0 <= i < v@.len() ==> (#[trigger] r@[i])@ == v@[i]@,
{
    let mut out: Vec<Word> = Vec::new();
    let mut k: usize = 0;
    while k < v.len()
        invariant
            k <= v@.len(),
            out@.len() == k,
            forall|i: int| 0 <= i < k ==> (#[trigger] out@[i])@ == v@[i]@,
        decreases v@.len() - k,
    {
        out.push(v[k].duplicate());
        k += 1;
    }
    out
}

/// Placing each word of one list exactly once is a property of the
/// words' mathematical values: it transfers to any value-identical list.
pub proof fn lemma_places_words_views(ps: Seq<PlacementV>, ws1: Seq<Word>, ws2: Seq<Word>)
    requires
        places_words(ps, ws1),
        ws1.len() == ws2.len(),
        forall|i: int| 0 <= i < ws1.len() ==> (#[trigger] ws1[i])@ == ws2[i]@,
    ensures
        places_words(ps, ws2),
{
    let m = choose|m: Seq<int>| #[trigger] word_map_ok(ps, ws1, m);
    assert(word_map_ok(ps, ws2, m));
}

/// The shared generator: the current configuration and at most one
/// episode. Configuring and consuming are serialized: configuring while
/// an episode is active is refused with `ConfigurationConflict`, and a
/// request snapshots the configuration atomically when it begins a new
/// episode, so no later configuration change can be observed mid-stream.
pub struct Generator {
    words: Vec<Word>,
    settings: Settings,
    episode: Option<Episode>,
}

impl Generator {
    /// The generator invariant: a sane configuration, and any live
    /// episode well-formed and frozen over the current settings and a
    /// value-identical snapshot of the current words.
    pub closed spec fn wf(self) -> bool {
        &&& self.settings.wf()
        &&& words_ok(self.words@)
        &&& self.episode matches Some(e) ==> e.wf() && e.spec_settings() == self.settings
            && e.spec_words().len() == self.words@.len()
            && (forall|i: int|
                0 <= i < self.words@.len() ==> (#[trigger] e.spec_words()[i])@
                    == self.words@[i]@)
    }

    /// An episode is active until it is exhausted or cancelled.
    pub closed spec fn active(self) -> bool {
        self.episode matches Some(e) && !e.spec_exhausted()
    }

    /// Has an episode been begun and not yet discarded?
    pub closed spec fn episode_started(self) -> bool {
        self.episode is Some
    }

    pub closed spec fn spec_settings(self) -> Settings {
        self.settings
    }

    pub closed spec fn spec_words(self) -> Seq<Word> {
        self.words@
    }

    /// The emission log of the current episode (empty when none has
    /// begun).
    pub closed spec fn spec_emitted_log(self) -> Seq<Crossword> {
        match self.episode {
            Some(e) => e.spec_emitted(),
            None => Seq::empty(),
        }
    }

    /// The search effort remaining in the current episode; a fresh
    /// episode would start with the full allowance of the settings.
    pub closed spec fn spec_fuel(self) -> u64 {
        match self.episode {
            Some(e) => e.spec_fuel(),
            None => self.settings.search_step_budget,
        }
    }

    /// The current episode's frontier size; a fresh episode would begin
    /// with exactly one state.
    pub closed spec fn spec_frontier_len(self) -> nat {
        match self.episode {
            Some(e) => e.spec_frontier_len(),
            None => 1,
        }
    }

    /// A fresh generator: no words, default settings, no episode.
    pub fn new() -> (g: Generator)
        ensures
            g.wf(),
            !g.active(),
            g.spec_words().len() == 0,
    {
        Generator { words: Vec::new(), settings: Settings::default(), episode: None }
    }

    /// Installs a new configuration snapshot. Refused with
    /// `ConfigurationConflict` exactly when an episode is active (it must
    /// first run to exhaustion or be cancelled); on success any finished
    /// episode is discarded and the next request starts fresh.
    pub fn configure(&mut self, words: Vec<Word>, settings: Settings) -> (r: Result<(), crate::word::Error>)
        requires
            old(self).wf(),
            settings.wf(),
            words_ok(words@),
        ensures
            final(self).wf(),
            r is Err <==> old(self).active(),
            r matches Err(e) ==> e == crate::word::Error::ConfigurationConflict
                && final(self).spec_settings() == old(self).spec_settings(),
            r is Ok ==> final(self).spec_settings() == settings
                && final(self).spec_words() == words@ && !final(self).active(),
    {
        match &self.episode {
            Some(e) => {
                if !e.is_exhausted() {
                    return Err(crate::word::Error::ConfigurationConflict);
                }
            },
            None => {},
        }
        self.words = words;
        self.settings = settings;
        self.episode = None;
        Ok(())
    }

    /// Drives the current episode by one admission-controlled request,
    /// starting a new episode over a snapshot of the configuration if
    /// none is live. The guarantees mirror `Episode::request`: every
    /// emitted crossword is a well-formed result for the current
    /// settings that places each configured word exactly once; the
    /// episode's emission log grows by exactly the items returned, stays
    /// sorted by score and free of repeated arrangements; an exhausted
    /// episode emits nothing and stays exhausted until reconfigured; and
    /// a suspended request has strictly decreased the remaining fuel.
    pub fn request(&mut self, req: GenerationRequest) -> (out: GenerationOutcome)
        requires
            old(self).wf(),
        ensures
            final(self).wf(),
            final(self).spec_settings() == old(self).spec_settings(),
            final(self).spec_words() == old(self).spec_words(),
            forall|i: int|
                0 <= i < out.items@.len() ==> crate::grid::result_wf(
                    (#[trigger] out.items@[i])@,
                    old(self).spec_settings().max_width as int,
                    old(self).spec_settings().max_height as int,
                    old(self).spec_settings().req(),
                ),
            forall|i: int|
                0 <= i < out.items@.len() ==> places_words(
                    (#[trigger] out.items@[i])@,
                    old(self).spec_words(),
                ),
            views_of(final(self).spec_emitted_log()) =~= views_of(old(self).spec_emitted_log())
                + views_of(out.items@),
            forall|i: int, j: int|
                0 <= i < j < out.items@.len() ==> score_of((#[trigger] out.items@[i])@)
                    <= score_of((#[trigger] out.items@[j])@),
            forall|i: int|
                0 <= i < out.items@.len() ==> score_of((#[trigger] out.items@[i])@)
                    >= last_score(old(self).spec_emitted_log()),
            forall|i: int, j: int|
                0 <= i < j < final(self).spec_emitted_log().len() ==> !same_arrangement(
                    (#[trigger] final(self).spec_emitted_log()[i])@,
                    (#[trigger] final(self).spec_emitted_log()[j])@,
                ),
            req matches GenerationRequest::Count(n) ==> out.items@.len() <= n,
            req matches GenerationRequest::Count(n) ==> (out.status is Idle
                ==> out.items@.len() == n),
            req is Cancel ==> out.items@.len() == 0 && !final(self).active(),
            out.status is Exhausted ==> !final(self).active(),
            old(self).episode_started() && !old(self).active() ==> out.items@.len() == 0
                && !final(self).active(),
            final(self).spec_fuel() <= old(self).spec_fuel(),
            out.status is Suspended ==> final(self).spec_fuel() < old(self).spec_fuel(),
            out.status is Exhausted && !(old(self).episode_started() && !old(self).active())
                ==> (req is Cancel || old(self).spec_frontier_len() == 0
                || old(self).spec_fuel() == 0
                || final(self).spec_fuel() < old(self).spec_fuel()
                || (old(self).spec_settings().max_results matches Some(m)
                    && final(self).spec_emitted_log().len() >= m)),
    {
        let ghost base_words = self.words@;
        if self.episode.is_none() {
            let snapshot = clone_words(&self.words);
            assert(words_ok(snapshot@));
            self.episode = Some(Episode::new(snapshot, self.settings));
        }
        match &mut self.episode {
            Some(e) => {
                let ghost ep_words = e.spec_words();
                let out = e.request(req);
                proof {
                    assert forall|i: int| 0 <= i < out.items@.len()
                        implies places_words((#[trigger] out.items@[i])@, base_words) by {
                        lemma_places_words_views(out.items@[i]@, ep_words, base_words);
                    }
                }
                out
            },
            None => {
                proof {
                    assert(false);
                }
                GenerationOutcome { items: Vec::new(), status: EpisodeStatus::Suspended }
            },
        }
    }

    /// Has an episode been begun (and not discarded by reconfiguring)?
    pub fn episode_begun(&self) -> (r: bool)
        ensures
            r == self.episode_started(),
    {
        self.episode.is_some()
    }

    /// Is the current episode terminally out of results? True also when
    /// no episode has started and none could emit (before any request a
    /// fresh episode would be begun instead).
    pub fn episode_finished(&self) -> (r: bool)
        ensures
            r == !self.active(),
    {
        match &self.episode {
            Some(e) => e.is_exhausted(),
            None => true,
        }
    }
}

/// Exec mirror of `Settings::req`.
fn crossings_needed(s: &Settings) -> (r: usize)
    ensures
        r as nat == s.req(),
{
    if s.allow_isolated_words {
        0
    } else if s.min_intersections_per_word < 1 {
        1
    } else {
        s.min_intersections_per_word
    }
}

} // verus!
