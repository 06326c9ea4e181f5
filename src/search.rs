use vstd::prelude::*;
use rand::rngs::StdRng;
use rand_distr::Geometric;
use crate::grid::{count_true, flip_switch, flipped, minority, Grid};
use crate::moves::{is_selection, rank_from_draw, rank_of, move_scores, select_move, Move, ScoredMove};

verus! {

/// rand's seedable generator, carried through the search as an opaque value.
#[verifier::external_type_specification]
#[verifier::external_body]
pub struct ExStdRng(StdRng);

/// rand_distr's geometric distribution, carried through the search as an
/// opaque value.
#[verifier::external_type_specification]
#[verifier::external_body]
pub struct ExGeometric(Geometric);

/// Relies on rand_distr's `Geometric::sample` (its `Distribution<u64>` impl):
/// one draw of a number of failures before the first success. Nothing is
/// known of the value, which may be any `u64`.
#[verifier::external_body]
fn draw_failures(dist: &Geometric, rng: &mut StdRng) -> (r: u64) {
    rand_distr::Distribution::sample(dist, rng)
}

/// The cells of an `n` by `n` grid after the flips `ms`, in order.
pub open spec fn walk(cells: Seq<bool>, n: nat, ms: Seq<Move>) -> Seq<bool>
    decreases ms.len(),
{
    if ms.len() == 0 {
        cells
    } else {
        let m = ms.last();
        flipped(walk(cells, n, ms.drop_last()), n, m.row as nat, m.col as nat)
    }
}

/// The key of the record held after the flips `ms` when the record was set by
/// the first `b` of them: twice the minority count of that grid, or, while no
/// record was set (`b == 0`), the number of cells, which stands for entropy
/// one.
pub open spec fn record_key(cells: Seq<bool>, n: nat, ms: Seq<Move>, b: nat) -> nat {
    if b == 0 {
        cells.len()
    } else {
        2 * minority(walk(cells, n, ms.take(b as int)))
    }
}

/// How many of the flips `ms` led to the recorded best grid: a grid replaces
/// the record when its entropy is strictly lower; `0` when none ever did.
pub open spec fn best_prefix_len(cells: Seq<bool>, n: nat, ms: Seq<Move>) -> nat
    decreases ms.len(),
{
    if ms.len() == 0 {
        0
    } else {
        let b = best_prefix_len(cells, n, ms.drop_last());
        if 2 * minority(walk(cells, n, ms)) < record_key(cells, n, ms.drop_last(), b) {
            ms.len()
        } else {
            b
        }
    }
}

/// Every flip of `ms` is one that the selector can pick from the grid that
/// the flips before it produced.
pub open spec fn valid_run(cells: Seq<bool>, n: nat, ms: Seq<Move>) -> bool {
    forall|k: int| 0 <= k < ms.len() ==> #[trigger] selectable(cells, n, ms, k)
}

/// Flip `k` of `ms` is one that the selector can pick from the grid that the
/// flips before it produced.
pub open spec fn selectable(cells: Seq<bool>, n: nat, ms: Seq<Move>, k: int) -> bool {
    exists|d: u64, sm: ScoredMove|
        is_selection(move_scores(walk(cells, n, ms.take(k)), n), d, sm) && ms[k] == (Move {
            row: sm.row,
            col: sm.col,
        })
}

/// A run stays valid when a flip that the selector can pick is appended.
proof fn lemma_valid_run_push(cells: Seq<bool>, n: nat, ms: Seq<Move>, m: Move, d: u64, sm: ScoredMove)
    requires
        valid_run(cells, n, ms),
        is_selection(move_scores(walk(cells, n, ms), n), d, sm),
        m == (Move { row: sm.row, col: sm.col }),
    ensures
        valid_run(cells, n, ms.push(m)),
{
    let ms2 = ms.push(m);
    assert forall|k: int| 0 <= k < ms2.len() implies #[trigger] selectable(cells, n, ms2, k) by {
        if k < ms.len() {
            assert(ms2.take(k) =~= ms.take(k));
            assert(ms2[k] == ms[k]);
            assert(selectable(cells, n, ms, k));
            let (d2, sm2) = choose|d2: u64, sm2: ScoredMove|
                is_selection(move_scores(walk(cells, n, ms.take(k)), n), d2, sm2) && ms[k] == (Move {
                    row: sm2.row,
                    col: sm2.col,
                });
            assert(is_selection(move_scores(walk(cells, n, ms2.take(k)), n), d2, sm2));
        } else {
            assert(ms2.take(k) =~= ms);
            assert(is_selection(move_scores(walk(cells, n, ms2.take(k)), n), d, sm));
        }
    }
}

/// How one more flip moves the record: the new grid becomes the record when
/// its key is below the record's, and the record stays otherwise.
proof fn lemma_record_push(cells: Seq<bool>, n: nat, ms: Seq<Move>, m: Move)
    requires
        best_prefix_len(cells, n, ms) <= ms.len(),
    ensures
        ({
            let ms2 = ms.push(m);
            let b = best_prefix_len(cells, n, ms);
            &&& walk(cells, n, ms2) == flipped(walk(cells, n, ms), n, m.row as nat, m.col as nat)
            &&& if 2 * minority(walk(cells, n, ms2)) < record_key(cells, n, ms, b) {
                &&& best_prefix_len(cells, n, ms2) == ms2.len()
                &&& ms2.take(ms2.len() as int) == ms2
                &&& record_key(cells, n, ms2, ms2.len()) == 2 * minority(walk(cells, n, ms2))
            } else {
                &&& best_prefix_len(cells, n, ms2) == b
                &&& ms2.take(b as int) == ms.take(b as int)
                &&& record_key(cells, n, ms2, b) == record_key(cells, n, ms, b)
            }
        }),
{
    let ms2 = ms.push(m);
    let b = best_prefix_len(cells, n, ms);
    assert(ms2.drop_last() =~= ms);
    assert(ms2.take(ms2.len() as int) =~= ms2);
    assert(ms2.take(b as int) =~= ms.take(b as int));
}

/// What a search hands back: the best grid it saw and the flips, from the
/// starting grid, that produced it.
#[derive(Debug)]
pub struct SearchResult {
    pub grid: Grid,
    pub moves: Vec<Move>,
}

/// A search in progress.
#[derive(Debug)]
pub struct SearchState {
    /// The grid the search started from.
    pub start: Grid,
    /// The grid after every flip made so far.
    pub current: Grid,
    /// Every flip made so far.
    pub moves: Vec<Move>,
    /// The grid with the lowest entropy seen so far (the start while none was
    /// recorded).
    pub best: Grid,
    /// Twice the minority count of `best`, or the number of cells while no
    /// grid was recorded.
    pub best_key: usize,
    /// The flips that led to `best`.
    pub best_moves: Vec<Move>,
}

fn copy_grid(g: &Grid) -> (r: Grid)
    ensures
        r.size == g.size,
        r.cells@ == g.cells@,
{
    let mut cells: Vec<bool> = Vec::with_capacity(g.cells.len());
    let mut i: usize = 0;
    while i < g.cells.len()
        invariant
            0 <= i <= g.cells@.len(),
            cells@ == g.cells@.take(i as int),
        decreases g.cells@.len() - i,
    {
        proof {
            assert(g.cells@.take(i + 1) == g.cells@.take(i as int).push(g.cells@[i as int]));
        }
        cells.push(g.cells[i]);
        i += 1;
    }
    proof {
        assert(g.cells@.take(i as int) =~= g.cells@);
    }
    Grid { size: g.size, cells }
}

fn copy_moves(v: &Vec<Move>) -> (r: Vec<Move>)
    ensures
        r@ == v@,
{
    let mut out: Vec<Move> = Vec::with_capacity(v.len());
    let mut i: usize = 0;
    while i < v.len()
        invariant
            0 <= i <= v@.len(),
            out@ == v@.take(i as int),
        decreases v@.len() - i,
    {
        proof {
            assert(v@.take(i + 1) == v@.take(i as int).push(v@[i as int]));
        }
        out.push(v[i]);
        i += 1;
    }
    proof {
        assert(v@.take(i as int) =~= v@);
    }
    out
}

impl SearchState {
    /// The state holds the search from `start` after the flips `moves`: the
    /// current grid, the record and its flips are what those flips give.
    pub open spec fn wf(&self) -> bool {
        let n = self.start.size as nat;
        let cells = self.start.cells@;
        let ms = self.moves@;
        let b = best_prefix_len(cells, n, ms);
        &&& self.start.wf()
        &&& self.current.wf()
        &&& self.best.wf()
        &&& self.current.size == n
        &&& self.best.size == n
        &&& self.current.cells@ == walk(cells, n, ms)
        &&& valid_run(cells, n, ms)
        &&& b <= ms.len()
        &&& self.best_moves@ == ms.take(b as int)
        &&& self.best.cells@ == walk(cells, n, ms.take(b as int))
        &&& self.best_key == record_key(cells, n, ms, b)
    }

    /// A search about to start from `start`, with no flip made and the start
    /// as the record.
    pub fn new(start: &Grid) -> (r: SearchState)
        requires
            start.wf(),
        ensures
            r.wf(),
            r.start.size == start.size,
            r.start.cells@ == start.cells@,
            r.moves@.len() == 0,
    {
        let current = copy_grid(start);
        let best = copy_grid(start);
        let best_key = start.cells.len();
        let r = SearchState {
            start: copy_grid(start),
            current,
            moves: Vec::new(),
            best,
            best_key,
            best_moves: Vec::new(),
        };
        proof {
            assert(r.moves@.take(0) =~= r.moves@);
        }
        r
    }

    /// One step of the search: picks the flip at rank `draw mod N²` of the
    /// current grid's candidates, applies it, and records the new grid when
    /// its entropy is strictly below the record's.
    pub fn search_step(&mut self, draw: u64)
        requires
            old(self).wf(),
        ensures
            final(self).wf(),
            final(self).start == old(self).start,
            exists|sm: ScoredMove|
                is_selection(
                    move_scores(old(self).current.cells@, old(self).current.size as nat),
                    draw,
                    sm,
                ) && final(self).moves@ == old(self).moves@.push((Move { row: sm.row, col: sm.col })),
    {
        let ghost n = self.start.size as nat;
        let ghost cells = self.start.cells@;
        let ghost ms = self.moves@;
        let sm = select_move(&self.current, draw);
        let next = flip_switch(&self.current, sm.row, sm.col);
        let m = Move { row: sm.row, col: sm.col };
        self.moves.push(m);
        let half = next.minority_count();
        let total = next.cells.len();
        let key = 2 * half;
        proof {
            lemma_valid_run_push(cells, n, ms, m, draw, sm);
            lemma_record_push(cells, n, ms, m);
            assert(self.moves@ == ms.push(m));
        }
        if key < self.best_key {
            self.best = copy_grid(&next);
            self.best_key = key;
            self.best_moves = copy_moves(&self.moves);
        }
        self.current = next;
    }

    /// Ends the search: the recorded grid and the flips that led to it.
    pub fn into_result(self) -> (r: SearchResult)
        requires
            self.wf(),
        ensures
            r.grid == self.best,
            r.moves == self.best_moves,
    {
        SearchResult { grid: self.best, moves: self.best_moves }
    }
}

/// Draws a rank below `len`: a geometric draw from `dist`, taken modulo
/// `len`. A geometric distribution forgets its past, so the remainder has the
/// same law as drawing again until the value is below `len`.
pub fn sample_rank(dist: &Geometric, rng: &mut StdRng, len: usize) -> (r: usize)
    requires
        len > 0,
    ensures
        exists|d: u64| r == #[trigger] rank_of(d, len as nat),
        r < len,
{
    let d = draw_failures(dist, rng);
    rank_from_draw(d, len)
}

/// Picks a flip of `grid` at a random rank drawn from `dist`: low-entropy
/// results are favoured, higher ones stay possible.
pub fn sample_low_entropy_move(grid: &Grid, dist: &Geometric, rng: &mut StdRng) -> (r: ScoredMove)
    requires
        grid.wf(),
    ensures
        exists|d: u64| is_selection(move_scores(grid.cells@, grid.size as nat), d, r),
{
    let d = draw_failures(dist, rng);
    select_move(grid, d)
}

/// Runs the search from `grid` for `max_steps` steps, each with a rank drawn
/// from `dist`, and returns the lowest-entropy grid seen with the flips that
/// produced it. With no step taken, or when no step ever went below entropy
/// one, that is `grid` itself with no flip.
pub fn minimize_board_entropy(grid: &Grid, max_steps: usize, dist: &Geometric, rng: &mut StdRng) -> (r: SearchResult)
    requires
        grid.wf(),
    ensures
        r.grid.wf(),
        r.grid.size == grid.size,
        exists|ms: Seq<Move>|
            {
                &&& ms.len() == max_steps
                &&& valid_run(grid.cells@, grid.size as nat, ms)
                &&& r.moves@ == ms.take(best_prefix_len(grid.cells@, grid.size as nat, ms) as int)
            },
        r.grid.cells@ == walk(grid.cells@, grid.size as nat, r.moves@),
        max_steps == 0 ==> r.moves@.len() == 0 && r.grid.cells@ == grid.cells@,
{
    let mut st = SearchState::new(grid);
    let mut i: usize = 0;
    while i < max_steps
        invariant
            st.wf(),
            st.start.size == grid.size,
            st.start.cells@ == grid.cells@,
            st.moves@.len() == i,
            0 <= i <= max_steps,
        decreases max_steps - i,
    {
        let d = draw_failures(dist, rng);
        st.search_step(d);
        i += 1;
    }
    let ghost ms = st.moves@;
    let r = st.into_result();
    proof {
        if max_steps == 0 {
            assert(ms.take(0) =~= ms);
        }
    }
    r
}

/// The record is never worse than any grid that the flips produced below
/// entropy one; while none did, the record is the start, with the number of
/// cells as its key.
pub proof fn lemma_record_is_minimal(cells: Seq<bool>, n: nat, ms: Seq<Move>)
    ensures
        best_prefix_len(cells, n, ms) <= ms.len(),
        record_key(cells, n, ms, best_prefix_len(cells, n, ms)) <= cells.len(),
        forall|k: int|
            1 <= k <= ms.len() && 2 * minority(#[trigger] walk(cells, n, ms.take(k))) < cells.len()
                ==> record_key(cells, n, ms, best_prefix_len(cells, n, ms)) <= 2 * minority(
                walk(cells, n, ms.take(k)),
            ),
    decreases ms.len(),
{
    if ms.len() > 0 {
        let ms0 = ms.drop_last();
        let m = ms.last();
        lemma_record_is_minimal(cells, n, ms0);
        lemma_record_push(cells, n, ms0, m);
        assert(ms0.push(m) =~= ms);
        assert forall|k: int|
            1 <= k <= ms.len() && 2 * minority(#[trigger] walk(cells, n, ms.take(k))) < cells.len()
                implies record_key(cells, n, ms, best_prefix_len(cells, n, ms)) <= 2 * minority(
            walk(cells, n, ms.take(k)),
        ) by {
            if k < ms.len() {
                assert(ms.take(k) =~= ms0.take(k));
            } else {
                assert(ms.take(k) =~= ms);
            }
        }
    }
}

/// A search never ends worse than where it started once one of its steps went
/// strictly below the start's entropy: the recorded grid is then itself
/// strictly below the start's entropy.
pub proof fn lemma_search_never_worse(cells: Seq<bool>, n: nat, ms: Seq<Move>, k: int)
    requires
        1 <= k <= ms.len(),
        minority(walk(cells, n, ms.take(k))) < minority(cells),
    ensures
        best_prefix_len(cells, n, ms) > 0,
        minority(walk(cells, n, ms.take(best_prefix_len(cells, n, ms) as int))) < minority(cells),
{
    crate::grid::lemma_entropy_extremes(cells);
    lemma_record_is_minimal(cells, n, ms);
    assert(2 * minority(walk(cells, n, ms.take(k))) < cells.len());
}

/// The key of a search's record is twice the minority count of the recorded
/// grid, which is the starting grid, keyed by its number of cells, while no
/// flip was recorded.
pub proof fn lemma_record_matches_grid(st: SearchState)
    requires
        st.wf(),
    ensures
        st.best_moves@.len() > 0 ==> st.best_key == 2 * minority(st.best.cells@),
        st.best_moves@.len() == 0 ==> st.best.cells@ == st.start.cells@ && st.best_key
            == st.start.cells@.len(),
{
    let b = best_prefix_len(st.start.cells@, st.start.size as nat, st.moves@);
    if b == 0 {
        assert(st.moves@.take(0) =~= Seq::<Move>::empty());
    }
}

/// The record, stated directly: with `key(k)` twice the minority count of
/// the grid after the first `k` flips, the record is the earliest `k` of
/// least key among `1..=|ms|`, provided that key is below the number of
/// cells (entropy one); when no key is, the record is the start, with no flip.
pub proof fn lemma_best_prefix_is_earliest_least(cells: Seq<bool>, n: nat, ms: Seq<Move>)
    ensures
        ({
            let b = best_prefix_len(cells, n, ms);
            let best_key = 2 * minority(walk(cells, n, ms.take(b as int)));
            &&& b <= ms.len()
            &&& (b == 0 <==> forall|k: int|
                1 <= k <= ms.len() ==> 2 * minority(#[trigger] walk(cells, n, ms.take(k)))
                    >= cells.len())
            &&& b > 0 ==> {
                &&& best_key < cells.len()
                &&& forall|k: int|
                    1 <= k <= ms.len() ==> best_key <= 2 * minority(
                        #[trigger] walk(cells, n, ms.take(k)),
                    )
                &&& forall|k: int|
                    1 <= k < b ==> best_key < 2 * minority(#[trigger] walk(cells, n, ms.take(k)))
            }
        }),
    decreases ms.len(),
{
    if ms.len() > 0 {
        let ms0 = ms.drop_last();
        let m = ms.last();
        let b0 = best_prefix_len(cells, n, ms0);
        let b = best_prefix_len(cells, n, ms);
        lemma_best_prefix_is_earliest_least(cells, n, ms0);
        lemma_record_push(cells, n, ms0, m);
        assert(ms0.push(m) =~= ms);
        assert forall|k: int| 1 <= k <= ms0.len() implies #[trigger] ms.take(k) == ms0.take(k) by {
            assert(ms.take(k) =~= ms0.take(k));
        }
        assert(ms.take(ms.len() as int) =~= ms);
        let new_key = 2 * minority(walk(cells, n, ms));
        assert(walk(cells, n, ms.take(ms.len() as int)) == walk(cells, n, ms));
        if b0 > 0 {
            assert(ms.take(b0 as int) == ms0.take(b0 as int));
        }
        let best_key = 2 * minority(walk(cells, n, ms.take(b as int)));
        if b == 0 {
            assert forall|k: int|
                1 <= k <= ms.len() implies 2 * minority(#[trigger] walk(cells, n, ms.take(k)))
                >= cells.len() by {
                if k < ms.len() {
                    assert(walk(cells, n, ms.take(k)) == walk(cells, n, ms0.take(k)));
                }
            }
        } else {
            if b == b0 {
                assert forall|k: int|
                    1 <= k <= ms.len() implies best_key <= 2 * minority(
                    #[trigger] walk(cells, n, ms.take(k)),
                ) by {
                    if k < ms.len() {
                        assert(walk(cells, n, ms.take(k)) == walk(cells, n, ms0.take(k)));
                    }
                }
                assert forall|k: int|
                    1 <= k < b implies best_key < 2 * minority(
                    #[trigger] walk(cells, n, ms.take(k)),
                ) by {
                    assert(walk(cells, n, ms.take(k)) == walk(cells, n, ms0.take(k)));
                }
            } else {
                assert forall|k: int|
                    1 <= k <= ms.len() implies best_key <= 2 * minority(
                    #[trigger] walk(cells, n, ms.take(k)),
                ) by {
                    if k < ms.len() {
                        assert(walk(cells, n, ms.take(k)) == walk(cells, n, ms0.take(k)));
                    }
                }
                assert forall|k: int|
                    1 <= k < b implies best_key < 2 * minority(
                    #[trigger] walk(cells, n, ms.take(k)),
                ) by {
                    assert(walk(cells, n, ms.take(k)) == walk(cells, n, ms0.take(k)));
                }
            }
        }
    }
}

/// How many of the first `m` cells of an `n` by `n` grid lie in row `r` or
/// in column `c`: the cells that flipping `(r, c)` inverts.
pub open spec fn cross_count(n: nat, r: nat, c: nat, m: nat) -> nat
    decreases m,
{
    if m == 0 {
        0
    } else {
        let i = (m - 1) as int;
        cross_count(n, r, c, (m - 1) as nat) + if i / (n as int) == r || i % (n as int) == c {
            1nat
        } else {
            0nat
        }
    }
}

proof fn lemma_cross_count_closed(n: nat, r: nat, c: nat, m: nat)
    requires
        0 < n,
        r < n,
        c < n,
        m <= n * n,
    ensures
        ({
            let q = m as int / n as int;
            let j = m as int % n as int;
            cross_count(n, r, c, m) == q + (if q > r { n - 1 } else { 0 }) + (if q == r { j } else { 0 })
                + (if q != r && j > c { 1int } else { 0 })
        }),
    decreases m,
{
    if m > 0 {
        let p = (m - 1) as nat;
        lemma_cross_count_closed(n, r, c, p);
        let ni = n as int;
        let q = p as int / ni;
        let j = p as int % ni;
        vstd::arithmetic::div_mod::lemma_fundamental_div_mod(p as int, ni);
        vstd::arithmetic::div_mod::lemma_mod_bound(p as int, ni);
        assert(ni * q == q * ni) by (nonlinear_arith);
        if j < ni - 1 {
            vstd::arithmetic::div_mod::lemma_fundamental_div_mod_converse(m as int, ni, q, j + 1);
        } else {
            assert(m as int == (q + 1) * ni + 0) by (nonlinear_arith)
                requires
                    p as int == q * ni + j,
                    j == ni - 1,
                    m == p + 1,
            ;
            vstd::arithmetic::div_mod::lemma_fundamental_div_mod_converse(m as int, ni, q + 1, 0);
        }
    }
}

/// The true cells of the first `m` cells of a grid and of that grid flipped
/// at `(r, c)` differ in number by the inverted cells among them, modulo two.
proof fn lemma_flip_parity_prefix(cells: Seq<bool>, n: nat, r: nat, c: nat, m: nat)
    requires
        m <= cells.len(),
    ensures
        (count_true(cells.take(m as int)) + count_true(flipped(cells, n, r, c).take(m as int))
            + cross_count(n, r, c, m)) % 2 == 0,
    decreases m,
{
    if m > 0 {
        let p = (m - 1) as nat;
        lemma_flip_parity_prefix(cells, n, r, c, p);
        let f = flipped(cells, n, r, c);
        assert(cells.take(m as int).drop_last() =~= cells.take(p as int));
        assert(f.take(m as int).drop_last() =~= f.take(p as int));
    }
}

/// Flipping a switch of an `n` by `n` grid changes the parity of the number
/// of switches that are on: it inverts `2n - 1` cells.
pub proof fn lemma_flip_changes_parity(cells: Seq<bool>, n: nat, r: nat, c: nat)
    requires
        cells.len() == n * n,
        0 < n,
        r < n,
        c < n,
    ensures
        (count_true(cells) + count_true(flipped(cells, n, r, c))) % 2 == 1,
{
    lemma_flip_parity_prefix(cells, n, r, c, n * n);
    lemma_cross_count_closed(n, r, c, n * n);
    vstd::arithmetic::div_mod::lemma_fundamental_div_mod_converse((n * n) as int, n as int, n as int, 0);
    assert(cells.take(cells.len() as int) =~= cells);
    assert(flipped(cells, n, r, c).take(cells.len() as int) =~= flipped(cells, n, r, c));
}

/// A search that takes at least one step from a grid with an even number of
/// switches on always records a grid: its first flip leaves an odd number on,
/// which is never half of the cells, so the returned grid has entropy below
/// one and comes with at least one flip.
pub proof fn lemma_even_start_records(cells: Seq<bool>, n: nat, ms: Seq<Move>)
    requires
        cells.len() == n * n,
        0 < n,
        ms.len() >= 1,
        ms[0].row < n,
        ms[0].col < n,
        count_true(cells) % 2 == 0,
    ensures
        best_prefix_len(cells, n, ms) > 0,
        2 * minority(walk(cells, n, ms.take(best_prefix_len(cells, n, ms) as int))) < cells.len(),
{
    let m0 = ms[0];
    let one = ms.take(1);
    assert(one.drop_last() =~= Seq::<Move>::empty());
    assert(walk(cells, n, one.drop_last()) == cells);
    assert(one.last() == m0);
    let f = flipped(cells, n, m0.row as nat, m0.col as nat);
    assert(walk(cells, n, one) == f);
    lemma_flip_changes_parity(cells, n, m0.row as nat, m0.col as nat);
    crate::grid::lemma_entropy_extremes(f);
    let k = count_true(f);
    let len = (n * n) as int;
    if 2 * k == len {
        if n % 2 == 0 {
            let h = n as int / 2;
            assert(len == 4 * (h * h)) by (nonlinear_arith)
                requires
                    n as int == 2 * h,
                    len == n * n,
            ;
        } else {
            let h = n as int / 2;
            assert(len == 2 * (2 * h * h + 2 * h) + 1) by (nonlinear_arith)
                requires
                    n as int == 2 * h + 1,
                    len == n * n,
            ;
        }
    }
    assert(2 * minority(walk(cells, n, ms.take(1))) < cells.len());
    lemma_best_prefix_is_earliest_least(cells, n, ms);
}

/// Flips keep the number of cells.
pub proof fn lemma_walk_len(cells: Seq<bool>, n: nat, ms: Seq<Move>)
    ensures
        walk(cells, n, ms).len() == cells.len(),
    decreases ms.len(),
{
    if ms.len() > 0 {
        lemma_walk_len(cells, n, ms.drop_last());
    }
}

/// Every flip of a valid run names a switch of the grid.
pub proof fn lemma_valid_run_in_range(cells: Seq<bool>, n: nat, ms: Seq<Move>, k: int)
    requires
        valid_run(cells, n, ms),
        0 < n <= usize::MAX,
        cells.len() == n * n,
        0 <= k < ms.len(),
    ensures
        ms[k].row < n,
        ms[k].col < n,
{
    assert(selectable(cells, n, ms, k));
    let (d, sm) = choose|d: u64, sm: ScoredMove|
        is_selection(move_scores(walk(cells, n, ms.take(k)), n), d, sm) && ms[k] == (Move {
            row: sm.row,
            col: sm.col,
        });
    let w = walk(cells, n, ms.take(k));
    lemma_walk_len(cells, n, ms.take(k));
    crate::moves::lemma_move_scores_cover(w, n);
    assert(move_scores(w, n).len() > 0) by (nonlinear_arith)
        requires
            move_scores(w, n).len() == n * n,
            n > 0,
    ;
    crate::moves::lemma_selection_is_candidate(move_scores(w, n), d, sm);
}

/// A search of at least one step from a grid with an even number of switches
/// on returns a grid below entropy one, reached by at least one flip.
pub proof fn lemma_even_start_search_records(cells: Seq<bool>, n: nat, ms: Seq<Move>)
    requires
        valid_run(cells, n, ms),
        0 < n <= usize::MAX,
        cells.len() == n * n,
        ms.len() >= 1,
        count_true(cells) % 2 == 0,
    ensures
        best_prefix_len(cells, n, ms) > 0,
        2 * minority(walk(cells, n, ms.take(best_prefix_len(cells, n, ms) as int))) < cells.len(),
{
    lemma_valid_run_in_range(cells, n, ms, 0);
    lemma_even_start_records(cells, n, ms);
}

} // verus!
