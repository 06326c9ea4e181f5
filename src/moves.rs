use vstd::prelude::*;
use crate::grid::{flip_switch, flipped, lemma_cell_of_index, lemma_index_in_grid, minority, Grid};

verus! {

/// A flip of switch `(row, col)`.
#[derive(Debug, Clone, Copy, PartialEq, Eq, Structural)]
pub struct Move {
    pub row: usize,
    pub col: usize,
}

/// A candidate flip with the minority count of the grid it would produce.
/// Entropy grows strictly with that count, so ordering by it orders by
/// resulting entropy.
#[derive(Debug, Clone, Copy, PartialEq, Eq, Structural)]
pub struct ScoredMove {
    pub row: usize,
    pub col: usize,
    pub score: usize,
}

/// Every flip of the `n` by `n` grid `cells`, in row-major order, each with
/// the minority count of the grid that it produces.
pub open spec fn move_scores(cells: Seq<bool>, size: nat) -> Seq<ScoredMove> {
    let n = size as int;
    Seq::new(
        (n * n) as nat,
        |i: int|
            ScoredMove {
                row: (i / n) as usize,
                col: (i % n) as usize,
                score: minority(flipped(cells, size, (i / n) as nat, (i % n) as nat))
                    as usize,
            },
    )
}

/// Candidate `i` comes before candidate `j`: a lower score, or an equal score
/// and an earlier position.
pub open spec fn ranks_before(s: Seq<ScoredMove>, i: int, j: int) -> bool {
    s[i].score < s[j].score || (s[i].score == s[j].score && i < j)
}

/// `order` lists the positions of `s` sorted by ascending score, equal scores
/// kept in their original order: a stable sort.
pub open spec fn is_stable_ranking(s: Seq<ScoredMove>, order: Seq<usize>) -> bool {
    &&& order.len() == s.len()
    &&& forall|k: int| 0 <= k < order.len() ==> order[k] < s.len()
    &&& forall|k1: int, k2: int|
        0 <= k1 < k2 < order.len() ==> ranks_before(s, #[trigger] order[k1] as int, #[trigger] order[k2] as int)
    &&& forall|i: usize| i < s.len() ==> #[trigger] order.contains(i)
}

/// The rank that a draw picks among `len` candidates.
pub open spec fn rank_of(draw: u64, len: nat) -> int {
    (draw as int) % (len as int)
}

/// The rank that `draw` picks among `len` candidates: the draw modulo `len`.
pub fn rank_from_draw(draw: u64, len: usize) -> (r: usize)
    requires
        len > 0,
    ensures
        r == rank_of(draw, len as nat),
{
    (draw % (len as u64)) as usize
}

/// `m` is the candidate of `s` at rank `draw mod |s|` of the stable ranking
/// by score.
pub open spec fn is_selection(s: Seq<ScoredMove>, draw: u64, m: ScoredMove) -> bool {
    exists|order: Seq<usize>|
        is_stable_ranking(s, order) && m == s[order[rank_of(draw, s.len())] as int]
}

/// Scores every flip of `grid`: for each switch, in row-major order, the
/// minority count of the grid that flipping it gives.
pub fn find_all_move_entropies(grid: &Grid) -> (r: Vec<ScoredMove>)
    requires
        grid.wf(),
    ensures
        r@ == move_scores(grid.cells@, grid.size as nat),
{
    let n = grid.size;
    let total = grid.cells.len();
    let mut out: Vec<ScoredMove> = Vec::with_capacity(total);
    let mut row: usize = 0;
    while row < n
        invariant
            grid.wf(),
            n == grid.size,
            total == n * n,
            0 <= row <= n,
            out@.len() == row * n,
            forall|j: int| 0 <= j < out@.len() ==> out@[j] == move_scores(grid.cells@, grid.size as nat)[j],
        decreases n - row,
    {
        let mut col: usize = 0;
        while col < n
            invariant
                grid.wf(),
                n == grid.size,
                total == n * n,
                0 <= row < n,
                0 <= col <= n,
                out@.len() == row * n + col,
                forall|j: int| 0 <= j < out@.len() ==> out@[j] == move_scores(grid.cells@, grid.size as nat)[j],
            decreases n - col,
        {
            let next = flip_switch(grid, row, col);
            let score = next.minority_count();
            proof {
                lemma_index_in_grid(n as int, row as int, col as int);
            }
            out.push(ScoredMove { row, col, score });
            col += 1;
        }
        proof {
            assert(row * n + n == (row + 1) * n) by (nonlinear_arith);
        }
        row += 1;
    }
    proof {
        assert(out@ =~= move_scores(grid.cells@, grid.size as nat));
    }
    out
}

/// Sorts the positions of `scored` by ascending score, keeping the original
/// order among equal scores.
pub fn rank_moves(scored: &Vec<ScoredMove>) -> (order: Vec<usize>)
    ensures
        is_stable_ranking(scored@, order@),
{
    let s = Ghost(scored@);
    let mut order: Vec<usize> = Vec::new();
    let mut i: usize = 0;
    while i < scored.len()
        invariant
            s@ == scored@,
            0 <= i <= scored@.len(),
            order@.len() == i,
            forall|k: int| 0 <= k < order@.len() ==> order@[k] < i,
            forall|k1: int, k2: int|
                0 <= k1 < k2 < order@.len() ==> ranks_before(
                    s@,
                    #[trigger] order@[k1] as int,
                    #[trigger] order@[k2] as int,
                ),
            forall|j: usize| j < i ==> #[trigger] order@.contains(j),
        decreases scored@.len() - i,
    {
        let key = scored[i].score;
        let mut p: usize = 0;
        while p < order.len() && scored[order[p]].score <= key
            invariant
                s@ == scored@,
                key == s@[i as int].score,
                0 <= i < scored@.len(),
                0 <= p <= order@.len(),
                forall|k: int| 0 <= k < order@.len() ==> order@[k] < i,
                forall|k: int| 0 <= k < p ==> ranks_before(s@, #[trigger] order@[k] as int, i as int),
            decreases order@.len() - p,
        {
            p += 1;
        }
        let ghost old_order = order@;
        proof {
            assert forall|k: int| p <= k < old_order.len() implies ranks_before(
                s@,
                i as int,
                #[trigger] old_order[k] as int,
            ) by {
                if k > p {
                    assert(ranks_before(s@, old_order[p as int] as int, old_order[k] as int));
                }
            }
        }
        order.insert(p, i);
        proof {
            assert(order@ == old_order.insert(p as int, i));
            assert forall|k1: int, k2: int| 0 <= k1 < k2 < order@.len() implies ranks_before(
                s@,
                #[trigger] order@[k1] as int,
                #[trigger] order@[k2] as int,
            ) by {
                if k2 < p {
                } else if k2 == p {
                } else if k1 < p {
                    assert(order@[k2] == old_order[k2 - 1]);
                    assert(ranks_before(s@, old_order[k1] as int, old_order[k2 - 1] as int));
                } else if k1 == p {
                    assert(order@[k2] == old_order[k2 - 1]);
                } else {
                    assert(ranks_before(s@, old_order[k1 - 1] as int, old_order[k2 - 1] as int));
                }
            }
            assert forall|j: usize| j < i + 1 implies #[trigger] order@.contains(j) by {
                if j == i {
                    assert(order@[p as int] == i);
                } else {
                    assert(old_order.contains(j));
                    let k = choose|k: int| 0 <= k < old_order.len() && old_order[k] == j;
                    if k < p {
                        assert(order@[k] == j);
                    } else {
                        assert(order@[k + 1] == j);
                    }
                }
            }
        }
        i += 1;
    }
    order
}

/// Picks a flip of `grid`: the candidate at rank `draw mod N²` when all flips
/// are sorted by the entropy of the grid they produce, equal entropies in
/// row-major order.
pub fn select_move(grid: &Grid, draw: u64) -> (r: ScoredMove)
    requires
        grid.wf(),
    ensures
        is_selection(move_scores(grid.cells@, grid.size as nat), draw, r),
        r.row < grid.size,
        r.col < grid.size,
{
    let scored = find_all_move_entropies(grid);
    let order = rank_moves(&scored);
    let len = scored.len();
    proof {
        assert(len > 0) by (nonlinear_arith)
            requires
                len == grid.size * grid.size,
                grid.size > 0,
        ;
    }
    let n = rank_from_draw(draw, len);
    let m = scored[order[n]];
    proof {
        lemma_move_scores_cover(grid.cells@, grid.size as nat);
        assert(scored@[order@[n as int] as int] == m);
        assert(is_stable_ranking(scored@, order@) && m == scored@[order@[(draw as int) % (
        scored@.len() as int)] as int]);
    }
    m
}

/// Each switch `(r, c)` of an `n` by `n` grid is scored exactly once: at
/// position `r * n + c`, and no other position names it.
pub proof fn lemma_move_scores_cover(cells: Seq<bool>, n: nat)
    requires
        0 < n <= usize::MAX,
        cells.len() == n * n,
    ensures
        move_scores(cells, n).len() == n * n,
        forall|i: int|
            0 <= i < move_scores(cells, n).len() ==> (#[trigger] move_scores(cells, n)[i]).row < n
                && move_scores(cells, n)[i].col < n,
        forall|r: int, c: int|
            0 <= r < n && 0 <= c < n ==> #[trigger] move_scores(cells, n)[r * n + c].row == r
                && move_scores(cells, n)[r * n + c].col == c,
        forall|i: int, j: int|
            0 <= i < j < move_scores(cells, n).len() ==> #[trigger] move_scores(cells, n)[i]
                != #[trigger] move_scores(cells, n)[j],
{
    let ni = n as int;
    let s = move_scores(cells, n);
    assert forall|i: int| 0 <= i < s.len() implies (#[trigger] s[i]).row < n && s[i].col < n by {
        lemma_cell_of_index(ni, i);
    }
    assert forall|r: int, c: int| 0 <= r < ni && 0 <= c < ni implies #[trigger] s[r * ni + c].row
        == r && s[r * ni + c].col == c by {
        lemma_index_in_grid(ni, r, c);
        assert(s.len() == ni * ni);
        assert(0 <= r * ni + c < s.len());
    }
    assert forall|i: int, j: int| 0 <= i < j < s.len() implies #[trigger] s[i] != #[trigger] s[j] by {
        lemma_cell_of_index(ni, i);
        lemma_cell_of_index(ni, j);
    }
}

/// A selected candidate is one of the candidates.
pub proof fn lemma_selection_is_candidate(s: Seq<ScoredMove>, draw: u64, m: ScoredMove)
    requires
        is_selection(s, draw, m),
        s.len() > 0,
    ensures
        exists|i: int| 0 <= i < s.len() && s[i] == m,
{
    let o = choose|o: Seq<usize>| is_stable_ranking(s, o) && m == s[o[rank_of(draw, s.len())] as int];
    let i = o[rank_of(draw, s.len())] as int;
    assert(s[i] == m);
}

/// Two stable rankings of the same candidates agree on their first `k + 1`
/// positions.
proof fn lemma_rankings_agree_up_to(s: Seq<ScoredMove>, o1: Seq<usize>, o2: Seq<usize>, k: int)
    requires
        is_stable_ranking(s, o1),
        is_stable_ranking(s, o2),
        0 <= k < o1.len(),
    ensures
        forall|j: int| 0 <= j <= k ==> o1[j] == o2[j],
    decreases k,
{
    if k > 0 {
        lemma_rankings_agree_up_to(s, o1, o2, k - 1);
    }
    if o1[k] != o2[k] {
        let a = o1[k];
        let b = o2[k];
        assert(o2.contains(a));
        assert(o1.contains(b));
        let p = choose|p: int| 0 <= p < o2.len() && o2[p] == a;
        let q = choose|q: int| 0 <= q < o1.len() && o1[q] == b;
        if p < k {
            assert(o1[p] == a);
            assert(ranks_before(s, o1[p] as int, o1[k] as int));
        }
        if q < k {
            assert(o2[q] == b);
            assert(ranks_before(s, o2[q] as int, o2[k] as int));
        }
        assert(ranks_before(s, o2[k] as int, o2[p] as int));
        assert(ranks_before(s, o1[k] as int, o1[q] as int));
    }
}

/// A list of candidates has exactly one stable ranking.
pub proof fn lemma_stable_ranking_unique(s: Seq<ScoredMove>, o1: Seq<usize>, o2: Seq<usize>)
    requires
        is_stable_ranking(s, o1),
        is_stable_ranking(s, o2),
    ensures
        o1 == o2,
{
    if o1.len() > 0 {
        lemma_rankings_agree_up_to(s, o1, o2, o1.len() - 1);
    }
    assert(o1 =~= o2);
}

/// The selector is deterministic: the same candidates and the same draw give
/// the same move.
pub proof fn lemma_selection_deterministic(s: Seq<ScoredMove>, draw: u64, m1: ScoredMove, m2: ScoredMove)
    requires
        is_selection(s, draw, m1),
        is_selection(s, draw, m2),
    ensures
        m1 == m2,
{
    let o1 = choose|o: Seq<usize>| is_stable_ranking(s, o) && m1 == s[o[rank_of(draw, s.len())] as int];
    let o2 = choose|o: Seq<usize>| is_stable_ranking(s, o) && m2 == s[o[rank_of(draw, s.len())] as int];
    lemma_stable_ranking_unique(s, o1, o2);
}

} // verus!
