use vstd::prelude::*;

verus! {

/// Why a grid could not be built.
#[derive(Debug, Clone, Copy, PartialEq, Eq, Structural)]
pub enum GridError {
    /// The grid would have no cells, or its rows do not form a square.
    InvalidInput,
    /// A cell token is neither `0` nor `1`, or the data does not have the
    /// declared dimension.
    ParseError,
}

/// A square grid of switches, stored row by row.
#[derive(Debug, Clone)]
pub struct Grid {
    /// The number of rows, which is also the number of columns.
    pub size: usize,
    /// Cell `(r, c)` is at index `r * size + c`.
    pub cells: Vec<bool>,
}

/// The number of `true` entries of `s`.
pub open spec fn count_true(s: Seq<bool>) -> nat
    decreases s.len(),
{
    if s.len() == 0 {
        0
    } else {
        count_true(s.drop_last()) + if s.last() { 1nat } else { 0nat }
    }
}

/// The size of the smaller of the two classes of `s`: its true and its false
/// entries. The binary entropy of `s` is a strictly increasing function of it.
pub open spec fn minority(s: Seq<bool>) -> nat {
    let k = count_true(s);
    if 2 * k <= s.len() {
        k
    } else {
        (s.len() - k) as nat
    }
}

/// `s` with every entry inverted.
pub open spec fn complement(s: Seq<bool>) -> Seq<bool> {
    Seq::new(s.len(), |i: int| !s[i])
}

/// Every entry of `s` equals `b`.
pub open spec fn uniform(s: Seq<bool>, b: bool) -> bool {
    forall|i: int| 0 <= i < s.len() ==> s[i] == b
}

/// The cells of an `n` by `n` grid after flipping switch `(r, c)`: every cell
/// in row `r` or in column `c` is inverted, each exactly once.
pub open spec fn flipped(cells: Seq<bool>, n: nat, r: nat, c: nat) -> Seq<bool> {
    Seq::new(
        cells.len(),
        |i: int|
            if i / (n as int) == r || i % (n as int) == c {
                !cells[i]
            } else {
                cells[i]
            },
    )
}

impl Grid {
    /// A grid with at least one cell whose storage is square.
    pub open spec fn wf(&self) -> bool {
        &&& self.size > 0
        &&& self.cells@.len() == self.size * self.size
    }

    /// Builds a grid from its rows. Fails with `InvalidInput` when there are
    /// no rows or when some row's length differs from the number of rows.
    pub fn from_rows(rows: &Vec<Vec<bool>>) -> (r: Result<Grid, GridError>)
        ensures
            (rows@.len() == 0 || exists|i: int|
                0 <= i < rows@.len() && #[trigger] rows@[i]@.len() != rows@.len()) <==> r is Err,
            r is Err ==> r == Err::<Grid, GridError>(GridError::InvalidInput),
            r matches Ok(g) ==> {
                &&& g.wf()
                &&& g.size == rows@.len()
                &&& forall|i: int, j: int|
                    0 <= i < g.size && 0 <= j < g.size ==> g.cells@[i * g.size + j]
                        == rows@[i]@[j]
            },
    {
        let n = rows.len();
        if n == 0 {
            return Err(GridError::InvalidInput);
        }
        let mut cells: Vec<bool> = Vec::new();
        let mut i: usize = 0;
        while i < n
            invariant
                n == rows@.len(),
                0 <= i <= n,
                forall|k: int| 0 <= k < i ==> rows@[k]@.len() == n,
                cells@.len() == i * n,
                forall|a: int, b: int|
                    0 <= a < i && 0 <= b < n ==> cells@[a * n + b] == rows@[a]@[b],
            decreases n - i,
        {
            let row = &rows[i];
            if row.len() != n {
                return Err(GridError::InvalidInput);
            }
            let mut j: usize = 0;
            while j < n
                invariant
                    n == rows@.len(),
                    0 <= i < n,
                    row@ == rows@[i as int]@,
                    row@.len() == n,
                    0 <= j <= n,
                    cells@.len() == i * n + j,
                    forall|a: int, b: int|
                        0 <= a < i && 0 <= b < n ==> cells@[a * n + b] == rows@[a]@[b],
                    forall|b: int| 0 <= b < j ==> cells@[i * n + b] == rows@[i as int]@[b],
                decreases n - j,
            {
                proof {
                    assert forall|a: int, b: int| 0 <= a < i && 0 <= b < n implies #[trigger] (a * n + b) < i * n
                        by {
                        assert(a * n + b < (a + 1) * n) by (nonlinear_arith)
                            requires
                                b < n,
                        ;
                        assert((a + 1) * n <= i * n) by (nonlinear_arith)
                            requires
                                a + 1 <= i,
                                n >= 0,
                        ;
                    }
                    assert((i + 1) * n <= n * n) by (nonlinear_arith)
                        requires
                            i < n,
                    ;
                    assert(i * n + j < (i + 1) * n) by (nonlinear_arith)
                        requires
                            j < n,
                    ;
                }
                cells.push(row[j]);
                j += 1;
            }
            proof {
                assert(i * n + n == (i + 1) * n) by (nonlinear_arith);
            }
            i += 1;
        }
        Ok(Grid { size: n, cells })
    }

    /// The number of rows (and of columns).
    pub fn size(&self) -> (r: usize)
        ensures
            r == self.size,
    {
        self.size
    }

    /// The state of switch `(row, col)`.
    pub fn get(&self, row: usize, col: usize) -> (r: bool)
        requires
            self.wf(),
            row < self.size,
            col < self.size,
        ensures
            r == self.cells@[row * self.size + col],
    {
        let total = self.cells.len();
        proof {
            lemma_index_in_grid(self.size as int, row as int, col as int);
        }
        self.cells[row * self.size + col]
    }

    /// The number of switches that are on.
    pub fn true_count(&self) -> (r: usize)
        ensures
            r == count_true(self.cells@),
    {
        let mut k: usize = 0;
        let mut i: usize = 0;
        while i < self.cells.len()
            invariant
                0 <= i <= self.cells@.len(),
                k == count_true(self.cells@.take(i as int)),
                k <= i,
            decreases self.cells@.len() - i,
        {
            proof {
                assert(self.cells@.take(i + 1).drop_last() =~= self.cells@.take(i as int));
            }
            if self.cells[i] {
                k += 1;
            }
            i += 1;
        }
        proof {
            assert(self.cells@.take(i as int) =~= self.cells@);
        }
        k
    }

    /// The number of switches in the less common state. The grid's entropy is
    /// zero exactly when this is zero, and grows strictly with it.
    pub fn minority_count(&self) -> (r: usize)
        ensures
            r == minority(self.cells@),
            2 * r <= self.cells@.len(),
    {
        let k = self.true_count();
        proof {
            lemma_count_true_bound(self.cells@);
        }
        let total = self.cells.len();
        if k <= total - k {
            k
        } else {
            total - k
        }
    }
}

/// Index `r * n + c` of a cell lies in an `n` by `n` grid, and names that cell.
pub proof fn lemma_index_in_grid(n: int, r: int, c: int)
    requires
        0 <= r < n,
        0 <= c < n,
    ensures
        0 <= r * n + c < n * n,
        (r * n + c) / n == r,
        (r * n + c) % n == c,
{
    assert(0 <= r * n) by (nonlinear_arith)
        requires
            0 <= r,
            0 <= n,
    ;
    assert(r * n + c < n * n) by (nonlinear_arith)
        requires
            0 <= r < n,
            0 <= c < n,
    ;
    vstd::arithmetic::div_mod::lemma_fundamental_div_mod_converse(r * n + c, n, r, c);
}

/// A cell index of an `n` by `n` grid splits into a row and a column in range.
pub proof fn lemma_cell_of_index(n: int, i: int)
    requires
        0 < n,
        0 <= i < n * n,
    ensures
        0 <= i / n < n,
        0 <= i % n < n,
        i == (i / n) * n + i % n,
{
    vstd::arithmetic::div_mod::lemma_fundamental_div_mod(i, n);
    vstd::arithmetic::div_mod::lemma_mod_bound(i, n);
    vstd::arithmetic::div_mod::lemma_div_pos_is_pos(i, n);
    assert((i / n) * n == n * (i / n)) by (nonlinear_arith);
    if i / n >= n {
        assert(n * (i / n) >= n * n) by (nonlinear_arith)
            requires
                i / n >= n,
                n > 0,
        ;
    }
}

/// There are at most as many true entries as entries.
pub proof fn lemma_count_true_bound(s: Seq<bool>)
    ensures
        count_true(s) <= s.len(),
    decreases s.len(),
{
    if s.len() > 0 {
        lemma_count_true_bound(s.drop_last());
    }
}

/// Inverting every entry exchanges the true and the false entries.
pub proof fn lemma_count_true_complement(s: Seq<bool>)
    ensures
        count_true(complement(s)) == s.len() - count_true(s),
    decreases s.len(),
{
    if s.len() > 0 {
        assert(complement(s).drop_last() =~= complement(s.drop_last()));
        lemma_count_true_complement(s.drop_last());
        lemma_count_true_bound(s.drop_last());
    }
}

/// No entry is true exactly when none is counted; all are true exactly when
/// all are counted.
pub proof fn lemma_count_true_extremes(s: Seq<bool>)
    ensures
        count_true(s) == 0 <==> uniform(s, false),
        count_true(s) == s.len() <==> uniform(s, true),
    decreases s.len(),
{
    if s.len() > 0 {
        let t = s.drop_last();
        lemma_count_true_extremes(t);
        lemma_count_true_bound(t);
        assert forall|i: int| 0 <= i < t.len() implies t[i] == s[i] by {}
        if uniform(s, false) {
            assert(uniform(t, false));
        }
        if uniform(s, true) {
            assert(uniform(t, true));
        }
        if count_true(s) == 0 {
            assert forall|i: int| 0 <= i < s.len() implies s[i] == false by {
                if i < t.len() {
                    assert(t[i] == false);
                }
            }
        }
        if count_true(s) == s.len() {
            assert forall|i: int| 0 <= i < s.len() implies s[i] == true by {
                if i < t.len() {
                    assert(t[i] == true);
                }
            }
        }
    }
}

/// Flipping the same switch twice gives back the grid one started from.
pub proof fn lemma_flip_involutive(cells: Seq<bool>, n: nat, r: nat, c: nat)
    ensures
        flipped(flipped(cells, n, r, c), n, r, c) == cells,
{
    assert(flipped(flipped(cells, n, r, c), n, r, c) =~= cells);
}

/// A grid and its complement have the same minority count, hence the same
/// entropy.
pub proof fn lemma_entropy_complement(cells: Seq<bool>)
    ensures
        minority(complement(cells)) == minority(cells),
{
    lemma_count_true_complement(cells);
    lemma_count_true_bound(cells);
}

/// The entropy of a grid is zero exactly when the grid is uniformly off or
/// uniformly on. It is largest, with the value one, exactly when half the
/// cells are on: the minority count never exceeds half the cells, and reaches
/// half exactly then.
pub proof fn lemma_entropy_extremes(cells: Seq<bool>)
    ensures
        minority(cells) == 0 <==> uniform(cells, false) || uniform(cells, true),
        2 * minority(cells) <= cells.len(),
        2 * minority(cells) == cells.len() <==> 2 * count_true(cells) == cells.len(),
{
    lemma_count_true_extremes(cells);
    lemma_count_true_bound(cells);
}

/// Flips switch `(row, col)`: a new grid in which every cell of row `row` and
/// every cell of column `col` is inverted once; `grid` is left as it is.
pub fn flip_switch(grid: &Grid, row: usize, col: usize) -> (r: Grid)
    requires
        grid.wf(),
        row < grid.size,
        col < grid.size,
    ensures
        r.wf(),
        r.size == grid.size,
        r.cells@ == flipped(grid.cells@, grid.size as nat, row as nat, col as nat),
{
    let n = grid.size;
    let total = grid.cells.len();
    let mut cells: Vec<bool> = Vec::with_capacity(total);
    let mut i: usize = 0;
    while i < total
        invariant
            n == grid.size,
            n > 0,
            total == grid.cells@.len(),
            0 <= i <= total,
            cells@.len() == i,
            forall|j: int|
                0 <= j < i ==> cells@[j] == flipped(grid.cells@, n as nat, row as nat, col as nat)[j],
        decreases total - i,
    {
        let v = grid.cells[i];
        if i / n == row || i % n == col {
            cells.push(!v);
        } else {
            cells.push(v);
        }
        i += 1;
    }
    let r = Grid { size: n, cells };
    proof {
        assert(r.cells@ =~= flipped(grid.cells@, n as nat, row as nat, col as nat));
    }
    r
}

/// Builds an `size` by `size` grid from rows of text tokens, `"1"` for a
/// switch that is on and `"0"` for one that is off. Fails with `InvalidInput`
/// when `size` is zero, and otherwise with `ParseError` when the number of
/// rows or of tokens in a row is not `size`, or a token is another string.
pub fn board_from_records(records: &Vec<Vec<String>>, size: usize) -> (r: Result<Grid, GridError>)
    ensures
        size == 0 ==> r == Err::<Grid, GridError>(GridError::InvalidInput),
        size > 0 ==> (r is Ok <==> records_valid(records@, size as nat)),
        size > 0 && !records_valid(records@, size as nat) ==> r == Err::<Grid, GridError>(
            GridError::ParseError,
        ),
        r matches Ok(g) ==> {
            &&& g.wf()
            &&& g.size == size
            &&& forall|i: int, j: int|
                0 <= i < size && 0 <= j < size ==> g.cells@[i * size + j] == (
                records@[i]@[j]@ == seq!['1'])
        },
{
    if size == 0 {
        return Err(GridError::InvalidInput);
    }
    if records.len() != size {
        return Err(GridError::ParseError);
    }
    let mut cells: Vec<bool> = Vec::new();
    let mut i: usize = 0;
    while i < size
        invariant
            size == records@.len(),
            size > 0,
            0 <= i <= size,
            forall|k: int| 0 <= k < i ==> row_valid(#[trigger] records@[k]@, size as nat),
            cells@.len() == i * size,
            forall|a: int, b: int|
                0 <= a < i && 0 <= b < size ==> cells@[a * size + b] == (records@[a]@[b]@
                    == seq!['1']),
        decreases size - i,
    {
        let row = &records[i];
        if row.len() != size {
            return Err(GridError::ParseError);
        }
        let mut j: usize = 0;
        while j < size
            invariant
                size == records@.len(),
                0 <= i < size,
                row@ == records@[i as int]@,
                row@.len() == size,
                0 <= j <= size,
                forall|b: int| 0 <= b < j ==> cell_token(#[trigger] row@[b]@),
                cells@.len() == i * size + j,
                forall|a: int, b: int|
                    0 <= a < i && 0 <= b < size ==> cells@[a * size + b] == (records@[a]@[b]@
                        == seq!['1']),
                forall|b: int|
                    0 <= b < j ==> cells@[i * size + b] == (records@[i as int]@[b]@ == seq!['1']),
            decreases size - j,
        {
            let v = match parse_cell(row[j].as_str()) {
                Some(v) => v,
                None => {
                    return Err(GridError::ParseError);
                },
            };
            proof {
                assert forall|a: int, b: int| 0 <= a < i && 0 <= b < size implies #[trigger] (a * size + b)
                    < i * size by {
                    assert(a * size + b < (a + 1) * size) by (nonlinear_arith)
                        requires
                            b < size,
                    ;
                    assert((a + 1) * size <= i * size) by (nonlinear_arith)
                        requires
                            a + 1 <= i,
                            size >= 0,
                    ;
                }
                assert((i + 1) * size <= size * size) by (nonlinear_arith)
                    requires
                        i < size,
                ;
                assert(i * size + j < (i + 1) * size) by (nonlinear_arith)
                    requires
                        j < size,
                ;
            }
            cells.push(v);
            j += 1;
        }
        proof {
            assert(i * size + size == (i + 1) * size) by (nonlinear_arith);
        }
        i += 1;
    }
    Ok(Grid { size, cells })
}

/// A cell token: `"0"` or `"1"`.
pub open spec fn cell_token(t: Seq<char>) -> bool {
    t == seq!['0'] || t == seq!['1']
}

/// A row of exactly `n` cell tokens.
pub open spec fn row_valid(row: Seq<String>, n: nat) -> bool {
    row.len() == n && forall|j: int| 0 <= j < n ==> cell_token(#[trigger] row[j]@)
}

/// Exactly `n` rows, each of exactly `n` cell tokens.
pub open spec fn records_valid(records: Seq<Vec<String>>, n: nat) -> bool {
    records.len() == n && forall|i: int| 0 <= i < n ==> row_valid(#[trigger] records[i]@, n)
}

/// Reads one cell token.
fn parse_cell(t: &str) -> (r: Option<bool>)
    ensures
        r is Some <==> cell_token(t@),
        r matches Some(b) ==> b == (t@ == seq!['1']),
{
    proof {
        reveal_strlit("0");
        reveal_strlit("1");
    }
    if t.unicode_len() != 1 {
        return None;
    }
    let ch = t.get_char(0);
    if ch == '0' {
        proof {
            assert(t@ =~= seq!['0']);
        }
        Some(false)
    } else if ch == '1' {
        proof {
            assert(t@ =~= seq!['1']);
        }
        Some(true)
    } else {
        None
    }
}

} // verus!
