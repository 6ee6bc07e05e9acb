//! The board representation and the elimination engine.
//!
//! A cell mask is a `u16` whose nine low bits encode the candidate digits of
//! one cell: bit `n` set means digit `n + 1` is still possible. A cell is
//! resolved exactly when its mask is a power of two.

use vstd::prelude::*;

verus! {

/// Number of cells on a side of the grid.
pub const SIZE: usize = 9;

/// Total number of cells on the board.
pub const CELL_COUNT: usize = 81;

/// Mask with all nine candidate bits set: every digit is still possible.
pub const FULL_MASK: u16 = 0b111_111_111;

/// Upper bound on the number of elimination passes one `solve` call may run.
/// Real boards reach their fixed point within a handful of passes; the bound
/// exists only so that a degenerate board whose masks oscillate forever
/// cannot keep the solver looping.
pub const SOLVE_FUEL: u64 = 0xffff_ffff_ffff_ffff;

/// A mask is a valid cell value when only its nine low bits may be set.
pub open spec fn mask_ok(m: u16) -> bool {
    m <= FULL_MASK
}

/// A mask with exactly one bit set: the cell is resolved to a single digit.
pub open spec fn is_single(m: u16) -> bool {
    m != 0 && m & ((m - 1) as u16) == 0
}

/// The contribution of a cell to the "filled" constraint masks of its peers:
/// its own mask when resolved, nothing otherwise.
pub open spec fn penned_value(m: u16) -> u16 {
    if is_single(m) {
        m
    } else {
        0u16
    }
}

/// The human-readable digit of a mask: the 1-based digit when the mask is a
/// single bit, and 0 for an ambiguous or empty mask.
pub open spec fn sudoku_value(m: u16) -> u16 {
    if is_single(m) {
        (m.trailing_zeros() + 1) as u16
    } else {
        0u16
    }
}

/// Whether bit `d` of a mask is set, that is, whether digit `d + 1` is still
/// a candidate of the cell. Only the nine digit bits count.
pub open spec fn has_candidate(m: u16, d: u16) -> bool {
    d < 9 && (m >> d) & 1 == 1
}

/// One of the three kinds of cell group a Sudoku constraint ranges over.
#[derive(Clone, Copy, Debug, PartialEq, Eq, Structural)]
pub enum Group {
    Row,
    Col,
    Block,
}

/// Which row, column or 3x3 box the cell at a row-major position lies in.
pub open spec fn group_of(g: Group, i: int) -> int {
    match g {
        Group::Row => i / (SIZE as int),
        Group::Col => i % (SIZE as int),
        Group::Block => 3 * ((i / (SIZE as int)) / 3) + (i % (SIZE as int)) / 3,
    }
}

/// Two distinct positions that share a row, column or box.
pub open spec fn peers(g: Group, j: int, i: int) -> bool {
    j != i && group_of(g, j) == group_of(g, i)
}

/// Bitwise OR over the first `n` cells of the board, restricted to the peers
/// of position `idx` in group `g`; with `pen` set, each peer contributes only
/// its penned value (its mask when resolved, nothing otherwise).
pub open spec fn group_or(b: Seq<u16>, g: Group, idx: int, pen: bool, n: int) -> u16
    decreases n,
{
    if n <= 0 {
        0u16
    } else {
        let rest = group_or(b, g, idx, pen, n - 1);
        if peers(g, n - 1, idx) {
            rest | (if pen {
                penned_value(b[n - 1])
            } else {
                b[n - 1]
            })
        } else {
            rest
        }
    }
}

/// OR of the raw candidate masks of every peer of `idx` in group `g`.
pub open spec fn neighbor_mask(b: Seq<u16>, g: Group, idx: int) -> u16 {
    group_or(b, g, idx, false, CELL_COUNT as int)
}

/// OR of the resolved digits among the peers of `idx` in group `g`.
pub open spec fn filled_mask(b: Seq<u16>, g: Group, idx: int) -> u16 {
    group_or(b, g, idx, true, CELL_COUNT as int)
}

/// The mask an elimination pass assigns to the unresolved cell at `i`: every
/// digit already placed among the row, column or box peers is removed, and so
/// is every digit that still appears anywhere in a peer's raw candidate mask.
pub open spec fn eliminate(b: Seq<u16>, i: int) -> u16 {
    FULL_MASK & !(filled_mask(b, Group::Row, i) | filled_mask(b, Group::Col, i) | filled_mask(
        b,
        Group::Block,
        i,
    )) & !neighbor_mask(b, Group::Row, i) & !neighbor_mask(b, Group::Col, i) & !neighbor_mask(
        b,
        Group::Block,
        i,
    )
}

/// One full elimination pass over a snapshot of the board: resolved cells are
/// kept as they are, every other cell is recomputed from the snapshot.
pub open spec fn pass(b: Seq<u16>) -> Seq<u16> {
    Seq::new(b.len(), |i: int| if is_single(b[i]) { b[i] } else { eliminate(b, i) })
}

/// A board on which a further elimination pass changes nothing.
pub open spec fn is_fixed(b: Seq<u16>) -> bool {
    pass(b) == b
}

/// The board after up to `fuel` elimination passes, stopping early at the
/// first pass that changes nothing.
pub open spec fn solve_upto(b: Seq<u16>, fuel: nat) -> Seq<u16>
    decreases fuel,
{
    if fuel == 0 || is_fixed(b) {
        b
    } else {
        solve_upto(pass(b), (fuel - 1) as nat)
    }
}

/// A well-formed board: 81 cells, each a 9-bit mask.
pub open spec fn cells_ok(b: Seq<u16>) -> bool {
    b.len() == CELL_COUNT && forall|i: int| 0 <= i < b.len() ==> mask_ok(#[trigger] b[i])
}

/// A fully solved board: every cell is resolved to a single digit.
pub open spec fn all_resolved(b: Seq<u16>) -> bool {
    forall|i: int| 0 <= i < b.len() ==> is_single(#[trigger] b[i])
}

/// Masking any value with another can only clear bits, never add them.
proof fn lemma_and_le(a: u16, b: u16)
    ensures
        a & b <= a,
{
    assert(a & b <= a) by (bit_vector);
}

/// The mask an elimination pass writes is itself a 9-bit mask.
proof fn lemma_eliminate_bounded(b: Seq<u16>, i: int)
    ensures
        mask_ok(eliminate(b, i)),
{
    let f = !(filled_mask(b, Group::Row, i) | filled_mask(b, Group::Col, i) | filled_mask(
        b,
        Group::Block,
        i,
    ));
    let m0 = FULL_MASK & f;
    let m1 = m0 & !neighbor_mask(b, Group::Row, i);
    let m2 = m1 & !neighbor_mask(b, Group::Col, i);
    lemma_and_le(FULL_MASK, f);
    lemma_and_le(m0, !neighbor_mask(b, Group::Row, i));
    lemma_and_le(m1, !neighbor_mask(b, Group::Col, i));
    lemma_and_le(m2, !neighbor_mask(b, Group::Block, i));
}

/// An elimination pass keeps the board well formed: every cell mask it
/// writes, like every one it keeps, stays within the nine candidate bits.
pub proof fn lemma_pass_preserves_wf(b: Seq<u16>)
    requires
        cells_ok(b),
    ensures
        cells_ok(pass(b)),
{
    assert forall|i: int| 0 <= i < pass(b).len() implies mask_ok(#[trigger] pass(b)[i]) by {
        if !is_single(b[i]) {
            lemma_eliminate_bounded(b, i);
        }
    }
}

/// The mask invariant holds at every point of a solve: however many passes
/// run, every cell mask stays within the nine candidate bits.
pub proof fn lemma_solve_preserves_wf(b: Seq<u16>, fuel: nat)
    requires
        cells_ok(b),
    ensures
        cells_ok(solve_upto(b, fuel)),
    decreases fuel,
{
    if fuel > 0 && !is_fixed(b) {
        lemma_pass_preserves_wf(b);
        lemma_solve_preserves_wf(pass(b), (fuel - 1) as nat);
    }
}

/// A resolved cell never regresses: once its mask is a single bit, any
/// number of further elimination passes leaves it exactly as it is.
pub proof fn lemma_resolved_never_regresses(b: Seq<u16>, fuel: nat, i: int)
    requires
        0 <= i < b.len(),
        is_single(b[i]),
    ensures
        solve_upto(b, fuel).len() == b.len(),
        solve_upto(b, fuel)[i] == b[i],
    decreases fuel,
{
    if fuel > 0 && !is_fixed(b) {
        lemma_resolved_never_regresses(pass(b), (fuel - 1) as nat, i);
    }
}

/// A board at its fixed point is left exactly as it is by any further
/// amount of solving.
pub proof fn lemma_fixed_point_is_stable(b: Seq<u16>, fuel: nat)
    requires
        is_fixed(b),
    ensures
        solve_upto(b, fuel) == b,
{
}

/// Solving is idempotent: once a solve has converged to a fixed point,
/// solving the resulting board again returns the very same board, and in
/// particular a further elimination pass reports no change.
pub proof fn lemma_solve_idempotent(b: Seq<u16>, n: nat, m: nat)
    requires
        is_fixed(solve_upto(b, n)),
    ensures
        solve_upto(solve_upto(b, n), m) == solve_upto(b, n),
        pass(solve_upto(b, n)) == solve_upto(b, n),
{
    lemma_fixed_point_is_stable(solve_upto(b, n), m);
}

/// Spending more fuel past the point of convergence changes nothing: the
/// board a converged solve returns is the board any longer solve returns.
pub proof fn lemma_solve_converged_stays(b: Seq<u16>, n: nat, m: nat)
    requires
        n <= m,
        is_fixed(solve_upto(b, n)),
    ensures
        solve_upto(b, m) == solve_upto(b, n),
    decreases n,
{
    if n == 0 {
        lemma_fixed_point_is_stable(b, m);
    } else if is_fixed(b) {
        lemma_fixed_point_is_stable(b, n);
        lemma_fixed_point_is_stable(b, m);
    } else {
        lemma_solve_converged_stays(pass(b), (n - 1) as nat, (m - 1) as nat);
    }
}

/// Each bit of a partial group aggregation comes from some peer's
/// contribution among the cells scanned so far, and from nowhere else.
proof fn lemma_group_or_bit(b: Seq<u16>, g: Group, idx: int, pen: bool, n: int, d: u16)
    ensures
        has_candidate(group_or(b, g, idx, pen, n), d) <==> exists|j: int|
            0 <= j < n && #[trigger] peers(g, j, idx) && has_candidate(
                if pen {
                    penned_value(b[j])
                } else {
                    b[j]
                },
                d,
            ),
    decreases n,
{
    if n <= 0 {
        assert((0u16 >> d) & 1 == 0) by (bit_vector);
    } else {
        lemma_group_or_bit(b, g, idx, pen, n - 1, d);
        let rest = group_or(b, g, idx, pen, n - 1);
        if peers(g, n - 1, idx) {
            let c = if pen {
                penned_value(b[n - 1])
            } else {
                b[n - 1]
            };
            assert((((rest | c) >> d) & 1 == 1) <==> (((rest >> d) & 1 == 1) || ((c >> d) & 1
                == 1))) by (bit_vector);
            if has_candidate(c, d) {
                assert(0 <= n - 1 < n && peers(g, n - 1, idx) && has_candidate(
                    if pen {
                        penned_value(b[n - 1])
                    } else {
                        b[n - 1]
                    },
                    d,
                ));
            }
        }
    }
}

/// A digit appears in a neighbor mask exactly when some peer of the cell
/// still holds it among its raw candidates.
pub proof fn lemma_neighbor_mask_has_candidate(b: Seq<u16>, g: Group, idx: int, d: u16)
    ensures
        has_candidate(neighbor_mask(b, g, idx), d) <==> exists|j: int|
            0 <= j < CELL_COUNT && #[trigger] peers(g, j, idx) && has_candidate(b[j], d),
{
    lemma_group_or_bit(b, g, idx, false, CELL_COUNT as int, d);
}

/// A digit appears in a filled mask exactly when some peer of the cell is
/// resolved, and resolved to exactly that digit.
pub proof fn lemma_filled_mask_has_candidate(b: Seq<u16>, g: Group, idx: int, d: u16)
    ensures
        has_candidate(filled_mask(b, g, idx), d) <==> exists|j: int|
            0 <= j < CELL_COUNT && #[trigger] peers(g, j, idx) && is_single(b[j])
                && has_candidate(b[j], d),
{
    lemma_group_or_bit(b, g, idx, true, CELL_COUNT as int, d);
    assert((0u16 >> d) & 1 == 0) by (bit_vector);
}

/// What one elimination step means, bit by bit: a digit survives as a
/// candidate of the recomputed cell exactly when no peer in any of the three
/// groups still carries it, whether as a placed digit or as a candidate.
pub proof fn lemma_eliminate_has_candidate(b: Seq<u16>, i: int, d: u16)
    ensures
        has_candidate(eliminate(b, i), d) <==> (d < 9 && forall|g: Group, j: int|
            0 <= j < CELL_COUNT && #[trigger] peers(g, j, i) ==> !has_candidate(b[j], d)),
{
    lemma_neighbor_mask_has_candidate(b, Group::Row, i, d);
    lemma_neighbor_mask_has_candidate(b, Group::Col, i, d);
    lemma_neighbor_mask_has_candidate(b, Group::Block, i, d);
    lemma_filled_mask_has_candidate(b, Group::Row, i, d);
    lemma_filled_mask_has_candidate(b, Group::Col, i, d);
    lemma_filled_mask_has_candidate(b, Group::Block, i, d);
    let fr = filled_mask(b, Group::Row, i);
    let fc = filled_mask(b, Group::Col, i);
    let fb = filled_mask(b, Group::Block, i);
    let nr = neighbor_mask(b, Group::Row, i);
    let nc = neighbor_mask(b, Group::Col, i);
    let nb = neighbor_mask(b, Group::Block, i);
    assert(eliminate(b, i) == 511u16 & !(fr | fc | fb) & !nr & !nc & !nb);
    assert((((511u16 & !(fr | fc | fb) & !nr & !nc & !nb) >> d) & 1 == 1) <==> (d < 9 && (fr
        >> d) & 1 == 0 && (fc >> d) & 1 == 0 && (fb >> d) & 1 == 0 && (nr >> d) & 1 == 0 && (nc
        >> d) & 1 == 0 && (nb >> d) & 1 == 0)) by (bit_vector);
    if has_candidate(eliminate(b, i), d) {
        assert forall|g: Group, j: int|
            0 <= j < CELL_COUNT && #[trigger] peers(g, j, i) implies !has_candidate(b[j], d) by {
            if has_candidate(b[j], d) {
                match g {
                    Group::Row => assert(has_candidate(nr, d)),
                    Group::Col => assert(has_candidate(nc, d)),
                    Group::Block => assert(has_candidate(nb, d)),
                }
            }
        }
    }
    if d < 9 && (forall|g: Group, j: int|
        0 <= j < CELL_COUNT && #[trigger] peers(g, j, i) ==> !has_candidate(b[j], d)) {
        assert(!has_candidate(nr, d));
        assert(!has_candidate(nc, d));
        assert(!has_candidate(nb, d));
        assert(!has_candidate(fr, d));
        assert(!has_candidate(fc, d));
        assert(!has_candidate(fb, d));
        assert((fr >> d) & 1 <= 1 && (fc >> d) & 1 <= 1 && (fb >> d) & 1 <= 1 && (nr >> d) & 1
            <= 1 && (nc >> d) & 1 <= 1 && (nb >> d) & 1 <= 1) by (bit_vector);
        assert(has_candidate(eliminate(b, i), d));
    }
}

/// The decode table in closed form: the mask holding exactly the bit of
/// digit `d + 1` displays as `d + 1`. Any mask that is not a single bit
/// displays as 0 by the definition of `sudoku_value`.
pub proof fn lemma_sudoku_value_decodes(d: u16)
    requires
        d < 9,
    ensures
        sudoku_value(1u16 << d) == d + 1,
{
    let m = 1u16 << d;
    assert(m != 0 && m & ((m - 1) as u16) == 0) by (bit_vector)
        requires
            m == 1u16 << d && d < 9,
    ;
    vstd::std_specs::bits::axiom_u16_trailing_zeros(m);
    let t = vstd::std_specs::bits::u16_trailing_zeros(m) as u16;
    assert((m >> d) & 1u16 == 1u16) by (bit_vector)
        requires
            m == 1u16 << d && d < 9,
    ;
    if t < d {
        assert((m >> t) & 1u16 == 0u16) by (bit_vector)
            requires
                m == 1u16 << d && d < 9 && t < d,
        ;
    }
    assert(t == d);
}

/// The reason a textual puzzle is rejected.
#[derive(Clone, Copy, Debug, PartialEq, Eq, Structural)]
pub enum SudokuError {
    /// The puzzle text does not hold exactly 81 characters.
    InvalidPuzzleLength,
}

/// The cell mask a puzzle character denotes: the single bit of a digit
/// character `1`-`9`, and the full candidate mask for any other character
/// (an unknown cell).
pub open spec fn cell_of_char(c: char) -> u16 {
    if '1' <= c && c <= '9' {
        1u16 << (((c as u32) - ('1' as u32)) as u16)
    } else {
        FULL_MASK
    }
}

/// The board a well-formed 81-character puzzle denotes, cell by cell.
pub open spec fn cells_of_text(s: Seq<char>) -> Seq<u16> {
    Seq::new(s.len(), |i: int| cell_of_char(s[i]))
}

/// A 9x9 Sudoku board: 81 cells in row-major order, each holding a 9-bit
/// candidate mask.
pub struct SudokuBoard {
    board: Vec<u16>,
}

impl View for SudokuBoard {
    type V = Seq<u16>;

    closed spec fn view(&self) -> Seq<u16> {
        self.board@
    }
}

impl SudokuBoard {
    /// Every cell mask of this board stays within the nine candidate bits.
    pub open spec fn wf(&self) -> bool {
        cells_ok(self@)
    }

    /// A board with no constraints known: every cell admits all nine digits.
    pub fn blank() -> (b: SudokuBoard)
        ensures
            b.wf(),
            b@.len() == CELL_COUNT,
            forall|i: int| 0 <= i < b@.len() ==> #[trigger] b@[i] == FULL_MASK,
    {
        let mut cells: Vec<u16> = Vec::new();
        let mut i: usize = 0;
        while i < CELL_COUNT
            invariant
                i <= CELL_COUNT,
                cells@.len() == i,
                forall|j: int| 0 <= j < i ==> #[trigger] cells@[j] == FULL_MASK,
            decreases CELL_COUNT - i,
        {
            cells.push(FULL_MASK);
            i += 1;
        }
        SudokuBoard { board: cells }
    }

    /// Parses a puzzle: a string of exactly 81 characters, row-major, a digit
    /// `1`-`9` for a given cell and any other character (conventionally `.`)
    /// for an unknown cell. A text of any other length is rejected.
    pub fn from_str(puzzle: &str) -> (r: Result<SudokuBoard, SudokuError>)
        ensures
            match r {
                Ok(b) => puzzle@.len() == CELL_COUNT && b.wf() && b@ == cells_of_text(puzzle@),
                Err(e) => puzzle@.len() != CELL_COUNT && e == SudokuError::InvalidPuzzleLength,
            },
    {
        let n = puzzle.unicode_len();
        if n != CELL_COUNT {
            return Err(SudokuError::InvalidPuzzleLength);
        }
        let mut cells: Vec<u16> = Vec::new();
        let mut i: usize = 0;
        while i < CELL_COUNT
            invariant
                puzzle@.len() == CELL_COUNT,
                i <= CELL_COUNT,
                cells@.len() == i,
                forall|j: int| 0 <= j < i ==> #[trigger] cells@[j] == cell_of_char(puzzle@[j]),
                forall|j: int| 0 <= j < i ==> mask_ok(#[trigger] cells@[j]),
            decreases CELL_COUNT - i,
        {
            let c = puzzle.get_char(i);
            let v = c as u32;
            let m: u16 = if '1' as u32 <= v && v <= '9' as u32 {
                let k = (v - '1' as u32) as u16;
                assert((1u16 << k) <= FULL_MASK) by (bit_vector)
                    requires
                        k < 9,
                ;
                1u16 << k
            } else {
                FULL_MASK
            };
            cells.push(m);
            i += 1;
        }
        proof {
            assert(cells@ =~= cells_of_text(puzzle@));
        }
        Ok(SudokuBoard { board: cells })
    }

    /// A board made of the given 81 cell masks, in row-major order.
    pub fn from_cells(cells: Vec<u16>) -> (b: SudokuBoard)
        requires
            cells_ok(cells@),
        ensures
            b.wf(),
            b@ == cells@,
    {
        SudokuBoard { board: cells }
    }

    /// The mask of the cell at the given row-major position.
    pub fn get_cell(&self, index: usize) -> (m: u16)
        requires
            index < self@.len(),
        ensures
            m == self@[index as int],
    {
        self.board[index]
    }

    /// OR of the raw masks of the other cells in the row of `index`.
    pub fn get_cell_row_neighbor_mask(&self, index: usize) -> (r: u16)
        requires
            self.wf(),
            index < CELL_COUNT,
        ensures
            r == neighbor_mask(self@, Group::Row, index as int),
    {
        let mut row: u16 = 0;
        let mut j: usize = 0;
        while j < CELL_COUNT
            invariant
                self.wf(),
                index < CELL_COUNT,
                j <= CELL_COUNT,
                row == group_or(self@, Group::Row, index as int, false, j as int),
            decreases CELL_COUNT - j,
        {
            if j / SIZE == index / SIZE && j != index {
                row = row | self.board[j];
            }
            j += 1;
        }
        row
    }

    /// OR of the raw masks of the other cells in the column of `index`.
    pub fn get_cell_col_neighbor_mask(&self, index: usize) -> (r: u16)
        requires
            self.wf(),
            index < CELL_COUNT,
        ensures
            r == neighbor_mask(self@, Group::Col, index as int),
    {
        let mut col: u16 = 0;
        let mut j: usize = 0;
        while j < CELL_COUNT
            invariant
                self.wf(),
                index < CELL_COUNT,
                j <= CELL_COUNT,
                col == group_or(self@, Group::Col, index as int, false, j as int),
            decreases CELL_COUNT - j,
        {
            if j % SIZE == index % SIZE && j != index {
                col = col | self.board[j];
            }
            j += 1;
        }
        col
    }

    /// OR of the raw masks of the other cells in the 3x3 box of `index`.
    pub fn get_cell_box_neighbor_mask(&self, index: usize) -> (r: u16)
        requires
            self.wf(),
            index < CELL_COUNT,
        ensures
            r == neighbor_mask(self@, Group::Block, index as int),
    {
        let mut bxx: u16 = 0;
        let mut j: usize = 0;
        while j < CELL_COUNT
            invariant
                self.wf(),
                index < CELL_COUNT,
                j <= CELL_COUNT,
                bxx == group_or(self@, Group::Block, index as int, false, j as int),
            decreases CELL_COUNT - j,
        {
            if 3 * ((j / SIZE) / 3) + (j % SIZE) / 3 == 3 * ((index / SIZE) / 3) + (index % SIZE) / 3
                && j != index {
                bxx = bxx | self.board[j];
            }
            j += 1;
        }
        bxx
    }

    /// OR of the resolved digits among the other cells in the row of `index`.
    pub fn get_cell_row_filled_mask(&self, index: usize) -> (r: u16)
        requires
            self.wf(),
            index < CELL_COUNT,
        ensures
            r == filled_mask(self@, Group::Row, index as int),
    {
        let mut row: u16 = 0;
        let mut j: usize = 0;
        while j < CELL_COUNT
            invariant
                self.wf(),
                index < CELL_COUNT,
                j <= CELL_COUNT,
                row == group_or(self@, Group::Row, index as int, true, j as int),
            decreases CELL_COUNT - j,
        {
            if j / SIZE == index / SIZE && j != index {
                row = row | Self::get_penned_cell_value(&self.board[j]);
            }
            j += 1;
        }
        row
    }

    /// OR of the resolved digits among the other cells in the column of
    /// `index`.
    pub fn get_cell_col_filled_mask(&self, index: usize) -> (r: u16)
        requires
            self.wf(),
            index < CELL_COUNT,
        ensures
            r == filled_mask(self@, Group::Col, index as int),
    {
        let mut col: u16 = 0;
        let mut j: usize = 0;
        while j < CELL_COUNT
            invariant
                self.wf(),
                index < CELL_COUNT,
                j <= CELL_COUNT,
                col == group_or(self@, Group::Col, index as int, true, j as int),
            decreases CELL_COUNT - j,
        {
            if j % SIZE == index % SIZE && j != index {
                col = col | Self::get_penned_cell_value(&self.board[j]);
            }
            j += 1;
        }
        col
    }

    /// OR of the resolved digits among the other cells in the 3x3 box of
    /// `index`.
    pub fn get_cell_box_filled_mask(&self, index: usize) -> (r: u16)
        requires
            self.wf(),
            index < CELL_COUNT,
        ensures
            r == filled_mask(self@, Group::Block, index as int),
    {
        let mut bxx: u16 = 0;
        let mut j: usize = 0;
        while j < CELL_COUNT
            invariant
                self.wf(),
                index < CELL_COUNT,
                j <= CELL_COUNT,
                bxx == group_or(self@, Group::Block, index as int, true, j as int),
            decreases CELL_COUNT - j,
        {
            if 3 * ((j / SIZE) / 3) + (j % SIZE) / 3 == 3 * ((index / SIZE) / 3) + (index % SIZE) / 3
                && j != index {
                bxx = bxx | Self::get_penned_cell_value(&self.board[j]);
            }
            j += 1;
        }
        bxx
    }

    /// Solves in place: runs elimination passes until one reports no change,
    /// so that the board has reached its fixed point. A degenerate board that
    /// never stabilizes is given up after `SOLVE_FUEL` passes; no real run
    /// gets anywhere near that bound.
    pub fn solve(&mut self)
        requires
            old(self).wf(),
        ensures
            final(self).wf(),
            final(self)@ == solve_upto(old(self)@, SOLVE_FUEL as nat),
    {
        let ghost orig = self@;
        let mut fuel: u64 = SOLVE_FUEL;
        let mut changed = true;
        while changed && fuel > 0
            invariant
                self.wf(),
                changed ==> solve_upto(orig, SOLVE_FUEL as nat) == solve_upto(
                    self@,
                    fuel as nat,
                ),
                !changed ==> self@ == solve_upto(orig, SOLVE_FUEL as nat),
            decreases fuel,
        {
            let ghost pre = self@;
            let ghost f = fuel as nat;
            changed = self.update_cells();
            fuel = fuel - 1;
            proof {
                if changed {
                    assert(solve_upto(pre, f) == solve_upto(pass(pre), (f - 1) as nat));
                } else {
                    assert(is_fixed(pre));
                    assert(solve_upto(pre, f) == pre);
                }
            }
        }
    }

    /// Whether every cell of the board is resolved to a single digit. After
    /// a solve, a negative answer means the puzzle was unsatisfiable or not
    /// determined by naked-single elimination alone.
    pub fn is_solved(&self) -> (r: bool)
        requires
            self.wf(),
        ensures
            r == all_resolved(self@),
    {
        let mut k: usize = 0;
        while k < CELL_COUNT
            invariant
                self.wf(),
                k <= CELL_COUNT,
                forall|j: int| 0 <= j < k ==> is_single(#[trigger] self@[j]),
            decreases CELL_COUNT - k,
        {
            let cur = self.board[k];
            if !(cur != 0 && cur & (cur - 1) == 0) {
                return false;
            }
            k += 1;
        }
        true
    }

    /// Runs one elimination pass: every cell that was not already resolved is
    /// recomputed from a snapshot of the board taken at the start of the
    /// pass, and the result replaces the board in one step. Reports whether
    /// any cell actually changed.
    pub fn update_cells(&mut self) -> (changed: bool)
        requires
            old(self).wf(),
        ensures
            final(self).wf(),
            final(self)@ == pass(old(self)@),
            changed == (final(self)@ != old(self)@),
    {
        let ghost b0 = self@;
        let mut next: Vec<u16> = Vec::new();
        let mut i: usize = 0;
        while i < CELL_COUNT
            invariant
                self.wf(),
                self@ == b0,
                i <= CELL_COUNT,
                next@.len() == i,
                forall|j: int| 0 <= j < i ==> #[trigger] next@[j] == pass(b0)[j],
                forall|j: int| 0 <= j < i ==> mask_ok(#[trigger] next@[j]),
            decreases CELL_COUNT - i,
        {
            let cur = self.board[i];
            if cur != 0 && cur & (cur - 1) == 0 {
                next.push(cur);
            } else {
                let filled = self.get_cell_row_filled_mask(i) | self.get_cell_col_filled_mask(i)
                    | self.get_cell_box_filled_mask(i);
                let m0 = FULL_MASK & !filled;
                let m1 = m0 & !self.get_cell_row_neighbor_mask(i);
                let m2 = m1 & !self.get_cell_col_neighbor_mask(i);
                let m3 = m2 & !self.get_cell_box_neighbor_mask(i);
                proof {
                    lemma_and_le(FULL_MASK, !filled);
                    lemma_and_le(m0, !neighbor_mask(b0, Group::Row, i as int));
                    lemma_and_le(m1, !neighbor_mask(b0, Group::Col, i as int));
                    lemma_and_le(m2, !neighbor_mask(b0, Group::Block, i as int));
                }
                next.push(m3);
            }
            i += 1;
        }
        proof {
            assert(next@ =~= pass(b0));
        }
        let mut changed = false;
        let mut k: usize = 0;
        while k < CELL_COUNT
            invariant
                self.wf(),
                self@ == b0,
                next@ == pass(b0),
                next@.len() == CELL_COUNT,
                k <= CELL_COUNT,
                changed == exists|j: int| 0 <= j < k && #[trigger] next@[j] != b0[j],
            decreases CELL_COUNT - k,
        {
            if next[k] != self.board[k] {
                changed = true;
            }
            k += 1;
        }
        self.board = next;
        proof {
            if !changed {
                assert(self@ =~= b0);
            }
        }
        changed
    }

    /// The mask a cell contributes to its peers' filled-constraint masks:
    /// the mask itself when it is a single bit, zero otherwise.
    pub fn get_penned_cell_value(v: &u16) -> (r: u16)
        ensures
            r == penned_value(*v),
    {
        if *v != 0 && *v & (*v - 1) == 0 {
            *v
        } else {
            0u16
        }
    }

    /// The digit shown for a mask: 1-9 when the mask is a single bit, 0 when
    /// the cell is ambiguous or empty.
    pub fn get_sudoku_value(v: &u16) -> (r: u16)
        ensures
            r == sudoku_value(*v),
    {
        if *v != 0 && *v & (*v - 1) == 0 {
            proof {
                vstd::std_specs::bits::axiom_u16_trailing_zeros(*v);
            }
            v.trailing_zeros() as u16 + 1u16
        } else {
            0u16
        }
    }
}

} // verus!
