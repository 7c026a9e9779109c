//! The mathematical model of the board: toroidal addressing, the live
//! neighbour count, the transition rule and the report of live cells.
use vstd::prelude::*;
use vstd::arithmetic::div_mod::{lemma_fundamental_div_mod, lemma_fundamental_div_mod_converse};

verus! {

/// Flat row-major position of column `x`, row `y` on a board of side `size`.
pub open spec fn cell_index(size: int, x: int, y: int) -> int {
    x + y * size
}

/// The coordinate before `v` on a ring of `size` positions.
pub open spec fn wrap_prev(v: int, size: int) -> int {
    (v + size - 1) % size
}

/// The coordinate after `v` on a ring of `size` positions.
pub open spec fn wrap_next(v: int, size: int) -> int {
    (v + 1) % size
}

/// Whether the cell at column `x`, row `y` is alive.
pub open spec fn is_alive(cells: Seq<bool>, size: int, x: int, y: int) -> bool {
    cells[cell_index(size, x, y)]
}

/// A cell's contribution to a neighbour count.
pub open spec fn as_count(alive: bool) -> nat {
    if alive {
        1
    } else {
        0
    }
}

/// Number of live cells among the eight toroidal neighbours of column `x`,
/// row `y`.
pub open spec fn live_neighbors(cells: Seq<bool>, size: int, x: int, y: int) -> nat {
    let w = wrap_prev(x, size);
    let e = wrap_next(x, size);
    let n = wrap_prev(y, size);
    let s = wrap_next(y, size);
    as_count(is_alive(cells, size, w, n)) + as_count(is_alive(cells, size, x, n)) + as_count(
        is_alive(cells, size, e, n),
    ) + as_count(is_alive(cells, size, w, y)) + as_count(is_alive(cells, size, e, y))
        + as_count(is_alive(cells, size, w, s)) + as_count(is_alive(cells, size, x, s))
        + as_count(is_alive(cells, size, e, s))
}

/// Conway's rule: a live cell survives with two or three live neighbours,
/// a dead cell is born with exactly three.
pub open spec fn next_state(alive: bool, neighbors: nat) -> bool {
    if alive {
        neighbors == 2 || neighbors == 3
    } else {
        neighbors == 3
    }
}

/// The generation that follows `cells`, every cell updated from the same
/// snapshot.
pub open spec fn next_generation(cells: Seq<bool>, size: int) -> Seq<bool> {
    Seq::new(
        cells.len(),
        |i: int| next_state(cells[i], live_neighbors(cells, size, i % size, i / size)),
    )
}

/// A board as a renderer sees it: its side, its cells in row-major order,
/// and the `(row, col)` pairs reported for redrawing.
pub struct Board {
    pub size: int,
    pub cells: Seq<bool>,
    pub changed: Seq<(int, int)>,
}

/// Reported pairs laid out flat as `row, col, row, col, ...`.
pub open spec fn flattened(pairs: Seq<(int, int)>) -> Seq<int> {
    Seq::new(
        2 * pairs.len(),
        |i: int|
            if i % 2 == 0 {
                pairs[i / 2].0
            } else {
                pairs[i / 2].1
            },
    )
}

/// A square board of positive side whose reported cells lie on it.
pub open spec fn board_wf(b: Board) -> bool {
    &&& b.size > 0
    &&& b.cells.len() == b.size * b.size
    &&& forall|k: int|
        0 <= k < b.changed.len() ==> 0 <= (#[trigger] b.changed[k]).0 < b.size && 0
            <= b.changed[k].1 < b.size
}

/// The fixed seed: flat position `i` starts alive when divisible by 3 or by 7.
pub open spec fn seeded(i: int) -> bool {
    i % 3 == 0 || i % 7 == 0
}

/// Every `(row, col)` pair of the board, row by row.
pub open spec fn all_positions(size: int) -> Seq<(int, int)> {
    Seq::new((size * size) as nat, |k: int| (k / size, k % size))
}

/// The `(row, col)` pairs of the live cells among the first `k` positions
/// of a scan that walks the board column by column, top to bottom.
pub open spec fn live_by_column(cells: Seq<bool>, size: int, k: int) -> Seq<(int, int)>
    decreases k,
{
    if k <= 0 {
        Seq::empty()
    } else {
        let prev = live_by_column(cells, size, k - 1);
        let x = (k - 1) / size;
        let y = (k - 1) % size;
        if is_alive(cells, size, x, y) {
            prev.push((y, x))
        } else {
            prev
        }
    }
}

/// A freshly built board: the seed, with every cell reported.
pub open spec fn initial_board(size: int) -> Board {
    Board {
        size,
        cells: Seq::new((size * size) as nat, |i: int| seeded(i)),
        changed: all_positions(size),
    }
}

/// The board one generation later, reporting every cell that is alive in
/// the new generation.
pub open spec fn advanced(b: Board) -> Board {
    let cells = next_generation(b.cells, b.size);
    Board { size: b.size, cells, changed: live_by_column(cells, b.size, b.size * b.size) }
}

/// The board after flipping the cell at `(row, col)`. Only a cell that comes
/// alive replaces the report, with itself alone; a coordinate off the board
/// leaves the board as it is.
pub open spec fn toggled(b: Board, row: int, col: int) -> Board {
    if 0 <= row < b.size && 0 <= col < b.size {
        let i = cell_index(b.size, col, row);
        let now_alive = !b.cells[i];
        Board {
            size: b.size,
            cells: b.cells.update(i, now_alive),
            changed: if now_alive {
                seq![(row, col)]
            } else {
                b.changed
            },
        }
    } else {
        b
    }
}

/// The cells reported after a generation are exactly its live cells: every
/// reported pair lies on the board and is alive, every live cell is
/// reported, and no cell is reported twice.
pub proof fn lemma_live_by_column(cells: Seq<bool>, size: int)
    requires
        size > 0,
        cells.len() == size * size,
    ensures
        ({
            let r = live_by_column(cells, size, size * size);
            &&& forall|k: int|
                0 <= k < r.len() ==> 0 <= (#[trigger] r[k]).0 < size && 0 <= r[k].1 < size
                    && is_alive(cells, size, r[k].1, r[k].0)
            &&& forall|x: int, y: int|
                0 <= x < size && 0 <= y < size && #[trigger] is_alive(cells, size, x, y) ==> exists|k: int|
                    0 <= k < r.len() && #[trigger] r[k] == (y, x)
            &&& forall|j: int, k: int| 0 <= j < k < r.len() ==> r[j] != r[k]
        }),
{
    lemma_live_by_column_prefix(cells, size, size * size);
    let r = live_by_column(cells, size, size * size);
    assert forall|x: int, y: int|
        0 <= x < size && 0 <= y < size && #[trigger] is_alive(cells, size, x, y) implies exists|k: int|
        0 <= k < r.len() && #[trigger] r[k] == (y, x) by {
        assert(x * size + y < size * size) by (nonlinear_arith)
            requires
                0 <= x < size,
                0 <= y < size,
        ;
        lemma_fundamental_div_mod_converse(x * size + y, size, x, y);
    }
}

/// Scan position of the cell at `(row, col)` in a column-by-column walk.
pub open spec fn scan_position(size: int, p: (int, int)) -> int {
    p.1 * size + p.0
}

proof fn lemma_live_by_column_prefix(cells: Seq<bool>, size: int, k: int)
    requires
        size > 0,
        0 <= k <= size * size,
        cells.len() == size * size,
    ensures
        ({
            let r = live_by_column(cells, size, k);
            &&& forall|j: int|
                0 <= j < r.len() ==> 0 <= (#[trigger] r[j]).0 < size && 0 <= r[j].1 < size
                    && is_alive(cells, size, r[j].1, r[j].0) && 0 <= scan_position(size, r[j]) < k
            &&& forall|p: int|
                0 <= p < k && #[trigger] is_alive(cells, size, p / size, p % size) ==> exists|j: int|
                    0 <= j < r.len() && #[trigger] r[j] == (p % size, p / size)
            &&& forall|i: int, j: int|
                0 <= i < j < r.len() ==> scan_position(size, r[i]) < scan_position(size, r[j])
        }),
    decreases k,
{
    if k > 0 {
        lemma_live_by_column_prefix(cells, size, k - 1);
        let p = k - 1;
        let x = p / size;
        let y = p % size;
        lemma_fundamental_div_mod(p, size);
        assert(0 <= y < size);
        assert(0 <= x < size) by {
            if x >= size {
                assert(x * size >= size * size) by (nonlinear_arith)
                    requires
                        x >= size,
                        size > 0,
                ;
            }
        }
        assert(scan_position(size, (y, x)) == p) by {
            assert(x * size == size * x) by (nonlinear_arith);
        }
        let prev = live_by_column(cells, size, k - 1);
        let r = live_by_column(cells, size, k);
        assert forall|q: int|
            0 <= q < k && #[trigger] is_alive(cells, size, q / size, q % size) implies exists|j: int|
            0 <= j < r.len() && #[trigger] r[j] == (q % size, q / size) by {
            if q < k - 1 {
                let j = choose|j: int| 0 <= j < prev.len() && #[trigger] prev[j] == (q % size, q / size);
                assert(r[j] == prev[j]);
            } else {
                assert(r[prev.len() as int] == (y, x));
            }
        }
    }
}

/// One call that changes a universe.
pub enum Step {
    Tick,
    Toggle(int, int),
}

/// The board after one step.
pub open spec fn apply(b: Board, step: Step) -> Board {
    match step {
        Step::Tick => advanced(b),
        Step::Toggle(row, col) => toggled(b, row, col),
    }
}

/// The board after a sequence of steps, first to last.
pub open spec fn replay(b: Board, steps: Seq<Step>) -> Board
    decreases steps.len(),
{
    if steps.len() == 0 {
        b
    } else {
        apply(replay(b, steps.drop_last()), steps.last())
    }
}

/// The board after `k` generations.
pub open spec fn after_ticks(b: Board, k: nat) -> Board
    decreases k,
{
    if k == 0 {
        b
    } else {
        advanced(after_ticks(b, (k - 1) as nat))
    }
}

/// Whether no cell of the board is alive.
pub open spec fn all_dead(cells: Seq<bool>) -> bool {
    forall|i: int| 0 <= i < cells.len() ==> !#[trigger] cells[i]
}

/// Every coordinate pair on the board has a flat position on it.
pub proof fn lemma_cell_index_bounds(size: int, x: int, y: int)
    requires
        0 <= x < size,
        0 <= y < size,
    ensures
        0 <= cell_index(size, x, y) < size * size,
{
    assert(0 <= x + y * size < size * size) by (nonlinear_arith)
        requires
            0 <= x < size,
            0 <= y < size,
    ;
}

/// Conway's rule on every cell: a dead cell with exactly three live
/// neighbours is born and with any other count (two, four, ...) stays dead;
/// a live cell with two or three survives and with any other count dies.
pub proof fn lemma_birth_and_survival(cells: Seq<bool>, size: int, x: int, y: int)
    requires
        size > 0,
        cells.len() == size * size,
        0 <= x < size,
        0 <= y < size,
    ensures
        ({
            let n = live_neighbors(cells, size, x, y);
            let alive = is_alive(cells, size, x, y);
            let next = is_alive(next_generation(cells, size), size, x, y);
            &&& n <= 8
            &&& !alive && n == 3 ==> next
            &&& !alive && n != 3 ==> !next
            &&& alive && (n == 2 || n == 3) ==> next
            &&& alive && n != 2 && n != 3 ==> !next
        }),
{
    lemma_cell_index_bounds(size, x, y);
    lemma_fundamental_div_mod_converse(cell_index(size, x, y), size, y, x);
}

/// A board with no live cell has no live cell after any number of
/// generations, keeps its side, and reports nothing after a generation.
pub proof fn lemma_dead_board_stays_dead(b: Board, k: nat)
    requires
        board_wf(b),
        all_dead(b.cells),
    ensures
        board_wf(after_ticks(b, k)),
        after_ticks(b, k).size == b.size,
        all_dead(after_ticks(b, k).cells),
        k > 0 ==> after_ticks(b, k).changed.len() == 0,
    decreases k,
{
    if k > 0 {
        lemma_dead_board_stays_dead(b, (k - 1) as nat);
        let prev = after_ticks(b, (k - 1) as nat);
        let size = b.size;
        let next = next_generation(prev.cells, size);
        assert forall|i: int| 0 <= i < next.len() implies !#[trigger] next[i] by {
            lemma_fundamental_div_mod(i, size);
            vstd::arithmetic::div_mod::lemma_mod_pos_bound(i, size);
            vstd::arithmetic::div_mod::lemma_div_pos_is_pos(i, size);
            let x = i % size;
            let y = i / size;
            if y >= size {
                assert(size * y >= size * size) by (nonlinear_arith)
                    requires
                        y >= size,
                        size > 0,
                ;
            }
            lemma_toroidal_wraparound(size, x);
            lemma_toroidal_wraparound(size, y);
            let w = wrap_prev(x, size);
            let e = wrap_next(x, size);
            let n = wrap_prev(y, size);
            let s = wrap_next(y, size);
            lemma_cell_index_bounds(size, w, n);
            lemma_cell_index_bounds(size, x, n);
            lemma_cell_index_bounds(size, e, n);
            lemma_cell_index_bounds(size, w, y);
            lemma_cell_index_bounds(size, e, y);
            lemma_cell_index_bounds(size, w, s);
            lemma_cell_index_bounds(size, x, s);
            lemma_cell_index_bounds(size, e, s);
        }
        lemma_report_after_tick(prev);
        let r = after_ticks(b, k).changed;
        if r.len() > 0 {
            lemma_cell_index_bounds(size, r[0].1, r[0].0);
        }
    }
}

/// Distinct coordinate pairs on the board have distinct flat positions.
pub proof fn lemma_cell_index_injective(size: int, x1: int, y1: int, x2: int, y2: int)
    requires
        0 <= x1 < size,
        0 <= y1 < size,
        0 <= x2 < size,
        0 <= y2 < size,
        (x1, y1) != (x2, y2),
    ensures
        cell_index(size, x1, y1) != cell_index(size, x2, y2),
{
    if cell_index(size, x1, y1) == cell_index(size, x2, y2) {
        lemma_fundamental_div_mod_converse(cell_index(size, x1, y1), size, y1, x1);
        lemma_fundamental_div_mod_converse(cell_index(size, x2, y2), size, y2, x2);
    }
}

/// A live cell with no other live cell on the board dies in the next
/// generation. On a board of side two or more it has no live neighbour; on
/// a board of side one its eight neighbours are itself.
pub proof fn lemma_lonely_cell_dies(cells: Seq<bool>, size: int, x: int, y: int)
    requires
        size > 0,
        cells.len() == size * size,
        0 <= x < size,
        0 <= y < size,
        is_alive(cells, size, x, y),
        forall|i: int| 0 <= i < cells.len() && i != cell_index(size, x, y) ==> !#[trigger] cells[i],
    ensures
        size >= 2 ==> live_neighbors(cells, size, x, y) == 0,
        size == 1 ==> live_neighbors(cells, size, x, y) == 8,
        !is_alive(next_generation(cells, size), size, x, y),
{
    lemma_toroidal_wraparound(size, x);
    lemma_toroidal_wraparound(size, y);
    lemma_birth_and_survival(cells, size, x, y);
    if size >= 2 {
        let w = wrap_prev(x, size);
        let e = wrap_next(x, size);
        let n = wrap_prev(y, size);
        let s = wrap_next(y, size);
        lemma_cell_index_injective(size, w, n, x, y);
        lemma_cell_index_injective(size, x, n, x, y);
        lemma_cell_index_injective(size, e, n, x, y);
        lemma_cell_index_injective(size, w, y, x, y);
        lemma_cell_index_injective(size, e, y, x, y);
        lemma_cell_index_injective(size, w, s, x, y);
        lemma_cell_index_injective(size, x, s, x, y);
        lemma_cell_index_injective(size, e, s, x, y);
        lemma_cell_index_bounds(size, w, n);
        lemma_cell_index_bounds(size, x, n);
        lemma_cell_index_bounds(size, e, n);
        lemma_cell_index_bounds(size, w, y);
        lemma_cell_index_bounds(size, e, y);
        lemma_cell_index_bounds(size, w, s);
        lemma_cell_index_bounds(size, x, s);
        lemma_cell_index_bounds(size, e, s);
    }
}

/// After a generation the report lists exactly the cells alive in it: every
/// listed pair lies on the board and is alive, every live cell is listed,
/// and no cell is listed twice.
pub proof fn lemma_report_after_tick(b: Board)
    requires
        board_wf(b),
    ensures
        board_wf(advanced(b)),
        ({
            let a = advanced(b);
            &&& forall|k: int|
                0 <= k < a.changed.len() ==> is_alive(
                    a.cells,
                    a.size,
                    (#[trigger] a.changed[k]).1,
                    a.changed[k].0,
                )
            &&& forall|x: int, y: int|
                0 <= x < a.size && 0 <= y < a.size && #[trigger] is_alive(a.cells, a.size, x, y)
                    ==> exists|k: int| 0 <= k < a.changed.len() && #[trigger] a.changed[k] == (y, x)
            &&& forall|j: int, k: int|
                0 <= j < k < a.changed.len() ==> a.changed[j] != a.changed[k]
        }),
{
    let a = advanced(b);
    lemma_live_by_column(a.cells, a.size);
    assert forall|x: int, y: int|
        0 <= x < a.size && 0 <= y < a.size && #[trigger] is_alive(
            a.cells,
            a.size,
            x,
            y,
        ) implies exists|k: int| 0 <= k < a.changed.len() && #[trigger] a.changed[k] == (y, x) by {
        // the witness given by lemma_live_by_column for the same list
        let _k = choose|k: int| 0 <= k < a.changed.len() && #[trigger] a.changed[k] == (y, x);
    }
}

/// No hidden state: boards equal at the start stay equal after the same
/// sequence of steps, so two universes built with the same side agree cell
/// for cell after any common history.
pub proof fn lemma_deterministic(a: Board, b: Board, steps: Seq<Step>)
    requires
        a == b,
    ensures
        replay(a, steps) == replay(b, steps),
        initial_board(a.size) == initial_board(b.size),
    decreases steps.len(),
{
    if steps.len() > 0 {
        lemma_deterministic(a, b, steps.drop_last());
    }
}

/// The wrapped neighbours of an edge or corner cell are the cells on the
/// opposite edge: before coordinate 0 comes `size - 1`, after `size - 1`
/// comes 0, and elsewhere the neighbours are one step away. Stepping back
/// and then forward returns to the start.
pub proof fn lemma_toroidal_wraparound(size: int, v: int)
    requires
        0 <= v < size,
    ensures
        wrap_prev(v, size) == if v == 0 {
            size - 1
        } else {
            v - 1
        },
        wrap_next(v, size) == if v == size - 1 {
            0
        } else {
            v + 1
        },
        0 <= wrap_prev(v, size) < size,
        0 <= wrap_next(v, size) < size,
        wrap_next(wrap_prev(v, size), size) == v,
        wrap_prev(wrap_next(v, size), size) == v,
{
    if v == 0 {
        lemma_fundamental_div_mod_converse(v + size - 1, size, 0, size - 1);
    } else {
        lemma_fundamental_div_mod_converse(v + size - 1, size, 1, v - 1);
    }
    if v == size - 1 {
        lemma_fundamental_div_mod_converse(v + 1, size, 1, 0);
    } else {
        lemma_fundamental_div_mod_converse(v + 1, size, 0, v + 1);
    }
    let p = wrap_prev(v, size);
    let q = wrap_next(v, size);
    if p == size - 1 {
        lemma_fundamental_div_mod_converse(p + 1, size, 1, 0);
    } else {
        lemma_fundamental_div_mod_converse(p + 1, size, 0, p + 1);
    }
    if q == 0 {
        lemma_fundamental_div_mod_converse(q + size - 1, size, 0, size - 1);
    } else {
        lemma_fundamental_div_mod_converse(q + size - 1, size, 1, q - 1);
    }
}

} // verus!
