//! The executable board.
use vstd::prelude::*;
use crate::rules::{
    Board, advanced, all_positions, board_wf, cell_index, flattened, initial_board, is_alive,
    lemma_live_by_column, lemma_toroidal_wraparound, live_by_column, live_neighbors,
    next_generation, seeded, toggled,
};
use vstd::arithmetic::div_mod::{lemma_fundamental_div_mod, lemma_fundamental_div_mod_converse};

verus! {

/// Why an operation on a universe was refused.
#[derive(Debug, Clone, Copy, PartialEq, Eq, Structural)]
pub enum UniverseError {
    /// A board must have a positive side.
    InvalidSize,
    /// A caller-supplied coordinate lies off the board.
    OutOfBounds,
}

/// A square toroidal board of cells, with the list of cells to redraw.
pub struct Universe {
    size: u32,
    cells: Vec<bool>,
    changed_cells: Vec<(u32, u32)>,
}

/// Reads stored `(row, col)` pairs as integers.
pub open spec fn pairs_view(v: Seq<(u32, u32)>) -> Seq<(int, int)> {
    v.map_values(|p: (u32, u32)| (p.0 as int, p.1 as int))
}

impl View for Universe {
    type V = Board;

    closed spec fn view(&self) -> Board {
        Board { size: self.size as int, cells: self.cells@, changed: pairs_view(self.changed_cells@) }
    }
}

impl Universe {
    /// Builds a board of side `size` holding the fixed seed, with every cell
    /// reported row by row. A side of zero is refused.
    pub fn new(size: u32) -> (r: Result<Universe, UniverseError>)
        requires
            size * size <= usize::MAX,
        ensures
            size == 0 ==> r == Err::<Universe, UniverseError>(UniverseError::InvalidSize),
            size > 0 ==> r is Ok,
            r matches Ok(u) ==> u.wf() && u@ == initial_board(size as int),
    {
        if size == 0 {
            return Err(UniverseError::InvalidSize);
        }
        let ghost sz = size as int;
        let n: usize = (size as usize) * (size as usize);
        let mut cells: Vec<bool> = Vec::new();
        let mut i: usize = 0;
        while i < n
            invariant
                i <= n,
                cells@ == Seq::new(i as nat, |j: int| seeded(j)),
            decreases n - i,
        {
            cells.push(i % 3 == 0 || i % 7 == 0);
            i += 1;
            proof {
                assert(cells@ =~= Seq::new(i as nat, |j: int| seeded(j)));
            }
        }
        let mut changed_cells: Vec<(u32, u32)> = Vec::new();
        let mut row: u32 = 0;
        while row < size
            invariant
                sz == size as int,
                sz > 0,
                row <= size,
                pairs_view(changed_cells@) == all_positions(sz).take(row * sz),
            decreases size - row,
        {
            let mut col: u32 = 0;
            while col < size
                invariant
                    sz == size as int,
                    sz > 0,
                    row < size,
                    col <= size,
                    pairs_view(changed_cells@) == all_positions(sz).take(row * sz + col),
                decreases size - col,
            {
                proof {
                    lemma_fundamental_div_mod_converse(row * sz + col, sz, row as int, col as int);
                    assert(row * sz + col < sz * sz) by (nonlinear_arith)
                        requires
                            row < sz,
                            col < sz,
                    ;
                }
                let ghost before = changed_cells@;
                changed_cells.push((row, col));
                proof {
                    let k = row * sz + col;
                    assert(all_positions(sz)[k] == (row as int, col as int));
                    assert(all_positions(sz).take(k + 1) =~= all_positions(sz).take(k).push(
                        (row as int, col as int),
                    ));
                    assert(pairs_view(changed_cells@) =~= pairs_view(before).push(
                        (row as int, col as int),
                    ));
                }
                col += 1;
            }
            proof {
                assert(row * sz + sz == (row + 1) * sz) by (nonlinear_arith);
            }
            row += 1;
        }
        proof {
            assert(row * sz == sz * sz);
            assert(all_positions(sz).take(sz * sz) =~= all_positions(sz));
            assert forall|k: int| 0 <= k < sz * sz implies 0 <= (#[trigger] all_positions(
                sz,
            )[k]).0 < sz && 0 <= all_positions(sz)[k].1 < sz by {
                lemma_fundamental_div_mod(k, sz);
                vstd::arithmetic::div_mod::lemma_mod_pos_bound(k, sz);
                vstd::arithmetic::div_mod::lemma_div_pos_is_pos(k, sz);
                if k / sz >= sz {
                    assert(sz * (k / sz) >= sz * sz) by (nonlinear_arith)
                        requires
                            k / sz >= sz,
                            sz > 0,
                    ;
                }
            }
        }
        let u = Universe { size, cells, changed_cells };
        assert(u@.cells =~= initial_board(sz).cells);
        Ok(u)
    }

    /// Flips the cell at `(row, col)`. When the cell comes alive the report
    /// becomes that cell alone; when it dies the report is left as it was.
    /// A coordinate off the board is refused and changes nothing.
    pub fn toggle_cell(&mut self, row: u32, col: u32) -> (r: Result<(), UniverseError>)
        requires
            old(self).wf(),
        ensures
            final(self).wf(),
            r is Err <==> row >= old(self)@.size || col >= old(self)@.size,
            r is Err ==> r == Err::<(), UniverseError>(UniverseError::OutOfBounds),
            final(self)@ == toggled(old(self)@, row as int, col as int),
    {
        if row >= self.size || col >= self.size {
            return Err(UniverseError::OutOfBounds);
        }
        let idx = self.get_index(col, row);
        let now_alive = !self.cells[idx];
        let ghost before = self@;
        self.cells.set(idx, now_alive);
        if now_alive {
            self.changed_cells = Vec::new();
            self.changed_cells.push((row, col));
            assert(pairs_view(self.changed_cells@) =~= seq![(row as int, col as int)]);
        }
        assert(self@.changed == before.changed || self@.changed[0] == (row as int, col as int));
        Ok(())
    }

    /// Number of live cells among the eight wrapped neighbours of column
    /// `x`, row `y`. A coordinate off the board is refused.
    pub fn get_live_neighbors_count(&self, x: u32, y: u32) -> (r: Result<u8, UniverseError>)
        requires
            self.wf(),
        ensures
            r is Err <==> x >= self@.size || y >= self@.size,
            r is Err ==> r == Err::<u8, UniverseError>(UniverseError::OutOfBounds),
            r matches Ok(n) ==> n == live_neighbors(self@.cells, self@.size, x as int, y as int),
    {
        if x >= self.size || y >= self.size {
            return Err(UniverseError::OutOfBounds);
        }
        Ok(self.live_neighbors_at(x, y))
    }

    /// The reported cells as a flat list `row, col, row, col, ...`.
    pub fn cells(&self) -> (r: Vec<u32>)
        requires
            self.wf(),
        ensures
            r@.map_values(|v: u32| v as int) == flattened(self@.changed),
    {
        let ghost flat = flattened(self@.changed);
        let mut r: Vec<u32> = Vec::new();
        let mut k: usize = 0;
        while k < self.changed_cells.len()
            invariant
                k <= self.changed_cells@.len(),
                flat == flattened(self@.changed),
                r@.len() == 2 * k,
                forall|i: int| 0 <= i < 2 * k ==> r@[i] as int == #[trigger] flat[i],
            decreases self.changed_cells@.len() - k,
        {
            let (row, col) = self.changed_cells[k];
            r.push(row);
            r.push(col);
            k += 1;
        }
        assert(r@.map_values(|v: u32| v as int) =~= flat);
        r
    }

    /// The side of the board.
    pub fn size(&self) -> (r: u32)
        ensures
            r == self@.size,
    {
        self.size
    }

    /// The board is square with positive side, and its reported cells lie on it.
    pub closed spec fn wf(&self) -> bool {
        &&& board_wf(self@)
        &&& self.size * self.size <= usize::MAX
    }

    fn get_index(&self, x: u32, y: u32) -> (r: usize)
        requires
            self.wf(),
            x < self@.size,
            y < self@.size,
        ensures
            r == cell_index(self@.size, x as int, y as int),
            r < self@.cells.len(),
    {
        let size = self.size;
        assert(y * size + x < size * size) by (nonlinear_arith)
            requires
                y < size,
                x < size,
        ;
        x as usize + (y as usize) * (size as usize)
    }

    fn live_neighbors_at(&self, x: u32, y: u32) -> (r: u8)
        requires
            self.wf(),
            x < self@.size,
            y < self@.size,
        ensures
            r == live_neighbors(self@.cells, self@.size, x as int, y as int),
    {
        let size = self.size;
        let north = if y == 0 {
            size - 1
        } else {
            y - 1
        };
        let east = if x == size - 1 {
            0
        } else {
            x + 1
        };
        let south = if y == size - 1 {
            0
        } else {
            y + 1
        };
        let west = if x == 0 {
            size - 1
        } else {
            x - 1
        };
        proof {
            lemma_toroidal_wraparound(size as int, x as int);
            lemma_toroidal_wraparound(size as int, y as int);
        }
        let mut count: u8 = 0;
        if self.cells[self.get_index(west, north)] {
            count += 1;
        }
        if self.cells[self.get_index(x, north)] {
            count += 1;
        }
        if self.cells[self.get_index(east, north)] {
            count += 1;
        }
        if self.cells[self.get_index(west, y)] {
            count += 1;
        }
        if self.cells[self.get_index(east, y)] {
            count += 1;
        }
        if self.cells[self.get_index(west, south)] {
            count += 1;
        }
        if self.cells[self.get_index(x, south)] {
            count += 1;
        }
        if self.cells[self.get_index(east, south)] {
            count += 1;
        }
        count
    }

    /// Computes the next generation into a fresh buffer, reading only the
    /// current one, together with the live cells in column order.
    fn next_cells(&self) -> (r: (Vec<bool>, Vec<(u32, u32)>))
        requires
            self.wf(),
        ensures
            r.0@ == next_generation(self@.cells, self@.size),
            pairs_view(r.1@) == live_by_column(r.0@, self@.size, self@.size * self@.size),
    {
        let size = self.size;
        let n = self.cells.len();
        let ghost sz = size as int;
        let ghost gen = next_generation(self@.cells, sz);
        let mut next: Vec<bool> = vec![false; n];
        let mut changed: Vec<(u32, u32)> = Vec::new();
        let mut x: u32 = 0;
        while x < size
            invariant
                self.wf(),
                size == self@.size,
                sz == size as int,
                n == self@.cells.len(),
                gen == next_generation(self@.cells, sz),
                x <= size,
                next@.len() == n,
                forall|i: int| 0 <= i < n && i % sz < x ==> next@[i] == gen[i],
                pairs_view(changed@) == live_by_column(gen, sz, x * sz),
            decreases size - x,
        {
            let mut y: u32 = 0;
            proof {
                assert forall|i: int| 0 <= i < n implies #[trigger] (i / sz) >= 0 by {
                    vstd::arithmetic::div_mod::lemma_div_pos_is_pos(i, sz);
                }
            }
            while y < size
                invariant
                    self.wf(),
                    size == self@.size,
                    sz == size as int,
                    n == self@.cells.len(),
                    gen == next_generation(self@.cells, sz),
                    x < size,
                    y <= size,
                    next@.len() == n,
                    forall|i: int|
                        0 <= i < n && (i % sz < x || (i % sz == x && i / sz < y)) ==> next@[i]
                            == gen[i],
                    pairs_view(changed@) == live_by_column(gen, sz, x * sz + y),
                decreases size - y,
            {
                let idx = self.get_index(x, y);
                let alive = self.cells[idx];
                let count = self.live_neighbors_at(x, y);
                let next_alive = if alive {
                    count == 2 || count == 3
                } else {
                    count == 3
                };
                proof {
                    lemma_fundamental_div_mod_converse(idx as int, sz, y as int, x as int);
                    lemma_fundamental_div_mod_converse(x * sz + y, sz, x as int, y as int);
                    assert(next_alive == gen[idx as int]);
                    assert(is_alive(gen, sz, x as int, y as int) == next_alive);
                }
                if next_alive {
                    changed.push((y, x));
                }
                proof {
                    assert(pairs_view(changed@) =~= live_by_column(gen, sz, x * sz + y + 1));
                }
                next.set(idx, next_alive);
                proof {
                    assert forall|i: int|
                        0 <= i < n && (i % sz < x || (i % sz == x && i / sz < y + 1)) implies next@[i]
                            == gen[i] by {
                        if i != idx {
                            if i % sz == x && i / sz == y {
                                lemma_fundamental_div_mod(i, sz);
                                assert(sz * y == y * sz) by (nonlinear_arith);
                            }
                        }
                    }
                }
                y += 1;
            }
            proof {
                assert(x * sz + sz == (x + 1) * sz) by (nonlinear_arith);
                assert forall|i: int| 0 <= i < n && i % sz < x + 1 implies next@[i] == gen[i] by {
                    if i % sz == x {
                        lemma_fundamental_div_mod(i, sz);
                        vstd::arithmetic::div_mod::lemma_mod_pos_bound(i, sz);
                        if i / sz >= sz {
                            assert(sz * (i / sz) >= sz * sz) by (nonlinear_arith)
                                requires
                                    i / sz >= sz,
                                    sz > 0,
                            ;
                        }
                    }
                }
            }
            x += 1;
        }
        proof {
            assert forall|i: int| 0 <= i < n implies next@[i] == gen[i] by {
                assert(i % sz < sz) by {
                    vstd::arithmetic::div_mod::lemma_mod_pos_bound(i, sz);
                }
            }
            assert(next@ =~= gen);
        }
        (next, changed)
    }

    /// Advances the universe by one generation. Every cell is updated from the
    /// same snapshot, and the report becomes the cells alive in the new
    /// generation, column by column.
    pub fn tick(&mut self)
        requires
            old(self).wf(),
        ensures
            final(self).wf(),
            final(self)@ == advanced(old(self)@),
    {
        let (next, changed) = self.next_cells();
        proof {
            lemma_live_by_column(next@, self@.size);
        }
        self.cells = next;
        self.changed_cells = changed;
    }
}

} // verus!
