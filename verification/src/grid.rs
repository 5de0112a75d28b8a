//! A uniform grid over the field that files every dot under the cell it is in.

use vstd::prelude::*;
use crate::dot::Dot;
use crate::vec2d::Vec2d;

verus! {

/// A grid of square cells, stored row by row, each cell a list of dot indices.
///
/// A coordinate left of or above the grid counts to the first column or row,
/// one right of or below it to the last.
pub struct SpatialGrid {
    /// The edge length of a cell.
    pub cell_size: i64,
    pub grid_columns: usize,
    pub grid_rows: usize,
    pub grid_cells: Vec<Vec<usize>>,
}

impl SpatialGrid {
    /// The grid has at least one cell, and as many as its columns and rows say.
    pub open spec fn wf(&self) -> bool {
        &&& 0 < self.cell_size
        &&& 0 < self.grid_columns
        &&& 0 < self.grid_rows
        &&& self.grid_cells.len() == self.grid_columns * self.grid_rows
    }

    /// The lane, out of `lanes`, that a coordinate falls in along one axis.
    pub open spec fn lane(&self, coordinate: int, lanes: int) -> int {
        if coordinate < 0 {
            0
        } else if coordinate / (self.cell_size as int) >= lanes {
            lanes - 1
        } else {
            coordinate / (self.cell_size as int)
        }
    }

    /// The column that a position falls in.
    pub open spec fn column_of(&self, position: Vec2d) -> int {
        self.lane(position.x as int, self.grid_columns as int)
    }

    /// The row that a position falls in.
    pub open spec fn row_of(&self, position: Vec2d) -> int {
        self.lane(position.y as int, self.grid_rows as int)
    }

    /// The index of the cell that a position falls in.
    pub open spec fn cell_index(&self, position: Vec2d) -> int {
        self.column_of(position) + self.row_of(position) * self.grid_columns
    }

    /// The dot indices filed under cell `cell`.
    pub open spec fn cell(&self, cell: int) -> Seq<usize> {
        self.grid_cells@[cell]@
    }

    /// A lane lies among the lanes, and lanes follow the order of coordinates.
    pub proof fn lemma_lane(&self, coordinate: int, other: int, lanes: int)
        requires
            0 < self.cell_size,
            0 < lanes,
        ensures
            0 <= self.lane(coordinate, lanes) < lanes,
            coordinate <= other ==> self.lane(coordinate, lanes) <= self.lane(other, lanes),
    {
        let size = self.cell_size as int;
        if coordinate >= 0 {
            vstd::arithmetic::div_mod::lemma_div_pos_is_pos(coordinate, size);
            if coordinate <= other {
                vstd::arithmetic::div_mod::lemma_div_is_ordered(coordinate, other, size);
            }
        }
        if other >= 0 {
            vstd::arithmetic::div_mod::lemma_div_pos_is_pos(other, size);
        }
    }

    /// Every position has a cell of the grid.
    pub proof fn lemma_cell_index(&self, position: Vec2d)
        requires
            self.wf(),
        ensures
            0 <= self.column_of(position) < self.grid_columns,
            0 <= self.row_of(position) < self.grid_rows,
            0 <= self.cell_index(position) < self.grid_cells.len(),
    {
        self.lemma_lane(position.x as int, position.x as int, self.grid_columns as int);
        self.lemma_lane(position.y as int, position.y as int, self.grid_rows as int);
        let column = self.column_of(position);
        let row = self.row_of(position);
        let columns = self.grid_columns as int;
        let rows = self.grid_rows as int;
        assert(0 <= row * columns && column + row * columns < columns * rows)
            by (nonlinear_arith)
            requires
                0 <= column < columns,
                0 <= row < rows,
        ;
    }

    /// An empty grid of `grid_columns` by `grid_rows` cells of edge `cell_size`.
    pub fn new(cell_size: i64, grid_columns: usize, grid_rows: usize) -> (r: SpatialGrid)
        requires
            0 < cell_size,
            0 < grid_columns,
            0 < grid_rows,
            grid_columns * grid_rows <= usize::MAX,
        ensures
            r.wf(),
            r.cell_size == cell_size,
            r.grid_columns == grid_columns,
            r.grid_rows == grid_rows,
            forall|c: int| 0 <= c < r.grid_cells.len() ==> (#[trigger] r.cell(c)).len() == 0,
    {
        let count: usize = grid_columns * grid_rows;
        let mut grid_cells: Vec<Vec<usize>> = Vec::new();
        let mut made: usize = 0;
        while made < count
            invariant
                made <= count,
                grid_cells.len() == made,
                forall|c: int| 0 <= c < made ==> (#[trigger] grid_cells@[c]@).len() == 0,
            decreases count - made,
        {
            grid_cells.push(Vec::new());
            made = made + 1;
        }
        SpatialGrid { cell_size, grid_columns, grid_rows, grid_cells }
    }

    /// Finds the lane of a coordinate along an axis of `lanes` lanes.
    fn find_lane(&self, coordinate: i64, lanes: usize) -> (r: usize)
        requires
            0 < self.cell_size,
            0 < lanes,
        ensures
            r == self.lane(coordinate as int, lanes as int),
            r < lanes,
    {
        if coordinate < 0 {
            0
        } else {
            let quotient: i64 = coordinate / self.cell_size;
            proof {
                vstd::arithmetic::div_mod::lemma_div_pos_is_pos(
                    coordinate as int,
                    self.cell_size as int,
                );
            }
            if quotient as u64 >= lanes as u64 {
                lanes - 1
            } else {
                quotient as usize
            }
        }
    }

    /// The index of the cell that `position` falls in.
    pub fn get_grid_index(&self, position: Vec2d) -> (r: usize)
        requires
            self.wf(),
        ensures
            r == self.cell_index(position),
            r < self.grid_cells.len(),
    {
        proof {
            self.lemma_cell_index(position);
        }
        let column: usize = self.find_lane(position.x, self.grid_columns);
        let row: usize = self.find_lane(position.y, self.grid_rows);
        assert(row * self.grid_columns <= self.cell_index(position)) by (nonlinear_arith)
            requires
                0 <= column,
                self.cell_index(position) == column + row * self.grid_columns,
        ;
        column + row * self.grid_columns
    }

    /// The number of lanes from `first` to `last`, both counted; none where
    /// `last` lies before `first`.
    pub open spec fn span(first: int, last: int) -> int {
        if first <= last {
            last - first + 1
        } else {
            0
        }
    }

    /// The index of the `k`-th cell of a rectangle of `rows` rows that starts
    /// at `first_column` and `first_row` and is walked column by column, each
    /// column from its first row down.
    pub open spec fn rect_cell(&self, first_column: int, first_row: int, rows: int, k: int) -> int {
        (first_column + k / rows) + (first_row + k % rows) * self.grid_columns
    }

    /// The cells between the cell of `top_left` and the cell of
    /// `bottom_right`, column by column.
    pub open spec fn rect_cells(&self, top_left: Vec2d, bottom_right: Vec2d) -> Seq<usize> {
        let columns = Self::span(self.column_of(top_left), self.column_of(bottom_right));
        let rows = Self::span(self.row_of(top_left), self.row_of(bottom_right));
        Seq::new(
            (columns * rows) as nat,
            |k: int|
                self.rect_cell(self.column_of(top_left), self.row_of(top_left), rows, k) as usize,
        )
    }

    /// The dot indices filed under the cells of `cells`, one cell after the
    /// other.
    pub open spec fn gathered(&self, cells: Seq<usize>) -> Seq<usize>
        decreases cells.len(),
    {
        if cells.len() == 0 {
            Seq::empty()
        } else {
            self.gathered(cells.drop_last()) + self.cell(cells.last() as int)
        }
    }

    /// The grid files the first `count` dots of `dots` and nothing else: every
    /// entry of a cell is one of them and lies in that cell, the entries of a
    /// cell ascend, and each of these dots is listed in the cell of its
    /// position.
    pub open spec fn files(&self, dots: Seq<Dot>, count: int) -> bool {
        &&& forall|c: int, j: int|
            0 <= c < self.grid_cells.len() && 0 <= j < self.cell(c).len() ==> {
                &&& 0 <= #[trigger] self.cell(c)[j] < count
                &&& self.cell_index(dots[self.cell(c)[j] as int].pos) == c
            }
        &&& forall|c: int, j: int, k: int|
            0 <= c < self.grid_cells.len() && 0 <= j < k < self.cell(c).len()
                ==> #[trigger] self.cell(c)[j] < #[trigger] self.cell(c)[k]
        &&& forall|i: int|
            0 <= i < count ==> self.cell(self.cell_index((#[trigger] dots[i]).pos)).contains(
                i as usize,
            )
    }

    /// The grid files all of `dots`.
    pub open spec fn holds(&self, dots: Seq<Dot>) -> bool {
        self.files(dots, dots.len() as int)
    }

    /// The indices of the cells between the cell of `top_left` and the cell
    /// of `bottom_right`, column by column; none where a corner lies on the
    /// wrong side of the other.
    pub fn get_all_grid_indices(&self, top_left: Vec2d, bottom_right: Vec2d) -> (r: Vec<usize>)
        requires
            self.wf(),
        ensures
            r@ == self.rect_cells(top_left, bottom_right),
            forall|k: int| 0 <= k < r.len() ==> #[trigger] r[k] < self.grid_cells.len(),
    {
        proof {
            self.lemma_cell_index(top_left);
            self.lemma_cell_index(bottom_right);
        }
        let mut ret: Vec<usize> = Vec::new();
        let first_column: usize = self.find_lane(top_left.x, self.grid_columns);
        let first_row: usize = self.find_lane(top_left.y, self.grid_rows);
        let last_column: usize = self.find_lane(bottom_right.x, self.grid_columns);
        let last_row: usize = self.find_lane(bottom_right.y, self.grid_rows);
        let ghost rows = Self::span(first_row as int, last_row as int);
        let ghost columns = Self::span(first_column as int, last_column as int);
        let mut col: usize = first_column;
        while col <= last_column
            invariant
                self.wf(),
                first_column <= col,
                col <= last_column + 1 || first_column > last_column,
                first_column > last_column ==> col == first_column,
                last_column < self.grid_columns,
                last_row < self.grid_rows,
                rows == Self::span(first_row as int, last_row as int),
                columns == Self::span(first_column as int, last_column as int),
                ret.len() == (col - first_column) * rows,
                forall|k: int|
                    0 <= k < ret.len() ==> #[trigger] ret[k] == self.rect_cell(
                        first_column as int,
                        first_row as int,
                        rows,
                        k,
                    ),
                forall|k: int| 0 <= k < ret.len() ==> #[trigger] ret[k] < self.grid_cells.len(),
            decreases last_column + 1 - col,
        {
            let mut row: usize = first_row;
            while row <= last_row
                invariant
                    self.wf(),
                    first_column <= col <= last_column,
                    first_row <= row,
                    row <= last_row + 1 || first_row > last_row,
                    first_row > last_row ==> row == first_row,
                    last_column < self.grid_columns,
                    last_row < self.grid_rows,
                    rows == Self::span(first_row as int, last_row as int),
                    ret.len() == (col - first_column) * rows + (row - first_row),
                    forall|k: int|
                        0 <= k < ret.len() ==> #[trigger] ret[k] == self.rect_cell(
                            first_column as int,
                            first_row as int,
                            rows,
                            k,
                        ),
                    forall|k: int| 0 <= k < ret.len() ==> #[trigger] ret[k] < self.grid_cells.len(),
                decreases last_row + 1 - row,
            {
                proof {
                    let k = (col - first_column) * rows + (row - first_row);
                    vstd::arithmetic::div_mod::lemma_fundamental_div_mod_converse(
                        k,
                        rows,
                        col - first_column,
                        row - first_row,
                    );
                    let columns_all = self.grid_columns as int;
                    let rows_all = self.grid_rows as int;
                    assert(0 <= row * columns_all && col + row * columns_all < columns_all
                        * rows_all) by (nonlinear_arith)
                        requires
                            0 <= col < columns_all,
                            0 <= row < rows_all,
                    ;
                }
                ret.push(col + row * self.grid_columns);
                row = row + 1;
            }
            proof {
                assert(row - first_row == rows);
                assert((col - first_column) * rows + rows == (col + 1 - first_column) * rows)
                    by (nonlinear_arith);
            }
            col = col + 1;
        }
        proof {
            if first_column <= last_column {
                assert(col == last_column + 1);
            } else {
                assert((col - first_column) * rows == 0) by (nonlinear_arith)
                    requires
                        col == first_column,
                ;
                assert(columns * rows == 0) by (nonlinear_arith)
                    requires
                        columns == 0,
                ;
            }
            assert(ret@ =~= self.rect_cells(top_left, bottom_right));
        }
        ret
    }

    /// Files every dot of `dots` anew: each cell is emptied, then each dot's
    /// index is appended to the cell of its position.
    pub fn rebuild(&mut self, dots: &Vec<Dot>)
        requires
            old(self).wf(),
        ensures
            final(self).wf(),
            final(self).cell_size == old(self).cell_size,
            final(self).grid_columns == old(self).grid_columns,
            final(self).grid_rows == old(self).grid_rows,
            final(self).holds(dots@),
    {
        let mut emptied: usize = 0;
        while emptied < self.grid_cells.len()
            invariant
                self.wf(),
                self.cell_size == old(self).cell_size,
                self.grid_columns == old(self).grid_columns,
                self.grid_rows == old(self).grid_rows,
                emptied <= self.grid_cells.len(),
                forall|c: int| 0 <= c < emptied ==> (#[trigger] self.cell(c)).len() == 0,
            decreases self.grid_cells.len() - emptied,
        {
            let ghost before = *self;
            self.grid_cells[emptied].clear();
            proof {
                assert forall|c: int| 0 <= c < emptied implies (#[trigger] self.cell(c)).len()
                    == 0 by {
                    assert(self.cell(c) == before.cell(c));
                }
            }
            emptied = emptied + 1;
        }
        let mut i: usize = 0;
        while i < dots.len()
            invariant
                self.wf(),
                self.cell_size == old(self).cell_size,
                self.grid_columns == old(self).grid_columns,
                self.grid_rows == old(self).grid_rows,
                i <= dots.len(),
                self.files(dots@, i as int),
            decreases dots.len() - i,
        {
            let index: usize = self.get_grid_index(dots[i].pos);
            let ghost before = *self;
            self.grid_cells[index].push(i);
            proof {
                assert(self.cell(index as int) == before.cell(index as int).push(i));
                assert forall|c: int|
                    0 <= c < self.grid_cells.len() && c != index implies self.cell(c)
                    == before.cell(c) by {}
                assert forall|p: Vec2d| self.cell_index(p) == before.cell_index(p) by {}
                assert forall|c: int, j: int|
                    0 <= c < self.grid_cells.len() && 0 <= j < self.cell(c).len() implies {
                    &&& 0 <= #[trigger] self.cell(c)[j] < i + 1
                    &&& self.cell_index(dots@[self.cell(c)[j] as int].pos) == c
                } by {
                    if c == index && j == before.cell(c).len() {
                    } else {
                        assert(self.cell(c)[j] == before.cell(c)[j]);
                    }
                }
                assert forall|c: int, j: int, k: int|
                    0 <= c < self.grid_cells.len() && 0 <= j < k < self.cell(c).len()
                    implies #[trigger] self.cell(c)[j] < #[trigger] self.cell(c)[k] by {
                    assert(self.cell(c)[j] == before.cell(c)[j]);
                    if c == index && k == before.cell(c).len() {
                    } else {
                        assert(self.cell(c)[k] == before.cell(c)[k]);
                    }
                }
                assert forall|n: int| 0 <= n < i + 1 implies self.cell(
                    self.cell_index((#[trigger] dots@[n]).pos),
                ).contains(n as usize) by {
                    let home = self.cell_index(dots@[n].pos);
                    before.lemma_cell_index(dots@[n].pos);
                    if n == i {
                        assert(self.cell(home)[before.cell(home).len() as int] == i);
                    } else {
                        assert(before.cell(home).contains(n as usize));
                        let at = choose|at: int|
                            0 <= at < before.cell(home).len() && before.cell(home)[at]
                                == n as usize;
                        assert(self.cell(home)[at] == n as usize);
                    }
                }
            }
            i = i + 1;
        }
    }

    /// Lists the dots filed under the cells between the cell of `top_left`
    /// and the cell of `bottom_right`.
    pub fn indices_in_rect(&self, top_left: Vec2d, bottom_right: Vec2d) -> (r: Vec<usize>)
        requires
            self.wf(),
        ensures
            r@ == self.gathered(self.rect_cells(top_left, bottom_right)),
    {
        let grid_indices = self.get_all_grid_indices(top_left, bottom_right);
        let mut ret: Vec<usize> = Vec::new();
        let mut a: usize = 0;
        while a < grid_indices.len()
            invariant
                a <= grid_indices.len(),
                forall|k: int|
                    0 <= k < grid_indices.len() ==> #[trigger] grid_indices[k]
                        < self.grid_cells.len(),
                ret@ == self.gathered(grid_indices@.take(a as int)),
            decreases grid_indices.len() - a,
        {
            let index: usize = grid_indices[a];
            let ghost start = ret@;
            let mut b: usize = 0;
            while b < self.grid_cells[index].len()
                invariant
                    index < self.grid_cells.len(),
                    b <= self.cell(index as int).len(),
                    ret@ == start + self.cell(index as int).take(b as int),
                decreases self.cell(index as int).len() - b,
            {
                let entry: usize = self.grid_cells[index][b];
                ret.push(entry);
                proof {
                    assert(self.cell(index as int).take(b + 1) =~= self.cell(index as int).take(
                        b as int,
                    ).push(entry));
                }
                b = b + 1;
            }
            proof {
                let upto = grid_indices@.take(a + 1);
                assert(upto.drop_last() =~= grid_indices@.take(a as int));
                assert(upto.last() == index);
                assert(self.cell(index as int).take(b as int) =~= self.cell(index as int));
            }
            a = a + 1;
        }
        proof {
            assert(grid_indices@.take(a as int) =~= grid_indices@);
        }
        ret
    }

    /// A column and a row inside the grid are found again in the index of
    /// their cell.
    pub proof fn lemma_cell_coordinates(&self, column: int, row: int)
        requires
            self.wf(),
            0 <= column < self.grid_columns,
            0 <= row < self.grid_rows,
        ensures
            0 <= column + row * self.grid_columns < self.grid_cells.len(),
            (column + row * self.grid_columns) % (self.grid_columns as int) == column,
            (column + row * self.grid_columns) / (self.grid_columns as int) == row,
    {
        let columns = self.grid_columns as int;
        let rows = self.grid_rows as int;
        assert(0 <= row * columns && column + row * columns < columns * rows)
            by (nonlinear_arith)
            requires
                0 <= column < columns,
                0 <= row < rows,
        ;
        vstd::arithmetic::div_mod::lemma_fundamental_div_mod_converse(
            column + row * columns,
            columns,
            row,
            column,
        );
    }

    /// The cells of a rectangle are cells of the grid, none is named twice,
    /// and the cell at a column and a row is among them exactly when the
    /// column and the row lie between those of the two corners.
    pub proof fn lemma_rect_cells(&self, top_left: Vec2d, bottom_right: Vec2d)
        requires
            self.wf(),
        ensures
            self.rect_cells(top_left, bottom_right).no_duplicates(),
            forall|k: int|
                0 <= k < self.rect_cells(top_left, bottom_right).len()
                    ==> #[trigger] self.rect_cells(top_left, bottom_right)[k]
                    < self.grid_cells.len(),
            forall|position: Vec2d|
                self.rect_cells(top_left, bottom_right).contains(
                    #[trigger] self.cell_index(position) as usize,
                ) <==> {
                    &&& self.column_of(top_left) <= self.column_of(position) <= self.column_of(
                        bottom_right,
                    )
                    &&& self.row_of(top_left) <= self.row_of(position) <= self.row_of(bottom_right)
                },
    {
        let list = self.rect_cells(top_left, bottom_right);
        let first_column = self.column_of(top_left);
        let last_column = self.column_of(bottom_right);
        let first_row = self.row_of(top_left);
        let last_row = self.row_of(bottom_right);
        let columns = Self::span(first_column, last_column);
        let rows = Self::span(first_row, last_row);
        self.lemma_cell_index(top_left);
        self.lemma_cell_index(bottom_right);
        assert forall|k: int| 0 <= k < list.len() implies {
            &&& 0 <= k / rows < columns
            &&& 0 <= k % rows < rows
            &&& list[k] == (first_column + k / rows) + (first_row + k % rows) * self.grid_columns
            &&& #[trigger] list[k] < self.grid_cells.len()
            &&& list[k] as int % (self.grid_columns as int) == first_column + k / rows
            &&& list[k] as int / (self.grid_columns as int) == first_row + k % rows
        } by {
            assert(rows > 0 && columns > 0) by (nonlinear_arith)
                requires
                    0 <= k < columns * rows,
                    columns >= 0,
                    rows >= 0,
            ;
            vstd::arithmetic::div_mod::lemma_fundamental_div_mod(k, rows);
            vstd::arithmetic::div_mod::lemma_mod_bound(k, rows);
            vstd::arithmetic::div_mod::lemma_div_pos_is_pos(k, rows);
            assert(k / rows < columns) by (nonlinear_arith)
                requires
                    k == rows * (k / rows) + (k % rows),
                    0 <= k % rows,
                    k < columns * rows,
                    rows > 0,
            ;
            self.lemma_cell_coordinates(first_column + k / rows, first_row + k % rows);
        }
        assert forall|a: int, b: int|
            0 <= a < list.len() && 0 <= b < list.len() && a != b implies list[a] != list[b] by {
            vstd::arithmetic::div_mod::lemma_fundamental_div_mod(a, rows);
            vstd::arithmetic::div_mod::lemma_fundamental_div_mod(b, rows);
            if list[a] == list[b] {
                assert(a / rows == b / rows);
                assert(a % rows == b % rows);
            }
        }
        assert forall|position: Vec2d|
            list.contains(#[trigger] self.cell_index(position) as usize) <==> {
                &&& first_column <= self.column_of(position) <= last_column
                &&& first_row <= self.row_of(position) <= last_row
            } by {
            let column = self.column_of(position);
            let row = self.row_of(position);
            self.lemma_cell_index(position);
            self.lemma_cell_coordinates(column, row);
            if first_column <= column <= last_column && first_row <= row <= last_row {
                let k = (column - first_column) * rows + (row - first_row);
                vstd::arithmetic::div_mod::lemma_fundamental_div_mod_converse(
                    k,
                    rows,
                    column - first_column,
                    row - first_row,
                );
                assert(0 <= k < columns * rows) by (nonlinear_arith)
                    requires
                        k == (column - first_column) * rows + (row - first_row),
                        0 <= column - first_column < columns,
                        0 <= row - first_row < rows,
                ;
                assert(list[k] == self.cell_index(position) as usize);
            }
            if list.contains(self.cell_index(position) as usize) {
                let k = choose|k: int|
                    0 <= k < list.len() && list[k] == self.cell_index(position) as usize;
                assert(list[k] < self.grid_cells.len());
            }
        }
    }

    /// Gathering the dots of distinct cells names no dot twice, names dots
    /// only, and names a dot exactly when the cell of its position is one of
    /// the cells.
    pub proof fn lemma_gathered(&self, dots: Seq<Dot>, cells: Seq<usize>)
        requires
            self.wf(),
            self.holds(dots),
            cells.no_duplicates(),
            forall|k: int| 0 <= k < cells.len() ==> #[trigger] cells[k] < self.grid_cells.len(),
        ensures
            self.gathered(cells).no_duplicates(),
            forall|j: int|
                0 <= j < self.gathered(cells).len() ==> #[trigger] self.gathered(cells)[j]
                    < dots.len(),
            forall|i: int|
                0 <= i < dots.len() ==> (self.gathered(cells).contains(i as usize)
                    <==> cells.contains(self.cell_index((#[trigger] dots[i]).pos) as usize)),
        decreases cells.len(),
    {
        if cells.len() > 0 {
            let front = cells.drop_last();
            let c = cells.last() as int;
            let head = self.gathered(front);
            let tail = self.cell(c);
            self.lemma_gathered(dots, front);
            assert(tail.no_duplicates());
            assert forall|a: int, b: int| 0 <= a < head.len() && 0 <= b < tail.len() implies head[a]
                != tail[b] by {
                if head[a] == tail[b] {
                    let i = tail[b] as int;
                    assert(self.cell_index(dots[i].pos) == c);
                    assert(head.contains(i as usize));
                    assert(front.contains(c as usize));
                    let k = choose|k: int| 0 <= k < front.len() && front[k] == c as usize;
                    assert(cells[k] == cells[cells.len() - 1]);
                }
            }
            vstd::seq_lib::lemma_no_dup_in_concat(head, tail);
            let all = self.gathered(cells);
            assert(all == head + tail);
            assert forall|j: int| 0 <= j < all.len() implies #[trigger] all[j] < dots.len() by {
                if j >= head.len() {
                    assert(all[j] == tail[j - head.len()]);
                } else {
                    assert(all[j] == head[j]);
                }
            }
            assert forall|i: int| 0 <= i < dots.len() implies (all.contains(i as usize)
                <==> cells.contains(self.cell_index((#[trigger] dots[i]).pos) as usize)) by {
                let home = self.cell_index(dots[i].pos);
                self.lemma_cell_index(dots[i].pos);
                if all.contains(i as usize) {
                    let j = choose|j: int| 0 <= j < all.len() && all[j] == i as usize;
                    if j >= head.len() {
                        assert(tail[j - head.len()] == i as usize);
                        assert(home == c);
                        assert(cells[cells.len() - 1] == home as usize);
                    } else {
                        assert(head[j] == i as usize);
                        assert(head.contains(i as usize));
                        let k = choose|k: int| 0 <= k < front.len() && front[k] == home as usize;
                        assert(cells[k] == home as usize);
                    }
                }
                if cells.contains(home as usize) {
                    let k = choose|k: int| 0 <= k < cells.len() && cells[k] == home as usize;
                    if k == cells.len() - 1 {
                        assert(tail.contains(i as usize));
                        let at = choose|at: int| 0 <= at < tail.len() && tail[at] == i as usize;
                        assert(all[head.len() + at] == i as usize);
                    } else {
                        assert(front[k] == home as usize);
                        assert(head.contains(i as usize));
                        let at = choose|at: int| 0 <= at < head.len() && head[at] == i as usize;
                        assert(all[at] == i as usize);
                    }
                }
            }
        }
    }

    /// What a rectangle query returns: no dot twice, dots only, and a dot
    /// exactly when the column and the row of its position lie between those
    /// of the two corners. In particular every dot whose position lies
    /// between the corners is returned.
    pub proof fn lemma_indices_in_rect(&self, dots: Seq<Dot>, top_left: Vec2d, bottom_right: Vec2d)
        requires
            self.wf(),
            self.holds(dots),
        ensures
            self.gathered(self.rect_cells(top_left, bottom_right)).no_duplicates(),
            forall|j: int|
                0 <= j < self.gathered(self.rect_cells(top_left, bottom_right)).len()
                    ==> #[trigger] self.gathered(self.rect_cells(top_left, bottom_right))[j]
                    < dots.len(),
            forall|i: int|
                0 <= i < dots.len() ==> (self.gathered(
                    self.rect_cells(top_left, bottom_right),
                ).contains(i as usize) <==> {
                    &&& self.column_of(top_left) <= self.column_of((#[trigger] dots[i]).pos)
                        <= self.column_of(bottom_right)
                    &&& self.row_of(top_left) <= self.row_of(dots[i].pos) <= self.row_of(
                        bottom_right,
                    )
                }),
            forall|i: int|
                0 <= i < dots.len() && top_left.x <= (#[trigger] dots[i]).pos.x <= bottom_right.x
                    && top_left.y <= dots[i].pos.y <= bottom_right.y ==> self.gathered(
                    self.rect_cells(top_left, bottom_right),
                ).contains(i as usize),
    {
        let cells = self.rect_cells(top_left, bottom_right);
        self.lemma_rect_cells(top_left, bottom_right);
        self.lemma_gathered(dots, cells);
        assert forall|i: int|
            0 <= i < dots.len() && top_left.x <= (#[trigger] dots[i]).pos.x <= bottom_right.x
                && top_left.y <= dots[i].pos.y <= bottom_right.y implies self.gathered(
            cells,
        ).contains(i as usize) by {
            let p = dots[i].pos;
            self.lemma_lane(top_left.x as int, p.x as int, self.grid_columns as int);
            self.lemma_lane(p.x as int, bottom_right.x as int, self.grid_columns as int);
            self.lemma_lane(top_left.y as int, p.y as int, self.grid_rows as int);
            self.lemma_lane(p.y as int, bottom_right.y as int, self.grid_rows as int);
        }
    }

    /// Whether the bounds of the cell at `column` and `row` contain a
    /// position. A cell on the rim of the grid reaches outward without end.
    pub open spec fn cell_covers(&self, column: int, row: int, position: Vec2d) -> bool {
        &&& column == 0 || column * self.cell_size <= position.x
        &&& column == self.grid_columns - 1 || position.x < (column + 1) * self.cell_size
        &&& row == 0 || row * self.cell_size <= position.y
        &&& row == self.grid_rows - 1 || position.y < (row + 1) * self.cell_size
    }

    /// The bounds of a cell of the grid contain a position exactly when it is
    /// the cell that the position falls in.
    pub proof fn lemma_cell_covers(&self, column: int, row: int, position: Vec2d)
        requires
            self.wf(),
            0 <= column < self.grid_columns,
            0 <= row < self.grid_rows,
        ensures
            self.cell_covers(column, row, position) <==> column == self.column_of(position) && row
                == self.row_of(position),
    {
        self.lemma_lane_covers(column, position.x as int, self.grid_columns as int);
        self.lemma_lane_covers(row, position.y as int, self.grid_rows as int);
    }

    /// Along one axis, a coordinate falls in lane `lane` exactly when it lies
    /// between the bounds of that lane, the first and the last lane reaching
    /// outward without end.
    pub proof fn lemma_lane_covers(&self, lane: int, coordinate: int, lanes: int)
        requires
            0 < self.cell_size,
            0 <= lane < lanes,
        ensures
            lane == self.lane(coordinate, lanes) <==> {
                &&& lane == 0 || lane * self.cell_size <= coordinate
                &&& lane == lanes - 1 || coordinate < (lane + 1) * self.cell_size
            },
    {
        let size = self.cell_size as int;
        if coordinate >= 0 {
            let q = coordinate / size;
            vstd::arithmetic::div_mod::lemma_fundamental_div_mod(coordinate, size);
            vstd::arithmetic::div_mod::lemma_mod_bound(coordinate, size);
            vstd::arithmetic::div_mod::lemma_div_pos_is_pos(coordinate, size);
            assert(lane * size <= coordinate <==> lane <= q) by (nonlinear_arith)
                requires
                    coordinate == size * q + coordinate % size,
                    0 <= coordinate % size < size,
            ;
            assert(coordinate < (lane + 1) * size <==> q <= lane) by (nonlinear_arith)
                requires
                    coordinate == size * q + coordinate % size,
                    0 <= coordinate % size < size,
            ;
        } else {
            assert(lane > 0 ==> lane * size > coordinate) by (nonlinear_arith)
                requires
                    coordinate < 0,
                    size > 0,
            ;
            assert(coordinate < (lane + 1) * size) by (nonlinear_arith)
                requires
                    coordinate < 0,
                    size > 0,
                    lane >= 0,
            ;
        }
    }

    /// A grid that files some dots files as well any dots that lie at the
    /// same positions.
    pub proof fn lemma_holds_by_position(&self, dots: Seq<Dot>, others: Seq<Dot>)
        requires
            self.holds(dots),
            dots.len() == others.len(),
            forall|i: int| 0 <= i < dots.len() ==> (#[trigger] others[i]).pos == dots[i].pos,
        ensures
            self.holds(others),
    {
        assert forall|c: int, j: int|
            0 <= c < self.grid_cells.len() && 0 <= j < self.cell(c).len() implies {
            &&& 0 <= #[trigger] self.cell(c)[j] < others.len()
            &&& self.cell_index(others[self.cell(c)[j] as int].pos) == c
        } by {
            let i = self.cell(c)[j] as int;
            assert(others[i].pos == dots[i].pos);
        }
        assert forall|i: int| 0 <= i < others.len() implies self.cell(
            self.cell_index((#[trigger] others[i]).pos),
        ).contains(i as usize) by {
            assert(self.cell(self.cell_index(dots[i].pos)).contains(i as usize));
        }
    }

    /// Grid completeness: in a grid that files `dots`, dot `i` is listed in
    /// cell `c` exactly when `c` is the cell that its position falls in, it is
    /// listed there once, and the bounds of that cell contain its position.
    pub proof fn lemma_grid_complete(&self, dots: Seq<Dot>, i: int, c: int)
        requires
            self.wf(),
            self.holds(dots),
            0 <= i < dots.len(),
            0 <= c < self.grid_cells.len(),
        ensures
            self.cell(c).contains(i as usize) <==> c == self.cell_index(dots[i].pos),
            forall|j: int, k: int|
                0 <= j < self.cell(c).len() && 0 <= k < self.cell(c).len() && self.cell(c)[j] == i
                    && self.cell(c)[k] == i ==> j == k,
            self.cell_covers(
                self.column_of(dots[i].pos),
                self.row_of(dots[i].pos),
                dots[i].pos,
            ),
    {
        self.lemma_cell_index(dots[i].pos);
        self.lemma_cell_covers(self.column_of(dots[i].pos), self.row_of(dots[i].pos), dots[i].pos);
        if self.cell(c).contains(i as usize) {
            let j = choose|j: int| 0 <= j < self.cell(c).len() && self.cell(c)[j] == i as usize;
            assert(self.cell_index(dots[self.cell(c)[j] as int].pos) == c);
        }
        assert forall|j: int, k: int|
            0 <= j < self.cell(c).len() && 0 <= k < self.cell(c).len() && self.cell(c)[j] == i
                && self.cell(c)[k] == i implies j == k by {
            if j < k {
                assert(self.cell(c)[j] < self.cell(c)[k]);
            }
            if k < j {
                assert(self.cell(c)[k] < self.cell(c)[j]);
            }
        }
    }
}

} // verus!
