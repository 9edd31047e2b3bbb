use vstd::prelude::*;

verus! {

/// Column of the cell addressed by horizontal coordinate `x` in a grid `w` cells wide.
pub open spec fn column_of(w: int, x: int) -> int {
    w / 2 + x
}

/// Row (counted from the top) of the cell addressed by vertical coordinate `y` in a grid `h`
/// cells high. The vertical axis points up, so the largest `y` is the top row.
pub open spec fn row_of(h: int, y: int) -> int {
    h / 2 - y
}

/// The centred coordinate range of a `w` × `h` grid: both bounds inclusive on both axes.
pub open spec fn in_range(w: int, h: int, x: int, y: int) -> bool {
    -(w / 2) <= x <= w / 2 && -(h / 2) <= y <= h / 2
}

/// Whether `(x, y)` addresses a cell of a `w` × `h` grid: it lies in the centred range and
/// its column and row exist. When a dimension is even, the upper end of the range on the
/// horizontal axis (the lower end on the vertical axis) has no cell left for it.
pub open spec fn addresses_cell(w: int, h: int, x: int, y: int) -> bool {
    in_range(w, h, x, y) && column_of(w, x) < w && row_of(h, y) < h
}

/// Row-major position of the cell that `(x, y)` addresses.
pub open spec fn cell_index(w: int, h: int, x: int, y: int) -> int {
    w * row_of(h, y) + column_of(w, x)
}

/// Mathematical model of a framebuffer: its dimensions and its cells in row-major order.
pub struct Grid<T> {
    pub width: nat,
    pub height: nat,
    pub cells: Seq<T>,
}

impl<T> Grid<T> {
    /// A grid holds one cell for each pair of a row and a column, and its dimensions fit the
    /// coordinate type.
    pub open spec fn wf(self) -> bool {
        &&& self.cells.len() == self.width * self.height
        &&& self.width <= i32::MAX
        &&& self.height <= i32::MAX
    }

    /// Whether `(x, y)` addresses a cell of this grid.
    pub open spec fn has(self, x: int, y: int) -> bool {
        addresses_cell(self.width as int, self.height as int, x, y)
    }

    /// Position in `cells` of the cell that `(x, y)` addresses.
    pub open spec fn index_of(self, x: int, y: int) -> int {
        cell_index(self.width as int, self.height as int, x, y)
    }

    /// The value of the cell that `(x, y)` addresses.
    pub open spec fn at(self, x: int, y: int) -> T {
        self.cells[self.index_of(x, y)]
    }
}

/// A fixed-size grid of cells addressed by centred integer coordinates: `(0, 0)` is the
/// middle cell, `x` grows to the right and `y` grows upwards.
pub struct Plane<T> {
    stride: usize,
    rows: usize,
    origin: (i32, i32),
    data: Vec<T>,
}

impl<T> View for Plane<T> {
    type V = Grid<T>;

    closed spec fn view(&self) -> Grid<T> {
        Grid { width: self.stride as nat, height: self.rows as nat, cells: self.data@ }
    }
}

impl<T> Plane<T> {
    #[verifier::type_invariant]
    spec fn inv(self) -> bool {
        &&& self.stride <= i32::MAX
        &&& self.rows <= i32::MAX
        &&& self.origin.0 == self.rows / 2
        &&& self.origin.1 == self.stride / 2
        &&& self.data@.len() == self.stride * self.rows
    }

    /// A plane of `w` × `h` cells, each holding `background`.
    pub fn new(w: usize, h: usize, background: T) -> (plane: Plane<T>) where T: Copy
        requires
            w <= i32::MAX,
            h <= i32::MAX,
            w * h <= usize::MAX,
        ensures
            plane@.wf(),
            plane@.width == w,
            plane@.height == h,
            plane@.cells == Seq::new((w * h) as nat, |i: int| background),
    {
        let count: usize = w * h;
        let mut data: Vec<T> = Vec::with_capacity(count);
        let mut filled: usize = 0;
        while filled < count
            invariant
                filled <= count,
                data@ == Seq::new(filled as nat, |i: int| background),
            decreases count - filled,
        {
            data.push(background);
            filled += 1;
            assert(data@ =~= Seq::new(filled as nat, |i: int| background));
        }
        Plane { stride: w, rows: h, origin: ((h / 2) as i32, (w / 2) as i32), data }
    }

    /// Number of cells in a row.
    pub fn width(&self) -> (w: usize)
        ensures
            w == self@.width,
            self@.wf(),
    {
        proof {
            use_type_invariant(self);
        }
        self.stride
    }

    /// Number of rows.
    pub fn height(&self) -> (h: usize)
        ensures
            h == self@.height,
            self@.wf(),
    {
        proof {
            use_type_invariant(self);
        }
        self.rows
    }

    /// The pure mapping from centred coordinates to the row-major position of a cell.
    pub fn index(&self, x: i32, y: i32) -> (r: Option<usize>)
        ensures
            r.is_some() <==> self@.has(x as int, y as int),
            r.is_some() ==> r.unwrap() == self@.index_of(x as int, y as int) && r.unwrap()
                < self@.cells.len(),
    {
        proof {
            use_type_invariant(self);
        }
        let half_w: i32 = self.origin.1;
        let half_h: i32 = self.origin.0;
        if x < -half_w || x > half_w || y < -half_h || y > half_h {
            return None;
        }
        let col: usize = (half_w + x) as usize;
        let row: usize = (half_h - y) as usize;
        if col >= self.stride || row >= self.rows {
            return None;
        }
        proof {
            lemma_index_in_bounds(self.stride as int, self.rows as int, x as int, y as int);
            assert(row == row_of(self.rows as int, y as int));
            assert(col == column_of(self.stride as int, x as int));
            assert(self.data.len() == self.stride as int * self.rows as int);
        }
        Some(self.stride * row + col)
    }

    /// The value of the cell that `(x, y)` addresses; `None` when `(x, y)` addresses no cell.
    pub fn get(&self, x: i32, y: i32) -> (r: Option<&T>)
        ensures
            r.is_some() <==> self@.has(x as int, y as int),
            r.is_some() ==> *r.unwrap() == self@.at(x as int, y as int),
    {
        match self.index(x, y) {
            Some(pos) => Some(&self.data[pos]),
            None => None,
        }
    }

    /// All cells in row-major order, top row first.
    pub fn cells(&self) -> (cells: &[T])
        ensures
            cells@ == self@.cells,
    {
        self.data.as_slice()
    }

    /// The cell that `(x, y)` addresses, for reading and writing; `None` when `(x, y)`
    /// addresses no cell. Writing through the reference changes that cell and no other.
    pub fn point(&mut self, x: i32, y: i32) -> (r: Option<&mut T>)
        ensures
            r.is_some() <==> old(self)@.has(x as int, y as int),
            r.is_none() ==> final(self)@ == old(self)@,
            r.is_some() ==> {
                &&& *r.unwrap() == old(self)@.at(x as int, y as int)
                &&& final(self)@.width == old(self)@.width
                &&& final(self)@.height == old(self)@.height
                &&& final(self)@.cells == old(self)@.cells.update(
                    old(self)@.index_of(x as int, y as int),
                    *final(r.unwrap()),
                )
            },
    {
        proof {
            use_type_invariant(&*self);
        }
        match self.index(x, y) {
            Some(pos) => Some(&mut self.data[pos]),
            None => None,
        }
    }

    /// Visits every cell once and asks `shade` for its value. Where `shade` answers with a
    /// value, the cell takes it; where it answers `None`, the cell keeps what it held.
    pub fn render<F: Fn(i32, i32) -> Option<T>>(&mut self, shade: F)
        requires
            forall|x: i32, y: i32| #[trigger]
                old(self)@.has(x as int, y as int) ==> call_requires(shade, (x, y)),
        ensures
            final(self)@.wf(),
            final(self)@.width == old(self)@.width,
            final(self)@.height == old(self)@.height,
            forall|x: i32, y: i32| #[trigger]
                old(self)@.has(x as int, y as int) ==> shaded(
                    shade,
                    x,
                    y,
                    old(self)@.at(x as int, y as int),
                    final(self)@.at(x as int, y as int),
                ),
    {
        proof {
            use_type_invariant(&*self);
        }
        let half_w: i32 = self.origin.1;
        let half_h: i32 = self.origin.0;
        let ghost before: Grid<T> = self@;
        let mut x: i32 = -half_w;
        while x <= half_w
            invariant
                half_w == before.width / 2,
                half_h == before.height / 2,
                before.wf(),
                -half_w <= x <= half_w + 1,
                self@.width == before.width,
                self@.height == before.height,
                self@.cells.len() == before.cells.len(),
                forall|a: i32, b: i32| #[trigger]
                    before.has(a as int, b as int) ==> call_requires(shade, (a, b)),
                forall|a: i32, b: i32| #[trigger]
                    before.has(a as int, b as int) ==> if a < x {
                        shaded(shade, a, b, before.at(a as int, b as int), self@.at(a as int, b as int))
                    } else {
                        self@.at(a as int, b as int) == before.at(a as int, b as int)
                    },
            decreases half_w + 1 - x,
        {
            let mut y: i32 = -half_h;
            while y <= half_h
                invariant
                    half_w == before.width / 2,
                    half_h == before.height / 2,
                    before.wf(),
                    -half_w <= x <= half_w,
                    -half_h <= y <= half_h + 1,
                    self@.width == before.width,
                    self@.height == before.height,
                    self@.cells.len() == before.cells.len(),
                    forall|a: i32, b: i32| #[trigger]
                        before.has(a as int, b as int) ==> call_requires(shade, (a, b)),
                    forall|a: i32, b: i32| #[trigger]
                        before.has(a as int, b as int) ==> if a < x || (a == x && b < y) {
                            shaded(
                                shade,
                                a,
                                b,
                                before.at(a as int, b as int),
                                self@.at(a as int, b as int),
                            )
                        } else {
                            self@.at(a as int, b as int) == before.at(a as int, b as int)
                        },
                decreases half_h + 1 - y,
            {
                let ghost current: Grid<T> = self@;
                let ghost mut answered: Option<T> = None;
                match self.point(x, y) {
                    Some(cell) => {
                        assert(before.has(x as int, y as int));
                        let answer = shade(x, y);
                        proof {
                            answered = answer;
                        }
                        match answer {
                            Some(value) => {
                                *cell = value;
                            },
                            None => {},
                        }
                    },
                    None => {},
                }
                proof {
                    if before.has(x as int, y as int) {
                        lemma_index_in_bounds(
                            before.width as int,
                            before.height as int,
                            x as int,
                            y as int,
                        );
                        assert(call_ensures(shade, (x, y), answered));
                        assert(shaded(
                            shade,
                            x,
                            y,
                            before.at(x as int, y as int),
                            self@.at(x as int, y as int),
                        ));
                    }
                    assert forall|a: i32, b: i32|
                        before.has(a as int, b as int) && !(a == x && b == y) implies self@.at(
                            a as int,
                            b as int,
                        ) == current.at(a as int, b as int) by {
                        if before.has(x as int, y as int) && before.index_of(a as int, b as int)
                            == before.index_of(x as int, y as int) {
                            lemma_index_injective(
                                before.width as int,
                                before.height as int,
                                a as int,
                                b as int,
                                x as int,
                                y as int,
                            );
                        }
                        lemma_index_in_bounds(
                            before.width as int,
                            before.height as int,
                            a as int,
                            b as int,
                        );
                    }
                }
                y += 1;
            }
            x += 1;
        }
    }
}

/// What `render` leaves in a cell: the value `shade` answered with for its coordinates, or
/// the value it held before where `shade` answered `None`.
pub open spec fn shaded<T, F: Fn(i32, i32) -> Option<T>>(
    shade: F,
    x: i32,
    y: i32,
    before: T,
    after: T,
) -> bool {
    exists|answer: Option<T>| #[trigger]
        call_ensures(shade, (x, y), answer) && after == match answer {
            Some(value) => value,
            None => before,
        }
}

/// Two coordinates that address cells address the same cell only if they are equal.
pub proof fn lemma_index_injective(w: int, h: int, x1: int, y1: int, x2: int, y2: int)
    requires
        0 <= w,
        0 <= h,
        addresses_cell(w, h, x1, y1),
        addresses_cell(w, h, x2, y2),
        cell_index(w, h, x1, y1) == cell_index(w, h, x2, y2),
    ensures
        x1 == x2,
        y1 == y2,
{
    let r1 = row_of(h, y1);
    let r2 = row_of(h, y2);
    let c1 = column_of(w, x1);
    let c2 = column_of(w, x2);
    if r1 < r2 {
        assert(w * r1 + w <= w * r2) by (nonlinear_arith)
            requires
                r1 + 1 <= r2,
                0 <= w,
        ;
    }
    if r2 < r1 {
        assert(w * r2 + w <= w * r1) by (nonlinear_arith)
            requires
                r2 + 1 <= r1,
                0 <= w,
        ;
    }
}

/// A coordinate that addresses a cell maps to a position below `w * h`.
pub proof fn lemma_index_in_bounds(w: int, h: int, x: int, y: int)
    requires
        0 <= w,
        0 <= h,
        addresses_cell(w, h, x, y),
    ensures
        0 <= cell_index(w, h, x, y) < w * h,
        0 <= w * row_of(h, y) <= w * h - w,
{
    let r = row_of(h, y);
    assert(0 <= w * r <= w * (h - 1)) by (nonlinear_arith)
        requires
            0 <= r <= h - 1,
            0 <= w,
    ;
    assert(w * (h - 1) == w * h - w) by (nonlinear_arith);
}

/// Every position below `w * h` is the cell of some coordinate: addressing reaches the whole
/// grid. Together with `lemma_index_injective` this makes the coordinates that address a
/// cell and the cells of the grid correspond one to one.
pub proof fn lemma_every_cell_addressed(w: int, h: int, i: int)
    requires
        0 <= w,
        0 <= h,
        0 <= i < w * h,
    ensures
        addresses_cell(w, h, i % w - w / 2, h / 2 - i / w),
        cell_index(w, h, i % w - w / 2, h / 2 - i / w) == i,
{
    assert(w > 0) by (nonlinear_arith)
        requires
            0 <= w,
            0 <= i < w * h,
    ;
    let row = i / w;
    let col = i % w;
    assert(i == w * row + col && 0 <= col < w) by (nonlinear_arith)
        requires
            w > 0,
            row == i / w,
            col == i % w,
    ;
    assert(0 <= row < h) by (nonlinear_arith)
        requires
            w > 0,
            0 <= col < w,
            0 <= w * row + col < w * h,
    ;
}

/// The coordinates just beyond the right and the upper end of the centred range address no
/// cell, whatever the dimensions.
pub proof fn lemma_beyond_edge_rejected(w: int, h: int)
    requires
        0 <= w,
        0 <= h,
    ensures
        !addresses_cell(w, h, w / 2 + 1, 0),
        !addresses_cell(w, h, 0, h / 2 + 1),
{
}

/// No coordinate outside the centred range addresses a cell.
pub proof fn lemma_outside_range_rejected(w: int, h: int, x: int, y: int)
    requires
        !in_range(w, h, x, y),
    ensures
        !addresses_cell(w, h, x, y),
{
}

/// Where both dimensions are odd, every coordinate of the centred range addresses a cell.
pub proof fn lemma_odd_range_addresses_cells(w: int, h: int, x: int, y: int)
    requires
        0 <= w,
        0 <= h,
        w % 2 == 1,
        h % 2 == 1,
    ensures
        addresses_cell(w, h, x, y) <==> in_range(w, h, x, y),
{
}

/// Where the width is even, the right end of the centred range has no column left for it;
/// where the height is even, the lower end has no row left for it.
pub proof fn lemma_even_edge_rejected(w: int, h: int, x: int, y: int)
    requires
        0 <= w,
        0 <= h,
    ensures
        w % 2 == 0 ==> !addresses_cell(w, h, w / 2, y),
        h % 2 == 0 ==> !addresses_cell(w, h, x, -(h / 2)),
{
}

} // verus!
