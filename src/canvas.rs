//! A fixed-size, row-major buffer of pixels addressed by `(x, y)`.
use vstd::prelude::*;

verus! {

/// Position in the row-major buffer of the cell `(x, y)` of a canvas
/// `width` cells wide.
pub open spec fn pixel_index(width: int, x: int, y: int) -> int {
    y * width + x
}

/// Whether `(x, y)` addresses a cell of a `width` by `height` canvas.
pub open spec fn in_bounds(width: int, height: int, x: int, y: int) -> bool {
    0 <= x < width && 0 <= y < height
}

/// Whether `width` and `height` are dimensions that a canvas can have: both
/// positive, with a cell count that fits in an `i32`.
pub open spec fn valid_dimensions(width: int, height: int) -> bool {
    0 < width && 0 < height && width * height <= i32::MAX
}

/// The cells of a freshly created canvas: every one holds `fill`.
pub open spec fn blank<T>(width: int, height: int, fill: T) -> Seq<T> {
    Seq::new((width * height) as nat, |i: int| fill)
}

/// The cells after `color` is written at `(x, y)`.
pub open spec fn written<T>(cells: Seq<T>, width: int, x: int, y: int, color: T) -> Seq<T> {
    cells.update(pixel_index(width, x, y), color)
}

/// The cells after `color` is written at each position of `coords`, in
/// order.
pub open spec fn written_all<T>(cells: Seq<T>, width: int, coords: Seq<(int, int)>, color: T) -> Seq<
    T,
>
    decreases coords.len(),
{
    if coords.len() == 0 {
        cells
    } else {
        let (x, y) = coords.last();
        written(written_all(cells, width, coords.drop_last(), color), width, x, y, color)
    }
}

/// Every cell of a canvas has a position of its own in the buffer.
pub proof fn lemma_pixel_index_bounds(width: int, height: int, x: int, y: int)
    requires
        in_bounds(width, height, x, y),
    ensures
        0 <= pixel_index(width, x, y) < width * height,
{
    assert(0 <= y * width + x < width * height) by (nonlinear_arith)
        requires
            0 <= x < width,
            0 <= y < height,
    ;
}

/// Distinct cells have distinct positions in the buffer.
pub proof fn lemma_pixel_index_distinct(width: int, height: int, x1: int, y1: int, x2: int, y2: int)
    requires
        in_bounds(width, height, x1, y1),
        in_bounds(width, height, x2, y2),
        (x1, y1) != (x2, y2),
    ensures
        pixel_index(width, x1, y1) != pixel_index(width, x2, y2),
{
    if y1 < y2 {
        assert(y1 * width + x1 < y2 * width + x2) by (nonlinear_arith)
            requires
                0 <= x1 < width,
                0 <= x2,
                y1 < y2,
        ;
    } else if y2 < y1 {
        assert(y2 * width + x2 < y1 * width + x1) by (nonlinear_arith)
            requires
                0 <= x2 < width,
                0 <= x1,
                y2 < y1,
        ;
    }
}

/// Reading a cell just written gives the color written; every other cell
/// keeps what it held.
pub proof fn lemma_write_then_read<T>(
    width: int,
    height: int,
    cells: Seq<T>,
    x: int,
    y: int,
    color: T,
    x2: int,
    y2: int,
)
    requires
        valid_dimensions(width, height),
        cells.len() == width * height,
        in_bounds(width, height, x, y),
        in_bounds(width, height, x2, y2),
    ensures
        written(cells, width, x, y, color)[pixel_index(width, x, y)] == color,
        (x2, y2) != (x, y) ==> written(cells, width, x, y, color)[pixel_index(width, x2, y2)]
            == cells[pixel_index(width, x2, y2)],
{
    lemma_pixel_index_bounds(width, height, x, y);
    lemma_pixel_index_bounds(width, height, x2, y2);
    if (x2, y2) != (x, y) {
        lemma_pixel_index_distinct(width, height, x, y, x2, y2);
    }
}

proof fn lemma_written_all_holds<T>(
    width: int,
    height: int,
    cells: Seq<T>,
    coords: Seq<(int, int)>,
    color: T,
)
    requires
        valid_dimensions(width, height),
        cells.len() == width * height,
        forall|k: int| 0 <= k < coords.len() ==> in_bounds(width, height, #[trigger] coords[k].0, coords[k].1),
    ensures
        written_all(cells, width, coords, color).len() == cells.len(),
        forall|k: int|
            0 <= k < coords.len() ==> written_all(cells, width, coords, color)[pixel_index(
                width,
                #[trigger] coords[k].0,
                coords[k].1,
            )] == color,
    decreases coords.len(),
{
    if coords.len() > 0 {
        let prev = coords.drop_last();
        lemma_written_all_holds(width, height, cells, prev, color);
        let (x, y) = coords.last();
        let before = written_all(cells, width, prev, color);
        assert(in_bounds(width, height, coords[coords.len() - 1].0, coords[coords.len() - 1].1));
        lemma_pixel_index_bounds(width, height, x, y);
        assert forall|k: int| 0 <= k < coords.len() implies written_all(
            cells,
            width,
            coords,
            color,
        )[pixel_index(width, #[trigger] coords[k].0, coords[k].1)] == color by {
            if k < coords.len() - 1 {
                assert(prev[k] == coords[k]);
                assert(in_bounds(width, height, coords[k].0, coords[k].1));
                lemma_write_then_read(width, height, before, x, y, color, coords[k].0, coords[k].1);
            }
        }
    }
}

/// Writing one color at every cell of a new canvas, in any order and with
/// any repetitions, and then reading back any cell gives that color.
pub proof fn lemma_fill_round_trip<T>(
    width: int,
    height: int,
    fill: T,
    coords: Seq<(int, int)>,
    color: T,
)
    requires
        valid_dimensions(width, height),
        forall|k: int| 0 <= k < coords.len() ==> in_bounds(width, height, #[trigger] coords[k].0, coords[k].1),
        forall|x: int, y: int| in_bounds(width, height, x, y) ==> coords.contains((x, y)),
    ensures
        forall|x: int, y: int|
            in_bounds(width, height, x, y) ==> written_all(
                blank(width, height, fill),
                width,
                coords,
                color,
            )[#[trigger] pixel_index(width, x, y)] == color,
{
    let cells = blank(width, height, fill);
    lemma_written_all_holds(width, height, cells, coords, color);
    assert forall|x: int, y: int| in_bounds(width, height, x, y) implies written_all(
        cells,
        width,
        coords,
        color,
    )[#[trigger] pixel_index(width, x, y)] == color by {
        assert(coords.contains((x, y)));
        let k = choose|k: int| 0 <= k < coords.len() && coords[k] == (x, y);
        assert(in_bounds(width, height, coords[k].0, coords[k].1));
    }
}

/// Why a canvas could not be created.
#[derive(Clone, Copy, Debug, PartialEq, Eq, Structural)]
pub enum CanvasError {
    /// A dimension is zero or negative, or the cell count overflows `i32`.
    InvalidDimensions,
}

/// A `width` by `height` grid of pixels of type `T`, stored row by row.
pub struct Canvas<T> {
    width: i32,
    height: i32,
    canvas: Vec<T>,
}

impl<T> View for Canvas<T> {
    type V = Seq<T>;

    /// The cells, row 0 first.
    closed spec fn view(&self) -> Seq<T> {
        self.canvas@
    }
}

impl<T> Canvas<T> {
    pub closed spec fn spec_width(&self) -> int {
        self.width as int
    }

    pub closed spec fn spec_height(&self) -> int {
        self.height as int
    }

    /// What every canvas satisfies: valid dimensions and one cell for each
    /// `(x, y)`.
    #[verifier::type_invariant]
    pub open spec fn well_formed(&self) -> bool {
        &&& valid_dimensions(self.spec_width(), self.spec_height())
        &&& self@.len() == self.spec_width() * self.spec_height()
    }
}

impl<T: Copy> Canvas<T> {
    /// Creates a `width` by `height` canvas with every cell set to `fill`.
    pub fn new(width: i32, height: i32, fill: T) -> (r: Result<Canvas<T>, CanvasError>)
        ensures
            valid_dimensions(width as int, height as int) <==> r is Ok,
            r matches Ok(c) ==> {
                &&& c.spec_width() == width
                &&& c.spec_height() == height
                &&& c@ == blank(width as int, height as int, fill)
            },
            r matches Err(e) ==> e == CanvasError::InvalidDimensions,
    {
        if width <= 0 || height <= 0 {
            return Err(CanvasError::InvalidDimensions);
        }
        assert(width as i64 * height as i64 <= i32::MAX as i64 * i32::MAX as i64) by (nonlinear_arith)
            requires
                0 < width,
                0 < height,
        ;
        let cells = width as i64 * height as i64;
        if cells > i32::MAX as i64 {
            return Err(CanvasError::InvalidDimensions);
        }
        let n = cells as usize;
        let mut canvas: Vec<T> = Vec::with_capacity(n);
        let mut i: usize = 0;
        while i < n
            invariant
                i <= n,
                canvas@ == Seq::new(i as nat, |j: int| fill),
            decreases n - i,
        {
            canvas.push(fill);
            i = i + 1;
        }
        let r = Canvas { width, height, canvas };
        assert(r.canvas@ =~= blank(width as int, height as int, fill));
        Ok(r)
    }

    /// The number of cells in a row.
    pub fn width(&self) -> (r: i32)
        ensures
            r == self.spec_width(),
    {
        self.width
    }

    /// The number of rows.
    pub fn height(&self) -> (r: i32)
        ensures
            r == self.spec_height(),
    {
        self.height
    }

    /// All cells, row 0 first.
    pub fn pixels(&self) -> (r: &Vec<T>)
        ensures
            r@ == self@,
    {
        &self.canvas
    }

    /// A canvas of the same size whose every cell is `f` applied to the
    /// matching cell of `self`.
    pub fn map<U: Copy, F: Fn(T) -> U>(&self, f: F) -> (r: Canvas<U>)
        requires
            forall|i: int| 0 <= i < self@.len() ==> f.requires((self@[i],)),
        ensures
            r.spec_width() == self.spec_width(),
            r.spec_height() == self.spec_height(),
            r@.len() == self@.len(),
            forall|i: int| 0 <= i < self@.len() ==> f.ensures((self@[i],), #[trigger] r@[i]),
    {
        proof {
            use_type_invariant(self);
        }
        let mut cells: Vec<U> = Vec::with_capacity(self.canvas.len());
        let mut i: usize = 0;
        while i < self.canvas.len()
            invariant
                i <= self@.len(),
                self@ == self.canvas@,
                cells@.len() == i,
                forall|j: int| 0 <= j < self@.len() ==> f.requires((self@[j],)),
                forall|j: int| 0 <= j < i ==> f.ensures((self@[j],), #[trigger] cells@[j]),
            decreases self@.len() - i,
        {
            let v = f(self.canvas[i]);
            cells.push(v);
            i = i + 1;
        }
        Canvas { width: self.width, height: self.height, canvas: cells }
    }

    /// Replaces the cell at `(x, y)` with `color`.
    pub fn write_pixel(cnvs: &mut Canvas<T>, x: i32, y: i32, color: T)
        requires
            in_bounds(old(cnvs).spec_width(), old(cnvs).spec_height(), x as int, y as int),
        ensures
            final(cnvs).spec_width() == old(cnvs).spec_width(),
            final(cnvs).spec_height() == old(cnvs).spec_height(),
            final(cnvs)@ == written(old(cnvs)@, old(cnvs).spec_width(), x as int, y as int, color),
    {
        proof {
            use_type_invariant(&*cnvs);
        }
        let coord = transform_coords(cnvs, x, y);
        cnvs.canvas[coord] = color;
    }

    /// The cell at `(x, y)`.
    pub fn pixel_at(cnvs: &Canvas<T>, x: i32, y: i32) -> (r: T)
        requires
            in_bounds(cnvs.spec_width(), cnvs.spec_height(), x as int, y as int),
        ensures
            r == cnvs@[pixel_index(cnvs.spec_width(), x as int, y as int)],
    {
        let coord = transform_coords(cnvs, x, y);
        cnvs.canvas[coord]
    }
}

/// Position in `c`'s buffer of the cell `(x, y)`.
pub fn transform_coords<T: Copy>(c: &Canvas<T>, x: i32, y: i32) -> (r: usize)
    requires
        in_bounds(c.spec_width(), c.spec_height(), x as int, y as int),
    ensures
        r == pixel_index(c.spec_width(), x as int, y as int),
        r < c@.len(),
{
    proof {
        use_type_invariant(c);
        lemma_pixel_index_bounds(c.spec_width(), c.spec_height(), x as int, y as int);
    }
    (y * c.width + x) as usize
}

} // verus!
