//! The character canvas and the line rasterizer.
//!
//! A `Plot` is a `height` by `width` grid of characters. A logical coordinate
//! has its y axis growing upward; it is translated to a top-down row index
//! before any write, and every write is bounds-checked. `make_diagonal`
//! connects two logical coordinates with an integer decision-variable line:
//! the axis of larger extent is stepped one cell at a time, so the drawn path
//! never skips a cell, and both endpoints are always plotted.

use vstd::prelude::*;
use vstd::string::StringExecFns;

verus! {

/// The errors of the charting engine.
#[derive(Debug, PartialEq, Eq)]
pub enum PlotError {
    /// A coordinate lies outside the canvas. Recoverable: the renderer
    /// resets its cursor and carries on.
    CoordinateOutOfRange,
    /// Fewer than two samples remain after decimation; no segment can be
    /// drawn. Fatal to the render call.
    InsufficientSamples,
}

/// A logical canvas coordinate: x grows rightward, y grows upward.
#[derive(Debug, Clone, Copy, PartialEq, Eq)]
pub struct Coord {
    pub x: usize,
    pub y: usize,
}

impl Coord {
    pub fn new(x: usize, y: usize) -> (c: Coord)
        ensures
            c.x == x,
            c.y == y,
    {
        Coord { x, y }
    }
}

/// The glyph that marks a plotted point.
pub const MARK: char = '*';

/// The glyph of an untouched cell.
pub const BLANK: char = ' ';

/// A fixed-size character grid, addressed top-down and row-major inside,
/// written through logical (bottom-up) coordinates.
pub struct Plot {
    pub grid: Vec<Vec<char>>,
    pub width: usize,
    pub height: usize,
}

impl View for Plot {
    type V = Seq<Seq<char>>;

    /// The grid as a sequence of top-down rows of characters.
    open spec fn view(&self) -> Seq<Seq<char>> {
        Seq::new(self.grid@.len(), |r: int| self.grid@[r]@)
    }
}

/// A coordinate the canvas can hold: strictly inside both bounds.
pub open spec fn coord_valid(x: int, y: int, width: int, height: int) -> bool {
    0 <= x < width && 0 <= y < height
}

/// An untouched grid: `h` rows of `w` blanks.
pub open spec fn blank_grid(w: int, h: int) -> Seq<Seq<char>>
    recommends
        w >= 0,
        h >= 0,
{
    Seq::new(h as nat, |r: int| Seq::new(w as nat, |c: int| BLANK))
}

/// A top-down grid of `height` rows with the cell of the logical coordinate
/// `(x, y)` overwritten by the mark glyph.
pub open spec fn cell_set(g: Seq<Seq<char>>, x: int, y: int, h: int) -> Seq<Seq<char>> {
    g.update(h - 1 - y, g[h - 1 - y].update(x, MARK))
}

/// A top-down grid with the mark glyph at every logical coordinate of `pts`
/// and every other cell unchanged.
pub open spec fn mark_cells(g: Seq<Seq<char>>, pts: Seq<(int, int)>, h: int) -> Seq<Seq<char>> {
    Seq::new(
        g.len(),
        |r: int|
            Seq::new(
                g[r].len(),
                |c: int|
                    if pts.contains((c, h - 1 - r)) {
                        MARK
                    } else {
                        g[r][c]
                    },
            ),
    )
}

/// A point reflected around the horizontal anchor line `y0`, which restores
/// the true direction of a descending segment.
pub open spec fn reflect_pt(p: (int, int), y0: int, reflect: bool) -> (int, int) {
    if reflect {
        (p.0, 2 * y0 - p.1)
    } else {
        p
    }
}

/// The points a shallow segment (`dy <= dx`) plots after the state
/// `(x, y, d)`: x steps every iteration, y follows the decision variable.
pub open spec fn shallow_pts(x: int, y: int, d: int, x_end: int, dx: int, dy: int) -> Seq<
    (int, int),
>
    decreases x_end - x,
{
    if x >= x_end {
        Seq::empty()
    } else {
        let y2 = if d < 0 {
            y
        } else {
            y + 1
        };
        let d2 = if d < 0 {
            d + 2 * dy
        } else {
            d + 2 * dy - 2 * dx
        };
        seq![(x + 1, y2)] + shallow_pts(x + 1, y2, d2, x_end, dx, dy)
    }
}

/// The points a steep segment (`dx < dy`) plots after the state `(x, y, d)`:
/// y steps every iteration, x follows the decision variable.
pub open spec fn steep_pts(x: int, y: int, d: int, y_end: int, dx: int, dy: int) -> Seq<
    (int, int),
>
    decreases y_end - y,
{
    if y >= y_end {
        Seq::empty()
    } else {
        let x2 = if d < 0 {
            x
        } else {
            x + 1
        };
        let d2 = if d < 0 {
            d + 2 * dx
        } else {
            d + 2 * dx - 2 * dy
        };
        seq![(x2, y + 1)] + steep_pts(x2, y + 1, d2, y_end, dx, dy)
    }
}

/// Every logical point the rasterizer plots for the segment from `(x0, y0)`
/// to `(x1, y1)`, in plotting order, the two endpoints included.
pub open spec fn segment_pts(x0: int, y0: int, x1: int, y1: int) -> Seq<(int, int)>
    recommends
        x0 <= x1,
{
    let dx = x1 - x0;
    let reflect = y1 < y0;
    let dy = if reflect {
        y0 - y1
    } else {
        y1 - y0
    };
    let raw = if dy <= dx {
        seq![(x0, y0)] + shallow_pts(x0, y0, 2 * dy - dx, x1, dx, dy)
    } else {
        seq![(x0, y0)] + steep_pts(x0, y0, 2 * dx - dy, y0 + dy, dx, dy)
    };
    raw.map_values(|p: (int, int)| reflect_pt(p, y0, reflect))
}

impl Plot {
    /// The grid is rectangular and the dimensions small enough that all
    /// rasterizer arithmetic stays in machine range.
    pub open spec fn wf(self) -> bool {
        &&& self.grid.len() == self.height
        &&& forall|r: int| 0 <= r < self.height ==> (#[trigger] self.grid[r]).len() == self.width
        &&& self.width <= 0xFFFF
        &&& self.height <= 0xFFFF
    }

    pub open spec fn spec_width(self) -> int {
        self.width as int
    }

    pub open spec fn spec_height(self) -> int {
        self.height as int
    }

    /// The character at the logical coordinate `(x, y)`.
    pub open spec fn at(self, x: int, y: int) -> char
        recommends
            self.wf(),
            coord_valid(x, y, self.spec_width(), self.spec_height()),
    {
        self.grid[self.height - 1 - y][x]
    }

    /// A blank canvas of the given dimensions.
    pub fn new(width: usize, height: usize) -> (p: Plot)
        requires
            width <= 0xFFFF,
            height <= 0xFFFF,
        ensures
            p.wf(),
            p.spec_width() == width,
            p.spec_height() == height,
            p@ == blank_grid(width as int, height as int),
            forall|x: int, y: int|
                coord_valid(x, y, width as int, height as int) ==> #[trigger] p.at(x, y) == BLANK,
    {
        let mut grid: Vec<Vec<char>> = Vec::new();
        let mut r: usize = 0;
        while r < height
            invariant
                r <= height,
                grid@.len() == r,
                forall|k: int| 0 <= k < r ==> (#[trigger] grid@[k])@.len() == width,
                forall|k: int, c: int|
                    0 <= k < r && 0 <= c < width ==> #[trigger] grid@[k]@[c] == BLANK,
            decreases height - r,
        {
            let mut row: Vec<char> = Vec::new();
            let mut c: usize = 0;
            while c < width
                invariant
                    c <= width,
                    row@.len() == c,
                    forall|k: int| 0 <= k < c ==> row@[k] == BLANK,
                decreases width - c,
            {
                row.push(BLANK);
                c += 1;
            }
            grid.push(row);
            r += 1;
        }
        let p = Plot { grid, width, height };
        proof {
            assert(p@ =~~= blank_grid(width as int, height as int));
        }
        p
    }

    /// Translate a logical coordinate into the top-down grid frame: the row
    /// index flips, the column stays. Rejects anything outside the canvas.
    pub fn translate_coords(coord: Coord, width: usize, height: usize) -> (r: Result<
        Coord,
        PlotError,
    >)
        ensures
            r is Ok <==> coord_valid(coord.x as int, coord.y as int, width as int, height as int),
            r matches Ok(c) ==> c.x == coord.x && c.y as int == height - 1 - coord.y,
            r matches Err(e) ==> e == PlotError::CoordinateOutOfRange,
    {
        if coord.x >= width {
            return Err(PlotError::CoordinateOutOfRange);
        }
        if coord.y >= height {
            return Err(PlotError::CoordinateOutOfRange);
        }
        let y = height - 1 - coord.y;
        Ok(Coord { x: coord.x, y })
    }

    /// Write the mark glyph at one logical coordinate; every other cell is
    /// left alone. Fails, changing nothing, when the coordinate is outside.
    pub fn place_star(&mut self, coord: Coord) -> (r: Result<(), PlotError>)
        requires
            old(self).wf(),
        ensures
            final(self).wf(),
            final(self).spec_width() == old(self).spec_width(),
            final(self).spec_height() == old(self).spec_height(),
            r is Ok <==> coord_valid(
                coord.x as int,
                coord.y as int,
                old(self).spec_width(),
                old(self).spec_height(),
            ),
            r matches Err(e) ==> e == PlotError::CoordinateOutOfRange && *final(self) == *old(self),
            r is Ok ==> final(self)@ == cell_set(
                old(self)@,
                coord.x as int,
                coord.y as int,
                old(self).spec_height(),
            ),
            r is Ok ==> forall|x: int, y: int|
                coord_valid(x, y, old(self).spec_width(), old(self).spec_height())
                    ==> #[trigger] final(self).at(x, y) == (if x == coord.x && y == coord.y {
                    MARK
                } else {
                    old(self).at(x, y)
                }),
    {
        let translated = match Plot::translate_coords(coord, self.width, self.height) {
            Ok(c) => c,
            Err(e) => {
                return Err(e);
            },
        };
        let row: &mut Vec<char> = &mut self.grid[translated.y];
        row[translated.x] = MARK;
        proof {
            assert(self@ =~~= cell_set(
                old(self)@,
                coord.x as int,
                coord.y as int,
                old(self).spec_height(),
            ));
        }
        Ok(())
    }

    /// Write the mark at `(x, y)`, or, when `reflect` is set, at the point
    /// mirrored around the anchor line `anchor_y`.
    fn place_reflected(&mut self, x: usize, y: usize, anchor_y: usize, reflect: bool) -> (r:
        Result<(), PlotError>)
        requires
            old(self).wf(),
            reflect ==> anchor_y <= y && y - anchor_y <= anchor_y,
        ensures
            final(self).wf(),
            final(self).spec_width() == old(self).spec_width(),
            final(self).spec_height() == old(self).spec_height(),
            ({
                let p = reflect_pt((x as int, y as int), anchor_y as int, reflect);
                &&& r is Ok <==> coord_valid(
                    p.0,
                    p.1,
                    old(self).spec_width(),
                    old(self).spec_height(),
                )
                &&& r is Ok ==> final(self)@ == cell_set(
                    old(self)@,
                    p.0,
                    p.1,
                    old(self).spec_height(),
                )
                &&& r matches Err(e) ==> e == PlotError::CoordinateOutOfRange && *final(self)
                    == *old(self)
            }),
    {
        let py = if reflect {
            anchor_y - (y - anchor_y)
        } else {
            y
        };
        self.place_star(Coord::new(x, py))
    }

    /// Connect two logical coordinates with a maximal straight approximation.
    /// The x distance must be non-negative (samples are drawn left to right);
    /// a descending segment is drawn with its rise negated and every plotted
    /// point reflected around the start row. Either endpoint outside the
    /// canvas fails the whole segment and leaves the canvas untouched;
    /// otherwise exactly the points of `segment_pts` are marked.
    #[verifier::loop_isolation(false)]
    pub fn make_diagonal(&mut self, start_coord: Coord, end_coord: Coord) -> (r: Result<
        (),
        PlotError,
    >)
        requires
            old(self).wf(),
            start_coord.x <= end_coord.x,
        ensures
            final(self).wf(),
            final(self).spec_width() == old(self).spec_width(),
            final(self).spec_height() == old(self).spec_height(),
            r is Ok <==> (coord_valid(
                start_coord.x as int,
                start_coord.y as int,
                old(self).spec_width(),
                old(self).spec_height(),
            ) && coord_valid(
                end_coord.x as int,
                end_coord.y as int,
                old(self).spec_width(),
                old(self).spec_height(),
            )),
            r matches Err(e) ==> e == PlotError::CoordinateOutOfRange && *final(self) == *old(
                self,
            ),
            r is Ok ==> final(self)@ == mark_cells(
                old(self)@,
                segment_pts(
                    start_coord.x as int,
                    start_coord.y as int,
                    end_coord.x as int,
                    end_coord.y as int,
                ),
                old(self).spec_height(),
            ),
    {
        if start_coord.x >= self.width || start_coord.y >= self.height || end_coord.x
            >= self.width || end_coord.y >= self.height {
            return Err(PlotError::CoordinateOutOfRange);
        }
        let x0 = start_coord.x;
        let y0 = start_coord.y;
        let x1 = end_coord.x;
        let dx = x1 - x0;
        let reflect = end_coord.y < y0;
        let dy = if reflect {
            y0 - end_coord.y
        } else {
            end_coord.y - y0
        };

        let ghost w = old(self).spec_width();
        let ghost h = old(self).spec_height();
        let ghost g0 = self@;
        let ghost rfun = |p: (int, int)| reflect_pt(p, y0 as int, reflect);
        let ghost full_raw: Seq<(int, int)> = if dy <= dx {
            seq![(x0 as int, y0 as int)] + shallow_pts(
                x0 as int,
                y0 as int,
                2 * dy - dx,
                x1 as int,
                dx as int,
                dy as int,
            )
        } else {
            seq![(x0 as int, y0 as int)] + steep_pts(
                x0 as int,
                y0 as int,
                2 * dx - dy,
                y0 + dy,
                dx as int,
                dy as int,
            )
        };

        let res0 = self.place_star(Coord::new(x0, y0));
        if res0.is_err() {
            return Err(PlotError::CoordinateOutOfRange);
        }
        let ghost mut done: Seq<(int, int)> = seq![(x0 as int, y0 as int)];
        proof {
            lemma_mark_one(g0, (x0 as int, y0 as int), w, h);
            assert(done.map_values(rfun) =~= seq![(x0 as int, y0 as int)]);
        }

        if dy <= dx {
            let mut d: isize = 2 * (dy as isize) - (dx as isize);
            let mut x = x0;
            let mut y = y0;
            proof {
                assert(2 * ((x as int) - (x0 as int) + 1) * (dy as int) == 2 * (dy as int))
                    by (nonlinear_arith)
                    requires (x as int) == (x0 as int);
                assert(2 * ((y as int) - (y0 as int)) * (dx as int) == 0) by (nonlinear_arith)
                    requires (y as int) == (y0 as int);
            }
            while x < x1
                invariant
                    self.wf(),
                    self.spec_width() == w,
                    self.spec_height() == h,
                    x0 <= x <= x1 < w,
                    x1 - x0 == dx,
                    dy <= dx,
                    y0 <= y,
                    y - y0 <= dy,
                    y0 < h,
                    dy < h,
                    reflect ==> dy <= y0 && y0 - dy < h,
                    !reflect ==> y0 + dy < h,
                    d as int == 2 * (x - x0 + 1) * (dy as int) - 2 * (y - y0) * (dx as int) - dx,
                    dx >= 1 ==> -2 * (dx as int) <= d as int <= 2 * (dy as int) - 1,
                    self@ == mark_cells(g0, done.map_values(rfun), h),
                    full_raw == done + shallow_pts(
                        x as int,
                        y as int,
                        d as int,
                        x1 as int,
                        dx as int,
                        dy as int,
                    ),
                decreases x1 - x,
            {
                let ghost pre = shallow_pts(x as int, y as int, d as int, x1 as int, dx as int, dy as int);
                x += 1;
                proof {
                    assert(2 * ((x as int) - (x0 as int) + 1) * (dy as int) == 2 * ((x as int) - (
                    x0 as int)) * (dy as int) + 2 * (dy as int)) by (nonlinear_arith);
                    assert(2 * (((y as int) + 1) - (y0 as int)) * (dx as int) == 2 * ((y as int) - (
                    y0 as int)) * (dx as int) + 2 * (dx as int)) by (nonlinear_arith);
                }
                if d < 0 {
                    d = d + 2 * (dy as isize);
                } else {
                    proof {
                        lemma_minor_step_bound(
                            x - x0,
                            y - y0,
                            d as int,
                            dx as int,
                            dy as int,
                        );
                    }
                    d = d + 2 * (dy as isize) - 2 * (dx as isize);
                    y += 1;
                }
                let res = self.place_reflected(x, y, y0, reflect);
                if res.is_err() {
                    return Err(PlotError::CoordinateOutOfRange);
                }
                proof {
                    let q = (x as int, y as int);
                    assert(pre == seq![q] + shallow_pts(
                        x as int,
                        y as int,
                        d as int,
                        x1 as int,
                        dx as int,
                        dy as int,
                    ));
                    lemma_mark_push(g0, done.map_values(rfun), rfun(q), w, h);
                    assert(done.push(q).map_values(rfun) =~= done.map_values(rfun).push(rfun(q)));
                    assert(done.push(q) + shallow_pts(
                        x as int,
                        y as int,
                        d as int,
                        x1 as int,
                        dx as int,
                        dy as int,
                    ) =~= done + pre);
                    done = done.push(q);
                }
            }
        } else {
            let y_top = y0 + dy;
            let mut d: isize = 2 * (dx as isize) - (dy as isize);
            let mut x = x0;
            let mut y = y0;
            proof {
                assert(2 * ((y as int) - (y0 as int) + 1) * (dx as int) == 2 * (dx as int))
                    by (nonlinear_arith)
                    requires (y as int) == (y0 as int);
                assert(2 * ((x as int) - (x0 as int)) * (dy as int) == 0) by (nonlinear_arith)
                    requires (x as int) == (x0 as int);
            }
            while y < y_top
                invariant
                    self.wf(),
                    self.spec_width() == w,
                    self.spec_height() == h,
                    x0 <= x <= x1 < w,
                    x - x0 <= dx,
                    x1 - x0 == dx,
                    dx < dy,
                    y_top == y0 + dy,
                    y0 <= y <= y_top,
                    y0 < h,
                    dy < h,
                    reflect ==> dy <= y0 && y0 - dy < h,
                    !reflect ==> y0 + dy < h,
                    d as int == 2 * (y - y0 + 1) * (dx as int) - 2 * (x - x0) * (dy as int) - dy,
                    -2 * (dy as int) <= d as int <= 2 * (dx as int) - 1,
                    self@ == mark_cells(g0, done.map_values(rfun), h),
                    full_raw == done + steep_pts(
                        x as int,
                        y as int,
                        d as int,
                        y_top as int,
                        dx as int,
                        dy as int,
                    ),
                decreases y_top - y,
            {
                let ghost pre = steep_pts(x as int, y as int, d as int, y_top as int, dx as int, dy as int);
                y += 1;
                proof {
                    assert(2 * ((y as int) - (y0 as int) + 1) * (dx as int) == 2 * ((y as int) - (
                    y0 as int)) * (dx as int) + 2 * (dx as int)) by (nonlinear_arith);
                    assert(2 * (((x as int) + 1) - (x0 as int)) * (dy as int) == 2 * ((x as int) - (
                    x0 as int)) * (dy as int) + 2 * (dy as int)) by (nonlinear_arith);
                }
                if d < 0 {
                    d = d + 2 * (dx as isize);
                } else {
                    proof {
                        lemma_minor_step_bound(
                            y - y0,
                            x - x0,
                            d as int,
                            dy as int,
                            dx as int,
                        );
                    }
                    d = d + 2 * (dx as isize) - 2 * (dy as isize);
                    x += 1;
                }
                let res = self.place_reflected(x, y, y0, reflect);
                if res.is_err() {
                    return Err(PlotError::CoordinateOutOfRange);
                }
                proof {
                    let q = (x as int, y as int);
                    assert(pre == seq![q] + steep_pts(
                        x as int,
                        y as int,
                        d as int,
                        y_top as int,
                        dx as int,
                        dy as int,
                    ));
                    lemma_mark_push(g0, done.map_values(rfun), rfun(q), w, h);
                    assert(done.push(q).map_values(rfun) =~= done.map_values(rfun).push(rfun(q)));
                    assert(done.push(q) + steep_pts(
                        x as int,
                        y as int,
                        d as int,
                        y_top as int,
                        dx as int,
                        dy as int,
                    ) =~= done + pre);
                    done = done.push(q);
                }
            }
        }
        proof {
            assert(done =~= full_raw);
            let sp = segment_pts(
                start_coord.x as int,
                start_coord.y as int,
                end_coord.x as int,
                end_coord.y as int,
            );
            assert(done.map_values(rfun) =~= sp);
        }
        Ok(())
    }

    /// Render the canvas as its bordered, spaced text block.
    #[verifier::loop_isolation(false)]
    pub fn to_text(&self) -> (r: String)
        requires
            self.wf(),
        ensures
            r@ == spec_plot_text(self@, self.spec_width()),
    {
        let w = self.width;
        let bw = w * 2 + w / 3 + (if w % 3 != 0 {
            1
        } else {
            0
        });
        let mut border = String::new();
        push_char(&mut border, '+');
        let mut k: usize = 0;
        while k < bw
            invariant
                k <= bw,
                border@ == seq!['+'] + Seq::new(k as nat, |i: int| '-'),
            decreases bw - k,
        {
            push_char(&mut border, '-');
            k += 1;
            proof {
                assert(border@ =~= seq!['+'] + Seq::new(k as nat, |i: int| '-'));
            }
        }
        push_char(&mut border, '+');
        proof {
            assert(border@ =~= border_line(w as int));
        }

        let mut out = String::new();
        out.append(border.as_str());
        push_char(&mut out, '\n');
        let ghost bl = border_line(w as int);
        let mut r: usize = 0;
        while r < self.height
            invariant
                r <= self.spec_height(),
                out@ == bl + seq!['\n'] + rows_joined(self@.take(r as int)),
            decreases self.height - r,
        {
            let ghost pre = self@.take(r as int);
            if r > 0 {
                push_char(&mut out, '\n');
            }
            push_char(&mut out, '|');
            let spread = insert_spaces(&self.grid[r]);
            out.append(spread.as_str());
            push_char(&mut out, '|');
            r += 1;
            proof {
                assert(self@.take(r as int).drop_last() =~= pre);
                assert(self@.take(r as int).last() == self@[r - 1]);
                assert(self@[r - 1] == self.grid@[r - 1]@);
                if r == 1 {
                    assert(out@ =~= bl + seq!['\n'] + row_text(self@[r - 1]));
                } else {
                    assert(out@ =~= bl + seq!['\n'] + (rows_joined(pre) + seq!['\n'] + row_text(
                    self@[r - 1])));
                }
            }
        }
        push_char(&mut out, '\n');
        out.append(border.as_str());
        push_char(&mut out, '\n');
        proof {
            assert(self@.take(self.spec_height() as int) =~= self@);
            assert(out@ =~= spec_plot_text(self@, self.spec_width()));
        }
        out
    }
}

/// Relies on `String::push`: appends exactly one character to the string.
#[verifier::external_body]
pub(crate) fn push_char(s: &mut String, c: char)
    ensures
        final(s)@ == old(s)@.push(c),
{
    s.push(c);
}

/// A row spread for legibility: every cell is followed by one blank, and the
/// cells at indices divisible by three by a second one.
pub open spec fn spec_insert_spaces(s: Seq<char>) -> Seq<char>
    decreases s.len(),
{
    if s.len() == 0 {
        Seq::empty()
    } else {
        spec_insert_spaces(s.drop_last()) + (if (s.len() - 1) % 3 == 0 {
            seq![s.last(), ' ', ' ']
        } else {
            seq![s.last(), ' ']
        })
    }
}

/// Spread one canvas row into its displayed form, a blank after every cell
/// and an extra blank after every third cell.
pub fn insert_spaces(line: &Vec<char>) -> (r: String)
    ensures
        r@ == spec_insert_spaces(line@),
{
    let mut out = String::new();
    let mut i: usize = 0;
    while i < line.len()
        invariant
            i <= line@.len(),
            out@ == spec_insert_spaces(line@.take(i as int)),
        decreases line@.len() - i,
    {
        let ghost pre = line@.take(i as int);
        push_char(&mut out, line[i]);
        push_char(&mut out, ' ');
        if i % 3 == 0 {
            push_char(&mut out, ' ');
        }
        i += 1;
        proof {
            assert(line@.take(i as int).drop_last() =~= pre);
            assert(line@.take(i as int).last() == line@[i - 1]);
            if (i - 1) % 3 == 0 {
                assert(out@ =~= spec_insert_spaces(pre) + seq![line@[i - 1], ' ', ' ']);
            } else {
                assert(out@ =~= spec_insert_spaces(pre) + seq![line@[i - 1], ' ']);
            }
        }
    }
    proof {
        assert(line@.take(line@.len() as int) =~= line@);
    }
    out
}

/// The displayed width of a spread row of `w` cells.
pub open spec fn spaced_width(w: int) -> int {
    2 * w + w / 3 + if w % 3 != 0 {
        1int
    } else {
        0int
    }
}

/// The horizontal border of the chart: a `+`, one dash per displayed column,
/// and a closing `+`.
pub open spec fn border_line(w: int) -> Seq<char>
    recommends
        w >= 0,
{
    seq!['+'] + Seq::new(spaced_width(w) as nat, |i: int| '-') + seq!['+']
}

/// One displayed row: the spread cells wrapped in `|`.
pub open spec fn row_text(row: Seq<char>) -> Seq<char> {
    seq!['|'] + spec_insert_spaces(row) + seq!['|']
}

/// All displayed rows, top-down, separated by line breaks.
pub open spec fn rows_joined(g: Seq<Seq<char>>) -> Seq<char>
    decreases g.len(),
{
    if g.len() == 0 {
        Seq::empty()
    } else if g.len() == 1 {
        row_text(g[0])
    } else {
        rows_joined(g.drop_last()) + seq!['\n'] + row_text(g.last())
    }
}

/// The whole text block of a canvas: border, rows, border, each on its own
/// line.
pub open spec fn spec_plot_text(g: Seq<Seq<char>>, w: int) -> Seq<char> {
    border_line(w) + seq!['\n'] + rows_joined(g) + seq!['\n'] + border_line(w) + seq!['\n']
}

proof fn lemma_mark_one(g: Seq<Seq<char>>, q: (int, int), w: int, h: int)
    requires
        g.len() == h,
        forall|r: int| 0 <= r < h ==> (#[trigger] g[r]).len() == w,
        coord_valid(q.0, q.1, w, h),
    ensures
        mark_cells(g, seq![q], h) == cell_set(g, q.0, q.1, h),
{
    assert forall|z: (int, int)| #[trigger] seq![q].contains(z) <==> z == q by {
        assert(seq![q][0] == q);
    }
    assert(mark_cells(g, seq![q], h) =~~= cell_set(g, q.0, q.1, h));
}

proof fn lemma_mark_push(g: Seq<Seq<char>>, pts: Seq<(int, int)>, q: (int, int), w: int, h: int)
    requires
        g.len() == h,
        forall|r: int| 0 <= r < h ==> (#[trigger] g[r]).len() == w,
        coord_valid(q.0, q.1, w, h),
    ensures
        mark_cells(g, pts.push(q), h) == cell_set(mark_cells(g, pts, h), q.0, q.1, h),
{
    broadcast use vstd::seq_lib::lemma_seq_contains_after_push;

    assert(mark_cells(g, pts.push(q), h) =~~= cell_set(mark_cells(g, pts, h), q.0, q.1, h));
}

/// At the far end of the major axis, the decision variable pins the minor
/// offset `m` to exactly the full minor extent: the plotted path ends
/// precisely on the segment's endpoint.
proof fn lemma_minor_end(m: int, d: int, dmaj: int, dmin: int)
    requires
        dmaj >= 1,
        0 <= dmin <= dmaj,
        0 <= m <= dmin,
        d == 2 * (dmaj + 1) * dmin - 2 * m * dmaj - dmaj,
        -2 * dmaj <= d <= 2 * dmin - 1,
    ensures
        m == dmin,
{
    assert(2 * m * dmaj == 2 * (dmaj + 1) * dmin - dmaj - d) by (nonlinear_arith)
        requires d == 2 * (dmaj + 1) * dmin - 2 * m * dmaj - dmaj;
    assert(2 * m * dmaj >= 2 * dmaj * dmin - dmaj + 1) by (nonlinear_arith)
        requires
            2 * m * dmaj == 2 * (dmaj + 1) * dmin - dmaj - d,
            d <= 2 * dmin - 1;
    assert(m == dmin) by (nonlinear_arith)
        requires
            2 * m * dmaj >= 2 * dmaj * dmin - dmaj + 1,
            dmaj >= 1,
            m <= dmin;
}

/// The shape of the tail a shallow pass plots from the state `(x, y, d)`:
/// one point per remaining column, the y coordinate climbing by at most one
/// per step and landing exactly on `y0 + dy` at the last column.
proof fn lemma_shallow_pts_props(x: int, y: int, d: int, x0: int, y0: int, x1: int, dx: int, dy: int)
    requires
        dx == x1 - x0,
        0 <= dy <= dx,
        x0 <= x <= x1,
        y0 <= y,
        y - y0 <= dy,
        d == 2 * (x - x0 + 1) * dy - 2 * (y - y0) * dx - dx,
        dx >= 1 ==> -2 * dx <= d <= 2 * dy - 1,
    ensures
        ({
            let pts = shallow_pts(x, y, d, x1, dx, dy);
            &&& pts.len() == x1 - x
            &&& forall|i: int| 0 <= i < pts.len() ==> (#[trigger] pts[i]).0 == x + 1 + i
            &&& forall|i: int|
                0 <= i < pts.len() ==> {
                    let py = if i == 0 {
                        y
                    } else {
                        pts[i - 1].1
                    };
                    (#[trigger] pts[i]).1 == py || pts[i].1 == py + 1
                }
            &&& forall|i: int| 0 <= i < pts.len() ==> y <= (#[trigger] pts[i]).1 <= y0 + dy
            &&& x < x1 ==> pts.last() == (x1, y0 + dy)
        }),
    decreases x1 - x,
{
    if x < x1 {
        let y2 = if d < 0 {
            y
        } else {
            y + 1
        };
        let d2 = if d < 0 {
            d + 2 * dy
        } else {
            d + 2 * dy - 2 * dx
        };
        assert(2 * ((x + 1) - x0 + 1) * dy == 2 * ((x + 1) - x0) * dy + 2 * dy)
            by (nonlinear_arith);
        assert(2 * ((y + 1) - y0) * dx == 2 * (y - y0) * dx + 2 * dx) by (nonlinear_arith);
        if d >= 0 {
            lemma_minor_step_bound(x + 1 - x0, y - y0, d, dx, dy);
        }
        lemma_shallow_pts_props(x + 1, y2, d2, x0, y0, x1, dx, dy);
        if x + 1 == x1 {
            lemma_minor_end(y2 - y0, d2, dx, dy);
        }
        let pts = shallow_pts(x, y, d, x1, dx, dy);
        let rest = shallow_pts(x + 1, y2, d2, x1, dx, dy);
        assert(pts == seq![(x + 1, y2)] + rest);
        assert forall|i: int| 0 <= i < pts.len() implies (#[trigger] pts[i]).0 == x + 1 + i by {
            if i > 0 {
                assert(pts[i] == rest[i - 1]);
            }
        }
        assert forall|i: int| 0 <= i < pts.len() implies y <= (#[trigger] pts[i]).1 <= y0 + dy by {
            if i > 0 {
                assert(pts[i] == rest[i - 1]);
            }
        }
        assert forall|i: int|
            0 <= i < pts.len() implies {
            let py = if i == 0 {
                y
            } else {
                pts[i - 1].1
            };
            (#[trigger] pts[i]).1 == py || pts[i].1 == py + 1
        } by {
            if i > 0 {
                assert(pts[i] == rest[i - 1]);
                if i > 1 {
                    assert(pts[i - 1] == rest[i - 2]);
                }
            }
        }
        if x < x1 {
            assert(pts.last() == (if x + 1 == x1 {
                (x + 1, y2)
            } else {
                rest.last()
            }));
        }
    }
}

/// The steep counterpart of `lemma_shallow_pts_props`: one point per
/// remaining row, x climbing by at most one per step and landing exactly on
/// `x0 + dx` at the last row.
proof fn lemma_steep_pts_props(x: int, y: int, d: int, x0: int, y0: int, y_top: int, dx: int, dy: int)
    requires
        dy == y_top - y0,
        0 <= dx <= dy,
        y0 <= y <= y_top,
        x0 <= x,
        x - x0 <= dx,
        d == 2 * (y - y0 + 1) * dx - 2 * (x - x0) * dy - dy,
        dy >= 1 ==> -2 * dy <= d <= 2 * dx - 1,
    ensures
        ({
            let pts = steep_pts(x, y, d, y_top, dx, dy);
            &&& pts.len() == y_top - y
            &&& forall|i: int| 0 <= i < pts.len() ==> (#[trigger] pts[i]).1 == y + 1 + i
            &&& forall|i: int|
                0 <= i < pts.len() ==> {
                    let px = if i == 0 {
                        x
                    } else {
                        pts[i - 1].0
                    };
                    (#[trigger] pts[i]).0 == px || pts[i].0 == px + 1
                }
            &&& forall|i: int| 0 <= i < pts.len() ==> x <= (#[trigger] pts[i]).0 <= x0 + dx
            &&& y < y_top ==> pts.last() == (x0 + dx, y_top)
        }),
    decreases y_top - y,
{
    if y < y_top {
        let x2 = if d < 0 {
            x
        } else {
            x + 1
        };
        let d2 = if d < 0 {
            d + 2 * dx
        } else {
            d + 2 * dx - 2 * dy
        };
        assert(2 * ((y + 1) - y0 + 1) * dx == 2 * ((y + 1) - y0) * dx + 2 * dx)
            by (nonlinear_arith);
        assert(2 * ((x + 1) - x0) * dy == 2 * (x - x0) * dy + 2 * dy) by (nonlinear_arith);
        if d >= 0 {
            lemma_minor_step_bound(y + 1 - y0, x - x0, d, dy, dx);
        }
        lemma_steep_pts_props(x2, y + 1, d2, x0, y0, y_top, dx, dy);
        if y + 1 == y_top {
            lemma_minor_end(x2 - x0, d2, dy, dx);
        }
        let pts = steep_pts(x, y, d, y_top, dx, dy);
        let rest = steep_pts(x2, y + 1, d2, y_top, dx, dy);
        assert(pts == seq![(x2, y + 1)] + rest);
        assert forall|i: int| 0 <= i < pts.len() implies (#[trigger] pts[i]).1 == y + 1 + i by {
            if i > 0 {
                assert(pts[i] == rest[i - 1]);
            }
        }
        assert forall|i: int| 0 <= i < pts.len() implies x <= (#[trigger] pts[i]).0 <= x0 + dx by {
            if i > 0 {
                assert(pts[i] == rest[i - 1]);
            }
        }
        assert forall|i: int|
            0 <= i < pts.len() implies {
            let px = if i == 0 {
                x
            } else {
                pts[i - 1].0
            };
            (#[trigger] pts[i]).0 == px || pts[i].0 == px + 1
        } by {
            if i > 0 {
                assert(pts[i] == rest[i - 1]);
                if i > 1 {
                    assert(pts[i - 1] == rest[i - 2]);
                }
            }
        }
        if y < y_top {
            assert(pts.last() == (if y + 1 == y_top {
                (x2, y + 1)
            } else {
                rest.last()
            }));
        }
    }
}

#[verifier::rlimit(100)]
proof fn lemma_segment_path_shallow(x0: int, y0: int, x1: int, y1: int)
    requires
        x0 <= x1,
        (if y1 < y0 {
            y0 - y1
        } else {
            y1 - y0
        }) <= x1 - x0,
    ensures
        ({
            let pts = segment_pts(x0, y0, x1, y1);
            &&& pts.len() >= 1
            &&& pts[0] == (x0, y0)
            &&& pts.last() == (x1, y1)
            &&& forall|i: int| 0 <= i < pts.len() ==> x0 <= (#[trigger] pts[i]).0 <= x1
            &&& forall|i: int|
                0 <= i < pts.len() ==> (if y0 <= y1 {
                    y0 <= (#[trigger] pts[i]).1 <= y1
                } else {
                    y1 <= (#[trigger] pts[i]).1 <= y0
                })
            &&& forall|i: int|
                0 < i < pts.len() ==> -1 <= (#[trigger] pts[i]).0 - pts[i - 1].0 <= 1 && -1 <= pts[i].1
                    - pts[i - 1].1 <= 1
        }),
{
    let dx = x1 - x0;
    let reflect = y1 < y0;
    let dy = if reflect {
        y0 - y1
    } else {
        y1 - y0
    };
    let rfun = |p: (int, int)| reflect_pt(p, y0, reflect);
    let pts = segment_pts(x0, y0, x1, y1);
    let raw = seq![(x0, y0)] + shallow_pts(x0, y0, 2 * dy - dx, x1, dx, dy);
    assert(2 * (x0 - x0 + 1) * dy == 2 * dy) by (nonlinear_arith);
    assert(2 * (y0 - y0) * dx == 0) by (nonlinear_arith);
    lemma_shallow_pts_props(x0, y0, 2 * dy - dx, x0, y0, x1, dx, dy);
    assert(pts == raw.map_values(rfun));
    assert(pts[0] == rfun(raw[0]));
    if dx >= 1 {
        assert(pts.last() == rfun(raw.last()));
    } else {
        assert(raw =~= seq![(x0, y0)]);
        assert(pts.last() == rfun(raw[0]));
    }
    assert forall|i: int| 0 < i < pts.len() implies -1 <= (#[trigger] pts[i]).0 - pts[i - 1].0
        <= 1 && -1 <= pts[i].1 - pts[i - 1].1 <= 1 by {
        assert(pts[i] == rfun(raw[i]));
        assert(pts[i - 1] == rfun(raw[i - 1]));
        assert(raw[i] == shallow_pts(x0, y0, 2 * dy - dx, x1, dx, dy)[i - 1]);
        if i > 1 {
            assert(raw[i - 1] == shallow_pts(x0, y0, 2 * dy - dx, x1, dx, dy)[i - 2]);
        }
    }
    assert forall|i: int| 0 <= i < pts.len() implies x0 <= (#[trigger] pts[i]).0 <= x1 by {
        assert(pts[i] == rfun(raw[i]));
        if i > 0 {
            assert(raw[i] == shallow_pts(x0, y0, 2 * dy - dx, x1, dx, dy)[i - 1]);
        }
    }
    assert forall|i: int| 0 <= i < pts.len() implies (if y0 <= y1 {
        y0 <= (#[trigger] pts[i]).1 <= y1
    } else {
        y1 <= (#[trigger] pts[i]).1 <= y0
    }) by {
        assert(pts[i] == rfun(raw[i]));
        if i > 0 {
            assert(raw[i] == shallow_pts(x0, y0, 2 * dy - dx, x1, dx, dy)[i - 1]);
        }
    }
}

#[verifier::rlimit(100)]
proof fn lemma_segment_path_steep(x0: int, y0: int, x1: int, y1: int)
    requires
        x0 <= x1,
        (if y1 < y0 {
            y0 - y1
        } else {
            y1 - y0
        }) > x1 - x0,
    ensures
        ({
            let pts = segment_pts(x0, y0, x1, y1);
            &&& pts.len() >= 1
            &&& pts[0] == (x0, y0)
            &&& pts.last() == (x1, y1)
            &&& forall|i: int| 0 <= i < pts.len() ==> x0 <= (#[trigger] pts[i]).0 <= x1
            &&& forall|i: int|
                0 <= i < pts.len() ==> (if y0 <= y1 {
                    y0 <= (#[trigger] pts[i]).1 <= y1
                } else {
                    y1 <= (#[trigger] pts[i]).1 <= y0
                })
            &&& forall|i: int|
                0 < i < pts.len() ==> -1 <= (#[trigger] pts[i]).0 - pts[i - 1].0 <= 1 && -1 <= pts[i].1
                    - pts[i - 1].1 <= 1
        }),
{
    let dx = x1 - x0;
    let reflect = y1 < y0;
    let dy = if reflect {
        y0 - y1
    } else {
        y1 - y0
    };
    let rfun = |p: (int, int)| reflect_pt(p, y0, reflect);
    let pts = segment_pts(x0, y0, x1, y1);
    let raw = seq![(x0, y0)] + steep_pts(x0, y0, 2 * dx - dy, y0 + dy, dx, dy);
    assert(2 * (y0 - y0 + 1) * dx == 2 * dx) by (nonlinear_arith);
    assert(2 * (x0 - x0) * dy == 0) by (nonlinear_arith);
    lemma_steep_pts_props(x0, y0, 2 * dx - dy, x0, y0, y0 + dy, dx, dy);
    assert(pts == raw.map_values(rfun));
    assert(pts[0] == rfun(raw[0]));
    assert(pts.last() == rfun(raw.last()));
    assert forall|i: int| 0 < i < pts.len() implies -1 <= (#[trigger] pts[i]).0 - pts[i - 1].0
        <= 1 && -1 <= pts[i].1 - pts[i - 1].1 <= 1 by {
        assert(pts[i] == rfun(raw[i]));
        assert(pts[i - 1] == rfun(raw[i - 1]));
        assert(raw[i] == steep_pts(x0, y0, 2 * dx - dy, y0 + dy, dx, dy)[i - 1]);
        if i > 1 {
            assert(raw[i - 1] == steep_pts(x0, y0, 2 * dx - dy, y0 + dy, dx, dy)[i - 2]);
        }
    }
    assert forall|i: int| 0 <= i < pts.len() implies x0 <= (#[trigger] pts[i]).0 <= x1 by {
        assert(pts[i] == rfun(raw[i]));
        if i > 0 {
            assert(raw[i] == steep_pts(x0, y0, 2 * dx - dy, y0 + dy, dx, dy)[i - 1]);
        }
    }
    assert forall|i: int| 0 <= i < pts.len() implies (if y0 <= y1 {
        y0 <= (#[trigger] pts[i]).1 <= y1
    } else {
        y1 <= (#[trigger] pts[i]).1 <= y0
    }) by {
        assert(pts[i] == rfun(raw[i]));
        if i > 0 {
            assert(raw[i] == steep_pts(x0, y0, 2 * dx - dy, y0 + dy, dx, dy)[i - 1]);
        }
    }
}

/// The rasterized segment is a gapless path: for every pair of coordinates
/// with a non-negative x distance, the plotted points begin at the start
/// point, end at the end point, stay inside the segment's bounding box, and
/// each plotted point differs from its predecessor by at most one in x and
/// at most one in y — no cell is ever skipped.
pub proof fn lemma_segment_path(x0: int, y0: int, x1: int, y1: int)
    requires
        x0 <= x1,
    ensures
        ({
            let pts = segment_pts(x0, y0, x1, y1);
            &&& pts.len() >= 1
            &&& pts[0] == (x0, y0)
            &&& pts.last() == (x1, y1)
            &&& pts.contains((x0, y0))
            &&& pts.contains((x1, y1))
            &&& forall|i: int| 0 <= i < pts.len() ==> x0 <= (#[trigger] pts[i]).0 <= x1
            &&& forall|i: int|
                0 <= i < pts.len() ==> (if y0 <= y1 {
                    y0 <= (#[trigger] pts[i]).1 <= y1
                } else {
                    y1 <= (#[trigger] pts[i]).1 <= y0
                })
            &&& forall|i: int|
                0 < i < pts.len() ==> -1 <= (#[trigger] pts[i]).0 - pts[i - 1].0 <= 1 && -1 <= pts[i].1
                    - pts[i - 1].1 <= 1
        }),
{
    let dy = if y1 < y0 {
        y0 - y1
    } else {
        y1 - y0
    };
    if dy <= x1 - x0 {
        lemma_segment_path_shallow(x0, y0, x1, y1);
    } else {
        lemma_segment_path_steep(x0, y0, x1, y1);
    }
    let pts = segment_pts(x0, y0, x1, y1);
    assert(pts.contains((x0, y0))) by {
        assert(pts[0] == (x0, y0));
    }
    assert(pts.contains((x1, y1))) by {
        assert(pts[pts.len() - 1] == (x1, y1));
    }
}

/// A drawn segment leaves the mark glyph on both of its endpoints: what
/// `lemma_segment_path` states of the plotted points, read off the canvas
/// cells that `make_diagonal` produces.
pub proof fn lemma_segment_marks_endpoints(
    g: Seq<Seq<char>>,
    x0: int,
    y0: int,
    x1: int,
    y1: int,
    w: int,
    h: int,
)
    requires
        g.len() == h,
        forall|r: int| 0 <= r < h ==> (#[trigger] g[r]).len() == w,
        x0 <= x1,
        coord_valid(x0, y0, w, h),
        coord_valid(x1, y1, w, h),
    ensures
        mark_cells(g, segment_pts(x0, y0, x1, y1), h)[h - 1 - y0][x0] == MARK,
        mark_cells(g, segment_pts(x0, y0, x1, y1), h)[h - 1 - y1][x1] == MARK,
{
    lemma_segment_path(x0, y0, x1, y1);
}

/// When the decision variable is non-negative at the `k`-th column of a
/// shallow segment, the row offset `m` still lies below the total rise `dy`,
/// so stepping the minor axis cannot overshoot the endpoint.
proof fn lemma_minor_step_bound(k: int, m: int, d: int, dmaj: int, dmin: int)
    requires
        1 <= k <= dmaj,
        0 <= dmin,
        0 <= m,
        d == 2 * k * dmin - 2 * m * dmaj - dmaj,
        d >= 0,
    ensures
        m < dmin,
{
    assert(2 * m * dmaj <= 2 * k * dmin - dmaj) by (nonlinear_arith)
        requires d == 2 * k * dmin - 2 * m * dmaj - dmaj, d >= 0;
    assert(2 * k * dmin <= 2 * dmaj * dmin) by (nonlinear_arith)
        requires k <= dmaj, 0 <= dmin;
    assert(m < dmin) by (nonlinear_arith)
        requires
            2 * m * dmaj <= 2 * dmaj * dmin - dmaj,
            1 <= dmaj,
            0 <= m;
}

} // verus!
