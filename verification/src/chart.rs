//! The plot orchestrator.
//!
//! `get_plot` turns a raw series of magnitudes and a target size in character
//! cells into the finished text block: it scales the magnitudes to fit the
//! target height, decimates the series to fit the target width, walks the
//! surviving samples left to right drawing a segment between each consecutive
//! pair, and renders the canvas. The whole render is a function of the series
//! and the size alone.

use vstd::prelude::*;

use crate::canvas::{
    blank_grid, coord_valid, mark_cells, segment_pts, spec_plot_text, Coord, Plot, PlotError,
};
use crate::decimate::{remove_evenly, spec_remove_evenly};
use crate::scale::{find_scaler, scale_series, scale_value, spec_find_scaler, spec_scale_value};

verus! {

/// What a chart is asked to show.
#[derive(Debug)]
pub struct PlotData {
    pub plot_type: PlotType,
    pub letter: Option<String>,
}

/// The kinds of chart the program offers.
#[derive(Debug)]
pub enum PlotType {
    LetterWpm,
    AllWpm,
    LetterAcc,
    AllAcc,
    Sin,
    Square,
}

/// Whether a plot request asks for words-per-minute data: a request without
/// a letter asks for it through `AllWpm`, one with a letter through
/// `LetterWpm`.
pub fn plot_is_wpm(plot_data: &PlotData) -> (r: bool)
    ensures
        r == (if plot_data.letter is None {
            plot_data.plot_type is AllWpm
        } else {
            plot_data.plot_type is LetterWpm
        }),
{
    if plot_data.letter.is_none() {
        matches!(plot_data.plot_type, PlotType::AllWpm)
    } else {
        matches!(plot_data.plot_type, PlotType::LetterWpm)
    }
}

/// The statistics key a plot request selects: the requested letter, or the
/// whole-alphabet key when no letter was named.
pub fn letter_key(plot_data: &PlotData) -> (r: String)
    ensures
        plot_data.letter matches Some(l) ==> r@ == l@,
        plot_data.letter is None ==> r@ == "all"@,
{
    match &plot_data.letter {
        Some(l) => l.clone(),
        None => "all".to_owned(),
    }
}

/// The default display size assumed when the terminal cannot be queried.
pub const DEFAULT_COLS: u16 = 80;

/// The default row count assumed when the terminal cannot be queried.
pub const DEFAULT_ROWS: u16 = 40;

/// The raw display size a render works from: the reported one, or the fixed
/// default when the query failed.
pub open spec fn spec_raw_display(size: Option<(u16, u16)>) -> (u16, u16) {
    match size {
        Some(s) => s,
        None => (DEFAULT_COLS, DEFAULT_ROWS),
    }
}

/// The chart size for a display size: a fraction (five twelfths, about one
/// over 2.4) of the raw columns, and the raw rows less a margin of five
/// reserved for surrounding text. An unreported size is first substituted by
/// the fixed default and then derived like any reported one.
pub fn display_target(size: Option<(u16, u16)>) -> (r: (u16, u16))
    ensures
        ({
            let raw = spec_raw_display(size);
            r.0 as int == (raw.0 as int) * 5 / 12 && r.1 as int == (if raw.1 >= 5 {
                raw.1 - 5
            } else {
                0
            })
        }),
{
    let (cols, rows) = match size {
        Some(s) => s,
        None => (DEFAULT_COLS, DEFAULT_ROWS),
    };
    let w = ((cols as u32) * 5 / 12) as u16;
    let h = if rows >= 5 {
        rows - 5
    } else {
        0
    };
    (w, h)
}

/// The largest magnitude of the series, zero for an empty one.
pub open spec fn spec_max(s: Seq<usize>) -> int
    decreases s.len(),
{
    if s.len() == 0 {
        0
    } else {
        let m = spec_max(s.drop_last());
        if s.last() >= m {
            s.last() as int
        } else {
            m
        }
    }
}

fn max_of(nums: &Vec<usize>) -> (m: usize)
    ensures
        m == spec_max(nums@),
{
    let mut m: usize = 0;
    let mut i: usize = 0;
    while i < nums.len()
        invariant
            i <= nums@.len(),
            m == spec_max(nums@.take(i as int)),
        decreases nums@.len() - i,
    {
        proof {
            assert(nums@.take(i + 1).drop_last() =~= nums@.take(i as int));
        }
        if nums[i] > m {
            m = nums[i];
        }
        i += 1;
    }
    proof {
        assert(nums@.take(nums@.len() as int) =~= nums@);
    }
    m
}

/// The series with every magnitude scaled to fit strictly below the target
/// height, or unchanged when its maximum already fits.
pub open spec fn spec_scaled_series(nums: Seq<usize>, h: int) -> Seq<usize> {
    let m = spec_max(nums);
    if m >= h {
        let (num, den) = spec_find_scaler(m, h);
        nums.map_values(|x: usize| spec_scale_value(x as int, num, den) as usize)
    } else {
        nums
    }
}

/// The series thinned to fit the target width: when it is at least as long
/// as the width, the evenly spread decimator brings it down to the tolerated
/// length, which the scaler search against length and width yields.
pub open spec fn spec_decimated(s: Seq<usize>, w: int) -> Seq<usize> {
    if s.len() >= 1 && s.len() >= w {
        let (num, den) = spec_find_scaler(s.len() as int, w);
        let max_tolerated = spec_scale_value(s.len() as int, num, den);
        spec_remove_evenly(s, s.len() - max_tolerated)
    } else {
        s
    }
}

/// The grid after the rasterizer has walked the samples from index `i` on,
/// cursor at `(x, y)`, advancing x by `xd` per sample: each valid consecutive
/// pair is drawn, and an invalid segment resets the cursor to mid-canvas and
/// moves one column on.
pub open spec fn spec_draw(
    g: Seq<Seq<char>>,
    nums: Seq<usize>,
    i: int,
    x: int,
    y: int,
    xd: int,
    w: int,
    h: int,
) -> Seq<Seq<char>>
    decreases nums.len() - i,
{
    if i < 0 || i >= nums.len() {
        g
    } else {
        let num = nums[i] as int;
        if coord_valid(x, y, w, h) && coord_valid(x + xd, num, w, h) {
            spec_draw(
                mark_cells(g, segment_pts(x, y, x + xd, num), h),
                nums,
                i + 1,
                x + xd,
                num,
                xd,
                w,
                h,
            )
        } else {
            spec_draw(g, nums, i + 1, x + 1, h / 2, xd, w, h)
        }
    }
}

/// The finished chart for a series and a target size, when one exists: the
/// scaled, decimated series drawn onto a blank canvas and rendered as text.
/// `None` when fewer than two samples survive decimation.
pub open spec fn spec_get_plot(nums: Seq<usize>, width: u16, height: u16) -> Option<Seq<char>> {
    let scaled = spec_scaled_series(nums, height as int);
    let surv = spec_decimated(scaled, width as int);
    if surv.len() < 2 {
        None
    } else {
        let xd = width as int / surv.len() as int;
        let g0 = blank_grid(width as int, height as int);
        Some(spec_plot_text(spec_draw(g0, surv, 1, 0, surv[0] as int, xd, width as int, height as int), width as int))
    }
}

/// Render a series of magnitudes into a bordered text chart of the given
/// target width and height. Fails with `InsufficientSamples`, and only then,
/// when fewer than two samples survive decimation; otherwise the text is
/// exactly the chart that `spec_get_plot` describes, a function of the
/// series and the size alone.
#[verifier::loop_isolation(false)]
#[verifier::rlimit(60)]
pub fn get_plot(nums: Vec<usize>, width: u16, height: u16) -> (r: Result<String, PlotError>)
    ensures
        r is Ok <==> spec_get_plot(nums@, width, height) is Some,
        r matches Ok(text) ==> spec_get_plot(nums@, width, height) == Some(text@),
        r matches Err(e) ==> e == PlotError::InsufficientSamples,
{
    let biggest = max_of(&nums);

    let scaled: Vec<usize> = if biggest >= height as usize {
        let s = find_scaler(biggest as u64, height);
        let out = scale_series(&nums, s);
        proof {
            assert(out@ =~= spec_scaled_series(nums@, height as int));
        }
        out
    } else {
        proof {
            assert(nums@ =~= spec_scaled_series(nums@, height as int));
        }
        nums
    };

    proof {
        assert forall|i: int| 0 <= i < scaled@.len() implies #[trigger] scaled@[i] < 0x10000 by {
            lemma_max_bounds(nums@, i);
            if spec_max(nums@) >= height as int {
                if height >= 1 {
                    crate::scale::lemma_scaler_fits(
                        spec_max(nums@),
                        height as int,
                        nums@[i] as int,
                    );
                } else {
                    assert((nums@[i] as int) * 0 == 0) by (nonlinear_arith);
                }
            }
        }
    }

    let ghost scaled_spec = spec_scaled_series(nums@, height as int);
    let surv: Vec<usize> = if scaled.len() >= 1 && scaled.len() >= width as usize {
        let sc = find_scaler(scaled.len() as u64, width);
        let max_tolerated = scale_value(scaled.len(), sc);
        let amount = scaled.len() - max_tolerated;
        let out = remove_evenly(&scaled, amount);
        proof {
            if width >= 2 {
                vstd::arithmetic::div_mod::lemma_div_multiples_vanish(
                    width as int - 1,
                    scaled@.len() as int,
                );
                assert(max_tolerated as int == width as int - 1);
            } else if width == 1 {
                assert((scaled@.len() as int) * 1 == scaled@.len() as int);
                vstd::arithmetic::div_mod::lemma_basic_div(
                    scaled@.len() as int,
                    scaled@.len() as int + 1,
                );
                assert(max_tolerated as int == 0);
            } else {
                assert((scaled@.len() as int) * 0 == 0) by (nonlinear_arith);
                assert(max_tolerated as int == 0);
            }
            assert(spec_decimated(scaled_spec, width as int).len() == max_tolerated as int);
        }
        out
    } else {
        proof {
            assert(spec_decimated(scaled_spec, width as int) == scaled_spec);
        }
        scaled
    };
    proof {
        assert(surv@ == spec_decimated(scaled_spec, width as int));
    }

    if surv.len() < 2 {
        return Err(PlotError::InsufficientSamples);
    }

    let n = surv.len();
    let x_diff = (width as usize) / n;
    proof {
        assert(n < width as usize);
        assert(x_diff >= 1) by {
            vstd::arithmetic::div_mod::lemma_div_is_ordered(
                n as int,
                width as int,
                n as int,
            );
            vstd::arithmetic::div_mod::lemma_div_multiples_vanish(1, n as int);
        }
        vstd::arithmetic::div_mod::lemma_fundamental_div_mod(width as int, n as int);
        vstd::arithmetic::div_mod::lemma_mod_bound(width as int, n as int);
        assert((n as int) * (x_diff as int) <= width as int);
        assert(((n - 1) as int) * (x_diff as int) == (n as int) * (x_diff as int) - (
        x_diff as int)) by (nonlinear_arith);
    }

    let mut plot = Plot::new(width as usize, height as usize);
    let ghost g0 = plot@;
    proof {
        assert(g0 =~~= blank_grid(width as int, height as int));
    }

    let mut x: usize = 0;
    let mut y: usize = surv[0];
    let mut i: usize = 1;
    while i < n
        invariant
            plot.wf(),
            plot.spec_width() == width,
            plot.spec_height() == height,
            1 <= i <= n,
            n == surv@.len(),
            x + (n - i) * x_diff <= width,
            spec_draw(
                plot@,
                surv@,
                i as int,
                x as int,
                y as int,
                x_diff as int,
                width as int,
                height as int,
            ) == spec_draw(
                g0,
                surv@,
                1,
                0,
                surv@[0] as int,
                x_diff as int,
                width as int,
                height as int,
            ),
        decreases n - i,
    {
        let num = surv[i];
        proof {
            assert((n - i) as int * (x_diff as int) == (n - i - 1) as int * (x_diff as int)
                + x_diff as int) by (nonlinear_arith);
            assert((n - i - 1) as int * (x_diff as int) >= 0) by (nonlinear_arith)
                requires i < n, x_diff >= 1;
        }
        let res = plot.make_diagonal(Coord::new(x, y), Coord::new(x + x_diff, num));
        if res.is_err() {
            y = (height / 2) as usize;
            x += 1;
        } else {
            x += x_diff;
            y = num;
        }
        i += 1;
    }
    proof {
        assert(spec_draw(
            plot@,
            surv@,
            n as int,
            x as int,
            y as int,
            x_diff as int,
            width as int,
            height as int,
        ) == plot@);
    }

    let text = plot.to_text();
    Ok(text)
}

/// Every element of a series is at most its maximum.
proof fn lemma_max_bounds(s: Seq<usize>, i: int)
    requires
        0 <= i < s.len(),
    ensures
        s[i] <= spec_max(s),
        spec_max(s) >= 0,
    decreases s.len(),
{
    if i + 1 == s.len() {
        lemma_max_nonneg(s.drop_last());
    } else {
        lemma_max_bounds(s.drop_last(), i);
    }
}

proof fn lemma_max_nonneg(s: Seq<usize>)
    ensures
        spec_max(s) >= 0,
    decreases s.len(),
{
    if s.len() > 0 {
        lemma_max_nonneg(s.drop_last());
    }
}

/// Rendering is deterministic: the chart text is a function of the series
/// and the display size alone, so rendering the same series at the same size
/// twice yields identical text.
pub proof fn lemma_render_deterministic(
    nums: Seq<usize>,
    width: u16,
    height: u16,
    t1: Seq<char>,
    t2: Seq<char>,
)
    requires
        spec_get_plot(nums, width, height) == Some(t1),
        spec_get_plot(nums, width, height) == Some(t2),
    ensures
        t1 == t2,
{
}

} // verus!
