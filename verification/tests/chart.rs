use velogos::canvas::PlotError;
use velogos::chart::{display_target, get_plot, letter_key, plot_is_wpm, PlotData, PlotType};

/// Where the cell of column `c` starts in a spread row: two characters per
/// earlier cell plus the extra blank after every third cell.
fn display_index(c: usize) -> usize {
    2 * c + (c + 2) / 3
}

fn star_at(lines: &[&str], height: usize, x: usize, y: usize) -> bool {
    let row = 1 + (height - 1 - y);
    lines[row].as_bytes()[1 + display_index(x)] == b'*'
}

/// The small end-to-end scenario: five samples on an eight-row canvas, no
/// decimation, give a bordered block of exactly eight interior rows, each
/// wrapped in `|...|`, with a mark on every sample of the four connected
/// segments.
#[test]
fn five_samples_eight_rows() {
    let text = get_plot(vec![1, 5, 3, 8, 2], 6, 8).unwrap();
    let lines: Vec<&str> = text.lines().collect();
    assert_eq!(lines.len(), 10);
    assert!(lines[0].starts_with('+') && lines[0].ends_with('+'));
    assert_eq!(lines[0], lines[9]);
    for row in &lines[1..9] {
        assert!(row.starts_with('|') && row.ends_with('|'), "row not wrapped: {:?}", row);
        assert_eq!(row.len(), lines[0].len());
    }
    // the maximum 8 is scaled by 7/8 to fit below 8 rows, so the samples
    // land on the rows 0, 4, 2, 7, 1, one column apart
    let scaled = [0usize, 4, 2, 7, 1];
    for (x, &y) in scaled.iter().enumerate() {
        assert!(star_at(&lines, 8, x, y), "no mark at sample {}", x);
    }
    let star_count: usize =
        lines.iter().map(|l| l.chars().filter(|&c| c == '*').count()).sum();
    assert_eq!(star_count, 15);
}

/// A series longer than the target width is decimated down to one sample
/// less than the width; length 500 against width 80 keeps 79 samples, so
/// the chart still renders.
#[test]
fn long_series_against_width() {
    let series: Vec<usize> = (0..500).map(|i| i % 30).collect();
    let text = get_plot(series, 80, 40).unwrap();
    let lines: Vec<&str> = text.lines().collect();
    assert_eq!(lines.len(), 42);
}

#[test]
fn one_sample_is_insufficient() {
    assert_eq!(get_plot(vec![5], 80, 40), Err(PlotError::InsufficientSamples));
    assert_eq!(get_plot(Vec::new(), 80, 40), Err(PlotError::InsufficientSamples));
}

/// Rendering is deterministic: the same series at the same size twice gives
/// byte-identical text.
#[test]
fn render_is_idempotent() {
    let series: Vec<usize> = (0..300).map(|i| (i * 7) % 23).collect();
    let a = get_plot(series.clone(), 33, 12).unwrap();
    let b = get_plot(series, 33, 12).unwrap();
    assert_eq!(a.as_bytes(), b.as_bytes());
}

#[test]
fn display_target_scales_columns_and_trims_rows() {
    assert_eq!(display_target(Some((24, 12))), (10, 7));
    assert_eq!(display_target(Some((80, 45))), (33, 40));
    assert_eq!(display_target(Some((10, 3))), (4, 0));
}

/// A failed size query substitutes the default 80 by 40 display and then
/// derives the chart size from it like any reported display.
#[test]
fn display_target_default_is_derived() {
    assert_eq!(display_target(None), (33, 35));
    assert_eq!(display_target(None), display_target(Some((80, 40))));
}

#[test]
fn plot_request_selects_measure() {
    let all_wpm = PlotData { plot_type: PlotType::AllWpm, letter: None };
    assert!(plot_is_wpm(&all_wpm));
    assert_eq!(letter_key(&all_wpm), "all");

    let letter_acc = PlotData { plot_type: PlotType::LetterAcc, letter: Some(String::from("q")) };
    assert!(!plot_is_wpm(&letter_acc));
    assert_eq!(letter_key(&letter_acc), "q");

    let all_as_letter = PlotData { plot_type: PlotType::AllWpm, letter: Some(String::from("q")) };
    assert!(!plot_is_wpm(&all_as_letter));
}
