use velogos::decimate::{equal_remove, remove_evenly, REMOVED};

/// The oracle of the decimator, run exhaustively for small sizes: for every
/// series length and every removal count below it, exactly the requested
/// number of positions is marked and exactly the rest survive.
#[test]
fn test_equal_remove() {
    for i in 0..200u16 {
        for j in 0..i {
            let mut vec: Vec<usize> = Vec::new();
            for k in 0..i {
                vec.push(k as usize);
            }
            let len = vec.len();
            let amount = j as usize;

            let removed = equal_remove(&mut vec, 0, len, amount, false);

            let mut new_nums: Vec<usize> = Vec::new();
            for el in &vec {
                if *el == REMOVED {
                    continue;
                }
                new_nums.push(*el);
            }

            assert_eq!(removed, amount);
            assert_eq!(new_nums.len(), len - amount);
        }
    }
}

#[test]
fn remove_evenly_counts() {
    let series: Vec<usize> = (0..10).collect();
    assert_eq!(remove_evenly(&series, 0), series);
    assert_eq!(remove_evenly(&series, 10).len(), 0);
    let seven = remove_evenly(&series, 3);
    assert_eq!(seven.len(), 7);
}

/// Survivors keep their relative order: they form a subsequence of the
/// input.
#[test]
fn remove_evenly_preserves_order() {
    for n in [1usize, 2, 5, 17, 100] {
        for k in 0..=n {
            let series: Vec<usize> = (0..n).collect();
            let out = remove_evenly(&series, k);
            assert_eq!(out.len(), n - k);
            for w in out.windows(2) {
                assert!(w[0] < w[1], "survivors reordered: {:?}", out);
            }
        }
    }
}

/// Removals are spread across the series, not taken from one end.
#[test]
fn remove_evenly_spreads() {
    let series: Vec<usize> = (0..100).collect();
    let out = remove_evenly(&series, 50);
    assert_eq!(out.len(), 50);
    assert!(out.iter().any(|&x| x < 20));
    assert!(out.iter().any(|&x| x >= 80));
}

/// The boundary of the width decimation: a series of 500 against a target
/// width of 80 tolerates 79 samples, so exactly 500 - 79 are removed.
#[test]
fn remove_evenly_width_boundary() {
    let series: Vec<usize> = (0..500).collect();
    let max_tolerated = 500 * (80 - 1) / 500;
    assert_eq!(max_tolerated, 79);
    let amount = 500 - max_tolerated;
    let out = remove_evenly(&series, amount);
    assert_eq!(out.len(), 79);
}
