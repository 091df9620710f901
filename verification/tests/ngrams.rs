use aygrep::freq::FrequencyTable;
use aygrep::ngram::{
    build_all_ranges, build_covering_ranges, compute_weights, find_boundaries,
    find_interior_boundaries,
};

fn sample_table() -> FrequencyTable {
    let mut w = [0u8; 65536];
    for (i, x) in w.iter_mut().enumerate() {
        *x = ((i * 7) % 251) as u8;
    }
    FrequencyTable { weights: w }
}

const SAMPLE: &[u8] = b"fn main() { let x = 42; }";

#[test]
fn weights_of_each_adjacent_pair() {
    let f = sample_table();
    let w = compute_weights(SAMPLE, &f);
    assert_eq!(
        w,
        vec![73, 58, 126, 227, 114, 178, 114, 181, 153, 224, 11, 119, 220, 80, 17, 203, 157, 41, 100, 229, 162, 155, 30, 238]
    );
}

#[test]
fn weights_of_short_input_are_empty() {
    let f = sample_table();
    assert!(compute_weights(b"a", &f).is_empty());
    assert!(compute_weights(b"", &f).is_empty());
}

#[test]
fn boundaries_are_local_maxima_with_edges() {
    let f = sample_table();
    let w = compute_weights(SAMPLE, &f);
    assert_eq!(find_boundaries(&w), vec![0, 3, 5, 7, 9, 12, 15, 19, 23]);
}

#[test]
fn boundaries_of_tiny_weight_lists() {
    assert_eq!(find_boundaries(&[]), Vec::<usize>::new());
    assert_eq!(find_boundaries(&[5]), vec![0]);
    assert_eq!(find_boundaries(&[5, 5]), vec![0, 1]);
    assert_eq!(find_boundaries(&[1, 2, 3]), vec![2]);
    assert_eq!(find_boundaries(&[3, 2, 1]), vec![0]);
}

#[test]
fn interior_boundaries_skip_edges() {
    let f = sample_table();
    let w = compute_weights(SAMPLE, &f);
    assert_eq!(find_interior_boundaries(&w), vec![3, 5, 7, 9, 12, 15, 19]);
    assert_eq!(find_interior_boundaries(&[9, 1]), Vec::<usize>::new());
    assert_eq!(find_interior_boundaries(&[1, 4, 4, 1]), vec![1, 2]);
}

#[test]
fn all_ranges_of_sample() {
    let f = sample_table();
    assert_eq!(
        build_all_ranges(SAMPLE, &f),
        vec![(0, 5), (3, 7), (5, 9), (7, 11), (9, 14), (12, 17), (15, 21), (19, 25)]
    );
}

#[test]
fn all_ranges_of_short_input() {
    let f = sample_table();
    assert!(build_all_ranges(b"ab", &f).is_empty());
}

#[test]
fn all_ranges_fall_back_to_whole_input() {
    let f = FrequencyTable { weights: [0u8; 65536] };
    assert_eq!(build_all_ranges(b"abc", &f), vec![(0, 3)]);
    let mut w = [0u8; 65536];
    w[b'a' as usize * 256 + b'b' as usize] = 9;
    let g = FrequencyTable { weights: w };
    assert_eq!(build_all_ranges(b"abc", &g), vec![(0, 3)]);
}

#[test]
fn covering_ranges_of_sample() {
    let f = sample_table();
    assert_eq!(
        build_covering_ranges(SAMPLE, &f),
        vec![(3, 7), (5, 9), (7, 11), (9, 14), (12, 17), (15, 21)]
    );
}

#[test]
fn covering_ranges_need_two_interior_boundaries() {
    let f = sample_table();
    assert!(build_covering_ranges(b"ab", &f).is_empty());
    assert!(build_covering_ranges(b"fn main", &f).is_empty());
    assert_eq!(build_covering_ranges(b"fn main() {", &f), vec![(3, 7), (5, 9)]);
}

#[test]
fn every_range_is_within_input_and_long_enough() {
    let f = sample_table();
    for input in [&b"abcdefghijklmnop"[..], b"aaaaaaaaaa", SAMPLE, b"xyz"] {
        for (s, e) in build_all_ranges(input, &f) {
            assert!(s < e && e <= input.len() && e - s >= 3);
        }
        for (s, e) in build_covering_ranges(input, &f) {
            assert!(s < e && e <= input.len() && e - s >= 3);
        }
    }
}

#[test]
fn interior_boundaries_are_the_boundaries_inside() {
    let f = sample_table();
    let w = compute_weights(SAMPLE, &f);
    let inside: Vec<usize> = find_boundaries(&w).into_iter().filter(|&i| 1 <= i && i + 2 <= w.len()).collect();
    assert_eq!(find_interior_boundaries(&w), inside);
    for w in [vec![5u8], vec![5, 5], vec![1, 9, 1, 9], vec![3, 3, 3, 3, 3]] {
        let inside: Vec<usize> = find_boundaries(&w).into_iter().filter(|&i| 1 <= i && i + 2 <= w.len()).collect();
        assert_eq!(find_interior_boundaries(&w), inside);
    }
}

#[test]
fn interior_boundaries_of_a_window() {
    let f = sample_table();
    let w = compute_weights(SAMPLE, &f);
    for a in 0..w.len() {
        for b in a + 3..=w.len() {
            let want: Vec<usize> = find_boundaries(&w)
                .into_iter()
                .filter(|&j| a < j && j + 1 < b)
                .map(|j| j - a)
                .collect();
            assert_eq!(find_interior_boundaries(&w[a..b]), want);
        }
    }
}

#[test]
fn covering_ranges_of_a_pattern_are_ranges_of_a_text_holding_it() {
    let f = sample_table();
    let pattern = &SAMPLE[2..20];
    let text = [&b"// prefix "[..], SAMPLE, b" suffix"].concat();
    let p = 10 + 2;
    assert_eq!(&text[p..p + pattern.len()], pattern);
    let all = build_all_ranges(&text, &f);
    for (s, e) in build_covering_ranges(pattern, &f) {
        assert!(all.contains(&(p + s, p + e)));
    }
}
