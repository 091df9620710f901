use aygrep::bitset::TrigramBitSet;
use aygrep::freq::FrequencyTable;
use aygrep::hash::Trigram;
use aygrep::index::{build_inverted_index, extract_file_keys};
use aygrep::postings::decode_posting_list;
use aygrep::query::sort_probes_by_count;
use aygrep::scan::{choose_scan_mode, content_range, order_by_content_offset, ScanMode, ScanTally};
use aygrep::search::Searcher;
use aygrep::select::CandidateSelection;

fn sample_table() -> FrequencyTable {
    let mut w = [0u8; 65536];
    for (i, x) in w.iter_mut().enumerate() {
        *x = ((i * 7) % 251) as u8;
    }
    FrequencyTable { weights: w }
}

const FILES: [&[u8]; 3] = [
    b"fn main() { let x = 42; }",
    b"let y = 7; fn other() {}",
    b"fn main() { return; }",
];

fn all_keys() -> Vec<Vec<Trigram>> {
    let f = sample_table();
    let mut seen = TrigramBitSet::new();
    FILES.iter().map(|d| extract_file_keys(d, &f, &mut seen)).collect()
}

struct Outcome {
    fetched: usize,
    candidates: Vec<u32>,
    matches: u64,
    files_matched: u64,
    matched: Vec<u32>,
}

fn run_search(pattern: &[u8]) -> Outcome {
    let (postings, lookup) = build_inverted_index(&all_keys());
    let searcher = Searcher::new(&lookup, sample_table());
    let probes = searcher.plan_query(pattern);
    let mut sel = CandidateSelection::new(probes);
    while let Some((off, count)) = sel.next_request() {
        let start = off as usize;
        let end = (start + count * 5).min(postings.len());
        let ids = decode_posting_list(&postings[start..end], count);
        sel.receive(ids);
    }
    let mut tally = ScanTally::new();
    for &fid in sel.candidates() {
        tally.record(fid, FILES[fid as usize], pattern);
    }
    Outcome {
        fetched: sel.fetched(),
        candidates: sel.candidates().clone(),
        matches: tally.matches,
        files_matched: tally.files_matched,
        matched: tally.matched,
    }
}

#[test]
fn file_keys_of_sample() {
    let keys = all_keys();
    assert_eq!(keys[0].len(), 31);
    assert_eq!(&keys[0][..3], &[[54, 113, 220], [247, 14, 139], [253, 216, 242]]);
    assert_eq!(keys[0][30], [139, 212, 30]);
}

#[test]
fn file_keys_have_no_repeats() {
    let f = FrequencyTable { weights: [0u8; 65536] };
    let mut seen = TrigramBitSet::new();
    let keys = extract_file_keys(b"aaaaaaaa", &f, &mut seen);
    for i in 0..keys.len() {
        for j in 0..i {
            assert_ne!(keys[i], keys[j]);
        }
    }
    assert!(keys.contains(&aygrep::hash::hash_to_trigram(aygrep::hash::hash_ngram(b"aaa"))));
}

#[test]
fn file_keys_of_tiny_file_are_none() {
    let f = sample_table();
    let mut seen = TrigramBitSet::new();
    assert!(extract_file_keys(b"ab", &f, &mut seen).is_empty());
}

#[test]
fn index_layout_of_sample() {
    let (postings, lookup) = build_inverted_index(&all_keys());
    assert_eq!(postings.len(), 86);
    assert_eq!(lookup.len(), 8 + 64 * 16);
    assert_eq!(&lookup[..8], &[64, 0, 0, 0, 0, 0, 0, 0]);
    assert_eq!(&lookup[8..24], &[1, 40, 22, 0, 0, 0, 0, 0, 0, 0, 0, 0, 1, 0, 0, 0]);
    assert_eq!(&lookup[24..40], &[4, 20, 160, 0, 1, 0, 0, 0, 0, 0, 0, 0, 1, 0, 0, 0]);
    assert_eq!(&postings[..4], &[2, 0, 0, 2]);
}

#[test]
fn index_lists_every_file_with_a_key() {
    let keys = all_keys();
    let (postings, lookup) = build_inverted_index(&keys);
    let s = Searcher::new(&lookup, sample_table());
    for (fid, ks) in keys.iter().enumerate() {
        for k in ks {
            let (off, count) = s.probe_trigram(k).expect("every key is in the index");
            let ids = decode_posting_list(&postings[off as usize..], count);
            assert!(ids.contains(&(fid as u32)));
            assert!(ids.windows(2).all(|w| w[0] < w[1]));
            for id in ids {
                assert!(keys[id as usize].contains(k));
            }
        }
    }
}

#[test]
fn index_of_no_files_is_empty() {
    let (postings, lookup) = build_inverted_index(&Vec::new());
    assert!(postings.is_empty());
    assert_eq!(lookup, vec![0u8; 8]);
}

#[test]
fn plan_of_short_pattern_is_empty() {
    let (_, lookup) = build_inverted_index(&all_keys());
    let s = Searcher::new(&lookup, sample_table());
    assert!(s.plan_query(b"ab").is_empty());
}

#[test]
fn plan_uses_window_keys_for_few_covering_ranges() {
    let (_, lookup) = build_inverted_index(&all_keys());
    let s = Searcher::new(&lookup, sample_table());
    assert_eq!(
        s.plan_query(b"fn main"),
        vec![
            ([247, 14, 139], 77, 2),
            ([253, 216, 242], 81, 2),
            ([151, 195, 163], 50, 2),
            ([120, 87, 164], 45, 2),
            ([54, 113, 220], 31, 3),
        ]
    );
    assert!(s.plan_query(b"zzz").is_empty());
}

#[test]
fn plan_uses_covering_ranges_when_there_are_three() {
    let (_, lookup) = build_inverted_index(&all_keys());
    let s = Searcher::new(&lookup, sample_table());
    assert_eq!(
        s.plan_query(FILES[0]),
        vec![
            ([4, 20, 160], 1, 1),
            ([228, 108, 217], 71, 1),
            ([218, 210, 33], 69, 1),
            ([159, 60, 77], 56, 2),
            ([117, 168, 228], 43, 2),
            ([26, 173, 196], 13, 3),
        ]
    );
}

#[test]
fn plan_keys_are_keys_of_a_file_holding_the_pattern() {
    let keys = all_keys();
    let (_, lookup) = build_inverted_index(&keys);
    let s = Searcher::new(&lookup, sample_table());
    for pattern in [&b"fn main"[..], b"fn main() {", FILES[0], b"x = 42"] {
        for (t, _, _) in s.plan_query(pattern) {
            assert!(keys[0].contains(&t));
        }
    }
}

#[test]
fn probes_sort_stably_by_count() {
    let v = vec![([1, 0, 0], 0u64, 3usize), ([2, 0, 0], 0, 1), ([3, 0, 0], 0, 3), ([4, 0, 0], 0, 1)];
    assert_eq!(
        sort_probes_by_count(&v),
        vec![([2, 0, 0], 0, 1), ([4, 0, 0], 0, 1), ([1, 0, 0], 0, 3), ([3, 0, 0], 0, 3)]
    );
}

#[test]
fn search_fn_main() {
    let o = run_search(b"fn main");
    assert_eq!(o.fetched, 2);
    assert_eq!(o.candidates, vec![0, 2]);
    assert_eq!((o.matches, o.files_matched), (2, 2));
    assert_eq!(o.matched, vec![0, 2]);
}

#[test]
fn search_single_probe() {
    let o = run_search(b"let");
    assert_eq!(o.fetched, 1);
    assert_eq!(o.candidates, vec![0, 1]);
    assert_eq!((o.matches, o.files_matched), (2, 2));
}

#[test]
fn search_narrows_to_one_file() {
    let o = run_search(b"return");
    assert_eq!(o.fetched, 2);
    assert_eq!(o.candidates, vec![2]);
    assert_eq!((o.matches, o.files_matched), (1, 1));
    let o = run_search(FILES[0]);
    assert_eq!(o.candidates, vec![0]);
    assert_eq!((o.matches, o.files_matched), (1, 1));
}

#[test]
fn search_without_probes_finds_nothing() {
    for p in [&b"zzz"[..], b"ab"] {
        let o = run_search(p);
        assert_eq!(o.fetched, 0);
        assert!(o.candidates.is_empty());
        assert_eq!((o.matches, o.files_matched), (0, 0));
    }
}

#[test]
fn selection_stops_after_two_lists_with_few_candidates() {
    let probes = vec![([1, 0, 0], 0u64, 3usize), ([2, 0, 0], 10, 3), ([3, 0, 0], 20, 3)];
    let mut sel = CandidateSelection::new(probes);
    assert_eq!(sel.next_request(), Some((0, 3)));
    sel.receive(vec![1, 2, 3]);
    assert_eq!(sel.next_request(), Some((10, 3)));
    sel.receive(vec![2, 3, 4]);
    assert_eq!(sel.candidates(), &vec![2, 3]);
    assert_eq!(sel.next_request(), None);
    assert_eq!(sel.fetched(), 2);
}

#[test]
fn selection_skips_lists_far_longer_than_candidates() {
    let probes = vec![
        ([1, 0, 0], 0u64, 60usize),
        ([2, 0, 0], 1, 60),
        ([3, 0, 0], 2, 5000),
        ([4, 0, 0], 3, 70),
    ];
    let mut sel = CandidateSelection::new(probes);
    assert_eq!(sel.next_request(), Some((0, 60)));
    sel.receive((0..60).collect());
    assert_eq!(sel.next_request(), Some((1, 60)));
    sel.receive((0..60).collect());
    assert_eq!(sel.next_request(), Some((3, 70)));
    sel.receive((0..70).collect());
    assert_eq!(sel.candidates().len(), 60);
    assert_eq!(sel.next_request(), None);
    assert_eq!(sel.fetched(), 3);
}

#[test]
fn selection_stops_after_five_lists() {
    let probes: Vec<([u8; 3], u64, usize)> = (0..8).map(|i| ([i as u8, 0, 0], i as u64, 100)).collect();
    let mut sel = CandidateSelection::new(probes);
    let mut asked = 0;
    while let Some((_, count)) = sel.next_request() {
        sel.receive((0..count as u32).collect());
        asked += 1;
    }
    assert_eq!(asked, 5);
    assert_eq!(sel.candidates().len(), 100);
}

#[test]
fn tally_counts_non_overlapping_matches() {
    let mut t = ScanTally::new();
    assert_eq!(t.record(4, b"aaaaa", b"aa"), 2);
    assert_eq!(t.record(5, b"xyz", b"aa"), 0);
    assert_eq!(t.record(6, b"aa-aa", b"aa"), 2);
    assert_eq!((t.matches, t.files_matched), (4, 2));
    assert_eq!(t.matched, vec![4, 6]);
}

#[test]
fn scan_mode_by_free_memory() {
    assert_eq!(choose_scan_mode(0, 1 << 40), ScanMode::Filesystem);
    assert_eq!(choose_scan_mode(100, 201), ScanMode::ContentMmap);
    assert_eq!(choose_scan_mode(100, 200), ScanMode::ContentPread);
    assert_eq!(choose_scan_mode(100, 101), ScanMode::ContentPread);
    assert_eq!(choose_scan_mode(100, 100), ScanMode::Filesystem);
    assert_eq!(choose_scan_mode(100, 0), ScanMode::Filesystem);
}

#[test]
fn content_range_checks_the_end() {
    assert_eq!(content_range((10, 5), 15), Some((10, 15)));
    assert_eq!(content_range((10, 6), 15), None);
    assert_eq!(content_range((20, 0), 15), None);
    assert_eq!(content_range((u64::MAX, u32::MAX), 15), None);
}

#[test]
fn candidates_ordered_by_content_offset() {
    let offsets = vec![(300u64, 1u32), (100, 1), (200, 1), (50, 1)];
    assert_eq!(order_by_content_offset(&[0, 1, 2, 3], &offsets), vec![3, 1, 2, 0]);
    assert_eq!(order_by_content_offset(&[0, 2], &offsets), vec![2, 0]);
}

#[test]
fn empty_pattern_matches_at_every_position() {
    let mut t = ScanTally::new();
    assert_eq!(t.record(1, b"abc", b""), 4);
    assert_eq!(t.matches, 4);
}

#[test]
fn more_memory_never_picks_a_slower_mode() {
    let rank = |m: ScanMode| match m {
        ScanMode::Filesystem => 0,
        ScanMode::ContentPread => 1,
        ScanMode::ContentMmap => 2,
    };
    for c in [0u64, 1, 100, 1 << 40] {
        let mut last = 0;
        for m in [0u64, 1, 100, 150, 200, 201, 1 << 41, u64::MAX] {
            let r = rank(choose_scan_mode(c, m));
            assert!(r >= last);
            last = r;
        }
    }
}

#[test]
fn selection_keeps_a_candidate_when_it_gallops() {
    let probes = vec![([1, 0, 0], 0u64, 1usize), ([2, 0, 0], 1, 66)];
    let mut sel = CandidateSelection::new(probes);
    assert_eq!(sel.next_request(), Some((0, 1)));
    sel.receive(vec![1]);
    assert_eq!(sel.next_request(), Some((1, 66)));
    sel.receive((0..66).collect());
    assert_eq!(sel.candidates(), &vec![1]);
}
