use aygrep::content::{encode_content_header, is_indexable, parse_content_header, ContentLayout};
use aygrep::files::{encode_file_list, parse_file_list};
use aygrep::freq::FrequencyTable;
use aygrep::lookup::encode_lookup_table;
use aygrep::postings::{decode_posting_list, encode_posting_list, push_varint};
use aygrep::search::Searcher;

#[test]
fn varint_of_small_values_is_one_byte() {
    let mut out = Vec::new();
    push_varint(&mut out, 0);
    push_varint(&mut out, 127);
    assert_eq!(out, vec![0, 127]);
}

#[test]
fn varint_of_larger_values() {
    let mut out = Vec::new();
    push_varint(&mut out, 128);
    assert_eq!(out, vec![0x80, 0x01]);
    out.clear();
    push_varint(&mut out, 300);
    assert_eq!(out, vec![0xAC, 0x02]);
    out.clear();
    push_varint(&mut out, u32::MAX);
    assert_eq!(out, vec![0xFF, 0xFF, 0xFF, 0xFF, 0x0F]);
}

#[test]
fn posting_list_is_delta_encoded() {
    let mut out = vec![9u8];
    encode_posting_list(&[2, 3, 10, 300], &mut out);
    assert_eq!(out, vec![9, 2, 1, 7, 0xA2, 0x02]);
}

#[test]
fn posting_list_roundtrip() {
    let ids = vec![0u32, 1, 5, 200, 70_000, 70_001, 4_000_000_000];
    let mut out = Vec::new();
    encode_posting_list(&ids, &mut out);
    assert_eq!(decode_posting_list(&out, ids.len()), ids);
}

#[test]
fn posting_list_decodes_a_prefix() {
    assert_eq!(decode_posting_list(&[2, 1, 7], 2), vec![2, 3]);
    assert_eq!(decode_posting_list(&[2, 1, 7], 0), Vec::<u32>::new());
}

#[test]
fn posting_list_past_its_end_repeats_last_id() {
    assert_eq!(decode_posting_list(&[2, 1], 4), vec![2, 3, 3, 3]);
    assert_eq!(decode_posting_list(&[], 2), vec![0, 0]);
}

#[test]
fn posting_list_long_varint_shift_wraps() {
    assert_eq!(decode_posting_list(&[0x80, 0x80, 0x80, 0x80, 0x80, 0x01], 1), vec![8]);
}

#[test]
fn posting_list_sum_wraps() {
    assert_eq!(decode_posting_list(&[0xFF, 0xFF, 0xFF, 0xFF, 0x0F, 0x01], 2), vec![u32::MAX, 0]);
}

#[test]
fn lookup_table_layout() {
    let buf = encode_lookup_table(&[([1, 2, 3], 5, 2)]);
    assert_eq!(
        buf,
        vec![1, 0, 0, 0, 0, 0, 0, 0, 1, 2, 3, 0, 5, 0, 0, 0, 0, 0, 0, 0, 2, 0, 0, 0]
    );
}

#[test]
fn lookup_table_probe_finds_each_entry() {
    let entries = vec![
        ([0, 0, 1], 0u64, 1u32),
        ([1, 2, 3], 5, 2),
        ([1, 2, 9], 7, 4),
        ([200, 0, 0], 11, 1),
    ];
    let buf = encode_lookup_table(&entries);
    let s = Searcher::new(&buf, FrequencyTable { weights: [0u8; 65536] });
    assert_eq!(s.entry_count(), 4);
    for (t, off, cnt) in &entries {
        assert_eq!(s.probe_trigram(t), Some((*off, *cnt as usize)));
    }
    assert_eq!(s.probe_trigram(&[1, 2, 4]), None);
    assert_eq!(s.probe_trigram(&[0, 0, 0]), None);
    assert_eq!(s.probe_trigram(&[255, 255, 255]), None);
}

#[test]
fn empty_lookup_table_finds_nothing() {
    let buf = encode_lookup_table(&[]);
    assert_eq!(buf, vec![0u8; 8]);
    let s = Searcher::new(&buf, FrequencyTable { weights: [0u8; 65536] });
    assert_eq!(s.probe_trigram(&[1, 2, 3]), None);
}

#[test]
fn indexable_needs_three_bytes() {
    assert!(!is_indexable(b""));
    assert!(!is_indexable(b"ab"));
    assert!(is_indexable(b"abc"));
}

#[test]
fn indexable_rejects_zero_byte_in_probe() {
    let mut data = vec![b'x'; 10_000];
    data[8191] = 0;
    assert!(!is_indexable(&data));
    data[8191] = b'x';
    data[8192] = 0;
    assert!(is_indexable(&data));
}

#[test]
fn indexable_size_limit() {
    assert!(is_indexable(&vec![b'a'; 1_000_000]));
    assert!(!is_indexable(&vec![b'a'; 1_000_001]));
}

#[test]
fn content_header_layout() {
    let h = encode_content_header(&[(28, 3), (31, 5)], 28);
    assert_eq!(
        h,
        vec![2, 0, 0, 0, 28, 0, 0, 0, 0, 0, 0, 0, 3, 0, 0, 0, 31, 0, 0, 0, 0, 0, 0, 0, 5, 0, 0, 0]
    );
}

#[test]
fn content_header_is_padded_or_cut() {
    let padded = encode_content_header(&[(1, 1)], 20);
    assert_eq!(padded.len(), 20);
    assert_eq!(&padded[16..], &[0, 0, 0, 0]);
    let cut = encode_content_header(&[(1, 1), (2, 2)], 16);
    assert_eq!(cut, vec![2, 0, 0, 0, 1, 0, 0, 0, 0, 0, 0, 0, 1, 0, 0, 0]);
}

#[test]
fn content_header_roundtrip() {
    let entries = vec![(40u64, 7u32), (47, 0), (u64::MAX, u32::MAX)];
    let h = encode_content_header(&entries, 4 + 12 * entries.len());
    assert_eq!(parse_content_header(&h), entries);
}

#[test]
fn file_list_layout() {
    let buf = encode_file_list(&vec![b"a/b.rs".to_vec(), b"c".to_vec()]);
    assert_eq!(
        buf,
        vec![2, 0, 0, 0, 6, 0, b'a', b'/', b'b', b'.', b'r', b's', 1, 0, b'c']
    );
}

#[test]
fn file_list_roundtrip() {
    let paths = vec![b"src/main.rs".to_vec(), Vec::new(), b"x".repeat(300)];
    let buf = encode_file_list(&paths);
    assert_eq!(parse_file_list(&buf), Some(paths));
}

#[test]
fn file_list_cut_short_is_refused() {
    assert_eq!(parse_file_list(&[0, 0, 0]), None);
    assert_eq!(parse_file_list(&[1, 0, 0, 0, 5, 0, b'x']), None);
    assert_eq!(parse_file_list(&[1, 0, 0, 0, 5]), None);
}

#[test]
fn file_list_ignores_trailing_bytes() {
    assert_eq!(parse_file_list(&[0, 0, 0, 0, 9, 9]), Some(Vec::new()));
    assert_eq!(parse_file_list(&[1, 0, 0, 0, 1, 0, b'q', 7]), Some(vec![b"q".to_vec()]));
}

#[test]
fn probe_on_unsorted_table_follows_the_halving() {
    // keys 5, 1, 3: the search for 5 halves towards the upper entries and
    // never looks at entry 0.
    let buf = encode_lookup_table(&[([0, 0, 5], 10u64, 1u32), ([0, 0, 1], 20, 2), ([0, 0, 3], 30, 3)]);
    let s = Searcher::new(&buf, FrequencyTable { weights: [0u8; 65536] });
    assert_eq!(s.probe_trigram(&[0, 0, 5]), None);
    assert_eq!(s.probe_trigram(&[0, 0, 3]), Some((30, 3)));
    assert_eq!(s.probe_trigram(&[0, 0, 1]), Some((20, 2)));
}

#[test]
fn content_layout_puts_files_back_to_back() {
    let mut l = ContentLayout::new(28);
    assert_eq!(l.end(), 28);
    l.add(3);
    l.add(0);
    l.add(5);
    assert_eq!(l.entries(), &vec![(28, 3), (31, 0), (31, 5)]);
    assert_eq!(l.end(), 36);
    let h = encode_content_header(l.entries(), 4 + 12 * 3);
    assert_eq!(parse_content_header(&h), vec![(28, 3), (31, 0), (31, 5)]);
}
