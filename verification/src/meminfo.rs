use vstd::prelude::*;

verus! {

/// The length of the Unicode white-space character whose UTF-8 encoding starts
/// at byte `i` of `s`, or 0 when none does: tab to carriage return, space,
/// U+0085, U+00A0, U+1680, U+2000 to U+200A, U+2028, U+2029, U+202F, U+205F and U+3000.
pub open spec fn white_space_len(s: Seq<u8>, i: int) -> int {
    if i < 0 || i >= s.len() {
        0
    } else if s[i] == 0x20 || (0x09 <= s[i] <= 0x0d) {
        1
    } else if s[i] == 0xc2 && i + 1 < s.len() && (s[i + 1] == 0x85 || s[i + 1] == 0xa0) {
        2
    } else if i + 2 < s.len() && ({
        ||| s[i] == 0xe1 && s[i + 1] == 0x9a && s[i + 2] == 0x80
        ||| s[i] == 0xe2 && s[i + 1] == 0x80 && ((0x80 <= s[i + 2] <= 0x8a) || s[i + 2] == 0xa8
            || s[i + 2] == 0xa9 || s[i + 2] == 0xaf)
        ||| s[i] == 0xe2 && s[i + 1] == 0x81 && s[i + 2] == 0x9f
        ||| s[i] == 0xe3 && s[i + 1] == 0x80 && s[i + 2] == 0x80
    }) {
        3
    } else {
        0
    }
}

/// Finds the white-space character that starts at byte `i` of `s`.
fn white_space_len_at(s: &[u8], i: usize) -> (n: usize)
    requires
        i < s@.len(),
    ensures
        n == white_space_len(s@, i as int),
{
    let b = s[i];
    if b == 0x20 || (0x09 <= b && b <= 0x0d) {
        return 1;
    }
    let len = s.len();
    if b == 0xc2 && i + 1 < len && (s[i + 1] == 0x85 || s[i + 1] == 0xa0) {
        return 2;
    }
    if len - i > 2 {
        let c = s[i + 1];
        let d = s[i + 2];
        if (b == 0xe1 && c == 0x9a && d == 0x80) || (b == 0xe2 && c == 0x80 && ((0x80 <= d && d
            <= 0x8a) || d == 0xa8 || d == 0xa9 || d == 0xaf)) || (b == 0xe2 && c == 0x81 && d == 0x9f)
            || (b == 0xe3 && c == 0x80 && d == 0x80) {
            return 3;
        }
    }
    0
}

/// `seq![w]` for a non-empty word `w`, else nothing.
pub open spec fn word_if(w: Seq<u8>) -> Seq<Seq<u8>> {
    if w.len() > 0 {
        seq![w]
    } else {
        Seq::empty()
    }
}

/// The words of `s` from byte `i` on, `cur` being the current word so far.
pub open spec fn words_from(s: Seq<u8>, i: int, cur: Seq<u8>) -> Seq<Seq<u8>>
    decreases s.len() - i,
{
    if i < 0 || i >= s.len() {
        word_if(cur)
    } else if white_space_len(s, i) > 0 {
        word_if(cur) + words_from(s, i + white_space_len(s, i), Seq::empty())
    } else {
        words_from(s, i + 1, cur.push(s[i]))
    }
}

/// The words of `s`: its runs of bytes between white space (for UTF-8 text,
/// what `str::split_whitespace` gives).
pub open spec fn words(s: Seq<u8>) -> Seq<Seq<u8>> {
    words_from(s, 0, Seq::empty())
}

/// Splits `s` into its words.
pub fn split_words(s: &[u8]) -> (r: Vec<Vec<u8>>)
    ensures
        r.deep_view() == words(s@),
{
    let mut r: Vec<Vec<u8>> = Vec::new();
    let mut cur: Vec<u8> = Vec::new();
    let mut i: usize = 0;
    assert(r.deep_view() + words_from(s@, 0, cur@) =~= words(s@));
    while i < s.len()
        invariant
            i <= s@.len(),
            r.deep_view() + words_from(s@, i as int, cur@) == words(s@),
        decreases s@.len() - i,
    {
        let ws = white_space_len_at(s, i);
        let ghost before = r.deep_view();
        let ghost cur_before = cur@;
        if ws > 0 {
            if cur.len() > 0 {
                let ghost old_vec = r@;
                r.push(cur);
                proof {
                    assert(r@[old_vec.len() as int].deep_view() =~= cur_before);
                    assert(r.deep_view() =~= before.push(cur_before));
                }
            }
            cur = Vec::new();
            proof {
                assert(r.deep_view() =~= before + word_if(cur_before));
                assert(before + (word_if(cur_before) + words_from(s@, i + ws, Seq::empty()))
                    =~= r.deep_view() + words_from(s@, i + ws, cur@));
            }
            i += ws;
        } else {
            cur.push(s[i]);
            i += 1;
        }
    }
    let ghost before = r.deep_view();
    let ghost cur_before = cur@;
    if cur.len() > 0 {
        let ghost old_vec = r@;
        r.push(cur);
        proof {
            assert(r@[old_vec.len() as int].deep_view() =~= cur_before);
            assert(r.deep_view() =~= before.push(cur_before));
        }
    }
    assert(r.deep_view() =~= before + word_if(cur_before));
    r
}

/// Every byte of `d` is an ASCII digit.
pub open spec fn all_digits(d: Seq<u8>) -> bool {
    forall|i: int| 0 <= i < d.len() ==> 48 <= #[trigger] d[i] <= 57
}

/// The value of the decimal digits `d`.
pub open spec fn digits_value(d: Seq<u8>) -> nat
    decreases d.len(),
{
    if d.len() == 0 {
        0
    } else {
        digits_value(d.drop_last()) * 10 + (d.last() - 48) as nat
    }
}

/// What `str::parse::<u64>` makes of `w`: an optional `+`, then one or more
/// decimal digits whose value fits in a u64.
pub open spec fn parsed_u64(w: Seq<u8>) -> Option<u64> {
    let d = if w.len() > 0 && w[0] == 43 { w.drop_first() } else { w };
    if d.len() > 0 && all_digits(d) && digits_value(d) <= u64::MAX {
        Some(digits_value(d) as u64)
    } else {
        None
    }
}

proof fn lemma_digits_value_prefix(d: Seq<u8>, j: int)
    requires
        0 <= j <= d.len(),
        all_digits(d),
    ensures
        digits_value(d.take(j)) <= digits_value(d),
    decreases d.len(),
{
    if j < d.len() {
        assert(d.drop_last().take(j) =~= d.take(j));
        assert(all_digits(d.drop_last()));
        lemma_digits_value_prefix(d.drop_last(), j);
    } else {
        assert(d.take(j) =~= d);
    }
}

/// Parses a decimal u64 the way `str::parse::<u64>` does.
pub fn parse_u64(w: &[u8]) -> (r: Option<u64>)
    ensures
        r == parsed_u64(w@),
{
    let start: usize = if w.len() > 0 && w[0] == 43 { 1 } else { 0 };
    let ghost d = if w@.len() > 0 && w@[0] == 43 { w@.drop_first() } else { w@ };
    assert(d =~= w@.skip(start as int));
    if start >= w.len() {
        return None;
    }
    let mut value: u64 = 0;
    let mut i: usize = start;
    while i < w.len()
        invariant
            start <= i <= w@.len(),
            start < w@.len(),
            d == (if w@.len() > 0 && w@[0] == 43 { w@.drop_first() } else { w@ }),
            d =~= w@.skip(start as int),
            all_digits(d.take(i - start)),
            value == digits_value(d.take(i - start)),
        decreases w@.len() - i,
    {
        let b = w[i];
        let ghost j = i - start;
        assert(d[j] == b);
        if b < 48 || b > 57 {
            assert(!(48 <= d[j] <= 57));
            assert(!all_digits(d));
            return None;
        }
        assert(d.take(j + 1).drop_last() =~= d.take(j));
        assert(d.take(j + 1).last() == b);
        assert(all_digits(d.take(j + 1)));
        if value > 1844674407370955161 || (value == 1844674407370955161 && b > 53) {
            proof {
                let v = digits_value(d.take(j + 1));
                assert(v == value * 10 + (b - 48));
                assert(v > u64::MAX);
                if all_digits(d) {
                    lemma_digits_value_prefix(d, j + 1);
                }
            }
            return None;
        }
        value = value * 10 + (b - 48) as u64;
        i += 1;
    }
    assert(d.take(i - start) =~= d);
    Some(value)
}

/// The line starts with `MemAvailable:`.
pub open spec fn mem_available_line(l: Seq<u8>) -> bool {
    l.len() >= 13 && l[0] == 77 && l[1] == 101 && l[2] == 109 && l[3] == 65 && l[4] == 118
        && l[5] == 97 && l[6] == 105 && l[7] == 108 && l[8] == 97 && l[9] == 98 && l[10] == 108
        && l[11] == 101 && l[12] == 58
}

/// The kibibytes a line of a memory report gives as available: a line that
/// starts with `MemAvailable:` and whose second word is a number.
pub open spec fn available_kb(l: Seq<u8>) -> Option<u64> {
    if mem_available_line(l) && words(l).len() >= 2 {
        parsed_u64(words(l)[1])
    } else {
        None
    }
}

/// The first line's available kibibytes, reading the report `s` from byte `i`
/// on, `cur` being the current line so far.
pub open spec fn available_from(s: Seq<u8>, i: int, cur: Seq<u8>) -> Option<u64>
    decreases s.len() - i,
{
    if i < 0 || i >= s.len() {
        available_kb(cur)
    } else if s[i] == 10 {
        match available_kb(cur) {
            Some(kb) => Some(kb),
            None => available_from(s, i + 1, Seq::empty()),
        }
    } else {
        available_from(s, i + 1, cur.push(s[i]))
    }
}

/// The available memory in bytes that a memory report (`/proc/meminfo`) gives:
/// the first `MemAvailable:` line's number times 1024 (wrapping), or 0 when no
/// line gives one.
pub open spec fn mem_available(s: Seq<u8>) -> u64 {
    match available_from(s, 0, Seq::empty()) {
        Some(kb) => ((kb as nat * 1024) % 0x1_0000_0000_0000_0000) as u64,
        None => 0,
    }
}

fn line_available_kb(line: &[u8]) -> (r: Option<u64>)
    ensures
        r == available_kb(line@),
{
    if line.len() < 13 || line[0] != 77 || line[1] != 101 || line[2] != 109 || line[3] != 65
        || line[4] != 118 || line[5] != 97 || line[6] != 105 || line[7] != 108 || line[8] != 97
        || line[9] != 98 || line[10] != 108 || line[11] != 101 || line[12] != 58 {
        return None;
    }
    let ws = split_words(line);
    if ws.len() < 2 {
        return None;
    }
    assert(ws@[1].deep_view() =~= ws@[1]@);
    parse_u64(ws[1].as_slice())
}

/// Reads the available memory, in bytes, out of a memory report.
pub fn parse_mem_available(report: &[u8]) -> (bytes: u64)
    ensures
        bytes == mem_available(report@),
{
    let mut start: usize = 0;
    let mut i: usize = 0;
    assert(report@.subrange(0, 0) =~= Seq::<u8>::empty());
    while i < report.len()
        invariant
            start <= i <= report@.len(),
            available_from(report@, 0, Seq::empty()) == available_from(
                report@,
                i as int,
                report@.subrange(start as int, i as int),
            ),
        decreases report@.len() - i,
    {
        if report[i] == 10 {
            let kb = line_available_kb(&report[start..i]);
            if let Some(k) = kb {
                return k.wrapping_mul(1024);
            }
            start = i + 1;
            assert(report@.subrange(start as int, i + 1) =~= Seq::<u8>::empty());
        } else {
            assert(report@.subrange(start as int, i as int).push(report@[i as int]) =~= report@.subrange(
                start as int,
                i + 1,
            ));
        }
        i += 1;
    }
    match line_available_kb(&report[start..i]) {
        Some(k) => k.wrapping_mul(1024),
        None => 0,
    }
}

/// Below this much available memory (8 GiB) no content file is built.
pub const CONTENT_FILE_MIN_MEMORY: u64 = 8 * 1024 * 1024 * 1024;

/// Whether an index build skips the content file: when the available memory is
/// known (not 0) and under 8 GiB.
pub fn skips_content_file(available: u64) -> (b: bool)
    ensures
        b == (available > 0 && available < CONTENT_FILE_MIN_MEMORY),
{
    available > 0 && available < CONTENT_FILE_MIN_MEMORY
}

} // verus!
