use vstd::prelude::*;
use vstd::utf8::{decode_utf8, encode_utf8, valid_utf8};

verus! {

/// `e` is the 1-byte word `b0`.
pub open spec fn spells1(e: Seq<u8>, b0: u8) -> bool {
    e.len() == 1 && e[0] == b0
}

fn word1(e: &[u8], b0: u8) -> (r: bool)
    ensures
        r == spells1(e@, b0),
{
    e.len() == 1 && e[0] == b0
}

/// `e` is the 2-byte word `b0 b1`.
pub open spec fn spells2(e: Seq<u8>, b0: u8, b1: u8) -> bool {
    e.len() == 2 && e[0] == b0 && e[1] == b1
}

fn word2(e: &[u8], b0: u8, b1: u8) -> (r: bool)
    ensures
        r == spells2(e@, b0, b1),
{
    e.len() == 2 && e[0] == b0 && e[1] == b1
}

/// `e` is the 3-byte word `b0 b1 b2`.
pub open spec fn spells3(e: Seq<u8>, b0: u8, b1: u8, b2: u8) -> bool {
    e.len() == 3 && e[0] == b0 && e[1] == b1 && e[2] == b2
}

fn word3(e: &[u8], b0: u8, b1: u8, b2: u8) -> (r: bool)
    ensures
        r == spells3(e@, b0, b1, b2),
{
    e.len() == 3 && e[0] == b0 && e[1] == b1 && e[2] == b2
}

/// `e` is the 4-byte word `b0 b1 b2 b3`.
pub open spec fn spells4(e: Seq<u8>, b0: u8, b1: u8, b2: u8, b3: u8) -> bool {
    e.len() == 4 && e[0] == b0 && e[1] == b1 && e[2] == b2 && e[3] == b3
}

fn word4(e: &[u8], b0: u8, b1: u8, b2: u8, b3: u8) -> (r: bool)
    ensures
        r == spells4(e@, b0, b1, b2, b3),
{
    e.len() == 4 && e[0] == b0 && e[1] == b1 && e[2] == b2 && e[3] == b3
}

/// `e` is the 5-byte word `b0 b1 b2 b3 b4`.
pub open spec fn spells5(e: Seq<u8>, b0: u8, b1: u8, b2: u8, b3: u8, b4: u8) -> bool {
    e.len() == 5 && e[0] == b0 && e[1] == b1 && e[2] == b2 && e[3] == b3 && e[4] == b4
}

fn word5(e: &[u8], b0: u8, b1: u8, b2: u8, b3: u8, b4: u8) -> (r: bool)
    ensures
        r == spells5(e@, b0, b1, b2, b3, b4),
{
    e.len() == 5 && e[0] == b0 && e[1] == b1 && e[2] == b2 && e[3] == b3 && e[4] == b4
}

/// `e` is the 6-byte word `b0 b1 b2 b3 b4 b5`.
pub open spec fn spells6(e: Seq<u8>, b0: u8, b1: u8, b2: u8, b3: u8, b4: u8, b5: u8) -> bool {
    e.len() == 6 && e[0] == b0 && e[1] == b1 && e[2] == b2 && e[3] == b3 && e[4] == b4 && e[5] == b5
}

fn word6(e: &[u8], b0: u8, b1: u8, b2: u8, b3: u8, b4: u8, b5: u8) -> (r: bool)
    ensures
        r == spells6(e@, b0, b1, b2, b3, b4, b5),
{
    e.len() == 6 && e[0] == b0 && e[1] == b1 && e[2] == b2 && e[3] == b3 && e[4] == b4 && e[5] == b5
}

/// `e` is the 7-byte word `b0 b1 b2 b3 b4 b5 b6`.
pub open spec fn spells7(e: Seq<u8>, b0: u8, b1: u8, b2: u8, b3: u8, b4: u8, b5: u8, b6: u8) -> bool {
    e.len() == 7 && e[0] == b0 && e[1] == b1 && e[2] == b2 && e[3] == b3 && e[4] == b4 && e[5] == b5 && e[6] == b6
}

fn word7(e: &[u8], b0: u8, b1: u8, b2: u8, b3: u8, b4: u8, b5: u8, b6: u8) -> (r: bool)
    ensures
        r == spells7(e@, b0, b1, b2, b3, b4, b5, b6),
{
    e.len() == 7 && e[0] == b0 && e[1] == b1 && e[2] == b2 && e[3] == b3 && e[4] == b4 && e[5] == b5 && e[6] == b6
}

/// The file extensions (lower case) of files that are never indexed: images,
/// audio and video, archives, binaries and libraries, office documents, fonts,
/// compiled code and databases.
pub open spec fn skipped_extension(e: Seq<u8>) -> bool {
    ||| spells3(e, 112, 110, 103) // png
    ||| spells3(e, 106, 112, 103) // jpg
    ||| spells4(e, 106, 112, 101, 103) // jpeg
    ||| spells3(e, 103, 105, 102) // gif
    ||| spells3(e, 105, 99, 111) // ico
    ||| spells3(e, 98, 109, 112) // bmp
    ||| spells4(e, 119, 101, 98, 112) // webp
    ||| spells3(e, 115, 118, 103) // svg
    ||| spells3(e, 109, 112, 51) // mp3
    ||| spells3(e, 109, 112, 52) // mp4
    ||| spells3(e, 119, 97, 118) // wav
    ||| spells3(e, 97, 118, 105) // avi
    ||| spells3(e, 109, 111, 118) // mov
    ||| spells4(e, 102, 108, 97, 99) // flac
    ||| spells3(e, 111, 103, 103) // ogg
    ||| spells3(e, 122, 105, 112) // zip
    ||| spells2(e, 103, 122) // gz
    ||| spells3(e, 116, 97, 114) // tar
    ||| spells3(e, 98, 122, 50) // bz2
    ||| spells2(e, 120, 122) // xz
    ||| spells2(e, 55, 122) // 7z
    ||| spells3(e, 114, 97, 114) // rar
    ||| spells3(e, 122, 115, 116) // zst
    ||| spells3(e, 101, 120, 101) // exe
    ||| spells3(e, 100, 108, 108) // dll
    ||| spells2(e, 115, 111) // so
    ||| spells5(e, 100, 121, 108, 105, 98) // dylib
    ||| spells1(e, 111) // o
    ||| spells1(e, 97) // a
    ||| spells3(e, 108, 105, 98) // lib
    ||| spells3(e, 112, 100, 102) // pdf
    ||| spells3(e, 100, 111, 99) // doc
    ||| spells4(e, 100, 111, 99, 120) // docx
    ||| spells3(e, 112, 112, 116) // ppt
    ||| spells4(e, 112, 112, 116, 120) // pptx
    ||| spells3(e, 120, 108, 115) // xls
    ||| spells4(e, 120, 108, 115, 120) // xlsx
    ||| spells4(e, 112, 97, 99, 107) // pack
    ||| spells3(e, 105, 100, 120) // idx
    ||| spells4(e, 119, 111, 102, 102) // woff
    ||| spells5(e, 119, 111, 102, 102, 50) // woff2
    ||| spells3(e, 116, 116, 102) // ttf
    ||| spells3(e, 101, 111, 116) // eot
    ||| spells3(e, 111, 116, 102) // otf
    ||| spells3(e, 112, 121, 99) // pyc
    ||| spells3(e, 112, 121, 111) // pyo
    ||| spells5(e, 99, 108, 97, 115, 115) // class
    ||| spells3(e, 106, 97, 114) // jar
    ||| spells3(e, 119, 97, 114) // war
    ||| spells3(e, 98, 105, 110) // bin
    ||| spells3(e, 100, 97, 116) // dat
    ||| spells2(e, 100, 98) // db
    ||| spells6(e, 115, 113, 108, 105, 116, 101) // sqlite
    ||| spells7(e, 115, 113, 108, 105, 116, 101, 51) // sqlite3
}

/// Whether the (lower-case) extension `e` is one of the skipped ones.
pub fn is_skipped_extension(e: &[u8]) -> (b: bool)
    ensures
        b == skipped_extension(e@),
{
        word3(e, 112, 110, 103) // png
        || word3(e, 106, 112, 103) // jpg
        || word4(e, 106, 112, 101, 103) // jpeg
        || word3(e, 103, 105, 102) // gif
        || word3(e, 105, 99, 111) // ico
        || word3(e, 98, 109, 112) // bmp
        || word4(e, 119, 101, 98, 112) // webp
        || word3(e, 115, 118, 103) // svg
        || word3(e, 109, 112, 51) // mp3
        || word3(e, 109, 112, 52) // mp4
        || word3(e, 119, 97, 118) // wav
        || word3(e, 97, 118, 105) // avi
        || word3(e, 109, 111, 118) // mov
        || word4(e, 102, 108, 97, 99) // flac
        || word3(e, 111, 103, 103) // ogg
        || word3(e, 122, 105, 112) // zip
        || word2(e, 103, 122) // gz
        || word3(e, 116, 97, 114) // tar
        || word3(e, 98, 122, 50) // bz2
        || word2(e, 120, 122) // xz
        || word2(e, 55, 122) // 7z
        || word3(e, 114, 97, 114) // rar
        || word3(e, 122, 115, 116) // zst
        || word3(e, 101, 120, 101) // exe
        || word3(e, 100, 108, 108) // dll
        || word2(e, 115, 111) // so
        || word5(e, 100, 121, 108, 105, 98) // dylib
        || word1(e, 111) // o
        || word1(e, 97) // a
        || word3(e, 108, 105, 98) // lib
        || word3(e, 112, 100, 102) // pdf
        || word3(e, 100, 111, 99) // doc
        || word4(e, 100, 111, 99, 120) // docx
        || word3(e, 112, 112, 116) // ppt
        || word4(e, 112, 112, 116, 120) // pptx
        || word3(e, 120, 108, 115) // xls
        || word4(e, 120, 108, 115, 120) // xlsx
        || word4(e, 112, 97, 99, 107) // pack
        || word3(e, 105, 100, 120) // idx
        || word4(e, 119, 111, 102, 102) // woff
        || word5(e, 119, 111, 102, 102, 50) // woff2
        || word3(e, 116, 116, 102) // ttf
        || word3(e, 101, 111, 116) // eot
        || word3(e, 111, 116, 102) // otf
        || word3(e, 112, 121, 99) // pyc
        || word3(e, 112, 121, 111) // pyo
        || word5(e, 99, 108, 97, 115, 115) // class
        || word3(e, 106, 97, 114) // jar
        || word3(e, 119, 97, 114) // war
        || word3(e, 98, 105, 110) // bin
        || word3(e, 100, 97, 116) // dat
        || word2(e, 100, 98) // db
        || word6(e, 115, 113, 108, 105, 116, 101) // sqlite
        || word7(e, 115, 113, 108, 105, 116, 101, 51) // sqlite3
}

/// The index of the last byte `b` in `s`, or -1 when there is none.
pub open spec fn last_index(s: Seq<u8>, b: u8) -> int
    decreases s.len(),
{
    if s.len() == 0 {
        -1
    } else if s.last() == b {
        s.len() - 1
    } else {
        last_index(s.drop_last(), b)
    }
}

/// `last_index` is -1 or an index of `s` holding `b`, and misses a last byte that is not `b`.
pub proof fn lemma_last_index_bounds(s: Seq<u8>, b: u8)
    ensures
        -1 <= last_index(s, b) < s.len(),
        s.len() > 0 && s.last() != b ==> last_index(s, b) < s.len() - 1,
        last_index(s, b) >= 0 ==> s[last_index(s, b)] == b,
    decreases s.len(),
{
    if s.len() > 0 && s.last() != b {
        lemma_last_index_bounds(s.drop_last(), b);
    }
}

/// The file name of the path `p`, read as a Unix path: its last component,
/// with trailing `/` and `.` components passed over; none when that component
/// is `..` or the path has no component that names a file.
pub open spec fn file_name(p: Seq<u8>) -> Option<Seq<u8>>
    decreases p.len(),
{
    if p.len() == 0 {
        None
    } else if p.last() == 47 {
        file_name(p.drop_last())
    } else {
        proof {
            lemma_last_index_bounds(p, 47u8);
        }
        let k = last_index(p, 47u8);
        let part = p.subrange(k + 1, p.len() as int);
        if spells1(part, 46) {
            file_name(p.subrange(0, k + 1))
        } else if spells2(part, 46, 46) {
            None
        } else {
            Some(part)
        }
    }
}

/// The extension of the path `p`: what follows the last `.` of its file name,
/// unless that dot opens the name (or there is no dot, or no file name).
pub open spec fn extension(p: Seq<u8>) -> Option<Seq<u8>> {
    match file_name(p) {
        None => None,
        Some(f) => {
            let d = last_index(f, 46u8);
            if d <= 0 {
                None
            } else {
                Some(f.subrange(d + 1, f.len() as int))
            }
        },
    }
}

/// One past the last `b` among the first `end` bytes of `s` (0 when there is none).
fn after_last(s: &[u8], end: usize, b: u8) -> (k: usize)
    requires
        end <= s@.len(),
    ensures
        k <= end,
        k == last_index(s@.take(end as int), b) + 1,
{
    let mut k = end;
    while k > 0 && s[k - 1] != b
        invariant
            k <= end <= s@.len(),
            last_index(s@.take(end as int), b) == last_index(s@.take(k as int), b),
        decreases k,
    {
        assert(s@.take(k as int).drop_last() =~= s@.take(k - 1));
        k -= 1;
    }
    k
}

/// Where the file name of the path `p` lies in it.
fn file_name_range(p: &[u8]) -> (r: Option<(usize, usize)>)
    ensures
        match r {
            Some((a, b)) => a <= b <= p@.len() && file_name(p@) == Some(p@.subrange(a as int, b as int)),
            None => file_name(p@) is None,
        },
{
    let mut end = p.len();
    assert(p@.take(end as int) =~= p@);
    loop
        invariant
            end <= p@.len(),
            file_name(p@) == file_name(p@.take(end as int)),
        decreases end,
    {
        if end == 0 {
            return None;
        }
        let ghost q = p@.take(end as int);
        if p[end - 1] == 47 {
            assert(q.drop_last() =~= p@.take(end - 1));
            end -= 1;
            continue;
        }
        let k = after_last(p, end, 47);
        proof {
            lemma_last_index_bounds(q, 47u8);
            assert(q.subrange(k as int, end as int) =~= p@.subrange(k as int, end as int));
        }
        if end - k == 1 && p[k] == 46 {
            assert(q.subrange(0, k as int) =~= p@.take(k as int));
            end = k;
            continue;
        }
        if end - k == 2 && p[k] == 46 && p[k + 1] == 46 {
            return None;
        }
        return Some((k, end));
    }
}

/// Where the extension of the path `p` lies in it.
fn extension_range(p: &[u8]) -> (r: Option<(usize, usize)>)
    ensures
        match r {
            Some((a, b)) => a <= b <= p@.len() && extension(p@) == Some(p@.subrange(a as int, b as int)),
            None => extension(p@) is None,
        },
{
    match file_name_range(p) {
        None => None,
        Some((a, b)) => {
            let name = &p[a..b];
            let d = after_last(name, name.len(), 46);
            assert(name@.take(name@.len() as int) =~= name@);
            if d <= 1 {
                None
            } else {
                assert(name@.subrange(d as int, name@.len() as int) =~= p@.subrange(a + d, b as int));
                Some((a + d, b))
            }
        },
    }
}

/// `std::str::from_utf8`: the text of `bytes` when they are well-formed UTF-8,
/// and nothing otherwise.
#[verifier::external_body]
fn utf8_text(bytes: &[u8]) -> (r: Option<&str>)
    ensures
        match r {
            Some(t) => valid_utf8(bytes@) && t@ == decode_utf8(bytes@),
            None => !valid_utf8(bytes@),
        },
{
    match std::str::from_utf8(bytes) {
        Ok(t) => Some(t),
        Err(_) => None,
    }
}

/// The text that `str::to_lowercase` makes of `s` (Unicode's full lower-case mapping).
pub uninterp spec fn lowercase_text(s: Seq<char>) -> Seq<char>;

/// `str::to_lowercase`: the lower-case form of `s`, named `lowercase_text`.
#[verifier::external_body]
fn to_lowercase(s: &str) -> (r: String)
    ensures
        r@ == lowercase_text(s@),
{
    s.to_lowercase()
}

/// A listed path is indexed when it is not empty, is well-formed UTF-8, and its
/// extension (when it has one and that is UTF-8), put in lower case, is not a
/// skipped one.
pub open spec fn kept_path(p: Seq<u8>) -> bool {
    &&& p.len() > 0
    &&& valid_utf8(p)
    &&& match extension(p) {
        Some(e) => !(valid_utf8(e) && skipped_extension(encode_utf8(lowercase_text(decode_utf8(e))))),
        None => true,
    }
}

/// Whether the listed path `p` is indexed.
pub fn keep_path(p: &[u8]) -> (b: bool)
    ensures
        b == kept_path(p@),
{
    if p.len() == 0 {
        return false;
    }
    match utf8_text(p) {
        None => false,
        Some(_) => match extension_range(p) {
            None => true,
            Some((a, b)) => {
                let ext = &p[a..b];
                match utf8_text(ext) {
                    None => true,
                    Some(t) => {
                        let lower = to_lowercase(t);
                        !is_skipped_extension(lower.as_str().as_bytes())
                    },
                }
            },
        },
    }
}

/// `seq![p]` when `p` is kept, else nothing.
pub open spec fn kept_one(p: Seq<u8>) -> Seq<Seq<u8>> {
    if kept_path(p) {
        seq![p]
    } else {
        Seq::empty()
    }
}

/// The kept paths of a NUL-separated listing `s`, reading from byte `i` with
/// `cur` the bytes of the current path so far.
pub open spec fn kept_from(s: Seq<u8>, i: int, cur: Seq<u8>) -> Seq<Seq<u8>>
    decreases s.len() - i,
{
    if i >= s.len() {
        kept_one(cur)
    } else if s[i] == 0 {
        kept_one(cur) + kept_from(s, i + 1, Seq::empty())
    } else {
        kept_from(s, i + 1, cur.push(s[i]))
    }
}

/// The paths of a NUL-separated listing that are indexed, in order.
pub open spec fn listed_paths(s: Seq<u8>) -> Seq<Seq<u8>> {
    kept_from(s, 0, Seq::empty())
}

/// Picks the paths to index out of a NUL-separated file listing.
pub fn select_listed_paths(listing: &[u8]) -> (r: Vec<Vec<u8>>)
    ensures
        r.deep_view() == listed_paths(listing@),
{
    let mut r: Vec<Vec<u8>> = Vec::new();
    let mut cur: Vec<u8> = Vec::new();
    let mut i: usize = 0;
    assert(r.deep_view() + kept_from(listing@, 0, cur@) =~= listed_paths(listing@));
    while i < listing.len()
        invariant
            i <= listing@.len(),
            r.deep_view() + kept_from(listing@, i as int, cur@) == listed_paths(listing@),
        decreases listing@.len() - i,
    {
        let ghost before = r.deep_view();
        let ghost cur_before = cur@;
        if listing[i] == 0 {
            if keep_path(cur.as_slice()) {
                let ghost old_vec = r@;
                r.push(cur);
                proof {
                    assert(r@[old_vec.len() as int].deep_view() =~= cur_before);
                    assert(r.deep_view() =~= before.push(cur_before));
                }
            }
            cur = Vec::new();
            proof {
                assert(r.deep_view() =~= before + kept_one(cur_before));
                assert(before + (kept_one(cur_before) + kept_from(listing@, i + 1, Seq::empty()))
                    =~= r.deep_view() + kept_from(listing@, i + 1, cur@));
            }
        } else {
            cur.push(listing[i]);
        }
        i += 1;
    }
    let ghost before = r.deep_view();
    let ghost cur_before = cur@;
    if keep_path(cur.as_slice()) {
        let ghost old_vec = r@;
        r.push(cur);
        proof {
            assert(r@[old_vec.len() as int].deep_view() =~= cur_before);
            assert(r.deep_view() =~= before.push(cur_before));
        }
    }
    assert(r.deep_view() =~= before + kept_one(cur_before));
    r
}

/// The extension of the path `p` put in lower case, when it has one that is UTF-8.
pub open spec fn lowered_extension(p: Seq<u8>) -> Option<Seq<u8>> {
    match extension(p) {
        Some(e) => if valid_utf8(e) {
            Some(encode_utf8(lowercase_text(decode_utf8(e))))
        } else {
            None
        },
        None => None,
    }
}

/// Every word of the skip list is a skipped extension: images (png, jpg, jpeg,
/// gif, ico, bmp, webp, svg), audio and video (mp3, mp4, wav, avi, mov, flac,
/// ogg), archives (zip, gz, tar, bz2, xz, 7z, rar, zst), binaries and libraries
/// (exe, dll, so, dylib, o, a, lib), documents (pdf, doc, docx, ppt, pptx, xls,
/// xlsx), git packs (pack, idx), fonts (woff, woff2, ttf, eot, otf), compiled
/// code (pyc, pyo, class, jar, war), and data (bin, dat, db, sqlite, sqlite3).
#[verifier::rlimit(40)]
pub proof fn lemma_skip_list_words()
    ensures
        skipped_extension(seq![112u8, 110, 103]), // png
        skipped_extension(seq![106u8, 112, 103]), // jpg
        skipped_extension(seq![106u8, 112, 101, 103]), // jpeg
        skipped_extension(seq![103u8, 105, 102]), // gif
        skipped_extension(seq![105u8, 99, 111]), // ico
        skipped_extension(seq![98u8, 109, 112]), // bmp
        skipped_extension(seq![119u8, 101, 98, 112]), // webp
        skipped_extension(seq![115u8, 118, 103]), // svg
        skipped_extension(seq![109u8, 112, 51]), // mp3
        skipped_extension(seq![109u8, 112, 52]), // mp4
        skipped_extension(seq![119u8, 97, 118]), // wav
        skipped_extension(seq![97u8, 118, 105]), // avi
        skipped_extension(seq![109u8, 111, 118]), // mov
        skipped_extension(seq![102u8, 108, 97, 99]), // flac
        skipped_extension(seq![111u8, 103, 103]), // ogg
        skipped_extension(seq![122u8, 105, 112]), // zip
        skipped_extension(seq![103u8, 122]), // gz
        skipped_extension(seq![116u8, 97, 114]), // tar
        skipped_extension(seq![98u8, 122, 50]), // bz2
        skipped_extension(seq![120u8, 122]), // xz
        skipped_extension(seq![55u8, 122]), // 7z
        skipped_extension(seq![114u8, 97, 114]), // rar
        skipped_extension(seq![122u8, 115, 116]), // zst
        skipped_extension(seq![101u8, 120, 101]), // exe
        skipped_extension(seq![100u8, 108, 108]), // dll
        skipped_extension(seq![115u8, 111]), // so
        skipped_extension(seq![100u8, 121, 108, 105, 98]), // dylib
        skipped_extension(seq![111u8]), // o
        skipped_extension(seq![97u8]), // a
        skipped_extension(seq![108u8, 105, 98]), // lib
        skipped_extension(seq![112u8, 100, 102]), // pdf
        skipped_extension(seq![100u8, 111, 99]), // doc
        skipped_extension(seq![100u8, 111, 99, 120]), // docx
        skipped_extension(seq![112u8, 112, 116]), // ppt
        skipped_extension(seq![112u8, 112, 116, 120]), // pptx
        skipped_extension(seq![120u8, 108, 115]), // xls
        skipped_extension(seq![120u8, 108, 115, 120]), // xlsx
        skipped_extension(seq![112u8, 97, 99, 107]), // pack
        skipped_extension(seq![105u8, 100, 120]), // idx
        skipped_extension(seq![119u8, 111, 102, 102]), // woff
        skipped_extension(seq![119u8, 111, 102, 102, 50]), // woff2
        skipped_extension(seq![116u8, 116, 102]), // ttf
        skipped_extension(seq![101u8, 111, 116]), // eot
        skipped_extension(seq![111u8, 116, 102]), // otf
        skipped_extension(seq![112u8, 121, 99]), // pyc
        skipped_extension(seq![112u8, 121, 111]), // pyo
        skipped_extension(seq![99u8, 108, 97, 115, 115]), // class
        skipped_extension(seq![106u8, 97, 114]), // jar
        skipped_extension(seq![119u8, 97, 114]), // war
        skipped_extension(seq![98u8, 105, 110]), // bin
        skipped_extension(seq![100u8, 97, 116]), // dat
        skipped_extension(seq![100u8, 98]), // db
        skipped_extension(seq![115u8, 113, 108, 105, 116, 101]), // sqlite
        skipped_extension(seq![115u8, 113, 108, 105, 116, 101, 51]), // sqlite3
{
}

/// No path whose extension lower-cases to a word of the skip list is indexed.
#[verifier::rlimit(40)]
pub proof fn lemma_skip_list_paths(p: Seq<u8>)
    ensures
        lowered_extension(p) == Some(seq![112u8, 110, 103]) ==> !kept_path(p), // png
        lowered_extension(p) == Some(seq![106u8, 112, 103]) ==> !kept_path(p), // jpg
        lowered_extension(p) == Some(seq![106u8, 112, 101, 103]) ==> !kept_path(p), // jpeg
        lowered_extension(p) == Some(seq![103u8, 105, 102]) ==> !kept_path(p), // gif
        lowered_extension(p) == Some(seq![105u8, 99, 111]) ==> !kept_path(p), // ico
        lowered_extension(p) == Some(seq![98u8, 109, 112]) ==> !kept_path(p), // bmp
        lowered_extension(p) == Some(seq![119u8, 101, 98, 112]) ==> !kept_path(p), // webp
        lowered_extension(p) == Some(seq![115u8, 118, 103]) ==> !kept_path(p), // svg
        lowered_extension(p) == Some(seq![109u8, 112, 51]) ==> !kept_path(p), // mp3
        lowered_extension(p) == Some(seq![109u8, 112, 52]) ==> !kept_path(p), // mp4
        lowered_extension(p) == Some(seq![119u8, 97, 118]) ==> !kept_path(p), // wav
        lowered_extension(p) == Some(seq![97u8, 118, 105]) ==> !kept_path(p), // avi
        lowered_extension(p) == Some(seq![109u8, 111, 118]) ==> !kept_path(p), // mov
        lowered_extension(p) == Some(seq![102u8, 108, 97, 99]) ==> !kept_path(p), // flac
        lowered_extension(p) == Some(seq![111u8, 103, 103]) ==> !kept_path(p), // ogg
        lowered_extension(p) == Some(seq![122u8, 105, 112]) ==> !kept_path(p), // zip
        lowered_extension(p) == Some(seq![103u8, 122]) ==> !kept_path(p), // gz
        lowered_extension(p) == Some(seq![116u8, 97, 114]) ==> !kept_path(p), // tar
        lowered_extension(p) == Some(seq![98u8, 122, 50]) ==> !kept_path(p), // bz2
        lowered_extension(p) == Some(seq![120u8, 122]) ==> !kept_path(p), // xz
        lowered_extension(p) == Some(seq![55u8, 122]) ==> !kept_path(p), // 7z
        lowered_extension(p) == Some(seq![114u8, 97, 114]) ==> !kept_path(p), // rar
        lowered_extension(p) == Some(seq![122u8, 115, 116]) ==> !kept_path(p), // zst
        lowered_extension(p) == Some(seq![101u8, 120, 101]) ==> !kept_path(p), // exe
        lowered_extension(p) == Some(seq![100u8, 108, 108]) ==> !kept_path(p), // dll
        lowered_extension(p) == Some(seq![115u8, 111]) ==> !kept_path(p), // so
        lowered_extension(p) == Some(seq![100u8, 121, 108, 105, 98]) ==> !kept_path(p), // dylib
        lowered_extension(p) == Some(seq![111u8]) ==> !kept_path(p), // o
        lowered_extension(p) == Some(seq![97u8]) ==> !kept_path(p), // a
        lowered_extension(p) == Some(seq![108u8, 105, 98]) ==> !kept_path(p), // lib
        lowered_extension(p) == Some(seq![112u8, 100, 102]) ==> !kept_path(p), // pdf
        lowered_extension(p) == Some(seq![100u8, 111, 99]) ==> !kept_path(p), // doc
        lowered_extension(p) == Some(seq![100u8, 111, 99, 120]) ==> !kept_path(p), // docx
        lowered_extension(p) == Some(seq![112u8, 112, 116]) ==> !kept_path(p), // ppt
        lowered_extension(p) == Some(seq![112u8, 112, 116, 120]) ==> !kept_path(p), // pptx
        lowered_extension(p) == Some(seq![120u8, 108, 115]) ==> !kept_path(p), // xls
        lowered_extension(p) == Some(seq![120u8, 108, 115, 120]) ==> !kept_path(p), // xlsx
        lowered_extension(p) == Some(seq![112u8, 97, 99, 107]) ==> !kept_path(p), // pack
        lowered_extension(p) == Some(seq![105u8, 100, 120]) ==> !kept_path(p), // idx
        lowered_extension(p) == Some(seq![119u8, 111, 102, 102]) ==> !kept_path(p), // woff
        lowered_extension(p) == Some(seq![119u8, 111, 102, 102, 50]) ==> !kept_path(p), // woff2
        lowered_extension(p) == Some(seq![116u8, 116, 102]) ==> !kept_path(p), // ttf
        lowered_extension(p) == Some(seq![101u8, 111, 116]) ==> !kept_path(p), // eot
        lowered_extension(p) == Some(seq![111u8, 116, 102]) ==> !kept_path(p), // otf
        lowered_extension(p) == Some(seq![112u8, 121, 99]) ==> !kept_path(p), // pyc
        lowered_extension(p) == Some(seq![112u8, 121, 111]) ==> !kept_path(p), // pyo
        lowered_extension(p) == Some(seq![99u8, 108, 97, 115, 115]) ==> !kept_path(p), // class
        lowered_extension(p) == Some(seq![106u8, 97, 114]) ==> !kept_path(p), // jar
        lowered_extension(p) == Some(seq![119u8, 97, 114]) ==> !kept_path(p), // war
        lowered_extension(p) == Some(seq![98u8, 105, 110]) ==> !kept_path(p), // bin
        lowered_extension(p) == Some(seq![100u8, 97, 116]) ==> !kept_path(p), // dat
        lowered_extension(p) == Some(seq![100u8, 98]) ==> !kept_path(p), // db
        lowered_extension(p) == Some(seq![115u8, 113, 108, 105, 116, 101]) ==> !kept_path(p), // sqlite
        lowered_extension(p) == Some(seq![115u8, 113, 108, 105, 116, 101, 51]) ==> !kept_path(p), // sqlite3
{
    lemma_skip_list_words();
}

} // verus!
