use vstd::prelude::*;

use crate::scanner::{lower_chars, lowered, rfind, rfind_char};
use crate::text::{chars_of, copy_range, find_char, find_from, find_pattern, find_seq};

verus! {

/// What precedes the first `c` in `s`; all of `s` where there is none.
pub open spec fn before_char(s: Seq<char>, c: char) -> Seq<char> {
    match find_char(s, c) {
        None => s,
        Some(k) => s.subrange(0, k as int),
    }
}

pub open spec fn is_digit(c: char) -> bool {
    '0' <= c <= '9'
}

pub open spec fn all_digits(s: Seq<char>) -> bool {
    forall|i: int| 0 <= i < s.len() ==> is_digit(#[trigger] s[i])
}

/// The value of a run of decimal digits.
pub open spec fn digits_value(s: Seq<char>) -> nat
    decreases s.len(),
{
    if s.len() == 0 {
        0
    } else {
        digits_value(s.drop_last()) * 10 + ((s.last() as u32) - 48) as nat
    }
}

/// The optional sign of a number and the digits after it.
pub open spec fn unsigned_body(s: Seq<char>) -> Seq<char> {
    if s.len() > 0 && s[0] == '+' {
        s.drop_first()
    } else {
        s
    }
}

/// A `usize` read as `str::parse` reads it: an optional `+`, then one or more decimal
/// digits whose value fits.
pub open spec fn parsed_usize(s: Seq<char>) -> Option<int> {
    let body = unsigned_body(s);
    if body.len() == 0 || !all_digits(body) || digits_value(body) > usize::MAX {
        None
    } else {
        Some(digits_value(body) as int)
    }
}

/// An `i64` read as `str::parse` reads it: an optional `+` or `-`, then one or more
/// decimal digits whose value fits.
pub open spec fn parsed_i64(s: Seq<char>) -> Option<int> {
    if s.len() > 0 && s[0] == '-' {
        let body = s.drop_first();
        if body.len() == 0 || !all_digits(body) || digits_value(body) > 0x8000_0000_0000_0000 {
            None
        } else {
            Some(-(digits_value(body) as int))
        }
    } else {
        let body = unsigned_body(s);
        if body.len() == 0 || !all_digits(body) || digits_value(body) > i64::MAX {
            None
        } else {
            Some(digits_value(body) as int)
        }
    }
}

pub open spec fn view_marker() -> Seq<char> {
    seq!['v', 'i', 'e', 'w', '/']
}

/// The work and page a viewer locator names: after the first `view/`, up to any `?`
/// or `#`, a work id, a slash, and a page index.
pub open spec fn view_locator(uri: Seq<char>) -> Option<(i64, usize)> {
    match find_seq(uri, view_marker()) {
        None => None,
        Some(i) => {
            let rest = before_char(before_char(uri.subrange(i as int + 5, uri.len() as int), '?'), '#');
            match find_char(rest, '/') {
                None => None,
                Some(k) => {
                    let a = parsed_i64(rest.subrange(0, k as int));
                    let b = parsed_usize(rest.subrange(k as int + 1, rest.len() as int));
                    if a is Some && b is Some {
                        Some((a->0 as i64, b->0 as usize))
                    } else {
                        None
                    }
                },
            }
        },
    }
}

proof fn lemma_digits_grow(s: Seq<char>, i: int)
    requires
        0 <= i <= s.len(),
        all_digits(s),
    ensures
        digits_value(s.subrange(0, i)) <= digits_value(s),
    decreases s.len() - i,
{
    if i < s.len() {
        lemma_digits_grow(s, i + 1);
        let p = s.subrange(0, i + 1);
        assert(p.drop_last() =~= s.subrange(0, i));
    } else {
        assert(s.subrange(0, i) =~= s);
    }
}

/// The value of the digits of `s[from..]`, where all are digits and the value is at
/// most `limit`.
fn digits_upto(s: &[char], from: usize, limit: u64) -> (r: Option<u64>)
    requires
        from <= s@.len(),
    ensures
        ({
            let body = s@.subrange(from as int, s@.len() as int);
            match r {
                Some(v) => all_digits(body) && v == digits_value(body) && v <= limit,
                None => !all_digits(body) || digits_value(body) > limit,
            }
        }),
{
    let ghost body = s@.subrange(from as int, s@.len() as int);
    let mut v: u64 = 0;
    let mut i = from;
    while i < s.len()
        invariant
            from <= i <= s@.len(),
            body == s@.subrange(from as int, s@.len() as int),
            all_digits(s@.subrange(from as int, i as int)),
            v == digits_value(s@.subrange(from as int, i as int)),
            v <= limit,
        decreases s@.len() - i,
    {
        let c = s[i];
        let ghost prev = s@.subrange(from as int, i as int);
        let ghost next = s@.subrange(from as int, i + 1);
        assert(next.drop_last() =~= prev);
        if c < '0' || c > '9' {
            assert(!is_digit(body[i - from]));
            return None;
        }
        let d = (c as u32 - 48) as u64;
        if d > limit || v > (limit - d) / 10 {
            proof {
                assert(all_digits(next));
                assert(digits_value(next) == v * 10 + d);
                if d <= limit {
                    let l = limit as int;
                    let dd = d as int;
                    let vv = v as int;
                    assert(vv * 10 + dd > l) by (nonlinear_arith)
                        requires
                            vv > (l - dd) / 10,
                            0 <= dd <= l,
                    ;
                }
                if all_digits(body) {
                    lemma_digits_grow(body, i + 1 - from);
                    assert(body.subrange(0, i + 1 - from) =~= next);
                }
            }
            return None;
        }
        v = v * 10 + d;
        i += 1;
    }
    assert(s@.subrange(from as int, i as int) =~= body);
    Some(v)
}

fn parse_usize(s: &[char]) -> (r: Option<usize>)
    ensures
        match r {
            Some(v) => parsed_usize(s@) == Some(v as int),
            None => parsed_usize(s@) is None,
        },
{
    let from: usize = if s.len() > 0 && s[0] == '+' {
        1
    } else {
        0
    };
    assert(unsigned_body(s@) =~= s@.subrange(from as int, s@.len() as int));
    if from == s.len() {
        return None;
    }
    match digits_upto(s, from, u64::MAX) {
        None => None,
        Some(v) => {
            if v > usize::MAX as u64 {
                None
            } else {
                Some(v as usize)
            }
        },
    }
}

fn parse_i64(s: &[char]) -> (r: Option<i64>)
    ensures
        match r {
            Some(v) => parsed_i64(s@) == Some(v as int),
            None => parsed_i64(s@) is None,
        },
{
    if s.len() > 0 && s[0] == '-' {
        assert(s@.drop_first() =~= s@.subrange(1, s@.len() as int));
        if s.len() == 1 {
            return None;
        }
        match digits_upto(s, 1, 0x8000_0000_0000_0000) {
            None => None,
            Some(v) => Some((-(v as i128)) as i64),
        }
    } else {
        let from: usize = if s.len() > 0 && s[0] == '+' {
            1
        } else {
            0
        };
        assert(unsigned_body(s@) =~= s@.subrange(from as int, s@.len() as int));
        if from == s.len() {
            return None;
        }
        match digits_upto(s, from, 0x7fff_ffff_ffff_ffff) {
            None => None,
            Some(v) => Some(v as i64),
        }
    }
}

/// The part of `s[lo..hi]` before the first `c` in it, as an end bound.
fn cut_at(s: &[char], lo: usize, hi: usize, c: char) -> (r: usize)
    requires
        lo <= hi <= s@.len(),
    ensures
        lo <= r <= hi,
        s@.subrange(lo as int, r as int) == before_char(s@.subrange(lo as int, hi as int), c),
{
    let part = copy_range(s, lo, hi);
    match find_from(part.as_slice(), 0, c) {
        None => {
            assert(part@.subrange(0, part@.len() as int) =~= part@);
            hi
        },
        Some(k) => {
            assert(part@.subrange(0, part@.len() as int) =~= part@);
            assert(s@.subrange(lo as int, lo + k) =~= part@.subrange(0, k as int));
            lo + k
        },
    }
}

/// Reads the work id and page index from a viewer locator such as
/// `sharaku://localhost/view/42/0`.
pub fn parse_view_uri(uri: &str) -> (r: Option<(i64, usize)>)
    ensures
        r == view_locator(uri@),
{
    let s = chars_of(uri);
    let n = s.len();
    let marker = vec!['v', 'i', 'e', 'w', '/'];
    assert(marker@ =~= view_marker());
    let i = match find_pattern(s.as_slice(), marker.as_slice()) {
        None => {
            return None;
        },
        Some(i) => i,
    };
    let start = i + 5;
    let q = cut_at(s.as_slice(), start, n, '?');
    let h = cut_at(s.as_slice(), start, q, '#');
    let rest = copy_range(s.as_slice(), start, h);
    proof {
        let tail = s@.subrange(start as int, n as int);
        assert(uri@.subrange(i + 5, uri@.len() as int) == tail);
        assert(rest@ == before_char(before_char(tail, '?'), '#'));
    }
    match find_from(rest.as_slice(), 0, '/') {
        None => {
            assert(rest@.subrange(0, rest@.len() as int) =~= rest@);
            None
        },
        Some(k) => {
            assert(rest@.subrange(0, rest@.len() as int) =~= rest@);
            let m = rest.len();
            let a = copy_range(rest.as_slice(), 0, k);
            let b = copy_range(rest.as_slice(), k + 1, m);
            match (parse_i64(a.as_slice()), parse_usize(b.as_slice())) {
                (Some(x), Some(y)) => Some((x, y)),
                _ => None,
            }
        },
    }
}

/// What follows the last dot of a path; the whole path where it has none.
pub open spec fn after_last_dot(p: Seq<char>) -> Seq<char> {
    match rfind_char(p, '.') {
        None => p,
        Some(d) => p.subrange(d as int + 1, p.len() as int),
    }
}

/// The media type served for an extension, in small letters.
pub open spec fn media_type(e: Seq<char>) -> Seq<char> {
    if e == seq!['j', 'p', 'g'] || e == seq!['j', 'p', 'e', 'g'] {
        "image/jpeg"@
    } else if e == seq!['p', 'n', 'g'] {
        "image/png"@
    } else if e == seq!['g', 'i', 'f'] {
        "image/gif"@
    } else if e == seq!['w', 'e', 'b', 'p'] {
        "image/webp"@
    } else if e == seq!['b', 'm', 'p'] {
        "image/bmp"@
    } else {
        "application/octet-stream"@
    }
}

fn is_ext(e: &Vec<char>, want: &Vec<char>) -> (r: bool)
    ensures
        r == (e@ == want@),
{
    crate::text::same_chars(e.as_slice(), want.as_slice())
}

/// The media type of a page, by the extension of its path in any case.
pub fn content_type_from_path(path: &str) -> (r: &'static str)
    ensures
        r@ == media_type(lowered(after_last_dot(path@))),
{
    let s = chars_of(path);
    let n = s.len();
    let ext = match rfind(s.as_slice(), '.') {
        None => {
            assert(s@.subrange(0, n as int) =~= s@);
            copy_range(s.as_slice(), 0, n)
        },
        Some(d) => copy_range(s.as_slice(), d + 1, n),
    };
    let e = lower_chars(ext.as_slice());
    let jpg = vec!['j', 'p', 'g'];
    let jpeg = vec!['j', 'p', 'e', 'g'];
    let png = vec!['p', 'n', 'g'];
    let gif = vec!['g', 'i', 'f'];
    let webp = vec!['w', 'e', 'b', 'p'];
    let bmp = vec!['b', 'm', 'p'];
    assert(jpg@ =~= seq!['j', 'p', 'g']);
    assert(jpeg@ =~= seq!['j', 'p', 'e', 'g']);
    assert(png@ =~= seq!['p', 'n', 'g']);
    assert(gif@ =~= seq!['g', 'i', 'f']);
    assert(webp@ =~= seq!['w', 'e', 'b', 'p']);
    assert(bmp@ =~= seq!['b', 'm', 'p']);
    if is_ext(&e, &jpg) || is_ext(&e, &jpeg) {
        "image/jpeg"
    } else if is_ext(&e, &png) {
        "image/png"
    } else if is_ext(&e, &gif) {
        "image/gif"
    } else if is_ext(&e, &webp) {
        "image/webp"
    } else if is_ext(&e, &bmp) {
        "image/bmp"
    } else {
        "application/octet-stream"
    }
}

/// The file a page of a work is read from: for a folder work, the page at `page_index`
/// among its pages in order; for a single image, the image itself and only as page 0.
pub open spec fn page_file(
    is_folder: bool,
    work_path: Seq<char>,
    pages: Seq<Seq<char>>,
    page_index: int,
) -> Option<Seq<char>> {
    if is_folder {
        if 0 <= page_index < pages.len() {
            Some(pages[page_index])
        } else {
            None
        }
    } else if page_index == 0 {
        Some(work_path)
    } else {
        None
    }
}

/// Picks the file that serves a page; `pages` are the folder's image files in page order.
pub fn page_path(is_folder: bool, work_path: &String, pages: &Vec<String>, page_index: usize) -> (r:
    Option<String>)
    ensures
        match r {
            Some(p) => page_file(is_folder, work_path@, crate::importer::names(pages@), page_index as int)
                == Some(p@),
            None => page_file(is_folder, work_path@, crate::importer::names(pages@), page_index as int) is None,
        },
{
    if is_folder {
        if page_index < pages.len() {
            let c = chars_of(pages[page_index].as_str());
            Some(crate::text::string_of(c.as_slice()))
        } else {
            None
        }
    } else if page_index == 0 {
        let c = chars_of(work_path.as_str());
        Some(crate::text::string_of(c.as_slice()))
    } else {
        None
    }
}

} // verus!
