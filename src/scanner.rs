use vstd::prelude::*;

use crate::path::{component_list, components, is_dot, is_dot_dot};
use crate::text::{copy_range, same_chars, string_of, views};

verus! {

/// The position of the last `c` in `s`, if any.
pub open spec fn rfind_char(s: Seq<char>, c: char) -> Option<nat>
    decreases s.len(),
{
    if s.len() == 0 {
        None
    } else if s.last() == c {
        Some((s.len() - 1) as nat)
    } else {
        rfind_char(s.drop_last(), c)
    }
}

pub fn rfind(s: &[char], c: char) -> (r: Option<usize>)
    ensures
        match r {
            Some(j) => rfind_char(s@, c) == Some(j as nat) && j < s@.len(),
            None => rfind_char(s@, c) is None,
        },
{
    let mut j = s.len();
    assert(s@.subrange(0, s@.len() as int) =~= s@);
    while j > 0
        invariant
            j <= s@.len(),
            rfind_char(s@, c) == rfind_char(s@.subrange(0, j as int), c),
        decreases j,
    {
        if s[j - 1] == c {
            return Some(j - 1);
        }
        assert(s@.subrange(0, j as int).drop_last() =~= s@.subrange(0, j - 1));
        j -= 1;
    }
    None
}

/// The last component of a path, where it is a name (as `Path::file_name` gives it).
pub open spec fn file_name(p: Seq<char>) -> Option<Seq<char>> {
    let c = components(p);
    if c.len() == 0 || c.last() == seq!['/'] || is_dot(c.last()) || is_dot_dot(c.last()) {
        None
    } else {
        Some(c.last())
    }
}

/// The last component of `path` where it is a name.
fn last_name(path: &str) -> (r: Option<Vec<char>>)
    ensures
        match r {
            Some(n) => file_name(path@) == Some(n@),
            None => file_name(path@) is None,
        },
{
    let mut comps = component_list(path);
    let n = comps.len();
    if n == 0 {
        return None;
    }
    let ghost all = views(comps@);
    let last = comps.pop().unwrap();
    assert(all.last() == last@);
    let slash = vec!['/'];
    let dot = vec!['.'];
    let dots = vec!['.', '.'];
    assert(slash@ =~= seq!['/']);
    assert(dot@ =~= seq!['.']);
    assert(dots@ =~= seq!['.', '.']);
    if same_chars(last.as_slice(), slash.as_slice()) || same_chars(last.as_slice(), dot.as_slice())
        || same_chars(last.as_slice(), dots.as_slice()) {
        return None;
    }
    Some(last)
}

/// What follows the last dot of a name, unless that dot begins the name
/// (as `Path::extension` gives it).
pub open spec fn extension_of(name: Seq<char>) -> Option<Seq<char>> {
    match rfind_char(name, '.') {
        None => None,
        Some(d) => if d == 0 {
            None
        } else {
            Some(name.subrange(d as int + 1, name.len() as int))
        },
    }
}

pub open spec fn ascii_lower(c: char) -> char {
    if 'A' <= c <= 'Z' {
        ((c as u32) + 32) as char
    } else {
        c
    }
}

/// `s` with ASCII capitals made small, as `to_ascii_lowercase` does.
pub open spec fn lowered(s: Seq<char>) -> Seq<char> {
    s.map_values(|c: char| ascii_lower(c))
}

pub fn lower_chars(s: &[char]) -> (r: Vec<char>)
    ensures
        r@ == lowered(s@),
{
    let mut out: Vec<char> = Vec::new();
    let mut i: usize = 0;
    while i < s.len()
        invariant
            i <= s@.len(),
            out@ == lowered(s@.subrange(0, i as int)),
        decreases s@.len() - i,
    {
        let c = s[i];
        let l = if 'A' <= c && c <= 'Z' {
            ((c as u32) + 32) as u8 as char
        } else {
            c
        };
        out.push(l);
        i += 1;
        assert(out@ =~= lowered(s@.subrange(0, i as int)));
    }
    assert(s@.subrange(0, s@.len() as int) =~= s@);
    out
}

/// The extensions of the image files the library takes, in small letters.
pub open spec fn is_image_extension(e: Seq<char>) -> bool {
    e == seq!['j', 'p', 'g'] || e == seq!['j', 'p', 'e', 'g'] || e == seq!['p', 'n', 'g'] || e
        == seq!['g', 'i', 'f'] || e == seq!['w', 'e', 'b', 'p'] || e == seq!['b', 'm', 'p']
}

/// Whether a path names an image file: its extension, in any case, is one of
/// `jpg`, `jpeg`, `png`, `gif`, `webp` and `bmp`.
pub open spec fn is_image_path(p: Seq<char>) -> bool {
    match file_name(p) {
        None => false,
        Some(n) => match extension_of(n) {
            None => false,
            Some(e) => is_image_extension(lowered(e)),
        },
    }
}

fn image_extension(e: &[char]) -> (r: bool)
    ensures
        r == is_image_extension(e@),
{
    let jpg = vec!['j', 'p', 'g'];
    let jpeg = vec!['j', 'p', 'e', 'g'];
    let png = vec!['p', 'n', 'g'];
    let gif = vec!['g', 'i', 'f'];
    let webp = vec!['w', 'e', 'b', 'p'];
    let bmp = vec!['b', 'm', 'p'];
    assert(jpg@ =~= seq!['j', 'p', 'g']);
    assert(jpeg@ =~= seq!['j', 'p', 'e', 'g']);
    assert(png@ =~= seq!['p', 'n', 'g']);
    assert(gif@ =~= seq!['g', 'i', 'f']);
    assert(webp@ =~= seq!['w', 'e', 'b', 'p']);
    assert(bmp@ =~= seq!['b', 'm', 'p']);
    same_chars(e, jpg.as_slice()) || same_chars(e, jpeg.as_slice()) || same_chars(
        e,
        png.as_slice(),
    ) || same_chars(e, gif.as_slice()) || same_chars(e, webp.as_slice()) || same_chars(
        e,
        bmp.as_slice(),
    )
}

/// Whether `path` names a supported image file, by its extension alone.
pub fn is_image_file(path: &str) -> (r: bool)
    ensures
        r == is_image_path(path@),
{
    let last = match last_name(path) {
        None => {
            return false;
        },
        Some(last) => last,
    };
    match rfind(last.as_slice(), '.') {
        None => false,
        Some(d) => {
            if d == 0 {
                return false;
            }
            let m = last.len();
            let ext = copy_range(last.as_slice(), d + 1, m);
            let low = lower_chars(ext.as_slice());
            image_extension(low.as_slice())
        },
    }
}

/// A name without its extension, as `Path::file_stem` gives it: all of it where it has
/// no dot or only a leading one.
pub open spec fn stem_of(name: Seq<char>) -> Seq<char> {
    match rfind_char(name, '.') {
        None => name,
        Some(d) => if d == 0 {
            name
        } else {
            name.subrange(0, d as int)
        },
    }
}

/// The title a single image is registered under: its file name without the extension;
/// empty where the path names no file.
pub fn image_title(path: &str) -> (r: String)
    ensures
        r@ == match file_name(path@) {
            None => seq![],
            Some(n) => stem_of(n),
        },
{
    let last = match last_name(path) {
        None => {
            let empty: Vec<char> = Vec::new();
            return string_of(empty.as_slice());
        },
        Some(last) => last,
    };
    let stem = match rfind(last.as_slice(), '.') {
        Some(d) if d > 0 => copy_range(last.as_slice(), 0, d),
        _ => copy_range(last.as_slice(), 0, last.len()),
    };
    assert(last@.subrange(0, last@.len() as int) =~= last@);
    string_of(stem.as_slice())
}

/// The events a scan for single images reports.
pub enum ScanProgress {
    Started { total: usize },
    Processing { current: usize, total: usize, file_name: String },
    Completed { registered: usize, failed: usize },
    Error { message: String },
}

} // verus!
