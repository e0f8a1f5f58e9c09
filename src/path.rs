use vstd::prelude::*;

use crate::template::{
    is_forbidden, lemma_segments_clean, render_segments, rendered_segments, MetadataView, WorkMetadata,
};
use crate::text::{
    chars_of, dup, find_char, join_slash, push_joined, same_chars, split_pieces, split_slash, string_of,
    views,
};

verus! {

/// A path read lexically: whether it starts at the root, and its components.
pub struct Lexical {
    pub absolute: bool,
    pub parts: Seq<Seq<char>>,
}

pub open spec fn is_dot(s: Seq<char>) -> bool {
    s == seq!['.']
}

pub open spec fn is_dot_dot(s: Seq<char>) -> bool {
    s == seq!['.', '.']
}

/// One piece of a path applied to a normalized path: empty pieces and `.` change
/// nothing, `..` removes the last component (or, with none left, the root), and any
/// other piece is appended.
pub open spec fn norm_step(n: Lexical, piece: Seq<char>) -> Lexical {
    if piece.len() == 0 || is_dot(piece) {
        n
    } else if is_dot_dot(piece) {
        if n.parts.len() > 0 {
            Lexical { absolute: n.absolute, parts: n.parts.drop_last() }
        } else {
            Lexical { absolute: false, parts: n.parts }
        }
    } else {
        Lexical { absolute: n.absolute, parts: n.parts.push(piece) }
    }
}

pub open spec fn norm_pieces(absolute: bool, pieces: Seq<Seq<char>>) -> Lexical
    decreases pieces.len(),
{
    if pieces.len() == 0 {
        Lexical { absolute, parts: seq![] }
    } else {
        norm_step(norm_pieces(absolute, pieces.drop_last()), pieces.last())
    }
}

pub open spec fn starts_at_root(p: Seq<char>) -> bool {
    p.len() > 0 && p[0] == '/'
}

/// Path `p` normalized lexically, without asking the file system.
pub open spec fn normalized(p: Seq<char>) -> Lexical {
    norm_pieces(starts_at_root(p), split_slash(p))
}

/// The text of a lexical path.
pub open spec fn path_text(n: Lexical) -> Seq<char> {
    if n.absolute {
        seq!['/'] + join_slash(n.parts)
    } else {
        join_slash(n.parts)
    }
}

/// A component that names an entry of its parent: not empty, no slash, neither `.` nor `..`.
pub open spec fn is_plain_name(s: Seq<char>) -> bool {
    &&& s.len() > 0
    &&& !is_dot(s)
    &&& !is_dot_dot(s)
    &&& forall|i: int| 0 <= i < s.len() ==> s[i] != '/'
}

/// The lexical path a work resolves to: the library root, normalized, followed by the
/// rendered segments of the template.
pub open spec fn resolved(root: Seq<char>, t: Seq<char>, m: MetadataView) -> Lexical {
    Lexical {
        absolute: normalized(root).absolute,
        parts: normalized(root).parts + rendered_segments(t, m),
    }
}

pub open spec fn resolved_path(root: Seq<char>, t: Seq<char>, m: MetadataView) -> Seq<char> {
    path_text(resolved(root, t, m))
}

fn is_dot_piece(s: &Vec<char>) -> (r: bool)
    ensures
        r == is_dot(s@),
{
    let r = s.len() == 1 && s[0] == '.';
    proof {
        if s@.len() == 1 && s@[0] == '.' {
            assert(s@ =~= seq!['.']);
        }
    }
    r
}

fn is_dot_dot_piece(s: &Vec<char>) -> (r: bool)
    ensures
        r == is_dot_dot(s@),
{
    let r = s.len() == 2 && s[0] == '.' && s[1] == '.';
    proof {
        if s@.len() == 2 && s@[0] == '.' && s@[1] == '.' {
            assert(s@ =~= seq!['.', '.']);
        }
    }
    r
}

/// Normalizes a path lexically: `.` is dropped and `..` removes what precedes it.
pub fn normalize_path(p: &str) -> (r: (bool, Vec<Vec<char>>))
    ensures
        r.0 == normalized(p@).absolute,
        views(r.1@) == normalized(p@).parts,
{
    let c = chars_of(p);
    let absolute = c.len() > 0 && c[0] == '/';
    let pieces = split_pieces(c.as_slice());
    let mut abs = absolute;
    let mut parts: Vec<Vec<char>> = Vec::new();
    let mut i: usize = 0;
    while i < pieces.len()
        invariant
            i <= pieces@.len(),
            absolute == starts_at_root(p@),
            views(pieces@) == split_slash(p@),
            abs == norm_pieces(absolute, views(pieces@).subrange(0, i as int)).absolute,
            views(parts@) == norm_pieces(absolute, views(pieces@).subrange(0, i as int)).parts,
        decreases pieces@.len() - i,
    {
        let ghost prev = views(pieces@).subrange(0, i as int);
        let ghost before = views(parts@);
        let piece = &pieces[i];
        assert(views(pieces@)[i as int] == piece@);
        if piece.len() == 0 || is_dot_piece(piece) {
        } else if is_dot_dot_piece(piece) {
            if parts.len() > 0 {
                parts.pop();
                assert(views(parts@) =~= before.drop_last());
            } else {
                abs = false;
            }
        } else {
            parts.push(dup(piece));
            assert(views(parts@) =~= before.push(piece@));
        }
        i += 1;
        assert(views(pieces@).subrange(0, i as int).drop_last() =~= prev);
    }
    assert(views(pieces@).subrange(0, pieces@.len() as int) =~= views(pieces@));
    (abs, parts)
}

/// The text of a lexical path, as `PathBuf` prints it.
fn push_path(out: &mut Vec<char>, absolute: bool, parts: &Vec<Vec<char>>)
    ensures
        final(out)@ == old(out)@ + path_text(Lexical { absolute, parts: views(parts@) }),
{
    if absolute {
        out.push('/');
    }
    push_joined(out, parts);
    assert(final(out)@ =~= old(out)@ + path_text(Lexical { absolute, parts: views(parts@) }));
}

/// A path spelled as resolved paths are: normalized lexically.
pub fn normalized_text(p: &str) -> (r: String)
    ensures
        r@ == path_text(normalized(p@)),
{
    let (absolute, parts) = normalize_path(p);
    let mut out: Vec<char> = Vec::new();
    push_path(&mut out, absolute, &parts);
    assert(out@ =~= path_text(normalized(p@)));
    string_of(out.as_slice())
}

/// The directory a work goes to under `library_root`, as `template` lays it out.
pub fn resolve_work_path(library_root: &str, template: &str, metadata: &WorkMetadata) -> (r:
    String)
    ensures
        r@ == resolved_path(library_root@, template@, metadata@),
{
    let (absolute, mut parts) = normalize_path(library_root);
    let segs = render_segments(template, metadata);
    let ghost root_parts = views(parts@);
    let mut i: usize = 0;
    while i < segs.len()
        invariant
            i <= segs@.len(),
            views(segs@) == rendered_segments(template@, metadata@),
            views(parts@) == root_parts + views(segs@).subrange(0, i as int),
        decreases segs@.len() - i,
    {
        let ghost before = views(parts@);
        let ghost item = segs@[i as int]@;
        assert(views(segs@)[i as int] == item);
        parts.push(dup(&segs[i]));
        assert(views(parts@) =~= before.push(item));
        i += 1;
        assert(views(segs@).subrange(0, i as int) =~= views(segs@).subrange(0, i - 1).push(item));
        assert(views(parts@) =~= root_parts + views(segs@).subrange(0, i as int));
    }
    assert(views(segs@).subrange(0, segs@.len() as int) =~= views(segs@));
    let mut out: Vec<char> = Vec::new();
    push_path(&mut out, absolute, &parts);
    assert(out@ =~= resolved_path(library_root@, template@, metadata@));
    string_of(out.as_slice())
}

/// A resolved path never leaves the library root, whatever the template and the
/// metadata hold (`../../etc` included): it begins with the root's own normalized
/// components, and each component after them is a plain name, never `.` or `..`.
pub proof fn lemma_resolved_within_root(root: Seq<char>, t: Seq<char>, m: MetadataView)
    ensures
        resolved(root, t, m).absolute == normalized(root).absolute,
        resolved(root, t, m).parts.len() > normalized(root).parts.len(),
        resolved(root, t, m).parts.subrange(0, normalized(root).parts.len() as int) == normalized(
            root,
        ).parts,
        forall|k: int|
            normalized(root).parts.len() <= k < resolved(root, t, m).parts.len() ==> is_plain_name(
                #[trigger] resolved(root, t, m).parts[k],
            ),
{
    let base = normalized(root).parts;
    let segs = rendered_segments(t, m);
    let all = resolved(root, t, m).parts;
    assert(split_slash(t).len() >= 1);
    lemma_segments_clean(t, m);
    assert(all.subrange(0, base.len() as int) =~= base);
    assert forall|k: int| base.len() <= k < all.len() implies is_plain_name(#[trigger] all[k]) by {
        assert(all[k] == segs[k - base.len()]);
        assert forall|i: int| 0 <= i < all[k].len() implies all[k][i] != '/' by {
            assert(!is_forbidden(segs[k - base.len()][i]));
        }
    }
}

proof fn lemma_join_front(s: Seq<Seq<char>>)
    requires
        s.len() >= 2,
    ensures
        join_slash(s) == s[0] + seq!['/'] + join_slash(s.drop_first()),
    decreases s.len(),
{
    if s.len() == 2 {
        assert(s.drop_last() =~= seq![s[0]]);
        assert(s.drop_first() =~= seq![s[1]]);
        assert(join_slash(s.drop_first()) == s[1]);
        assert(join_slash(s.drop_last()) == s[0]);
        assert(s.last() == s[1]);
        assert(join_slash(s) =~= s[0] + seq!['/'] + s[1]);
    } else {
        let d = s.drop_last();
        lemma_join_front(d);
        assert(d.drop_first() =~= s.drop_first().drop_last());
        assert(s.drop_first().last() == s.last());
        assert(join_slash(s) =~= s[0] + seq!['/'] + join_slash(s.drop_first()));
    }
}

proof fn lemma_split_join(s: Seq<Seq<char>>)
    requires
        s.len() >= 1,
        forall|k: int, i: int| 0 <= k < s.len() && 0 <= i < s[k].len() ==> s[k][i] != '/',
    ensures
        split_slash(join_slash(s)) == s,
    decreases s.len(),
{
    if s.len() == 1 {
        crate::text::lemma_find_char_none(s[0], '/');
        assert(join_slash(s) == s[0]);
        assert(seq![s[0]] =~= s);
    } else {
        lemma_join_front(s);
        let rest = s.drop_first();
        assert forall|k: int, i: int| 0 <= k < rest.len() && 0 <= i < rest[k].len() implies rest[k][i]
            != '/' by {
            assert(rest[k] == s[k + 1]);
        }
        lemma_split_join(rest);
        let j = join_slash(s);
        let n = s[0].len() as int;
        assert forall|i: int| 0 <= i < n implies j[i] != '/' by {
            assert(j[i] == s[0][i]);
        }
        crate::text::lemma_find_char_some(j, '/', n);
        assert(j.subrange(0, n) =~= s[0]);
        assert(j.subrange(n + 1, j.len() as int) =~= join_slash(rest));
        assert(seq![s[0]] + rest =~= s);
    }
}

proof fn lemma_split_no_slash(p: Seq<char>)
    ensures
        forall|k: int, i: int|
            0 <= k < split_slash(p).len() && 0 <= i < split_slash(p)[k].len() ==> split_slash(p)[k][i]
                != '/',
        split_slash(p).len() >= 1,
    decreases p.len(),
{
    crate::text::lemma_find_char_bound(p, '/');
    match find_char(p, '/') {
        None => {},
        Some(j) => {
            let rest = p.subrange(j as int + 1, p.len() as int);
            lemma_split_no_slash(rest);
            let sp = split_slash(p);
            assert(sp == seq![p.subrange(0, j as int)] + split_slash(rest));
            assert forall|k: int, i: int| 0 <= k < sp.len() && 0 <= i < sp[k].len() implies sp[k][i]
                != '/' by {
                if k == 0 {
                    assert(sp[0][i] == p[i]);
                } else {
                    assert(sp[k] == split_slash(rest)[k - 1]);
                }
            }
        },
    }
}

proof fn lemma_kept_plain(s: Seq<Seq<char>>)
    requires
        forall|k: int| 0 <= k < s.len() ==> (#[trigger] s[k]).len() > 0 && !is_dot(s[k]),
    ensures
        kept(s) == s,
    decreases s.len(),
{
    if s.len() > 0 {
        lemma_kept_plain(s.drop_last());
        assert(s.drop_last().push(s.last()) =~= s);
    }
}

proof fn lemma_kept_skips_empty_head(x: Seq<Seq<char>>)
    ensures
        kept(seq![seq![]] + x) == kept(x),
    decreases x.len(),
{
    let e: Seq<char> = seq![];
    let y: Seq<Seq<char>> = seq![e] + x;
    if x.len() == 0 {
        assert(y =~= seq![e]);
        assert(y.drop_last() =~= Seq::<Seq<char>>::empty());
        assert(y.last().len() == 0);
        assert(kept(y) == kept(y.drop_last()));
        assert(kept(Seq::<Seq<char>>::empty()) == Seq::<Seq<char>>::empty());
        assert(kept(x) == x);
    } else {
        lemma_kept_skips_empty_head(x.drop_last());
        assert(y.drop_last() =~= seq![e] + x.drop_last());
        assert(y.last() == x.last());
        if x.last().len() == 0 || is_dot(x.last()) {
            assert(kept(y) == kept(y.drop_last()));
            assert(kept(x) == kept(x.drop_last()));
        } else {
            assert(kept(y) == kept(y.drop_last()).push(y.last()));
            assert(kept(x) == kept(x.drop_last()).push(x.last()));
        }
    }
}

proof fn lemma_norm_without_parent(absolute: bool, pieces: Seq<Seq<char>>)
    requires
        forall|k: int| 0 <= k < pieces.len() ==> !is_dot_dot(#[trigger] pieces[k]),
    ensures
        norm_pieces(absolute, pieces) == (Lexical { absolute, parts: kept(pieces) }),
    decreases pieces.len(),
{
    if pieces.len() > 0 {
        assert forall|k: int| 0 <= k < pieces.drop_last().len() implies !is_dot_dot(
            #[trigger] pieces.drop_last()[k],
        ) by {
            assert(pieces.drop_last()[k] == pieces[k]);
        }
        lemma_norm_without_parent(absolute, pieces.drop_last());
        let l = pieces.last();
        assert(!is_dot_dot(pieces[pieces.len() - 1]));
        let prev = norm_pieces(absolute, pieces.drop_last());
        assert(norm_pieces(absolute, pieces) == norm_step(prev, l));
        if l.len() == 0 || is_dot(l) {
            assert(kept(pieces) == kept(pieces.drop_last()));
        } else {
            assert(kept(pieces) == kept(pieces.drop_last()).push(l));
        }
    } else {
        assert(kept(pieces) == pieces);
        assert(pieces =~= seq![]);
    }
}

/// For an absolute library root without `..`, a resolved path lies inside the root by
/// whole components, as `Path::starts_with` reads them: its components are the root's
/// followed by at least one more, so it differs from the root, and none of them is `.`
/// or `..`, whatever the template and the metadata hold (`../../etc` included).
pub proof fn lemma_resolved_path_inside_root(root: Seq<char>, t: Seq<char>, m: MetadataView)
    requires
        starts_at_root(root),
        forall|k: int|
            0 <= k < split_slash(root).len() ==> !is_dot_dot(#[trigger] split_slash(root)[k]),
    ensures
        path_starts_with(resolved_path(root, t, m), root),
        !path_starts_with(root, resolved_path(root, t, m)),
        forall|k: int|
            0 <= k < components(resolved_path(root, t, m)).len() ==> !is_dot(
                #[trigger] components(resolved_path(root, t, m))[k],
            ) && !is_dot_dot(components(resolved_path(root, t, m))[k]),
{
    let pieces = split_slash(root);
    lemma_norm_without_parent(true, pieces);
    lemma_resolved_within_root(root, t, m);
    lemma_split_no_slash(root);
    let base = kept(pieces);
    lemma_kept_parts(pieces);
    let segs = rendered_segments(t, m);
    let parts = base + segs;
    assert(resolved(root, t, m).parts == parts);
    assert(resolved(root, t, m).absolute);
    assert forall|k: int, i: int| 0 <= k < parts.len() && 0 <= i < parts[k].len() implies parts[k][i]
        != '/' by {
        if k >= base.len() {
            assert(is_plain_name(resolved(root, t, m).parts[k]));
        }
    }
    assert forall|k: int| 0 <= k < parts.len() implies (#[trigger] parts[k]).len() > 0 && !is_dot(
        parts[k],
    ) && !is_dot_dot(parts[k]) by {
        if k >= base.len() {
            assert(is_plain_name(resolved(root, t, m).parts[k]));
        }
    }
    let j = join_slash(parts);
    let text = resolved_path(root, t, m);
    assert(text == seq!['/'] + j);
    lemma_split_join(parts);
    crate::text::lemma_find_char_some(text, '/', 0);
    assert(text.subrange(1, text.len() as int) =~= j);
    assert(text.subrange(0, 0) =~= seq![]);
    assert(split_slash(text) == seq![seq![]] + parts);
    lemma_kept_skips_empty_head(parts);
    lemma_kept_plain(parts);
    assert(starts_at_root(text));
    let c = components(text);
    let cr = components(root);
    assert(c == seq![seq!['/']] + parts);
    assert(cr == seq![seq!['/']] + base);
    assert(c.subrange(0, cr.len() as int) =~= cr);
    assert forall|k: int| 0 <= k < c.len() implies !is_dot(#[trigger] c[k]) && !is_dot_dot(c[k]) by {
        if k > 0 {
            assert(c[k] == parts[k - 1]);
        } else {
            assert(c[0] == seq!['/']);
            assert(c[0].len() == 1 && c[0][0] == '/');
        }
    }
}

/// The pieces `kept` keeps are the non-empty ones other than `.`, without a slash or `..`
/// where the pieces have none.
proof fn lemma_kept_parts(pieces: Seq<Seq<char>>)
    requires
        forall|k: int, i: int|
            0 <= k < pieces.len() && 0 <= i < pieces[k].len() ==> pieces[k][i] != '/',
        forall|k: int| 0 <= k < pieces.len() ==> !is_dot_dot(#[trigger] pieces[k]),
    ensures
        forall|k: int|
            0 <= k < kept(pieces).len() ==> (#[trigger] kept(pieces)[k]).len() > 0 && !is_dot(
                kept(pieces)[k],
            ) && !is_dot_dot(kept(pieces)[k]) && forall|i: int|
                0 <= i < kept(pieces)[k].len() ==> kept(pieces)[k][i] != '/',
    decreases pieces.len(),
{
    if pieces.len() > 0 {
        let d = pieces.drop_last();
        assert forall|k: int, i: int| 0 <= k < d.len() && 0 <= i < d[k].len() implies d[k][i] != '/' by {
            assert(d[k] == pieces[k]);
        }
        assert forall|k: int| 0 <= k < d.len() implies !is_dot_dot(#[trigger] d[k]) by {
            assert(d[k] == pieces[k]);
        }
        lemma_kept_parts(d);
        let l = pieces.last();
        assert(!is_dot_dot(pieces[pieces.len() - 1]));
        assert forall|i: int| 0 <= i < l.len() implies l[i] != '/' by {
            assert(pieces[pieces.len() - 1] == l);
        }
        let kd = kept(d);
        if l.len() == 0 || is_dot(l) {
            assert(kept(pieces) == kd);
        } else {
            let kp = kept(pieces);
            assert(kp == kd.push(l));
            assert forall|k: int| 0 <= k < kp.len() implies (#[trigger] kp[k]).len() > 0 && !is_dot(
                kp[k],
            ) && !is_dot_dot(kp[k]) && forall|i: int| 0 <= i < kp[k].len() ==> kp[k][i] != '/' by {
                if k < kd.len() {
                    assert(kp[k] == kd[k]);
                } else {
                    assert(kp[k] == l);
                }
            }
        }
    }
}

/// The path shown before an import, the one `resolve_work_path` gives.
pub fn preview_import_path(library_root: &str, template_str: &str, metadata: &WorkMetadata) -> (r:
    String)
    ensures
        r@ == resolved_path(library_root@, template_str@, metadata@),
{
    resolve_work_path(library_root, template_str, metadata)
}

/// The lowercase hexadecimal digit for `d`.
pub open spec fn hex_char(d: int) -> char {
    if d < 10 {
        ((d + 48) as u32) as char
    } else {
        ((d + 87) as u32) as char
    }
}

/// `n` as four lowercase hexadecimal digits, as `{:04x}` writes a value below 0x10000.
pub open spec fn hex4(n: int) -> Seq<char> {
    seq![
        hex_char((n / 4096) % 16),
        hex_char((n / 256) % 16),
        hex_char((n / 16) % 16),
        hex_char(n % 16),
    ]
}

pub(crate) fn hex_digit(d: u32) -> (r: char)
    requires
        d < 16,
    ensures
        r == hex_char(d as int),
{
    if d < 10 {
        ((d + 48) as u8) as char
    } else {
        ((d + 87) as u8) as char
    }
}

/// Appends `_` and `n` as four hexadecimal digits.
pub fn push_suffix(out: &mut Vec<char>, n: u32)
    requires
        n < 0x10000,
    ensures
        final(out)@ == old(out)@ + seq!['_'] + hex4(n as int),
{
    out.push('_');
    out.push(hex_digit((n / 4096) % 16));
    out.push(hex_digit((n / 256) % 16));
    out.push(hex_digit((n / 16) % 16));
    out.push(hex_digit(n % 16));
    assert(final(out)@ =~= old(out)@ + seq!['_'] + hex4(n as int));
}

/// The text of a path with `_` and four hexadecimal digits added to its last component.
pub open spec fn with_suffix(p: Seq<char>, n: int) -> Seq<char> {
    p + seq!['_'] + hex4(n)
}

/// A free directory for a work: the resolved path itself where nothing is there
/// (`base_exists` false), else that path with `_` and `suffix` in four hexadecimal
/// digits added to its last component.
pub fn resolve_unique_work_path(
    library_root: &str,
    template: &str,
    metadata: &WorkMetadata,
    base_exists: bool,
    suffix: u16,
) -> (r: String)
    ensures
        r@ == if base_exists {
            with_suffix(resolved_path(library_root@, template@, metadata@), suffix as int)
        } else {
            resolved_path(library_root@, template@, metadata@)
        },
        base_exists ==> r@ != resolved_path(library_root@, template@, metadata@),
{
    let base = resolve_work_path(library_root, template, metadata);
    if !base_exists {
        return base;
    }
    let mut out = chars_of(base.as_str());
    push_suffix(&mut out, suffix as u32);
    string_of(out.as_slice())
}

/// The components that `Path::components` yields, the root written as `/`: empty
/// pieces and `.` are skipped, except a `.` that begins a relative path.
pub open spec fn components(p: Seq<char>) -> Seq<Seq<char>> {
    let pieces = split_slash(p);
    if starts_at_root(p) {
        seq![seq!['/']] + kept(pieces)
    } else if is_dot(pieces[0]) {
        seq![seq!['.']] + kept(pieces.drop_first())
    } else {
        kept(pieces)
    }
}

/// The pieces that are neither empty nor `.`.
pub open spec fn kept(pieces: Seq<Seq<char>>) -> Seq<Seq<char>>
    decreases pieces.len(),
{
    if pieces.len() == 0 {
        pieces
    } else if pieces.last().len() == 0 || is_dot(pieces.last()) {
        kept(pieces.drop_last())
    } else {
        kept(pieces.drop_last()).push(pieces.last())
    }
}

/// Whether `base`'s components begin `p`'s, as `Path::starts_with` decides.
pub open spec fn path_starts_with(p: Seq<char>, base: Seq<char>) -> bool {
    components(base).len() <= components(p).len() && components(p).subrange(
        0,
        components(base).len() as int,
    ) == components(base)
}

fn kept_pieces(pieces: &Vec<Vec<char>>, from: usize) -> (r: Vec<Vec<char>>)
    requires
        from <= pieces@.len(),
    ensures
        views(r@) == kept(views(pieces@).subrange(from as int, pieces@.len() as int)),
{
    let mut out: Vec<Vec<char>> = Vec::new();
    let mut i = from;
    while i < pieces.len()
        invariant
            from <= i <= pieces@.len(),
            views(out@) == kept(views(pieces@).subrange(from as int, i as int)),
        decreases pieces@.len() - i,
    {
        let ghost prev = views(pieces@).subrange(from as int, i as int);
        let ghost before = views(out@);
        assert(views(pieces@)[i as int] == pieces@[i as int]@);
        if pieces[i].len() != 0 && !is_dot_piece(&pieces[i]) {
            out.push(dup(&pieces[i]));
            assert(views(out@) =~= before.push(pieces@[i as int]@));
        }
        i += 1;
        assert(views(pieces@).subrange(from as int, i as int).drop_last() =~= prev);
    }
    out
}

pub(crate) fn component_list(p: &str) -> (r: Vec<Vec<char>>)
    ensures
        views(r@) == components(p@),
{
    let c = chars_of(p);
    let pieces = split_pieces(c.as_slice());
    assert(views(pieces@).len() > 0) by {
        crate::text::lemma_find_char_bound(p@, '/');
    }
    let mut out: Vec<Vec<char>> = Vec::new();
    let from: usize;
    if c.len() > 0 && c[0] == '/' {
        let mut root: Vec<char> = Vec::new();
        root.push('/');
        out.push(root);
        from = 0;
    } else if is_dot_piece(&pieces[0]) {
        out.push(dup(&pieces[0]));
        from = 1;
    } else {
        from = 0;
    }
    let ghost head = views(out@);
    let rest = kept_pieces(&pieces, from);
    let mut i: usize = 0;
    while i < rest.len()
        invariant
            i <= rest@.len(),
            views(out@) == head + views(rest@).subrange(0, i as int),
        decreases rest@.len() - i,
    {
        let ghost before = views(out@);
        let ghost item = rest@[i as int]@;
        assert(views(rest@)[i as int] == item);
        out.push(dup(&rest[i]));
        assert(views(out@) =~= before.push(item));
        i += 1;
        assert(views(rest@).subrange(0, i as int) =~= views(rest@).subrange(0, i - 1).push(item));
        assert(views(out@) =~= head + views(rest@).subrange(0, i as int));
    }
    proof {
        assert(views(rest@).subrange(0, rest@.len() as int) =~= views(rest@));
        assert(views(pieces@).subrange(0, pieces@.len() as int) =~= views(pieces@));
        assert(views(pieces@).subrange(1, pieces@.len() as int) =~= views(pieces@).drop_first());
        if starts_at_root(p@) {
            assert(head =~= seq![seq!['/']]);
        } else if is_dot(views(pieces@)[0]) {
            assert(head =~= seq![seq!['.']]);
        } else {
            assert(head =~= seq![]);
        }
    }
    out
}

pub(crate) fn starts_with_parts(p: &Vec<Vec<char>>, base: &Vec<Vec<char>>) -> (r: bool)
    ensures
        r == (views(base@).len() <= views(p@).len() && views(p@).subrange(
            0,
            views(base@).len() as int,
        ) == views(base@)),
{
    if base.len() > p.len() {
        return false;
    }
    let mut i: usize = 0;
    while i < base.len()
        invariant
            base@.len() <= p@.len(),
            i <= base@.len(),
            forall|k: int| 0 <= k < i ==> views(p@)[k] == views(base@)[k],
        decreases base@.len() - i,
    {
        if !same_chars(p[i].as_slice(), base[i].as_slice()) {
            assert(views(p@)[i as int] != views(base@)[i as int]);
            return false;
        }
        i += 1;
    }
    assert(views(p@).subrange(0, views(base@).len() as int) =~= views(base@));
    true
}

/// Whether one of two paths lies inside the other, or they are the same, by whole
/// components (`/library/art` does not hold `/library/artist`).
pub fn paths_overlap(a: &str, b: &str) -> (r: bool)
    ensures
        r == (path_starts_with(a@, b@) || path_starts_with(b@, a@)),
{
    let ca = component_list(a);
    let cb = component_list(b);
    starts_with_parts(&ca, &cb) || starts_with_parts(&cb, &ca)
}

} // verus!
