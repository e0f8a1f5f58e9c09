use vstd::prelude::*;

use crate::error::{AppError, TemplateError};
use crate::text::{
    chars_of, is_space, trim_end, trim_start, copy_range, decimal, find_char, find_from, lemma_find_char_bound, push_all, push_decimal,
    push_joined, same_chars, split_pieces, split_slash, join_slash, string_of, trim, trim_bounds, views,
};

verus! {

/// What a work is rendered from. Every field but the title may be absent.
pub struct WorkMetadata {
    pub title: String,
    pub artist: Option<String>,
    pub year: Option<i32>,
    pub genre: Option<String>,
    pub circle: Option<String>,
    pub origin: Option<String>,
    pub work_type: Option<String>,
}

/// The metadata as the rendering reads it.
pub struct MetadataView {
    pub title: Seq<char>,
    pub artist: Option<Seq<char>>,
    pub year: Option<i32>,
    pub genre: Option<Seq<char>>,
    pub circle: Option<Seq<char>>,
    pub origin: Option<Seq<char>>,
    pub work_type: Option<Seq<char>>,
}

pub open spec fn opt_chars(o: Option<String>) -> Option<Seq<char>> {
    match o {
        Some(s) => Some(s@),
        None => None,
    }
}

pub(crate) fn copy_opt(o: &Option<String>) -> (r: Option<String>)
    ensures
        opt_chars(r) == opt_chars(*o),
{
    match o {
        Some(s) => Some(crate::text::copy_text(s)),
        None => None,
    }
}

impl View for WorkMetadata {
    type V = MetadataView;

    open spec fn view(&self) -> MetadataView {
        MetadataView {
            title: self.title@,
            artist: opt_chars(self.artist),
            year: self.year,
            genre: opt_chars(self.genre),
            circle: opt_chars(self.circle),
            origin: opt_chars(self.origin),
            work_type: opt_chars(self.work_type),
        }
    }
}

/// The placeholders a template may name.
#[derive(Clone, Copy, Debug, PartialEq, Eq, Structural)]
pub enum Placeholder {
    Title,
    Artist,
    Year,
    Genre,
    Circle,
    Origin,
    Type,
}

pub open spec fn title_name() -> Seq<char> {
    seq!['t', 'i', 't', 'l', 'e']
}

pub open spec fn unknown_text() -> Seq<char> {
    seq!['U', 'n', 'k', 'n', 'o', 'w', 'n']
}

impl Placeholder {
    /// The name written between the braces.
    pub open spec fn name(self) -> Seq<char> {
        match self {
            Placeholder::Title => title_name(),
            Placeholder::Artist => seq!['a', 'r', 't', 'i', 's', 't'],
            Placeholder::Year => seq!['y', 'e', 'a', 'r'],
            Placeholder::Genre => seq!['g', 'e', 'n', 'r', 'e'],
            Placeholder::Circle => seq!['c', 'i', 'r', 'c', 'l', 'e'],
            Placeholder::Origin => seq!['o', 'r', 'i', 'g', 'i', 'n'],
            Placeholder::Type => seq!['t', 'y', 'p', 'e'],
        }
    }
}

/// The placeholder called `n`, if `n` names one.
pub open spec fn placeholder_named(n: Seq<char>) -> Option<Placeholder> {
    if n == Placeholder::Title.name() {
        Some(Placeholder::Title)
    } else if n == Placeholder::Artist.name() {
        Some(Placeholder::Artist)
    } else if n == Placeholder::Year.name() {
        Some(Placeholder::Year)
    } else if n == Placeholder::Genre.name() {
        Some(Placeholder::Genre)
    } else if n == Placeholder::Circle.name() {
        Some(Placeholder::Circle)
    } else if n == Placeholder::Origin.name() {
        Some(Placeholder::Origin)
    } else if n == Placeholder::Type.name() {
        Some(Placeholder::Type)
    } else {
        None
    }
}

pub fn parse_placeholder(n: &[char]) -> (r: Option<Placeholder>)
    ensures
        r == placeholder_named(n@),
{
    let title = vec!['t', 'i', 't', 'l', 'e'];
    let artist = vec!['a', 'r', 't', 'i', 's', 't'];
    let year = vec!['y', 'e', 'a', 'r'];
    let genre = vec!['g', 'e', 'n', 'r', 'e'];
    let circle = vec!['c', 'i', 'r', 'c', 'l', 'e'];
    let origin = vec!['o', 'r', 'i', 'g', 'i', 'n'];
    let kind = vec!['t', 'y', 'p', 'e'];
    assert(title@ =~= Placeholder::Title.name());
    assert(artist@ =~= Placeholder::Artist.name());
    assert(year@ =~= Placeholder::Year.name());
    assert(genre@ =~= Placeholder::Genre.name());
    assert(circle@ =~= Placeholder::Circle.name());
    assert(origin@ =~= Placeholder::Origin.name());
    assert(kind@ =~= Placeholder::Type.name());
    if same_chars(n, title.as_slice()) {
        Some(Placeholder::Title)
    } else if same_chars(n, artist.as_slice()) {
        Some(Placeholder::Artist)
    } else if same_chars(n, year.as_slice()) {
        Some(Placeholder::Year)
    } else if same_chars(n, genre.as_slice()) {
        Some(Placeholder::Genre)
    } else if same_chars(n, circle.as_slice()) {
        Some(Placeholder::Circle)
    } else if same_chars(n, origin.as_slice()) {
        Some(Placeholder::Origin)
    } else if same_chars(n, kind.as_slice()) {
        Some(Placeholder::Type)
    } else {
        None
    }
}

/// Why a template is refused.
pub enum TemplateFault {
    Empty,
    Unclosed,
    EmptyPlaceholder,
    Unknown(Seq<char>),
    MissingTitle,
}

/// The first fault met when reading `t` from `pos` on; `has_title` tells whether
/// `{title}` was met before `pos`.
pub open spec fn fault_from(t: Seq<char>, pos: int, has_title: bool) -> Option<TemplateFault>
    decreases t.len() - pos,
    via fault_from_decreases
{
    if pos < 0 || pos >= t.len() {
        if has_title {
            None
        } else {
            Some(TemplateFault::MissingTitle)
        }
    } else if t[pos] == '{' {
        match find_char(t.subrange(pos, t.len() as int), '}') {
            None => Some(TemplateFault::Unclosed),
            Some(k) => {
                let name = t.subrange(pos + 1, pos + k);
                if name.len() == 0 {
                    Some(TemplateFault::EmptyPlaceholder)
                } else if placeholder_named(name) is None {
                    Some(TemplateFault::Unknown(name))
                } else {
                    fault_from(t, pos + k + 1, has_title || name == title_name())
                }
            },
        }
    } else {
        fault_from(t, pos + 1, has_title)
    }
}

#[via_fn]
proof fn fault_from_decreases(t: Seq<char>, pos: int, has_title: bool) {
    if 0 <= pos < t.len() {
        lemma_find_char_bound(t.subrange(pos, t.len() as int), '}');
    }
}

/// What is wrong with template `t`, if anything: it is blank; or, read from the left,
/// a `{` has no `}` after it, a placeholder name is empty or unknown; or `{title}`
/// never occurs.
pub open spec fn template_fault(t: Seq<char>) -> Option<TemplateFault> {
    if trim(t).len() == 0 {
        Some(TemplateFault::Empty)
    } else {
        fault_from(t, 0, false)
    }
}

/// Checks the syntax of a directory template.
pub fn validate_template(template: &str) -> (r: Result<(), AppError>)
    ensures
        r is Ok <==> template_fault(template@) is None,
        r matches Err(e) ==> e is InvalidTemplate && template_fault(template@) == Some(
            e->InvalidTemplate_0.fault(),
        ),
{
    let t = chars_of(template);
    let (lo, hi) = trim_bounds(t.as_slice());
    if lo == hi {
        return Err(AppError::InvalidTemplate(TemplateError::Empty));
    }
    let mut has_title = false;
    let mut pos: usize = 0;
    let n = t.len();
    while pos < n
        invariant
            n == t@.len(),
            t@ == template@,
            pos <= n,
            trim(t@).len() != 0,
            template_fault(t@) == fault_from(t@, pos as int, has_title),
        decreases n - pos,
    {
        if t[pos] == '{' {
            match find_from(t.as_slice(), pos, '}') {
                None => {
                    return Err(AppError::InvalidTemplate(TemplateError::Unclosed));
                },
                Some(close) => {
                    let name = copy_range(t.as_slice(), pos + 1, close);
                    if name.len() == 0 {
                        return Err(AppError::InvalidTemplate(TemplateError::EmptyPlaceholder));
                    }
                    match parse_placeholder(name.as_slice()) {
                        None => {
                            let s = string_of(name.as_slice());
                            return Err(AppError::InvalidTemplate(TemplateError::Unknown(s)));
                        },
                        Some(p) => {
                            if p == Placeholder::Title {
                                has_title = true;
                            }
                        },
                    }
                    pos = close + 1;
                },
            }
        } else {
            pos += 1;
        }
    }
    if !has_title {
        return Err(AppError::InvalidTemplate(TemplateError::MissingTitle));
    }
    Ok(())
}

/// `{title}` occurs somewhere in `t`.
pub open spec fn has_title_token(t: Seq<char>) -> bool {
    exists|i: int|
        0 <= i && i + 7 <= t.len() && #[trigger] t.subrange(i, i + 7) == seq![
            '{',
            't',
            'i',
            't',
            'l',
            'e',
            '}',
        ]
}

proof fn lemma_fault_from_title(t: Seq<char>, pos: int, has_title: bool)
    requires
        fault_from(t, pos, has_title) is None,
    ensures
        has_title || has_title_token(t),
    decreases t.len() - pos,
{
    if 0 <= pos < t.len() {
        if t[pos] == '{' {
            let rest = t.subrange(pos, t.len() as int);
            lemma_find_char_bound(rest, '}');
            let k = find_char(rest, '}')->0;
            let name = t.subrange(pos + 1, pos + k);
            lemma_fault_from_title(t, pos + k + 1, has_title || name == title_name());
            if name == title_name() && !has_title && !has_title_token(t) {
                assert(k == 6);
                assert(rest[6] == '}');
                assert(t.subrange(pos, pos + 7) =~= seq!['{', 't', 'i', 't', 'l', 'e', '}']) by {
                    assert(name[0] == t[pos + 1]);
                    assert(name[1] == t[pos + 2]);
                    assert(name[2] == t[pos + 3]);
                    assert(name[3] == t[pos + 4]);
                    assert(name[4] == t[pos + 5]);
                }
            }
        } else {
            lemma_fault_from_title(t, pos + 1, has_title);
        }
    }
}

/// Every template that passes validation names `{title}`; so one that does not name it
/// is refused.
pub proof fn lemma_valid_template_has_title(t: Seq<char>)
    requires
        template_fault(t) is None,
    ensures
        has_title_token(t),
{
    lemma_fault_from_title(t, 0, false);
}

proof fn lemma_braced_name_unknown(n: Seq<char>, j: int)
    requires
        0 <= j < n.len(),
        n[j] == '{',
    ensures
        placeholder_named(n) is None,
{
    if placeholder_named(n) is Some {
        let p = placeholder_named(n)->0;
        assert(n == p.name());
        assert(j < 6);
        if j == 0 {
            assert(p.name()[0] != '{');
        } else if j == 1 {
            assert(p.name()[1] != '{');
        } else if j == 2 {
            assert(p.name()[2] != '{');
        } else if j == 3 {
            assert(p.name()[3] != '{');
        } else if j == 4 {
            assert(p.name()[4] != '{');
        } else {
            assert(p.name()[5] != '{');
        }
    }
}

/// The `{` at `i` is never closed, or opens a name that is no placeholder.
pub open spec fn bad_brace_at(t: Seq<char>, i: int) -> bool {
    &&& 0 <= i < t.len()
    &&& t[i] == '{'
    &&& match find_char(t.subrange(i, t.len() as int), '}') {
        None => true,
        Some(k) => placeholder_named(t.subrange(i + 1, i + k)) is None,
    }
}

proof fn lemma_bad_brace_from(t: Seq<char>, pos: int, has_title: bool, i: int)
    requires
        0 <= pos <= i,
        bad_brace_at(t, i),
    ensures
        fault_from(t, pos, has_title) is Some,
    decreases i - pos,
{
    let rest = t.subrange(pos, t.len() as int);
    lemma_find_char_bound(rest, '}');
    if pos < i && t[pos] == '{' {
        match find_char(rest, '}') {
            None => {},
            Some(k) => {
                let q = pos + k;
                if q < i {
                    let name = t.subrange(pos + 1, pos + k);
                    if name.len() > 0 && placeholder_named(name) is Some {
                        lemma_bad_brace_from(t, q + 1, has_title || name == title_name(), i);
                    }
                } else {
                    assert(q != i);
                    let name = t.subrange(pos + 1, q);
                    assert(name[i - pos - 1] == t[i]);
                    lemma_braced_name_unknown(name, i - pos - 1);
                }
            },
        }
    } else if pos < i {
        lemma_bad_brace_from(t, pos + 1, has_title, i);
    }
}

/// A template in which some `{` is never closed, or opens a name that is not a
/// placeholder (`{unknown}`, `{}`), is refused.
pub proof fn lemma_bad_placeholder_refused(t: Seq<char>, i: int)
    requires
        bad_brace_at(t, i),
    ensures
        template_fault(t) is Some,
{
    if trim(t).len() != 0 {
        lemma_bad_brace_from(t, 0, false, i);
    }
}

/// The `{` at `i` opens a placeholder: a `}` follows and the name between is known.
pub open spec fn good_brace(t: Seq<char>, i: int) -> bool {
    match find_char(t.subrange(i, t.len() as int), '}') {
        None => false,
        Some(k) => placeholder_named(t.subrange(i + 1, i + k)) is Some,
    }
}

/// Every `{` of `t` before position `end` opens a placeholder.
pub open spec fn braces_good_before(t: Seq<char>, end: int) -> bool {
    forall|j: int| 0 <= j < end && j < t.len() && t[j] == '{' ==> #[trigger] good_brace(t, j)
}

/// `{title}` stands at position `i` of `t`.
pub open spec fn title_token_at(t: Seq<char>, i: int) -> bool {
    0 <= i && i + 7 <= t.len() && t.subrange(i, i + 7) == seq!['{', 't', 'i', 't', 'l', 'e', '}']
}

/// What a malformed `{` at `i` is reported as.
pub open spec fn brace_fault(t: Seq<char>, i: int) -> TemplateFault {
    match find_char(t.subrange(i, t.len() as int), '}') {
        None => TemplateFault::Unclosed,
        Some(k) => if k == 1 {
            TemplateFault::EmptyPlaceholder
        } else {
            TemplateFault::Unknown(t.subrange(i + 1, i + k))
        },
    }
}

/// A scan from `pos` over good braces moves to the next position, past a placeholder when
/// one opens at `pos`, without passing over any `{`.
proof fn lemma_scan_step(t: Seq<char>, pos: int, i: int)
    requires
        0 <= pos < i < t.len(),
        t[i] == '{',
        t[pos] == '{' ==> good_brace(t, pos),
    ensures
        t[pos] == '{' ==> ({
            let k = find_char(t.subrange(pos, t.len() as int), '}')->0;
            &&& pos + k < i
            &&& 1 <= k
        }),
{
    if t[pos] == '{' {
        let rest = t.subrange(pos, t.len() as int);
        lemma_find_char_bound(rest, '}');
        let k = find_char(rest, '}')->0;
        if pos + k >= i {
            assert(pos + k != i);
            let name = t.subrange(pos + 1, pos + k);
            assert(name[i - pos - 1] == t[i]);
            lemma_braced_name_unknown(name, i - pos - 1);
        }
    }
}

proof fn lemma_title_at(t: Seq<char>, i: int)
    requires
        title_token_at(t, i),
    ensures
        find_char(t.subrange(i, t.len() as int), '}') == Some(6nat),
        t.subrange(i + 1, i + 6) == title_name(),
{
    let rest = t.subrange(i, t.len() as int);
    let tok = t.subrange(i, i + 7);
    assert forall|k: int| 0 <= k < 6 implies rest[k] != '}' by {
        assert(rest[k] == tok[k]);
    }
    assert(rest[6] == tok[6]);
    crate::text::lemma_find_char_some(rest, '}', 6);
    assert(t.subrange(i + 1, i + 6) =~= tok.subrange(1, 6));
}

proof fn lemma_name_title(t: Seq<char>, pos: int)
    requires
        0 <= pos < t.len(),
        t[pos] == '{',
        good_brace(t, pos),
        t.subrange(pos + 1, pos + find_char(t.subrange(pos, t.len() as int), '}')->0) == title_name(),
    ensures
        title_token_at(t, pos),
{
    let rest = t.subrange(pos, t.len() as int);
    lemma_find_char_bound(rest, '}');
    let k = find_char(rest, '}')->0;
    let name = t.subrange(pos + 1, pos + k);
    assert(name.len() == 5);
    assert(rest[6] == '}');
    assert(t.subrange(pos, pos + 7) =~= seq!['{', 't', 'i', 't', 'l', 'e', '}']) by {
        assert(name[0] == t[pos + 1]);
        assert(name[1] == t[pos + 2]);
        assert(name[2] == t[pos + 3]);
        assert(name[3] == t[pos + 4]);
        assert(name[4] == t[pos + 5]);
    }
}

proof fn lemma_good_scan_accepts(t: Seq<char>, pos: int, has_title: bool, i: int)
    requires
        0 <= pos,
        braces_good_before(t, t.len() as int),
        has_title || (pos <= i && title_token_at(t, i)),
    ensures
        fault_from(t, pos, has_title) is None,
    decreases t.len() - pos,
{
    if pos < t.len() {
        let rest = t.subrange(pos, t.len() as int);
        lemma_find_char_bound(rest, '}');
        if t[pos] == '{' {
            assert(good_brace(t, pos));
            let k = find_char(rest, '}')->0;
            let name = t.subrange(pos + 1, pos + k);
            if !has_title && pos == i {
                lemma_title_at(t, i);
                lemma_good_scan_accepts(t, pos + k + 1, true, i);
            } else if !has_title {
                lemma_scan_step(t, pos, i);
                lemma_good_scan_accepts(t, pos + k + 1, has_title || name == title_name(), i);
            } else {
                lemma_good_scan_accepts(t, pos + k + 1, true, i);
            }
        } else {
            lemma_good_scan_accepts(t, pos + 1, has_title, i);
        }
    }
}

/// A template is accepted where it is not blank, every `{` opens a closed placeholder
/// with a known name, and `{title}` occurs.
pub proof fn lemma_well_formed_accepted(t: Seq<char>)
    requires
        trim(t).len() > 0,
        braces_good_before(t, t.len() as int),
        has_title_token(t),
    ensures
        template_fault(t) is None,
{
    let i = choose|i: int|
        0 <= i && i + 7 <= t.len() && #[trigger] t.subrange(i, i + 7) == seq![
            '{',
            't',
            'i',
            't',
            'l',
            'e',
            '}',
        ];
    lemma_good_scan_accepts(t, 0, false, i);
}

proof fn lemma_good_scan_no_title(t: Seq<char>, pos: int)
    requires
        0 <= pos,
        braces_good_before(t, t.len() as int),
        !has_title_token(t),
    ensures
        fault_from(t, pos, false) == Some(TemplateFault::MissingTitle),
    decreases t.len() - pos,
{
    if pos < t.len() {
        let rest = t.subrange(pos, t.len() as int);
        lemma_find_char_bound(rest, '}');
        if t[pos] == '{' {
            assert(good_brace(t, pos));
            let k = find_char(rest, '}')->0;
            let name = t.subrange(pos + 1, pos + k);
            if name == title_name() {
                lemma_name_title(t, pos);
                assert(t.subrange(pos, pos + 7) == seq!['{', 't', 'i', 't', 'l', 'e', '}']);
            }
            lemma_good_scan_no_title(t, pos + k + 1);
        } else {
            lemma_good_scan_no_title(t, pos + 1);
        }
    }
}

/// A template whose placeholders are all closed and known but which never names
/// `{title}` is refused for that reason: `{title}` is required.
pub proof fn lemma_missing_title_reported(t: Seq<char>)
    requires
        trim(t).len() > 0,
        braces_good_before(t, t.len() as int),
        !has_title_token(t),
    ensures
        template_fault(t) == Some(TemplateFault::MissingTitle),
{
    lemma_good_scan_no_title(t, 0);
}

proof fn lemma_scan_reaches(t: Seq<char>, pos: int, has_title: bool, i: int)
    requires
        0 <= pos <= i < t.len(),
        t[i] == '{',
        !good_brace(t, i),
        braces_good_before(t, i),
    ensures
        fault_from(t, pos, has_title) == Some(brace_fault(t, i)),
    decreases i - pos,
{
    let rest = t.subrange(pos, t.len() as int);
    lemma_find_char_bound(rest, '}');
    if pos == i {
        match find_char(rest, '}') {
            None => {},
            Some(k) => {
                let name = t.subrange(pos + 1, pos + k);
                if k == 1 {
                    assert(name.len() == 0);
                } else {
                    assert(name.len() > 0);
                }
            },
        }
    } else if t[pos] == '{' {
        assert(good_brace(t, pos));
        lemma_scan_step(t, pos, i);
        let k = find_char(rest, '}')->0;
        let name = t.subrange(pos + 1, pos + k);
        lemma_scan_reaches(t, pos + k + 1, has_title || name == title_name(), i);
    } else {
        lemma_scan_reaches(t, pos + 1, has_title, i);
    }
}

/// The first malformed `{` of a non-blank template decides the error: `Unclosed` where
/// no `}` follows it, `EmptyPlaceholder` for `{}`, and `Unknown` with the name otherwise.
pub proof fn lemma_first_bad_brace_reported(t: Seq<char>, i: int)
    requires
        trim(t).len() > 0,
        0 <= i < t.len(),
        t[i] == '{',
        !good_brace(t, i),
        braces_good_before(t, i),
    ensures
        template_fault(t) == Some(brace_fault(t, i)),
{
    lemma_scan_reaches(t, 0, false, i);
}

/// The characters no path segment may hold.
pub open spec fn is_forbidden(c: char) -> bool {
    c == '/' || c == '\\' || c == ':' || c == '*' || c == '?' || c == '"' || c == '<' || c
        == '>' || c == '|'
}

fn forbidden(c: char) -> (r: bool)
    ensures
        r == is_forbidden(c),
{
    c == '/' || c == '\\' || c == ':' || c == '*' || c == '?' || c == '"' || c == '<' || c
        == '>' || c == '|'
}

/// `s` without its forbidden characters.
pub open spec fn strip_forbidden(s: Seq<char>) -> Seq<char>
    decreases s.len(),
{
    if s.len() == 0 {
        s
    } else if is_forbidden(s.last()) {
        strip_forbidden(s.drop_last())
    } else {
        strip_forbidden(s.drop_last()).push(s.last())
    }
}

/// A segment made safe for a path: forbidden characters dropped, white space trimmed,
/// and `_` in place of an empty, `.` or `..` result.
pub open spec fn sanitized(s: Seq<char>) -> Seq<char> {
    let c = trim(strip_forbidden(s));
    if c.len() == 0 || c == seq!['.'] || c == seq!['.', '.'] {
        seq!['_']
    } else {
        c
    }
}

pub fn sanitize_segment(s: &[char]) -> (r: Vec<char>)
    ensures
        r@ == sanitized(s@),
{
    let mut kept: Vec<char> = Vec::new();
    let mut i: usize = 0;
    while i < s.len()
        invariant
            i <= s@.len(),
            kept@ == strip_forbidden(s@.subrange(0, i as int)),
        decreases s@.len() - i,
    {
        let ghost prev = s@.subrange(0, i as int);
        if !forbidden(s[i]) {
            kept.push(s[i]);
        }
        i += 1;
        proof {
            assert(s@.subrange(0, i as int).drop_last() =~= prev);
        }
    }
    assert(s@.subrange(0, s@.len() as int) =~= s@);
    let (lo, hi) = trim_bounds(kept.as_slice());
    let cleaned = copy_range(kept.as_slice(), lo, hi);
    let n = cleaned.len();
    if n == 0 || (n == 1 && cleaned[0] == '.') || (n == 2 && cleaned[0] == '.' && cleaned[1]
        == '.') {
        proof {
            if n == 1 && cleaned@[0] == '.' {
                assert(cleaned@ =~= seq!['.']);
            }
            if n == 2 && cleaned@[0] == '.' && cleaned@[1] == '.' {
                assert(cleaned@ =~= seq!['.', '.']);
            }
        }
        let mut u: Vec<char> = Vec::new();
        u.push('_');
        assert(u@ =~= seq!['_']);
        u
    } else {
        proof {
            if cleaned@ == seq!['.'] {
                assert(cleaned@[0] == '.');
            }
            if cleaned@ == seq!['.', '.'] {
                assert(cleaned@[0] == '.' && cleaned@[1] == '.');
            }
        }
        cleaned
    }
}

pub open spec fn or_unknown(v: Option<Seq<char>>) -> Seq<char> {
    match v {
        Some(s) => s,
        None => unknown_text(),
    }
}

/// The text a placeholder name stands for: the metadata's field, `Unknown` where the
/// field is absent, and `Unknown` for a name that is no placeholder.
pub open spec fn placeholder_text(name: Seq<char>, m: MetadataView) -> Seq<char> {
    match placeholder_named(name) {
        Some(Placeholder::Title) => m.title,
        Some(Placeholder::Artist) => or_unknown(m.artist),
        Some(Placeholder::Year) => match m.year {
            Some(y) => decimal(y as int),
            None => unknown_text(),
        },
        Some(Placeholder::Genre) => or_unknown(m.genre),
        Some(Placeholder::Circle) => or_unknown(m.circle),
        Some(Placeholder::Origin) => or_unknown(m.origin),
        Some(Placeholder::Type) => or_unknown(m.work_type),
        None => unknown_text(),
    }
}

fn push_or_unknown(out: &mut Vec<char>, v: &Option<String>)
    ensures
        final(out)@ == old(out)@ + or_unknown(opt_chars(*v)),
{
    match v {
        Some(s) => {
            let c = chars_of(s.as_str());
            push_all(out, c.as_slice());
        },
        None => push_unknown(out),
    }
}

fn push_unknown(out: &mut Vec<char>)
    ensures
        final(out)@ == old(out)@ + unknown_text(),
{
    let u = vec!['U', 'n', 'k', 'n', 'o', 'w', 'n'];
    assert(u@ =~= unknown_text());
    push_all(out, u.as_slice());
}

/// Appends the text that placeholder `name` stands for.
fn resolve_placeholder(out: &mut Vec<char>, name: &[char], metadata: &WorkMetadata)
    ensures
        final(out)@ == old(out)@ + placeholder_text(name@, metadata@),
{
    match parse_placeholder(name) {
        Some(Placeholder::Title) => {
            let c = chars_of(metadata.title.as_str());
            push_all(out, c.as_slice());
        },
        Some(Placeholder::Artist) => push_or_unknown(out, &metadata.artist),
        Some(Placeholder::Year) => match metadata.year {
            Some(y) => push_decimal(out, y),
            None => push_unknown(out),
        },
        Some(Placeholder::Genre) => push_or_unknown(out, &metadata.genre),
        Some(Placeholder::Circle) => push_or_unknown(out, &metadata.circle),
        Some(Placeholder::Origin) => push_or_unknown(out, &metadata.origin),
        Some(Placeholder::Type) => push_or_unknown(out, &metadata.work_type),
        None => push_unknown(out),
    }
}

/// A segment with each `{name}` replaced by its text; a `{` with no `}` after it stays.
pub open spec fn substituted(seg: Seq<char>, m: MetadataView) -> Seq<char>
    decreases seg.len(),
    via substituted_decreases
{
    if seg.len() == 0 {
        seg
    } else if seg[0] == '{' {
        match find_char(seg, '}') {
            Some(k) => placeholder_text(seg.subrange(1, k as int), m) + substituted(
                seg.subrange(k as int + 1, seg.len() as int),
                m,
            ),
            None => seq!['{'] + substituted(seg.drop_first(), m),
        }
    } else {
        seq![seg[0]] + substituted(seg.drop_first(), m)
    }
}

#[via_fn]
proof fn substituted_decreases(seg: Seq<char>, m: MetadataView) {
    lemma_find_char_bound(seg, '}');
}

fn substitute(seg: &[char], metadata: &WorkMetadata) -> (r: Vec<char>)
    ensures
        r@ == substituted(seg@, metadata@),
{
    let mut out: Vec<char> = Vec::new();
    let mut i: usize = 0;
    let n = seg.len();
    assert(seg@.subrange(0, n as int) =~= seg@);
    while i < n
        invariant
            n == seg@.len(),
            i <= n,
            out@ + substituted(seg@.subrange(i as int, n as int), metadata@) == substituted(
                seg@,
                metadata@,
            ),
        decreases n - i,
    {
        let ghost rest = seg@.subrange(i as int, n as int);
        let ghost before = out@;
        if seg[i] == '{' {
            match find_from(seg, i, '}') {
                Some(close) => {
                    let name = copy_range(seg, i + 1, close);
                    resolve_placeholder(&mut out, name.as_slice(), metadata);
                    proof {
                        assert(rest.subrange(1, close - i) =~= name@);
                        assert(rest.subrange(close - i + 1, rest.len() as int) =~= seg@.subrange(
                            close + 1,
                            n as int,
                        ));
                        assert(out@ + substituted(seg@.subrange(close + 1, n as int), metadata@)
                            =~= before + substituted(rest, metadata@));
                    }
                    i = close + 1;
                },
                None => {
                    out.push('{');
                    proof {
                        assert(rest.drop_first() =~= seg@.subrange(i + 1, n as int));
                        assert(out@ + substituted(seg@.subrange(i + 1, n as int), metadata@)
                            =~= before + substituted(rest, metadata@));
                    }
                    i += 1;
                },
            }
        } else {
            out.push(seg[i]);
            proof {
                assert(rest.drop_first() =~= seg@.subrange(i + 1, n as int));
                assert(out@ + substituted(seg@.subrange(i + 1, n as int), metadata@) =~= before
                    + substituted(rest, metadata@));
            }
            i += 1;
        }
    }
    assert(out@ =~= out@ + substituted(seg@.subrange(n as int, n as int), metadata@));
    out
}

/// One rendered segment.
pub open spec fn rendered_segment(seg: Seq<char>, m: MetadataView) -> Seq<char> {
    sanitized(substituted(seg, m))
}

/// The rendered segments of template `t`, one for each piece between slashes.
pub open spec fn rendered_segments(t: Seq<char>, m: MetadataView) -> Seq<Seq<char>> {
    split_slash(t).map_values(|seg: Seq<char>| rendered_segment(seg, m))
}

/// Template `t` rendered for `m`: its rendered segments joined by slashes.
pub open spec fn rendered(t: Seq<char>, m: MetadataView) -> Seq<char> {
    join_slash(rendered_segments(t, m))
}

/// The rendered segments, each one a vector.
pub fn render_segments(template: &str, metadata: &WorkMetadata) -> (r: Vec<Vec<char>>)
    ensures
        views(r@) == rendered_segments(template@, metadata@),
{
    let t = chars_of(template);
    let pieces = split_pieces(t.as_slice());
    let mut out: Vec<Vec<char>> = Vec::new();
    let mut i: usize = 0;
    while i < pieces.len()
        invariant
            i <= pieces@.len(),
            views(pieces@) == split_slash(template@),
            views(out@) == views(pieces@).subrange(0, i as int).map_values(
                |seg: Seq<char>| rendered_segment(seg, metadata@),
            ),
        decreases pieces@.len() - i,
    {
        let sub = substitute(pieces[i].as_slice(), metadata);
        let seg = sanitize_segment(sub.as_slice());
        let ghost before = views(out@);
        let ghost piece = pieces@[i as int]@;
        assert(views(pieces@)[i as int] == piece);
        out.push(seg);
        i += 1;
        proof {
            let f = |seg: Seq<char>| rendered_segment(seg, metadata@);
            assert(views(out@) =~= before.push(seg@));
            assert(views(pieces@).subrange(0, i as int) =~= views(pieces@).subrange(
                0,
                i - 1,
            ).push(piece));
            assert(views(pieces@).subrange(0, i as int).map_values(f) =~= views(pieces@).subrange(
                0,
                i - 1,
            ).map_values(f).push(f(piece)));
            assert(views(out@) =~= views(pieces@).subrange(0, i as int).map_values(f));
        }
    }
    assert(views(pieces@).subrange(0, pieces@.len() as int) =~= views(pieces@));
    out
}

/// Renders a template for a work: each piece between slashes has its placeholders
/// replaced and is then made safe as a path segment.
pub fn render_template(template: &str, metadata: &WorkMetadata) -> (r: String)
    ensures
        r@ == rendered(template@, metadata@),
{
    let segs = render_segments(template, metadata);
    let mut out: Vec<char> = Vec::new();
    push_joined(&mut out, &segs);
    assert(out@ =~= rendered(template@, metadata@));
    string_of(out.as_slice())
}

proof fn lemma_strip_clean(s: Seq<char>)
    ensures
        forall|i: int|
            0 <= i < strip_forbidden(s).len() ==> !is_forbidden(#[trigger] strip_forbidden(s)[i]),
    decreases s.len(),
{
    if s.len() > 0 {
        lemma_strip_clean(s.drop_last());
        let r = strip_forbidden(s);
        let p = strip_forbidden(s.drop_last());
        if !is_forbidden(s.last()) {
            assert(r == p.push(s.last()));
            assert forall|i: int| 0 <= i < r.len() implies !is_forbidden(#[trigger] r[i]) by {
                if i < p.len() {
                    assert(r[i] == p[i]);
                }
            }
        } else {
            assert(r == p);
        }
    }
}

proof fn lemma_trim_start_clean(s: Seq<char>)
    requires
        forall|i: int| 0 <= i < s.len() ==> !is_forbidden(#[trigger] s[i]),
    ensures
        forall|i: int| 0 <= i < trim_start(s).len() ==> !is_forbidden(#[trigger] trim_start(s)[i]),
    decreases s.len(),
{
    if s.len() > 0 && is_space(s[0]) {
        assert forall|i: int| 0 <= i < s.drop_first().len() implies !is_forbidden(
            #[trigger] s.drop_first()[i],
        ) by {
            assert(s.drop_first()[i] == s[i + 1]);
        }
        lemma_trim_start_clean(s.drop_first());
        assert(trim_start(s) == trim_start(s.drop_first()));
    } else {
        assert(trim_start(s) == s);
    }
}

proof fn lemma_trim_end_clean(s: Seq<char>)
    requires
        forall|i: int| 0 <= i < s.len() ==> !is_forbidden(#[trigger] s[i]),
    ensures
        forall|i: int| 0 <= i < trim_end(s).len() ==> !is_forbidden(#[trigger] trim_end(s)[i]),
    decreases s.len(),
{
    if s.len() > 0 && is_space(s.last()) {
        assert forall|i: int| 0 <= i < s.drop_last().len() implies !is_forbidden(
            #[trigger] s.drop_last()[i],
        ) by {
            assert(s.drop_last()[i] == s[i]);
        }
        lemma_trim_end_clean(s.drop_last());
        assert(trim_end(s) == trim_end(s.drop_last()));
    } else {
        assert(trim_end(s) == s);
    }
}

/// A sanitized segment is a usable name: not empty, not `.` or `..`, and free of every
/// forbidden character, the slash among them.
pub proof fn lemma_sanitized_clean(s: Seq<char>)
    ensures
        sanitized(s).len() > 0,
        sanitized(s) != seq!['.'],
        sanitized(s) != seq!['.', '.'],
        forall|i: int| 0 <= i < sanitized(s).len() ==> !is_forbidden(#[trigger] sanitized(s)[i]),
{
    lemma_strip_clean(s);
    lemma_trim_start_clean(strip_forbidden(s));
    lemma_trim_end_clean(trim_start(strip_forbidden(s)));
    if sanitized(s) == seq!['_'] {
        assert(sanitized(s)[0] == '_');
    }
}

/// A field made only of forbidden characters leaves no empty segment: it becomes `_`.
pub proof fn lemma_forbidden_only_collapses(s: Seq<char>)
    requires
        forall|i: int| 0 <= i < s.len() ==> is_forbidden(#[trigger] s[i]),
    ensures
        sanitized(s) == seq!['_'],
    decreases s.len(),
{
    assert(strip_forbidden(s).len() == 0) by {
        lemma_strip_all_forbidden(s);
    }
}

proof fn lemma_strip_all_forbidden(s: Seq<char>)
    requires
        forall|i: int| 0 <= i < s.len() ==> is_forbidden(#[trigger] s[i]),
    ensures
        strip_forbidden(s).len() == 0,
    decreases s.len(),
{
    if s.len() > 0 {
        assert forall|i: int| 0 <= i < s.drop_last().len() implies is_forbidden(
            #[trigger] s.drop_last()[i],
        ) by {
            assert(s.drop_last()[i] == s[i]);
        }
        lemma_strip_all_forbidden(s.drop_last());
    }
}

proof fn lemma_join_clean(segs: Seq<Seq<char>>)
    requires
        forall|k: int, i: int|
            0 <= k < segs.len() && 0 <= i < segs[k].len() ==> !is_forbidden(#[trigger] segs[k][i]),
    ensures
        forall|i: int|
            0 <= i < join_slash(segs).len() ==> join_slash(segs)[i] == '/' || !is_forbidden(
                #[trigger] join_slash(segs)[i],
            ),
    decreases segs.len(),
{
    if segs.len() > 1 {
        let front = segs.drop_last();
        assert forall|k: int, i: int|
            0 <= k < front.len() && 0 <= i < front[k].len() implies !is_forbidden(
            #[trigger] front[k][i],
        ) by {
            assert(front[k] == segs[k]);
        }
        lemma_join_clean(front);
        let j = join_slash(segs);
        let a = join_slash(front);
        let l = segs.last();
        assert(j == a + seq!['/'] + l);
        assert forall|i: int| 0 <= i < j.len() implies j[i] == '/' || !is_forbidden(
            #[trigger] j[i],
        ) by {
            if i < a.len() {
                assert(j[i] == a[i]);
            } else if i == a.len() {
                assert(j[i] == '/');
            } else {
                assert(j[i] == l[i - a.len() - 1]);
                assert(segs[segs.len() - 1] == l);
            }
        }
    } else if segs.len() == 1 {
        assert(join_slash(segs) == segs[0]);
    }
}

/// Every rendered segment is a sanitized one.
pub proof fn lemma_segments_clean(t: Seq<char>, m: MetadataView)
    ensures
        forall|k: int|
            0 <= k < rendered_segments(t, m).len() ==> #[trigger] rendered_segments(t, m)[k]
                == sanitized(substituted(split_slash(t)[k], m)),
        forall|k: int, i: int|
            0 <= k < rendered_segments(t, m).len() && 0 <= i < rendered_segments(t, m)[k].len()
                ==> !is_forbidden(#[trigger] rendered_segments(t, m)[k][i]),
        forall|k: int|
            0 <= k < rendered_segments(t, m).len() ==> (#[trigger] rendered_segments(t, m)[k]).len()
                > 0 && rendered_segments(t, m)[k] != seq!['.'] && rendered_segments(t, m)[k]
                != seq!['.', '.'],
{
    let segs = rendered_segments(t, m);
    assert forall|k: int| 0 <= k < segs.len() implies #[trigger] segs[k] == sanitized(
        substituted(split_slash(t)[k], m),
    ) by {}
    assert forall|k: int, i: int| 0 <= k < segs.len() && 0 <= i < segs[k].len() implies !is_forbidden(
        #[trigger] segs[k][i],
    ) by {
        lemma_sanitized_clean(substituted(split_slash(t)[k], m));
    }
    assert forall|k: int| 0 <= k < segs.len() implies (#[trigger] segs[k]).len() > 0 && segs[k]
        != seq!['.'] && segs[k] != seq!['.', '.'] by {
        lemma_sanitized_clean(substituted(split_slash(t)[k], m));
    }
}

/// Rendering never writes `\ : * ? " < > |`: each character of a rendered template is
/// a slash between segments or a character allowed in a name.
pub proof fn lemma_rendered_has_no_forbidden(t: Seq<char>, m: MetadataView)
    ensures
        forall|i: int|
            0 <= i < rendered(t, m).len() ==> rendered(t, m)[i] == '/' || !is_forbidden(
                #[trigger] rendered(t, m)[i],
            ),
{
    lemma_segments_clean(t, m);
    lemma_join_clean(rendered_segments(t, m));
}

/// The metadata shown when a template is previewed.
pub open spec fn sample_view() -> MetadataView {
    MetadataView {
        title: seq!['M', 'y', ' ', 'A', 'r', 't', 'w', 'o', 'r', 'k'],
        artist: Some(seq!['A', 'r', 't', 'i', 's', 't', ' ', 'N', 'a', 'm', 'e']),
        year: Some(2025i32),
        genre: Some(seq!['I', 'l', 'l', 'u', 's', 't', 'r', 'a', 't', 'i', 'o', 'n']),
        circle: Some(seq!['C', 'i', 'r', 'c', 'l', 'e']),
        origin: Some(seq!['O', 'r', 'i', 'g', 'i', 'n', 'a', 'l']),
        work_type: None,
    }
}

/// The metadata shown when a template is previewed.
pub fn sample_metadata() -> (r: WorkMetadata)
    ensures
        r@ == sample_view(),
{
    let title = vec!['M', 'y', ' ', 'A', 'r', 't', 'w', 'o', 'r', 'k'];
    let artist = vec!['A', 'r', 't', 'i', 's', 't', ' ', 'N', 'a', 'm', 'e'];
    let genre = vec!['I', 'l', 'l', 'u', 's', 't', 'r', 'a', 't', 'i', 'o', 'n'];
    let circle = vec!['C', 'i', 'r', 'c', 'l', 'e'];
    let origin = vec!['O', 'r', 'i', 'g', 'i', 'n', 'a', 'l'];
    let r = WorkMetadata {
        title: string_of(title.as_slice()),
        artist: Some(string_of(artist.as_slice())),
        year: Some(2025),
        genre: Some(string_of(genre.as_slice())),
        circle: Some(string_of(circle.as_slice())),
        origin: Some(string_of(origin.as_slice())),
        work_type: None,
    };
    assert(r@.title =~= sample_view().title);
    r
}

/// A template checked and rendered for the sample metadata, as the settings screen
/// previews it.
pub fn preview_template(template: &str) -> (r: Result<String, AppError>)
    ensures
        r is Ok <==> template_fault(template@) is None,
        r matches Ok(s) ==> s@ == rendered(template@, sample_view()),
        r matches Err(e) ==> e is InvalidTemplate && template_fault(template@) == Some(
            e->InvalidTemplate_0.fault(),
        ),
{
    match validate_template(template) {
        Err(e) => Err(e),
        Ok(()) => {
            let m = sample_metadata();
            Ok(render_template(template, &m))
        },
    }
}

/// The template to store as the directory layout: `template` trimmed, and checked before
/// it is stored; a blank one is refused like any other invalid template.
pub fn template_to_store(template: &str) -> (r: Result<String, AppError>)
    ensures
        trim(template@).len() == 0 ==> (r matches Err(e) && e matches AppError::InvalidTemplate(
            TemplateError::Empty,
        )),
        r is Ok <==> template_fault(trim(template@)) is None,
        r matches Ok(s) ==> s@ == trim(template@),
        r matches Err(e) ==> e is InvalidTemplate && template_fault(trim(template@)) == Some(
            e->InvalidTemplate_0.fault(),
        ),
{
    let t = chars_of(template);
    let (lo, hi) = trim_bounds(t.as_slice());
    if lo == hi {
        assert(trim(trim(template@)) =~= seq![]);
        return Err(AppError::InvalidTemplate(TemplateError::Empty));
    }
    let kept = copy_range(t.as_slice(), lo, hi);
    let trimmed = string_of(kept.as_slice());
    match validate_template(trimmed.as_str()) {
        Err(e) => Err(e),
        Ok(()) => Ok(trimmed),
    }
}

} // verus!
