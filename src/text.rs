use vstd::prelude::*;
use vstd::std_specs::iter::IteratorSpec;

verus! {

/// The characters of `s`, in order.
pub(crate) fn chars_of(s: &str) -> (r: Vec<char>)
    ensures
        r@ == s@,
{
    broadcast use vstd::string::axiom_spec_iter, vstd::string::next_postcondition;

    let mut it = s.chars();
    let mut out: Vec<char> = Vec::new();
    loop
        invariant
            it.obeys_prophetic_iter_laws(),
            it.decrease() is Some,
            out@ + it.remaining() == s@,
        decreases it.decrease()->0,
    {
        match it.next() {
            Some(c) => {
                out.push(c);
                assert(out@ + it.remaining() =~= s@);
            },
            None => {
                assert(out@ =~= s@);
                return out;
            },
        }
    }
}

/// Relies on `String: FromIterator<char>`: a string holding exactly these characters.
#[verifier::external_body]
pub(crate) fn string_of(v: &[char]) -> (r: String)
    ensures
        r@ == v@,
{
    v.iter().collect()
}

/// The Unicode `White_Space` characters, which `char::is_whitespace` recognises.
pub open spec fn is_space(c: char) -> bool {
    let u = c as u32;
    (0x9 <= u <= 0xd) || u == 0x20 || u == 0x85 || u == 0xa0 || u == 0x1680 || (0x2000 <= u
        <= 0x200a) || u == 0x2028 || u == 0x2029 || u == 0x202f || u == 0x205f || u == 0x3000
}

pub fn space(c: char) -> (r: bool)
    ensures
        r == is_space(c),
{
    let u = c as u32;
    (0x9 <= u && u <= 0xd) || u == 0x20 || u == 0x85 || u == 0xa0 || u == 0x1680 || (0x2000 <= u
        && u <= 0x200a) || u == 0x2028 || u == 0x2029 || u == 0x202f || u == 0x205f || u == 0x3000
}

/// `s` without leading white space.
pub open spec fn trim_start(s: Seq<char>) -> Seq<char>
    decreases s.len(),
{
    if s.len() > 0 && is_space(s[0]) {
        trim_start(s.drop_first())
    } else {
        s
    }
}

/// `s` without trailing white space.
pub open spec fn trim_end(s: Seq<char>) -> Seq<char>
    decreases s.len(),
{
    if s.len() > 0 && is_space(s.last()) {
        trim_end(s.drop_last())
    } else {
        s
    }
}

/// `s` without white space at either end, as `str::trim` gives it.
pub open spec fn trim(s: Seq<char>) -> Seq<char> {
    trim_end(trim_start(s))
}

/// The position of the first `c` in `s`, if any.
pub open spec fn find_char(s: Seq<char>, c: char) -> Option<nat>
    decreases s.len(),
{
    if s.len() == 0 {
        None
    } else if s[0] == c {
        Some(0)
    } else {
        match find_char(s.drop_first(), c) {
            Some(i) => Some(i + 1),
            None => None,
        }
    }
}

pub proof fn lemma_find_char_none(s: Seq<char>, c: char)
    requires
        forall|k: int| 0 <= k < s.len() ==> s[k] != c,
    ensures
        find_char(s, c) is None,
    decreases s.len(),
{
    if s.len() > 0 {
        lemma_find_char_none(s.drop_first(), c);
    }
}

pub proof fn lemma_find_char_some(s: Seq<char>, c: char, j: int)
    requires
        0 <= j < s.len(),
        s[j] == c,
        forall|k: int| 0 <= k < j ==> s[k] != c,
    ensures
        find_char(s, c) == Some(j as nat),
    decreases s.len(),
{
    if j > 0 {
        lemma_find_char_some(s.drop_first(), c, j - 1);
    }
}

pub proof fn lemma_find_char_bound(s: Seq<char>, c: char)
    ensures
        match find_char(s, c) {
            Some(k) => k < s.len() && s[k as int] == c && forall|i: int| 0 <= i < k ==> s[i] != c,
            None => forall|i: int| 0 <= i < s.len() ==> s[i] != c,
        },
    decreases s.len(),
{
    if s.len() > 0 {
        lemma_find_char_bound(s.drop_first(), c);
        if s[0] != c {
            assert forall|i: int| 1 <= i < s.len() implies s[i] == s.drop_first()[i - 1] by {}
        }
    }
}

/// The first position at or after `from` where `s` holds `c`.
pub fn find_from(s: &[char], from: usize, c: char) -> (r: Option<usize>)
    requires
        from <= s@.len(),
    ensures
        match r {
            Some(j) => from <= j < s@.len() && find_char(s@.subrange(from as int, s@.len() as int), c)
                == Some((j - from) as nat),
            None => find_char(s@.subrange(from as int, s@.len() as int), c) is None,
        },
{
    let ghost tail = s@.subrange(from as int, s@.len() as int);
    let mut j = from;
    while j < s.len()
        invariant
            from <= j <= s@.len(),
            tail == s@.subrange(from as int, s@.len() as int),
            forall|k: int| from <= k < j ==> s@[k] != c,
        decreases s@.len() - j,
    {
        if s[j] == c {
            proof {
                lemma_find_char_some(tail, c, j - from);
            }
            return Some(j);
        }
        j += 1;
    }
    proof {
        lemma_find_char_none(tail, c);
    }
    None
}

pub fn same_chars(a: &[char], b: &[char]) -> (r: bool)
    ensures
        r == (a@ == b@),
{
    if a.len() != b.len() {
        return false;
    }
    let mut i: usize = 0;
    while i < a.len()
        invariant
            a@.len() == b@.len(),
            i <= a@.len(),
            forall|k: int| 0 <= k < i ==> a@[k] == b@[k],
        decreases a@.len() - i,
    {
        if a[i] != b[i] {
            return false;
        }
        i += 1;
    }
    assert(a@ =~= b@);
    true
}

/// A copy of `s[lo..hi]`.
pub fn copy_range(s: &[char], lo: usize, hi: usize) -> (r: Vec<char>)
    requires
        lo <= hi <= s@.len(),
    ensures
        r@ == s@.subrange(lo as int, hi as int),
{
    let mut r: Vec<char> = Vec::new();
    let mut i = lo;
    while i < hi
        invariant
            lo <= i <= hi <= s@.len(),
            r@ == s@.subrange(lo as int, i as int),
        decreases hi - i,
    {
        r.push(s[i]);
        i += 1;
        proof {
            assert(r@ =~= s@.subrange(lo as int, i as int));
        }
    }
    r
}

/// A copy of `s`.
pub(crate) fn copy_text(s: &String) -> (r: String)
    ensures
        r@ == s@,
{
    let c = chars_of(s.as_str());
    string_of(c.as_slice())
}

/// A copy of `v`.
pub fn dup(v: &Vec<char>) -> (r: Vec<char>)
    ensures
        r@ == v@,
{
    let r = copy_range(v.as_slice(), 0, v.len());
    assert(v@.subrange(0, v@.len() as int) =~= v@);
    r
}

/// The pieces of `s` between slashes, as `str::split('/')` gives them.
pub open spec fn split_slash(s: Seq<char>) -> Seq<Seq<char>>
    decreases s.len(),
    via split_slash_decreases
{
    match find_char(s, '/') {
        None => seq![s],
        Some(j) => seq![s.subrange(0, j as int)] + split_slash(s.subrange(j as int + 1, s.len() as int)),
    }
}

#[via_fn]
proof fn split_slash_decreases(s: Seq<char>) {
    lemma_find_char_bound(s, '/');
}

/// Pieces joined with a slash between each two, as `join("/")` gives them.
pub open spec fn join_slash(segs: Seq<Seq<char>>) -> Seq<char>
    decreases segs.len(),
{
    if segs.len() == 0 {
        seq![]
    } else if segs.len() == 1 {
        segs[0]
    } else {
        join_slash(segs.drop_last()) + seq!['/'] + segs.last()
    }
}

/// The character sequences that a list of vectors holds.
pub open spec fn views(v: Seq<Vec<char>>) -> Seq<Seq<char>> {
    v.map_values(|x: Vec<char>| x@)
}

/// Splits `s` at every slash.
pub fn split_pieces(s: &[char]) -> (r: Vec<Vec<char>>)
    ensures
        views(r@) == split_slash(s@),
{
    let mut out: Vec<Vec<char>> = Vec::new();
    let mut pos: usize = 0;
    let n = s.len();
    assert(s@.subrange(0, s@.len() as int) =~= s@);
    loop
        invariant
            n == s@.len(),
            pos <= s@.len(),
            views(out@) + split_slash(s@.subrange(pos as int, s@.len() as int)) == split_slash(s@),
        decreases s@.len() - pos,
    {
        let ghost rest = s@.subrange(pos as int, s@.len() as int);
        match find_from(s, pos, '/') {
            None => {
                let piece = copy_range(s, pos, s.len());
                let ghost before = views(out@);
                out.push(piece);
                proof {
                    assert(views(out@) =~= before.push(piece@));
                    assert(split_slash(rest) == seq![rest]);
                    assert(views(out@) =~= before + split_slash(rest));
                }
                return out;
            },
            Some(j) => {
                let piece = copy_range(s, pos, j);
                let ghost before = views(out@);
                out.push(piece);
                proof {
                    assert(views(out@) =~= before.push(piece@));
                    assert(rest.subrange(0, j - pos) =~= piece@);
                    assert(rest.subrange(j - pos + 1, rest.len() as int) =~= s@.subrange(
                        j + 1,
                        s@.len() as int,
                    ));
                    assert(before + split_slash(rest) =~= views(out@) + split_slash(
                        s@.subrange(j + 1, s@.len() as int),
                    ));
                }
                pos = j + 1;
            },
        }
    }
}

/// Appends the pieces to `out` with a slash between each two.
pub fn push_joined(out: &mut Vec<char>, segs: &Vec<Vec<char>>)
    ensures
        final(out)@ == old(out)@ + join_slash(views(segs@)),
{
    let mut i: usize = 0;
    while i < segs.len()
        invariant
            i <= segs@.len(),
            out@ == old(out)@ + join_slash(views(segs@).subrange(0, i as int)),
        decreases segs@.len() - i,
    {
        let ghost done = views(segs@).subrange(0, i as int);
        let ghost before = out@;
        if i > 0 {
            out.push('/');
        }
        push_all(out, segs[i].as_slice());
        i += 1;
        proof {
            let now = views(segs@).subrange(0, i as int);
            assert(now.drop_last() =~= done);
            if i == 1 {
                assert(out@ =~= old(out)@ + join_slash(now));
            } else {
                assert(out@ =~= old(out)@ + join_slash(now));
            }
        }
    }
    assert(views(segs@).subrange(0, segs@.len() as int) =~= views(segs@));
}

/// The trimmed part of `s`, as the bounds `[lo, hi)`.
pub fn trim_bounds(s: &[char]) -> (r: (usize, usize))
    ensures
        r.0 <= r.1 <= s@.len(),
        trim(s@) == s@.subrange(r.0 as int, r.1 as int),
{
    let mut lo: usize = 0;
    assert(s@.subrange(0, s@.len() as int) =~= s@);
    while lo < s.len() && space(s[lo])
        invariant
            lo <= s@.len(),
            trim_start(s@) == trim_start(s@.subrange(lo as int, s@.len() as int)),
        decreases s@.len() - lo,
    {
        proof {
            let t = s@.subrange(lo as int, s@.len() as int);
            assert(t.drop_first() =~= s@.subrange(lo + 1, s@.len() as int));
        }
        lo += 1;
    }
    let ghost front = s@.subrange(lo as int, s@.len() as int);
    assert(trim_start(front) == front);
    let mut hi: usize = s.len();
    while hi > lo && space(s[hi - 1])
        invariant
            lo <= hi <= s@.len(),
            front == s@.subrange(lo as int, s@.len() as int),
            trim_end(front) == trim_end(s@.subrange(lo as int, hi as int)),
        decreases hi,
    {
        proof {
            let t = s@.subrange(lo as int, hi as int);
            assert(t.drop_last() =~= s@.subrange(lo as int, hi - 1));
        }
        hi -= 1;
    }
    (lo, hi)
}

/// The decimal digit for `d`.
pub open spec fn digit_char(d: int) -> char {
    if d == 0 {
        '0'
    } else if d == 1 {
        '1'
    } else if d == 2 {
        '2'
    } else if d == 3 {
        '3'
    } else if d == 4 {
        '4'
    } else if d == 5 {
        '5'
    } else if d == 6 {
        '6'
    } else if d == 7 {
        '7'
    } else if d == 8 {
        '8'
    } else {
        '9'
    }
}

/// The decimal digits of a natural number, most significant first, without leading zeros.
pub open spec fn digits(n: nat) -> Seq<char>
    decreases n,
{
    if n < 10 {
        seq![digit_char(n as int)]
    } else {
        digits(n / 10).push(digit_char((n % 10) as int))
    }
}

/// An integer written in decimal, as `i32::to_string` writes it.
pub open spec fn decimal(n: int) -> Seq<char> {
    if n < 0 {
        seq!['-'] + digits((-n) as nat)
    } else {
        digits(n as nat)
    }
}

fn digit(d: u64) -> (r: char)
    requires
        d < 10,
    ensures
        r == digit_char(d as int),
{
    if d == 0 {
        '0'
    } else if d == 1 {
        '1'
    } else if d == 2 {
        '2'
    } else if d == 3 {
        '3'
    } else if d == 4 {
        '4'
    } else if d == 5 {
        '5'
    } else if d == 6 {
        '6'
    } else if d == 7 {
        '7'
    } else if d == 8 {
        '8'
    } else {
        '9'
    }
}

/// Appends the decimal digits of `n` to `out`.
pub fn push_digits(out: &mut Vec<char>, n: u64)
    ensures
        final(out)@ == old(out)@ + digits(n as nat),
    decreases n,
{
    if n < 10 {
        out.push(digit(n));
    } else {
        push_digits(out, n / 10);
        out.push(digit(n % 10));
        proof {
            assert(final(out)@ =~= old(out)@ + digits(n as nat));
        }
    }
}

/// Appends `n` in decimal to `out`.
pub fn push_decimal(out: &mut Vec<char>, n: i32)
    ensures
        final(out)@ == old(out)@ + decimal(n as int),
{
    if n < 0 {
        out.push('-');
        let m: i64 = -(n as i64);
        push_digits(out, m as u64);
        proof {
            assert(final(out)@ =~= old(out)@ + decimal(n as int));
        }
    } else {
        push_digits(out, n as u64);
    }
}

pub fn push_all(out: &mut Vec<char>, s: &[char])
    ensures
        final(out)@ == old(out)@ + s@,
{
    let mut i: usize = 0;
    while i < s.len()
        invariant
            i <= s@.len(),
            out@ == old(out)@ + s@.subrange(0, i as int),
        decreases s@.len() - i,
    {
        out.push(s[i]);
        i += 1;
        proof {
            assert(out@ =~= old(out)@ + s@.subrange(0, i as int));
        }
    }
    assert(s@.subrange(0, s@.len() as int) =~= s@);
}


/// The position of the first occurrence of `pat` in `s`, if any.
pub open spec fn find_seq(s: Seq<char>, pat: Seq<char>) -> Option<nat>
    decreases s.len(),
{
    if s.len() < pat.len() {
        None
    } else if s.subrange(0, pat.len() as int) == pat {
        Some(0)
    } else if s.len() == 0 {
        None
    } else {
        match find_seq(s.drop_first(), pat) {
            Some(i) => Some(i + 1),
            None => None,
        }
    }
}

/// The first position at which `pat` occurs in `s`.
pub fn find_pattern(s: &[char], pat: &[char]) -> (r: Option<usize>)
    ensures
        match r {
            Some(i) => find_seq(s@, pat@) == Some(i as nat) && i + pat@.len() <= s@.len(),
            None => find_seq(s@, pat@) is None,
        },
{
    let n = s.len();
    let m = pat.len();
    let mut i: usize = 0;
    assert(s@.subrange(0, n as int) =~= s@);
    while i <= n
        invariant
            n == s@.len(),
            m == pat@.len(),
            i <= n,
            find_seq(s@, pat@) == match find_seq(s@.subrange(i as int, n as int), pat@) {
                Some(k) => Some((k + i) as nat),
                None => None,
            },
        decreases n + 1 - i,
    {
        let ghost rest = s@.subrange(i as int, n as int);
        if n - i < m {
            return None;
        }
        let mut j: usize = 0;
        while j < m && s[i + j] == pat[j]
            invariant
                n == s@.len(),
                m == pat@.len(),
                i + m <= n,
                j <= m,
                forall|k: int| 0 <= k < j ==> s@[i + k] == pat@[k],
            decreases m - j,
        {
            j += 1;
        }
        if j == m {
            assert(rest.subrange(0, m as int) =~= pat@);
            return Some(i);
        }
        proof {
            assert(s@[i + j] != pat@[j as int]);
            assert(rest.subrange(0, m as int)[j as int] == s@[i + j]);
            assert(i < n);
            assert(rest.drop_first() =~= s@.subrange(i + 1, n as int));
        }
        i += 1;
    }
    None
}

} // verus!
