//! Reader for instances in the PACE 2026 container format.
//!
//! The reader is implemented using the visitor pattern. It processes the
//! input line by line, classifies each line, and invokes methods on the
//! provided [`InstanceVisitor`] implementation for each recognized element;
//! every handler can stop the scan early by returning
//! [`Action::Terminate`].
//!
//! The dispatch a read performs — which handler runs for which line, with
//! which arguments, and how a handler's [`Action`] ends the scan — is
//! recorded in a ghost log and pinned down by [`spec_dispatch`]. Which
//! error the reader raises, and on which line, depends on the input text
//! alone ([`spec_scan`]): a visitor can only cut the scan short, never
//! change what an encountered line means.

use crate::newick::lexer::{digits_value, exec_is_digit, exec_is_space, is_digit_char, is_space_char};
use crate::pace::parameters::tree_decomposition::{json_td_of, TreeDecomposition};
use vstd::prelude::*;

verus! {

// ---------------------------------------------------------------------
// Text model: scanning, lines, trimming
// ---------------------------------------------------------------------

/// Number of characters of `c` from `i` up to (excluding) the first
/// occurrence of `target`, or up to the end if `target` does not occur.
pub open spec fn scan_len(c: Seq<char>, i: int, target: char) -> nat
    decreases c.len() - i,
{
    if 0 <= i < c.len() {
        if c[i] == target {
            0
        } else {
            1 + scan_len(c, i + 1, target)
        }
    } else {
        0
    }
}

/// The scan stays in bounds, skips no occurrence of `target`, and stops on
/// one unless it reached the end.
pub proof fn lemma_scan_len_bounds(c: Seq<char>, i: int, target: char)
    requires
        0 <= i <= c.len(),
    ensures
        i <= i + scan_len(c, i, target) <= c.len(),
        forall|j: int| i <= j < i + scan_len(c, i, target) ==> c[j] != target,
        i + scan_len(c, i, target) < c.len() ==> c[i + scan_len(c, i, target)] == target,
    decreases c.len() - i,
{
    if i < c.len() && c[i] != target {
        lemma_scan_len_bounds(c, i + 1, target);
    }
}

/// Position of the first occurrence of `target` in `s` at or after `from`,
/// or the length of `s` if there is none.
pub(crate) fn scan_char(s: &str, from: usize, target: char) -> (e: usize)
    requires
        from <= s@.len(),
    ensures
        e == from + scan_len(s@, from as int, target),
{
    let len = s.unicode_len();
    let mut b = from;
    loop
        invariant
            from <= b <= len,
            len == s@.len(),
            from + scan_len(s@, from as int, target) == b + scan_len(s@, b as int, target),
        ensures
            b == from + scan_len(s@, from as int, target),
        decreases len - b,
    {
        if b >= len {
            break ;
        }
        if s.get_char(b) == target {
            break ;
        }
        b = b + 1;
    }
    b
}

/// A line as handed out by the reader: the trailing carriage return of a
/// newline-terminated line is dropped.
pub open spec fn strip_cr(l: Seq<char>) -> Seq<char> {
    if l.len() > 0 && l.last() == '\r' {
        l.drop_last()
    } else {
        l
    }
}

/// The logical lines of `s` from position `i` on: split at every `'\n'`,
/// with a `'\r'` right before the split dropped; a final segment without a
/// newline is kept as it is, and a trailing newline adds no empty line.
pub open spec fn spec_lines_from(s: Seq<char>, i: int) -> Seq<Seq<char>>
    decreases s.len() - i,
{
    if !(0 <= i < s.len()) {
        seq![]
    } else {
        let b = i + scan_len(s, i, '\n');
        if b >= s.len() {
            seq![s.subrange(i, s.len() as int)]
        } else {
            seq![strip_cr(s.subrange(i, b))] + spec_lines_from(s, b + 1)
        }
    }
}

/// The logical lines of `s`.
pub open spec fn spec_lines(s: Seq<char>) -> Seq<Seq<char>> {
    spec_lines_from(s, 0)
}

/// Splits `input` into its logical lines.
pub fn lines_of<'a>(input: &'a str) -> (r: Vec<&'a str>)
    ensures
        r@.len() == spec_lines(input@).len(),
        forall|k: int| 0 <= k < r@.len() ==> #[trigger] r@[k]@ == spec_lines(input@)[k],
{
    let ghost s = input@;
    let len = input.unicode_len();
    let mut r: Vec<&'a str> = Vec::new();
    let mut i: usize = 0;
    while i < len
        invariant
            i <= len,
            len == s.len(),
            s == input@,
            spec_lines(s) =~= r@.map_values(|x: &'a str| x@) + spec_lines_from(s, i as int),
        decreases len - i,
    {
        let ghost models0 = r@.map_values(|x: &'a str| x@);
        proof {
            lemma_scan_len_bounds(s, i as int, '\n');
        }
        let b = scan_char(input, i, '\n');
        if b >= len {
            let piece = input.substring_char(i, len);
            r.push(piece);
            proof {
                assert(r@.map_values(|x: &'a str| x@) =~= models0.push(piece@));
                assert(spec_lines(s) =~= r@.map_values(|x: &'a str| x@) + spec_lines_from(
                    s,
                    len as int,
                ));
            }
            i = len;
        } else {
            let stripped = b > i && input.get_char(b - 1) == '\r';
            let end = if stripped {
                b - 1
            } else {
                b
            };
            let piece = input.substring_char(i, end);
            proof {
                if stripped {
                    assert(s.subrange(i as int, b as int).last() == '\r');
                    assert(piece@ =~= strip_cr(s.subrange(i as int, b as int)));
                } else {
                    if b > i {
                        assert(s.subrange(i as int, b as int).last() == s[b - 1]);
                    }
                    assert(piece@ =~= strip_cr(s.subrange(i as int, b as int)));
                }
            }
            r.push(piece);
            proof {
                assert(r@.map_values(|x: &'a str| x@) =~= models0.push(piece@));
                assert(spec_lines(s) =~= r@.map_values(|x: &'a str| x@) + spec_lines_from(
                    s,
                    b + 1,
                ));
            }
            i = b + 1;
        }
    }
    proof {
        assert(spec_lines(s) =~= r@.map_values(|x: &'a str| x@));
    }
    r
}

/// First index of `l` that does not hold whitespace, scanning from `i` on.
pub open spec fn trim_start_idx(l: Seq<char>, i: int) -> int
    decreases l.len() - i,
{
    if 0 <= i < l.len() && is_space_char(l[i]) {
        trim_start_idx(l, i + 1)
    } else {
        i
    }
}

/// End of the content of `l` when trailing whitespace is dropped, scanning
/// down from `j`.
pub open spec fn trim_end_idx(l: Seq<char>, j: int) -> int
    decreases j,
{
    if 0 < j <= l.len() && is_space_char(l[j - 1]) {
        trim_end_idx(l, j - 1)
    } else {
        j
    }
}

/// The line with leading and trailing whitespace removed.
pub open spec fn spec_trim(l: Seq<char>) -> Seq<char> {
    let a = trim_start_idx(l, 0);
    let b = trim_end_idx(l, l.len() as int);
    if a <= b {
        l.subrange(a, b)
    } else {
        Seq::empty()
    }
}

/// The trimmed end never moves past the start.
proof fn lemma_trim_end_bounds(l: Seq<char>, j: int)
    requires
        0 <= j <= l.len(),
    ensures
        0 <= trim_end_idx(l, j) <= j,
    decreases j,
{
    if 0 < j <= l.len() && is_space_char(l[j - 1]) {
        lemma_trim_end_bounds(l, j - 1);
    }
}

/// Removes leading and trailing whitespace.
pub fn trim_str<'a>(s: &'a str) -> (r: &'a str)
    ensures
        r@ == spec_trim(s@),
{
    let ghost l = s@;
    let len = s.unicode_len();
    let mut a: usize = 0;
    loop
        invariant
            0 <= a <= len,
            len == l.len(),
            l == s@,
            trim_start_idx(l, 0) == trim_start_idx(l, a as int),
        ensures
            a == trim_start_idx(l, 0),
            a == len || !is_space_char(l[a as int]),
        decreases len - a,
    {
        if a >= len {
            break ;
        }
        if !exec_is_space(s.get_char(a)) {
            break ;
        }
        a = a + 1;
    }
    if a >= len {
        let r = s.substring_char(len, len);
        proof {
            lemma_trim_end_bounds(l, l.len() as int);
            assert(r@ =~= spec_trim(l));
        }
        return r;
    }
    let mut b: usize = len;
    loop
        invariant
            a < b <= len,
            len == l.len(),
            l == s@,
            !is_space_char(l[a as int]),
            trim_end_idx(l, len as int) == trim_end_idx(l, b as int),
        ensures
            a < b <= len,
            b == trim_end_idx(l, len as int),
        decreases b,
    {
        if !exec_is_space(s.get_char(b - 1)) {
            proof {
                assert(trim_end_idx(l, b as int) == b);
            }
            break ;
        }
        proof {
            // the character at `a` is no whitespace, so the scan stops above it
            assert(b - 1 > a) by {
                assert(l[a as int] != l[b - 1] || a == b - 1);
            }
        }
        b = b - 1;
    }
    let r = s.substring_char(a, b);
    proof {
        assert(r@ =~= spec_trim(l));
    }
    r
}

// ---------------------------------------------------------------------
// Line classification
// ---------------------------------------------------------------------

/// The category of one non-raw (already trimmed) line, checked in the
/// reader's priority order.
#[derive(Debug, PartialEq, Eq, Structural, Clone, Copy)]
pub enum LineClass {
    /// Empty after trimming: silently skipped.
    Empty,
    /// Starts with `"# "`: a comment, ignored.
    Comment,
    /// Starts with `"#p"`: the instance header.
    Header,
    /// Starts with `"#s"`: free-form metadata.
    Stride,
    /// Starts with `"#a"`: approximation parameters.
    Approx,
    /// Starts with `"#x"`: a named parameter with a JSON payload.
    Param,
    /// Any other line starting with `'#'`.
    OtherHash,
    /// Ends with `';'`: one Newick tree.
    Tree,
    /// Anything else.
    Other,
}

/// The category of a trimmed line.
pub open spec fn spec_classify(c: Seq<char>) -> LineClass {
    if c.len() == 0 {
        LineClass::Empty
    } else if c[0] == '#' {
        if c.len() >= 2 && c[1] == ' ' {
            LineClass::Comment
        } else if c.len() >= 2 && c[1] == 'p' {
            LineClass::Header
        } else if c.len() >= 2 && c[1] == 's' {
            LineClass::Stride
        } else if c.len() >= 2 && c[1] == 'a' {
            LineClass::Approx
        } else if c.len() >= 2 && c[1] == 'x' {
            LineClass::Param
        } else {
            LineClass::OtherHash
        }
    } else if c.last() == ';' {
        LineClass::Tree
    } else {
        LineClass::Other
    }
}

/// Classifies a trimmed line.
pub fn classify_line(content: &str) -> (k: LineClass)
    ensures
        k == spec_classify(content@),
{
    let len = content.unicode_len();
    if len == 0 {
        return LineClass::Empty;
    }
    if content.get_char(0) == '#' {
        if len >= 2 {
            let c1 = content.get_char(1);
            if c1 == ' ' {
                return LineClass::Comment;
            }
            if c1 == 'p' {
                return LineClass::Header;
            }
            if c1 == 's' {
                return LineClass::Stride;
            }
            if c1 == 'a' {
                return LineClass::Approx;
            }
            if c1 == 'x' {
                return LineClass::Param;
            }
        }
        return LineClass::OtherHash;
    }
    if content.get_char(len - 1) == ';' {
        return LineClass::Tree;
    }
    LineClass::Other
}

// ---------------------------------------------------------------------
// Field parsing
// ---------------------------------------------------------------------

/// All characters of `t` are decimal digits.
pub open spec fn all_digits(t: Seq<char>) -> bool {
    forall|j: int| 0 <= j < t.len() ==> is_digit_char(#[trigger] t[j])
}

/// The unsigned number a field denotes, exactly as `str::parse::<usize>`
/// accepts it: an optional leading `'+'`, then at least one digit, and a
/// value that fits.
pub open spec fn spec_parse_usize(d: Seq<char>) -> Option<usize> {
    let t = if d.len() >= 1 && d[0] == '+' {
        d.subrange(1, d.len() as int)
    } else {
        d
    };
    if t.len() >= 1 && all_digits(t) && digits_value(t) <= usize::MAX {
        Some(digits_value(t) as usize)
    } else {
        None
    }
}

/// The value of a digit string never shrinks as digits are appended.
proof fn lemma_digits_value_grows(t: Seq<char>, j: int)
    requires
        all_digits(t),
        0 <= j <= t.len(),
    ensures
        0 <= digits_value(t.subrange(0, j)) <= digits_value(t),
    decreases t.len() - j,
{
    if j == t.len() {
        assert(t.subrange(0, j) =~= t);
        lemma_digits_value_nonneg(t);
    } else {
        lemma_digits_value_grows(t, j + 1);
        let shorter = t.subrange(0, j);
        let longer = t.subrange(0, j + 1);
        assert(longer.drop_last() =~= shorter);
        lemma_digits_value_nonneg(shorter);
    }
}

/// A digit string has a non-negative value.
proof fn lemma_digits_value_nonneg(t: Seq<char>)
    requires
        all_digits(t),
    ensures
        digits_value(t) >= 0,
    decreases t.len(),
{
    if t.len() > 0 {
        assert(all_digits(t.drop_last())) by {
            assert(forall|j: int|
                0 <= j < t.len() - 1 ==> #[trigger] t.drop_last()[j] == t[j]);
        }
        lemma_digits_value_nonneg(t.drop_last());
    }
}

/// Parses a field as `str::parse::<usize>` does.
pub fn parse_usize_str(s: &str) -> (r: Option<usize>)
    ensures
        r == spec_parse_usize(s@),
{
    let len = s.unicode_len();
    let plus = len >= 1 && s.get_char(0) == '+';
    let start: usize = if plus {
        1
    } else {
        0
    };
    let ghost t = if plus {
        s@.subrange(1, s@.len() as int)
    } else {
        s@
    };
    proof {
        assert forall|j: int| 0 <= j < t.len() implies t[j] == s@[j + start] by {}
    }
    if start >= len {
        return None;
    }
    let mut acc: usize = 0;
    let mut j = start;
    while j < len
        invariant
            start <= j <= len,
            len == s@.len(),
            plus == (s@.len() >= 1 && s@[0] == '+'),
            start == if plus { 1int } else { 0int },
            t == (if plus { s@.subrange(1, s@.len() as int) } else { s@ }),
            t.len() == len - start,
            forall|k: int| 0 <= k < t.len() ==> t[k] == s@[k + start],
            all_digits(t.subrange(0, j - start)),
            acc == digits_value(t.subrange(0, j - start)),
        decreases len - j,
    {
        let c = s.get_char(j);
        if !exec_is_digit(c) {
            proof {
                assert(t[j - start] == s@[j as int]);
                assert(!all_digits(t));
            }
            return None;
        }
        let d: u32 = (c as u32) - 48;
        let ghost prefix = t.subrange(0, j - start);
        let ghost extended = t.subrange(0, j + 1 - start);
        proof {
            assert(extended.drop_last() =~= prefix);
            assert(extended.last() == t[j - start]);
            assert(t[j - start] == s@[j as int]);
            assert(all_digits(extended));
        }
        let next = match acc.checked_mul(10) {
            Some(v) => v,
            None => {
                proof {
                    assert(digits_value(extended) > usize::MAX);
                    if all_digits(t) {
                        lemma_digits_value_grows(t, j + 1 - start);
                    }
                }
                return None;
            },
        };
        let next = match next.checked_add(d as usize) {
            Some(v) => v,
            None => {
                proof {
                    assert(digits_value(extended) > usize::MAX);
                    if all_digits(t) {
                        lemma_digits_value_grows(t, j + 1 - start);
                    }
                }
                return None;
            },
        };
        acc = next;
        j = j + 1;
    }
    proof {
        assert(t.subrange(0, t.len() as int) =~= t);
    }
    Some(acc)
}

/// Characters of `s` in `[from, to)` are all digits.
fn all_digits_in(s: &str, from: usize, to: usize) -> (r: bool)
    requires
        from <= to <= s@.len(),
    ensures
        r == all_digits(s@.subrange(from as int, to as int)),
{
    let ghost t = s@.subrange(from as int, to as int);
    let mut j = from;
    while j < to
        invariant
            from <= j <= to <= s@.len(),
            t == s@.subrange(from as int, to as int),
            forall|k: int| 0 <= k < j - from ==> is_digit_char(#[trigger] t[k]),
        decreases to - j,
    {
        let c = s.get_char(j);
        if !exec_is_digit(c) {
            proof {
                assert(t[j - from] == s@[j as int]);
            }
            return false;
        }
        proof {
            assert(t[j - from] == s@[j as int]);
        }
        j = j + 1;
    }
    true
}

/// The instance header `#p <numTrees> <numLeaves>`: the fields are separated
/// by single spaces, the first must be exactly `"#p"`, the next two must be
/// unsigned numbers; anything after them is ignored.
pub open spec fn spec_parse_header(c: Seq<char>) -> Option<(usize, usize)> {
    let e0 = scan_len(c, 0, ' ') as int;
    if !(e0 == 2 && c.len() >= 2 && c[0] == '#' && c[1] == 'p') {
        None
    } else if e0 >= c.len() {
        None
    } else {
        let s1 = e0 + 1;
        let e1 = s1 + scan_len(c, s1, ' ');
        match spec_parse_usize(c.subrange(s1, e1)) {
            None => None,
            Some(nt) => if e1 >= c.len() {
                None
            } else {
                let s2 = e1 + 1;
                let e2 = s2 + scan_len(c, s2, ' ');
                match spec_parse_usize(c.subrange(s2, e2)) {
                    None => None,
                    Some(nl) => Some((nt, nl)),
                }
            },
        }
    }
}

/// Parses a header line; exactly [`spec_parse_header`].
pub fn try_parse_header(line: &str) -> (r: Option<(usize, usize)>)
    ensures
        r == spec_parse_header(line@),
{
    let ghost c = line@;
    let len = line.unicode_len();
    proof {
        lemma_scan_len_bounds(c, 0, ' ');
    }
    let e0 = scan_char(line, 0, ' ');
    if !(e0 == 2 && len >= 2 && line.get_char(0) == '#' && line.get_char(1) == 'p') {
        return None;
    }
    if e0 >= len {
        return None;
    }
    let s1 = e0 + 1;
    proof {
        lemma_scan_len_bounds(c, s1 as int, ' ');
    }
    let e1 = scan_char(line, s1, ' ');
    let nt = match parse_usize_str(line.substring_char(s1, e1)) {
        Some(v) => v,
        None => {
            return None;
        },
    };
    if e1 >= len {
        return None;
    }
    let s2 = e1 + 1;
    proof {
        lemma_scan_len_bounds(c, s2 as int, ' ');
    }
    let e2 = scan_char(line, s2, ' ');
    let nl = match parse_usize_str(line.substring_char(s2, e2)) {
        Some(v) => v,
        None => {
            return None;
        },
    };
    Some((nt, nl))
}

/// A stride line `#s <key> <value>`: key and value are split at the first
/// space after the key's text begins behind the `#s` prefix, both sides
/// trimmed; a line with no such split (no value field) is malformed.
pub open spec fn spec_parse_stride(c: Seq<char>) -> Option<(Seq<char>, Seq<char>)> {
    let k0 = trim_start_idx(c, 2);
    let sp = k0 + scan_len(c, k0, ' ');
    if sp >= c.len() {
        None
    } else {
        Some((spec_trim(c.subrange(2, sp)), spec_trim(c.subrange(sp + 1, c.len() as int))))
    }
}

/// Parses a stride line; exactly [`spec_parse_stride`].
pub fn try_parse_stride_line<'a>(line: &'a str) -> (r: Option<(&'a str, &'a str)>)
    requires
        line@.len() >= 2,
        line@[0] == '#',
        line@[1] == 's',
    ensures
        match spec_parse_stride(line@) {
            Some(kv) => r matches Some((ks, vs)) && ks@ == kv.0 && vs@ == kv.1,
            None => r is None,
        },
{
    let ghost c = line@;
    let len = line.unicode_len();
    let mut k0: usize = 2;
    loop
        invariant
            2 <= k0 <= len,
            len == c.len(),
            c == line@,
            trim_start_idx(c, 2) == trim_start_idx(c, k0 as int),
        ensures
            len == c.len(),
            k0 as int == trim_start_idx(c, 2),
            2 <= k0 <= len,
        decreases len - k0,
    {
        if k0 >= len {
            break ;
        }
        if !exec_is_space(line.get_char(k0)) {
            break ;
        }
        k0 = k0 + 1;
    }
    proof {
        lemma_scan_len_bounds(c, k0 as int, ' ');
    }
    let sp = scan_char(line, k0, ' ');
    if sp >= len {
        return None;
    }
    let key = trim_str(line.substring_char(2, sp));
    let value = trim_str(line.substring_char(sp + 1, len));
    Some((key, value))
}

/// A plain decimal of the shape `digits` or `digits.digits`, with at least
/// one digit on each side of the point; no sign is admitted, so a negative
/// value never passes.
pub open spec fn is_simple_decimal(t: Seq<char>) -> bool {
    let d = scan_len(t, 0, '.') as int;
    if d >= t.len() {
        t.len() >= 1 && all_digits(t)
    } else {
        d >= 1 && d + 2 <= t.len() && all_digits(t.subrange(0, d)) && all_digits(
            t.subrange(d + 1, t.len() as int),
        )
    }
}

fn is_decimal_str(s: &str) -> (r: bool)
    ensures
        r == is_simple_decimal(s@),
{
    let ghost t = s@;
    let len = s.unicode_len();
    proof {
        lemma_scan_len_bounds(t, 0, '.');
    }
    let d = scan_char(s, 0, '.');
    proof {
        assert(t.subrange(0, t.len() as int) =~= t);
    }
    if d >= len {
        len >= 1 && all_digits_in(s, 0, len)
    } else {
        d >= 1 && len >= 2 && d <= len - 2 && all_digits_in(s, 0, d) && all_digits_in(s, d + 1, len)
    }
}

/// An approximation line `#a <value> <count>`: space-separated, the first
/// field exactly `"#a"`, then a non-negative plain decimal and an unsigned
/// number; anything after them is ignored.
pub open spec fn spec_parse_approx(c: Seq<char>) -> Option<(Seq<char>, usize)> {
    let e0 = scan_len(c, 0, ' ') as int;
    if !(e0 == 2 && c.len() >= 2 && c[0] == '#' && c[1] == 'a') {
        None
    } else if e0 >= c.len() {
        None
    } else {
        let s1 = e0 + 1;
        let e1 = s1 + scan_len(c, s1, ' ');
        let f1 = c.subrange(s1, e1);
        if !is_simple_decimal(f1) {
            None
        } else if e1 >= c.len() {
            None
        } else {
            let s2 = e1 + 1;
            let e2 = s2 + scan_len(c, s2, ' ');
            match spec_parse_usize(c.subrange(s2, e2)) {
                None => None,
                Some(b) => Some((f1, b)),
            }
        }
    }
}

/// Parses an approximation line; exactly [`spec_parse_approx`].
pub fn try_parse_approx_line<'a>(line: &'a str) -> (r: Option<(&'a str, usize)>)
    ensures
        match spec_parse_approx(line@) {
            Some(ab) => r matches Some((a, b)) && a@ == ab.0 && b == ab.1,
            None => r is None,
        },
{
    let ghost c = line@;
    let len = line.unicode_len();
    proof {
        lemma_scan_len_bounds(c, 0, ' ');
    }
    let e0 = scan_char(line, 0, ' ');
    if !(e0 == 2 && len >= 2 && line.get_char(0) == '#' && line.get_char(1) == 'a') {
        return None;
    }
    if e0 >= len {
        return None;
    }
    let s1 = e0 + 1;
    proof {
        lemma_scan_len_bounds(c, s1 as int, ' ');
    }
    let e1 = scan_char(line, s1, ' ');
    let f1 = line.substring_char(s1, e1);
    if !is_decimal_str(f1) {
        return None;
    }
    if e1 >= len {
        return None;
    }
    let s2 = e1 + 1;
    proof {
        lemma_scan_len_bounds(c, s2 as int, ' ');
    }
    let e2 = scan_char(line, s2, ' ');
    let b = match parse_usize_str(line.substring_char(s2, e2)) {
        Some(v) => v,
        None => {
            return None;
        },
    };
    Some((f1, b))
}

/// A parameter line `#x <key> <jsonValue>`: space-separated, the first
/// field exactly `"#x"`, then the key, then the payload, which runs to the
/// end of the line.
pub open spec fn spec_parse_param(c: Seq<char>) -> Option<(Seq<char>, Seq<char>)> {
    let e0 = scan_len(c, 0, ' ') as int;
    if !(e0 == 2 && c.len() >= 2 && c[0] == '#' && c[1] == 'x') {
        None
    } else if e0 >= c.len() {
        None
    } else {
        let s1 = e0 + 1;
        let e1 = s1 + scan_len(c, s1, ' ');
        if e1 >= c.len() {
            None
        } else {
            Some((c.subrange(s1, e1), c.subrange(e1 + 1, c.len() as int)))
        }
    }
}

/// Parses a parameter line; exactly [`spec_parse_param`].
pub fn try_parse_param_line<'a>(line: &'a str) -> (r: Option<(&'a str, &'a str)>)
    ensures
        match spec_parse_param(line@) {
            Some(kv) => r matches Some((k, v)) && k@ == kv.0 && v@ == kv.1,
            None => r is None,
        },
{
    let ghost c = line@;
    let len = line.unicode_len();
    proof {
        lemma_scan_len_bounds(c, 0, ' ');
    }
    let e0 = scan_char(line, 0, ' ');
    if !(e0 == 2 && len >= 2 && line.get_char(0) == '#' && line.get_char(1) == 'x') {
        return None;
    }
    if e0 >= len {
        return None;
    }
    let s1 = e0 + 1;
    proof {
        lemma_scan_len_bounds(c, s1 as int, ' ');
    }
    let e1 = scan_char(line, s1, ' ');
    if e1 >= len {
        return None;
    }
    let key = line.substring_char(s1, e1);
    let value = line.substring_char(e1 + 1, len);
    Some((key, value))
}

/// The one parameter key the reader recognizes.
pub open spec fn treedecomp_key() -> Seq<char> {
    seq!['t', 'r', 'e', 'e', 'd', 'e', 'c', 'o', 'm', 'p']
}

/// True iff `s` is exactly `"treedecomp"`.
pub fn is_treedecomp_key(s: &str) -> (r: bool)
    ensures
        r == (s@ == treedecomp_key()),
{
    let len = s.unicode_len();
    if len != 10 {
        proof {
            assert(s@ != treedecomp_key());
        }
        return false;
    }
    let r = s.get_char(0) == 't' && s.get_char(1) == 'r' && s.get_char(2) == 'e' && s.get_char(3)
        == 'e' && s.get_char(4) == 'd' && s.get_char(5) == 'e' && s.get_char(6) == 'c'
        && s.get_char(7) == 'o' && s.get_char(8) == 'm' && s.get_char(9) == 'p';
    proof {
        if r {
            assert(s@ =~= treedecomp_key());
        } else {
            assert(s@ != treedecomp_key());
        }
    }
    r
}

// ---------------------------------------------------------------------
// The reader
// ---------------------------------------------------------------------

#[derive(Debug, PartialEq, Eq, Clone, Copy)]
pub enum ReaderError {
    /// A line identified as header that does not parse as
    /// `#p <numTrees> <numLeaves>`.
    InvalidHeaderLine { lineno: usize },
    /// A line identified as stride line that does not parse as
    /// `#s <key> <value>`.
    InvalidStrideLine { lineno: usize },
    /// A line identified as approximation line that does not parse as
    /// `#a <nonNegativeDecimal> <count>`.
    InvalidApproxLine { lineno: usize },
    /// A line identified as parameter line that does not parse as
    /// `#x <key> <jsonValue>`.
    InvalidParameterLine { lineno: usize },
    /// A parameter line whose key is not recognized.
    UnknownParameter { lineno: usize },
    /// A parameter payload that is no valid encoding of its parameter.
    InvalidJSON { lineno: usize },
    /// Two header lines in one stream, identified by both line numbers.
    MultipleHeaders { lineno0: usize, lineno1: usize },
}

/// The signal every visitor handler returns: keep scanning, or stop cleanly.
#[derive(Debug, PartialEq, Eq, Structural, Clone, Copy)]
pub enum Action {
    Continue,
    Terminate,
}

/// Visitor trait for processing the elements of a PACE 2026 instance. You
/// need only implement the methods you care about, and ignore the rest; a
/// typical solver implementation would implement `visit_tree` and possibly
/// `visit_header`.
pub trait InstanceVisitor: Sized {
    /// Capability flag: the JSON payload of a `treedecomp` parameter line is
    /// decoded, and [`InstanceVisitor::visit_param_tree_decomposition`]
    /// called, only when this is true; visitors that never need the payload
    /// skip the expensive decode entirely.
    open spec fn opts_in_tree_decomposition() -> bool {
        false
    }

    /// The capability flag, queried at run time.
    fn wants_tree_decomposition() -> (b: bool)
        ensures
            b == Self::opts_in_tree_decomposition(),
    ;

    fn visit_header(&mut self, _lineno: usize, _num_trees: usize, _num_leaves: usize) -> Action {
        Action::Continue
    }

    fn visit_tree(&mut self, _lineno: usize, _line: &str) -> Action {
        Action::Continue
    }

    fn visit_line_with_extra_whitespace(&mut self, _lineno: usize, _line: &str) -> Action {
        Action::Continue
    }

    fn visit_unrecognized_dash_line(&mut self, _lineno: usize, _line: &str) -> Action {
        Action::Continue
    }

    fn visit_unrecognized_line(&mut self, _lineno: usize, _line: &str) -> Action {
        Action::Continue
    }

    fn visit_stride_line(&mut self, _lineno: usize, _line: &str, _key: &str, _value: &str) -> Action {
        Action::Continue
    }

    fn visit_approx_line(&mut self, _lineno: usize, _value: &str, _count: usize) -> Action {
        Action::Continue
    }

    fn visit_param_tree_decomposition(&mut self, _lineno: usize, _td: TreeDecomposition) -> Action {
        Action::Continue
    }
}

/// The first error in `lines` from line `i` on, given that the unique
/// header seen so far, if any, stood on line `header`; `decode` is the
/// visitor's capability flag, without which a `treedecomp` payload is not
/// decoded and malformed JSON goes unnoticed.
pub open spec fn spec_scan_from(
    lines: Seq<Seq<char>>,
    i: int,
    header: Option<usize>,
    decode: bool,
) -> Option<ReaderError>
    decreases lines.len() - i,
{
    if !(0 <= i < lines.len()) {
        None
    } else {
        let c = spec_trim(lines[i]);
        match spec_classify(c) {
            LineClass::Empty => spec_scan_from(lines, i + 1, header, decode),
            LineClass::Comment => spec_scan_from(lines, i + 1, header, decode),
            LineClass::Header => match header {
                Some(h) => Some(ReaderError::MultipleHeaders { lineno0: h, lineno1: i as usize }),
                None => if spec_parse_header(c) is Some {
                    spec_scan_from(lines, i + 1, Some(i as usize), decode)
                } else {
                    Some(ReaderError::InvalidHeaderLine { lineno: i as usize })
                },
            },
            LineClass::Stride => if spec_parse_stride(c) is Some {
                spec_scan_from(lines, i + 1, header, decode)
            } else {
                Some(ReaderError::InvalidStrideLine { lineno: i as usize })
            },
            LineClass::Approx => if spec_parse_approx(c) is Some {
                spec_scan_from(lines, i + 1, header, decode)
            } else {
                Some(ReaderError::InvalidApproxLine { lineno: i as usize })
            },
            LineClass::Param => match spec_parse_param(c) {
                None => Some(ReaderError::InvalidParameterLine { lineno: i as usize }),
                Some(kv) => if kv.0 != treedecomp_key() {
                    Some(ReaderError::UnknownParameter { lineno: i as usize })
                } else if !decode {
                    spec_scan_from(lines, i + 1, header, decode)
                } else if json_td_of(kv.1) is Some {
                    spec_scan_from(lines, i + 1, header, decode)
                } else {
                    Some(ReaderError::InvalidJSON { lineno: i as usize })
                },
            },
            LineClass::OtherHash => spec_scan_from(lines, i + 1, header, decode),
            LineClass::Tree => spec_scan_from(lines, i + 1, header, decode),
            LineClass::Other => spec_scan_from(lines, i + 1, header, decode),
        }
    }
}

/// The first error the reader raises on `lines`, or `None`.
pub open spec fn spec_scan(lines: Seq<Seq<char>>, decode: bool) -> Option<ReaderError> {
    spec_scan_from(lines, 0, None, decode)
}

/// The line an error points at; for a duplicate header, the second
/// occurrence, where the scan stops.
pub open spec fn spec_error_line(e: ReaderError) -> int {
    match e {
        ReaderError::InvalidHeaderLine { lineno } => lineno as int,
        ReaderError::InvalidStrideLine { lineno } => lineno as int,
        ReaderError::InvalidApproxLine { lineno } => lineno as int,
        ReaderError::InvalidParameterLine { lineno } => lineno as int,
        ReaderError::UnknownParameter { lineno } => lineno as int,
        ReaderError::InvalidJSON { lineno } => lineno as int,
        ReaderError::MultipleHeaders { lineno0, lineno1 } => lineno1 as int,
    }
}

/// No visitor handler can run before the scan fails at line `upto`: every
/// earlier line is, after trimming, empty or a comment, and no line up to
/// and including `upto` carries extra whitespace. On such an input no
/// handler gets a chance to terminate the read early, so the error is owed.
pub open spec fn spec_undeflected(lines: Seq<Seq<char>>, upto: int) -> bool {
    &&& (forall|j: int|
        0 <= j < upto && j < lines.len() ==> {
            let cls = spec_classify(spec_trim(#[trigger] lines[j]));
            cls == LineClass::Empty || cls == LineClass::Comment
        })
    &&& (forall|j: int|
        0 <= j <= upto && j < lines.len() ==> spec_trim(#[trigger] lines[j]).len()
            == lines[j].len())
}

/// An error found by the scan from line `i` on sits on line `i` or later.
pub proof fn lemma_scan_error_position(
    lines: Seq<Seq<char>>,
    i: int,
    header: Option<usize>,
    decode: bool,
)
    requires
        0 <= i,
        lines.len() <= usize::MAX,
    ensures
        match spec_scan_from(lines, i, header, decode) {
            Some(e) => i <= spec_error_line(e) < lines.len(),
            None => true,
        },
    decreases lines.len() - i,
{
    if 0 <= i < lines.len() {
        let c = spec_trim(lines[i]);
        match spec_classify(c) {
            LineClass::Header => match header {
                Some(h) => {},
                None => {
                    if spec_parse_header(c) is Some {
                        lemma_scan_error_position(lines, i + 1, Some(i as usize), decode);
                    }
                },
            },
            LineClass::Param => match spec_parse_param(c) {
                None => {},
                Some(kv) => {
                    if kv.0 == treedecomp_key() && (!decode || json_td_of(kv.1) is Some) {
                        lemma_scan_error_position(lines, i + 1, header, decode);
                    }
                },
            },
            LineClass::Stride => {
                if spec_parse_stride(c) is Some {
                    lemma_scan_error_position(lines, i + 1, header, decode);
                }
            },
            LineClass::Approx => {
                if spec_parse_approx(c) is Some {
                    lemma_scan_error_position(lines, i + 1, header, decode);
                }
            },
            _ => {
                lemma_scan_error_position(lines, i + 1, header, decode);
            },
        }
    }
}

/// One visitor dispatch the reader performed: which handler ran, on which
/// line, with which arguments, and the [`Action`] it returned.
pub enum ReadEvent {
    /// `visit_line_with_extra_whitespace`, with the raw line.
    ExtraWhitespace { lineno: usize, line: Seq<char>, action: Action },
    /// `visit_header`, with the parsed tree and leaf counts.
    Header { lineno: usize, num_trees: usize, num_leaves: usize, action: Action },
    /// `visit_stride_line`, with the trimmed line and the parsed key and value.
    Stride { lineno: usize, line: Seq<char>, key: Seq<char>, value: Seq<char>, action: Action },
    /// `visit_approx_line`, with the decimal text and the count.
    Approx { lineno: usize, value: Seq<char>, count: usize, action: Action },
    /// `visit_param_tree_decomposition`, with the decoded components.
    Decomposition {
        lineno: usize,
        model: (u32, Seq<Seq<u32>>, Seq<(u32, u32)>),
        action: Action,
    },
    /// `visit_unrecognized_dash_line`, with the trimmed line.
    UnrecognizedDash { lineno: usize, line: Seq<char>, action: Action },
    /// `visit_tree`, with the trimmed line.
    Tree { lineno: usize, line: Seq<char>, action: Action },
    /// `visit_unrecognized_line`, with the trimmed line.
    Unrecognized { lineno: usize, line: Seq<char>, action: Action },
}

/// The reader's complete dispatch relation on `lines` from line `i`, with
/// `header` the line of the unique header seen so far: `log` is exactly the
/// sequence of handler calls performed, in input order with nothing
/// skipped, each with its arguments and the action the handler returned;
/// `r` is the result. The log ends at the first handler that returns
/// [`Action::Terminate`] (a clean `Ok`), at the first malformed line
/// (whose error comes back, with no handler run for it), or at the end of
/// the input.
pub open spec fn spec_dispatch(
    lines: Seq<Seq<char>>,
    i: int,
    header: Option<usize>,
    decode: bool,
    log: Seq<ReadEvent>,
    r: Result<(), ReaderError>,
) -> bool
    decreases lines.len() - i, 3int,
{
    if !(0 <= i < lines.len()) {
        log.len() == 0 && r == Ok::<(), ReaderError>(())
    } else {
        let raw = lines[i];
        let c = spec_trim(raw);
        if c.len() != raw.len() {
            &&& log.len() >= 1
            &&& (log[0] matches ReadEvent::ExtraWhitespace { lineno, line, action } && lineno == i
                as usize && line == raw && spec_dispatch_anomaly_rest(
                lines,
                i,
                header,
                decode,
                log.skip(1),
                r,
                action,
            ))
        } else {
            spec_dispatch_line(lines, i, header, decode, log, r)
        }
    }
}

/// What follows the whitespace-anomaly dispatch of line `i`: Terminate
/// stops the read cleanly at once, Continue proceeds to the line's own
/// category.
pub open spec fn spec_dispatch_anomaly_rest(
    lines: Seq<Seq<char>>,
    i: int,
    header: Option<usize>,
    decode: bool,
    log: Seq<ReadEvent>,
    r: Result<(), ReaderError>,
    action: Action,
) -> bool
    decreases lines.len() - i, 2int,
{
    if !(0 <= i < lines.len()) {
        false
    } else if action == Action::Terminate {
        log.len() == 0 && r == Ok::<(), ReaderError>(())
    } else {
        spec_dispatch_line(lines, i, header, decode, log, r)
    }
}

/// What follows one category dispatch of line `i` with continuation header
/// `header`: Terminate stops the read cleanly, Continue proceeds with the
/// next line.
pub open spec fn spec_after_event(
    lines: Seq<Seq<char>>,
    i: int,
    header: Option<usize>,
    decode: bool,
    log: Seq<ReadEvent>,
    r: Result<(), ReaderError>,
    action: Action,
) -> bool
    decreases lines.len() - i, 0int,
{
    if !(0 <= i < lines.len()) {
        false
    } else if action == Action::Terminate {
        log.len() == 0 && r == Ok::<(), ReaderError>(())
    } else {
        spec_dispatch(lines, i + 1, header, decode, log, r)
    }
}

/// The category dispatch of line `i`: exactly one handler by first
/// matching category, with the parsed arguments, or the line's error with
/// no handler run for it.
pub open spec fn spec_dispatch_line(
    lines: Seq<Seq<char>>,
    i: int,
    header: Option<usize>,
    decode: bool,
    log: Seq<ReadEvent>,
    r: Result<(), ReaderError>,
) -> bool
    decreases lines.len() - i, 1int,
{
    if !(0 <= i < lines.len()) {
        false
    } else {
        let c = spec_trim(lines[i]);
        match spec_classify(c) {
            LineClass::Empty => spec_dispatch(lines, i + 1, header, decode, log, r),
            LineClass::Comment => spec_dispatch(lines, i + 1, header, decode, log, r),
            LineClass::Header => match header {
                Some(h) => log.len() == 0 && r == Err::<(), ReaderError>(
                    ReaderError::MultipleHeaders { lineno0: h, lineno1: i as usize },
                ),
                None => match spec_parse_header(c) {
                    None => log.len() == 0 && r == Err::<(), ReaderError>(
                        ReaderError::InvalidHeaderLine { lineno: i as usize },
                    ),
                    Some(h) => log.len() >= 1 && (log[0] matches ReadEvent::Header {
                        lineno,
                        num_trees,
                        num_leaves,
                        action,
                    } && lineno == i as usize && num_trees == h.0 && num_leaves == h.1
                        && spec_after_event(
                        lines,
                        i,
                        Some(i as usize),
                        decode,
                        log.skip(1),
                        r,
                        action,
                    )),
                },
            },
            LineClass::Stride => match spec_parse_stride(c) {
                None => log.len() == 0 && r == Err::<(), ReaderError>(
                    ReaderError::InvalidStrideLine { lineno: i as usize },
                ),
                Some(kv) => log.len() >= 1 && (log[0] matches ReadEvent::Stride {
                    lineno,
                    line,
                    key,
                    value,
                    action,
                } && lineno == i as usize && line == c && key == kv.0 && value == kv.1
                    && spec_after_event(lines, i, header, decode, log.skip(1), r, action)),
            },
            LineClass::Approx => match spec_parse_approx(c) {
                None => log.len() == 0 && r == Err::<(), ReaderError>(
                    ReaderError::InvalidApproxLine { lineno: i as usize },
                ),
                Some(ab) => log.len() >= 1 && (log[0] matches ReadEvent::Approx {
                    lineno,
                    value,
                    count,
                    action,
                } && lineno == i as usize && value == ab.0 && count == ab.1 && spec_after_event(
                    lines,
                    i,
                    header,
                    decode,
                    log.skip(1),
                    r,
                    action,
                )),
            },
            LineClass::Param => match spec_parse_param(c) {
                None => log.len() == 0 && r == Err::<(), ReaderError>(
                    ReaderError::InvalidParameterLine { lineno: i as usize },
                ),
                Some(kv) => if kv.0 != treedecomp_key() {
                    log.len() == 0 && r == Err::<(), ReaderError>(
                        ReaderError::UnknownParameter { lineno: i as usize },
                    )
                } else if !decode {
                    spec_dispatch(lines, i + 1, header, decode, log, r)
                } else {
                    match json_td_of(kv.1) {
                        None => log.len() == 0 && r == Err::<(), ReaderError>(
                            ReaderError::InvalidJSON { lineno: i as usize },
                        ),
                        Some(m) => log.len() >= 1 && (log[0] matches ReadEvent::Decomposition {
                            lineno,
                            model,
                            action,
                        } && lineno == i as usize && model == m && spec_after_event(
                            lines,
                            i,
                            header,
                            decode,
                            log.skip(1),
                            r,
                            action,
                        )),
                    }
                },
            },
            LineClass::OtherHash => log.len() >= 1 && (log[0] matches ReadEvent::UnrecognizedDash {
                lineno,
                line,
                action,
            } && lineno == i as usize && line == c && spec_after_event(
                lines,
                i,
                header,
                decode,
                log.skip(1),
                r,
                action,
            )),
            LineClass::Tree => log.len() >= 1 && (log[0] matches ReadEvent::Tree {
                lineno,
                line,
                action,
            } && lineno == i as usize && line == c && spec_after_event(
                lines,
                i,
                header,
                decode,
                log.skip(1),
                r,
                action,
            )),
            LineClass::Other => log.len() >= 1 && (log[0] matches ReadEvent::Unrecognized {
                lineno,
                line,
                action,
            } && lineno == i as usize && line == c && spec_after_event(
                lines,
                i,
                header,
                decode,
                log.skip(1),
                r,
                action,
            )),
        }
    }
}

/// A dispatch that ends in an error reports exactly the scan's first
/// error: a visitor can stop a read early, but never change which error a
/// read that fails comes back with.
pub proof fn lemma_dispatch_err(
    lines: Seq<Seq<char>>,
    i: int,
    header: Option<usize>,
    decode: bool,
    log: Seq<ReadEvent>,
    e: ReaderError,
)
    requires
        0 <= i,
        spec_dispatch(lines, i, header, decode, log, Err::<(), ReaderError>(e)),
    ensures
        spec_scan_from(lines, i, header, decode) == Some(e),
    decreases lines.len() - i,
{
    let c = spec_trim(lines[i]);
    let rest = if c.len() != lines[i].len() {
        log.skip(1)
    } else {
        log
    };
    // the anomaly handler, if any, returned Continue: Terminate would end in Ok
    assert(spec_dispatch_line(lines, i, header, decode, rest, Err::<(), ReaderError>(e)));
    match spec_classify(c) {
        LineClass::Empty => {
            lemma_dispatch_err(lines, i + 1, header, decode, rest, e);
        },
        LineClass::Comment => {
            lemma_dispatch_err(lines, i + 1, header, decode, rest, e);
        },
        LineClass::Header => match header {
            Some(h) => {},
            None => {
                if spec_parse_header(c) is Some {
                    lemma_dispatch_err(lines, i + 1, Some(i as usize), decode, rest.skip(1), e);
                }
            },
        },
        LineClass::Stride => {
            if spec_parse_stride(c) is Some {
                lemma_dispatch_err(lines, i + 1, header, decode, rest.skip(1), e);
            }
        },
        LineClass::Approx => {
            if spec_parse_approx(c) is Some {
                lemma_dispatch_err(lines, i + 1, header, decode, rest.skip(1), e);
            }
        },
        LineClass::Param => match spec_parse_param(c) {
            None => {},
            Some(kv) => {
                if kv.0 == treedecomp_key() {
                    if !decode {
                        lemma_dispatch_err(lines, i + 1, header, decode, rest, e);
                    } else if json_td_of(kv.1) is Some {
                        lemma_dispatch_err(lines, i + 1, header, decode, rest.skip(1), e);
                    }
                }
            },
        },
        LineClass::OtherHash => {
            lemma_dispatch_err(lines, i + 1, header, decode, rest.skip(1), e);
        },
        LineClass::Tree => {
            lemma_dispatch_err(lines, i + 1, header, decode, rest.skip(1), e);
        },
        LineClass::Other => {
            lemma_dispatch_err(lines, i + 1, header, decode, rest.skip(1), e);
        },
    }
}

/// The action a logged handler call returned.
pub open spec fn event_action(ev: ReadEvent) -> Action {
    match ev {
        ReadEvent::ExtraWhitespace { action, .. } => action,
        ReadEvent::Header { action, .. } => action,
        ReadEvent::Stride { action, .. } => action,
        ReadEvent::Approx { action, .. } => action,
        ReadEvent::Decomposition { action, .. } => action,
        ReadEvent::UnrecognizedDash { action, .. } => action,
        ReadEvent::Tree { action, .. } => action,
        ReadEvent::Unrecognized { action, .. } => action,
    }
}

/// With every handler answering Continue, the read cannot stop early: it
/// comes back with the scan's first error, or with `Ok` where the scan is
/// clean.
pub proof fn lemma_dispatch_all_continue(
    lines: Seq<Seq<char>>,
    i: int,
    header: Option<usize>,
    decode: bool,
    log: Seq<ReadEvent>,
    r: Result<(), ReaderError>,
)
    requires
        0 <= i,
        spec_dispatch(lines, i, header, decode, log, r),
        forall|k: int| 0 <= k < log.len() ==> #[trigger] event_action(log[k]) == Action::Continue,
    ensures
        match spec_scan_from(lines, i, header, decode) {
            Some(e) => r == Err::<(), ReaderError>(e),
            None => r == Ok::<(), ReaderError>(()),
        },
    decreases lines.len() - i,
{
    if !(0 <= i < lines.len()) {
        return ;
    }
    let c = spec_trim(lines[i]);
    let rest = if c.len() != lines[i].len() {
        log.skip(1)
    } else {
        log
    };
    if c.len() != lines[i].len() {
        assert(event_action(log[0]) == Action::Continue);
    }
    assert forall|k: int| 0 <= k < rest.len() implies #[trigger] event_action(rest[k])
        == Action::Continue by {
        if c.len() != lines[i].len() {
            assert(rest[k] == log[k + 1]);
        }
    }
    assert(spec_dispatch_line(lines, i, header, decode, rest, r));
    match spec_classify(c) {
        LineClass::Empty => {
            lemma_dispatch_all_continue(lines, i + 1, header, decode, rest, r);
        },
        LineClass::Comment => {
            lemma_dispatch_all_continue(lines, i + 1, header, decode, rest, r);
        },
        LineClass::Header => match header {
            Some(h) => {},
            None => {
                if spec_parse_header(c) is Some {
                    assert(event_action(rest[0]) == Action::Continue);
                    let rest2 = rest.skip(1);
                    assert forall|k: int| 0 <= k < rest2.len() implies #[trigger] event_action(
                        rest2[k],
                    ) == Action::Continue by {
                        assert(rest2[k] == rest[k + 1]);
                    }
                    lemma_dispatch_all_continue(lines, i + 1, Some(i as usize), decode, rest2, r);
                }
            },
        },
        LineClass::Stride => {
            if spec_parse_stride(c) is Some {
                assert(event_action(rest[0]) == Action::Continue);
                let rest2 = rest.skip(1);
                assert forall|k: int| 0 <= k < rest2.len() implies #[trigger] event_action(rest2[k])
                    == Action::Continue by {
                    assert(rest2[k] == rest[k + 1]);
                }
                lemma_dispatch_all_continue(lines, i + 1, header, decode, rest2, r);
            }
        },
        LineClass::Approx => {
            if spec_parse_approx(c) is Some {
                assert(event_action(rest[0]) == Action::Continue);
                let rest2 = rest.skip(1);
                assert forall|k: int| 0 <= k < rest2.len() implies #[trigger] event_action(rest2[k])
                    == Action::Continue by {
                    assert(rest2[k] == rest[k + 1]);
                }
                lemma_dispatch_all_continue(lines, i + 1, header, decode, rest2, r);
            }
        },
        LineClass::Param => match spec_parse_param(c) {
            None => {},
            Some(kv) => {
                if kv.0 == treedecomp_key() {
                    if !decode {
                        lemma_dispatch_all_continue(lines, i + 1, header, decode, rest, r);
                    } else if json_td_of(kv.1) is Some {
                        let rest2 = rest.skip(1);
                        assert forall|k: int| 0 <= k < rest2.len() implies #[trigger] event_action(
                            rest2[k],
                        ) == Action::Continue by {
                            assert(rest2[k] == rest[k + 1]);
                        }
                        lemma_dispatch_all_continue(lines, i + 1, header, decode, rest2, r);
                    }
                }
            },
        },
        LineClass::OtherHash => {
            assert(event_action(rest[0]) == Action::Continue);
            let rest2 = rest.skip(1);
            assert forall|k: int| 0 <= k < rest2.len() implies #[trigger] event_action(rest2[k])
                == Action::Continue by {
                assert(rest2[k] == rest[k + 1]);
            }
            lemma_dispatch_all_continue(lines, i + 1, header, decode, rest2, r);
        },
        LineClass::Tree => {
            assert(event_action(rest[0]) == Action::Continue);
            let rest2 = rest.skip(1);
            assert forall|k: int| 0 <= k < rest2.len() implies #[trigger] event_action(rest2[k])
                == Action::Continue by {
                assert(rest2[k] == rest[k + 1]);
            }
            lemma_dispatch_all_continue(lines, i + 1, header, decode, rest2, r);
        },
        LineClass::Other => {
            assert(event_action(rest[0]) == Action::Continue);
            let rest2 = rest.skip(1);
            assert forall|k: int| 0 <= k < rest2.len() implies #[trigger] event_action(rest2[k])
                == Action::Continue by {
                assert(rest2[k] == rest[k + 1]);
            }
            lemma_dispatch_all_continue(lines, i + 1, header, decode, rest2, r);
        },
    }
}

/// Where no handler can run before the scan's first error — every earlier
/// line empty or a comment, no whitespace anomaly up to the error line —
/// the dispatch cannot stop early, so the read must come back with that
/// error.
pub proof fn lemma_dispatch_undeflected(
    lines: Seq<Seq<char>>,
    i: int,
    decode: bool,
    log: Seq<ReadEvent>,
    r: Result<(), ReaderError>,
    e: ReaderError,
)
    requires
        0 <= i,
        lines.len() <= usize::MAX,
        spec_dispatch(lines, i, None, decode, log, r),
        spec_scan_from(lines, i, None, decode) == Some(e),
        spec_undeflected(lines, spec_error_line(e)),
    ensures
        r == Err::<(), ReaderError>(e),
    decreases lines.len() - i,
{
    lemma_scan_error_position(lines, i, None, decode);
    let c = spec_trim(lines[i]);
    // line i sits at or before the error line, so it carries no anomaly
    assert(spec_trim(lines[i]).len() == lines[i].len());
    assert(spec_dispatch_line(lines, i, None, decode, log, r));
    match spec_classify(c) {
        LineClass::Empty => {
            lemma_dispatch_undeflected(lines, i + 1, decode, log, r, e);
        },
        LineClass::Comment => {
            lemma_dispatch_undeflected(lines, i + 1, decode, log, r, e);
        },
        LineClass::Header => {
            if spec_parse_header(c) is Some {
                // the scan would move on, placing the error after line i,
                // whose class then contradicts the undeflected premise
                lemma_scan_error_position(lines, i + 1, Some(i as usize), decode);
                assert(false);
            }
        },
        LineClass::Stride => {
            if spec_parse_stride(c) is Some {
                lemma_scan_error_position(lines, i + 1, None, decode);
                assert(false);
            }
        },
        LineClass::Approx => {
            if spec_parse_approx(c) is Some {
                lemma_scan_error_position(lines, i + 1, None, decode);
                assert(false);
            }
        },
        LineClass::Param => match spec_parse_param(c) {
            None => {},
            Some(kv) => {
                if kv.0 == treedecomp_key() && (!decode || json_td_of(kv.1) is Some) {
                    lemma_scan_error_position(lines, i + 1, None, decode);
                    assert(false);
                }
            },
        },
        LineClass::OtherHash => {
            lemma_scan_error_position(lines, i + 1, None, decode);
            assert(false);
        },
        LineClass::Tree => {
            lemma_scan_error_position(lines, i + 1, None, decode);
            assert(false);
        },
        LineClass::Other => {
            lemma_scan_error_position(lines, i + 1, None, decode);
            assert(false);
        },
    }
}

/// The dispatch-loop obligation at a line boundary: any valid dispatch of
/// the remaining lines extends the log collected so far to a valid full
/// trace.
pub open spec fn read_continuation(
    ls: Seq<Seq<char>>,
    i: int,
    hdr: Option<usize>,
    decode: bool,
    log: Seq<ReadEvent>,
) -> bool {
    forall|rest: Seq<ReadEvent>, res: Result<(), ReaderError>|
        #[trigger] spec_dispatch(ls, i, hdr, decode, rest, res) ==> spec_dispatch(
            ls,
            0,
            None,
            decode,
            log + rest,
            res,
        )
}

/// The dispatch-loop obligation once line `i`'s whitespace anomaly, if
/// any, has been handled: any valid category dispatch of the line extends
/// the log collected so far to a valid full trace.
pub open spec fn line_continuation(
    ls: Seq<Seq<char>>,
    i: int,
    hdr: Option<usize>,
    decode: bool,
    log: Seq<ReadEvent>,
) -> bool {
    forall|rest: Seq<ReadEvent>, res: Result<(), ReaderError>|
        #[trigger] spec_dispatch_line(ls, i, hdr, decode, rest, res) ==> spec_dispatch(
            ls,
            0,
            None,
            decode,
            log + rest,
            res,
        )
}

/// An empty log trivially continues a fresh read.
proof fn lemma_read_start(ls: Seq<Seq<char>>, decode: bool)
    ensures
        read_continuation(ls, 0, None, decode, Seq::empty()),
{
    assert forall|rest: Seq<ReadEvent>, res: Result<(), ReaderError>|
        #[trigger] spec_dispatch(ls, 0, None, decode, rest, res) implies spec_dispatch(
        ls,
        0,
        None,
        decode,
        Seq::<ReadEvent>::empty() + rest,
        res,
    ) by {
        assert(Seq::<ReadEvent>::empty() + rest =~= rest);
    }
}

/// Past the last line, the collected log with result `Ok` is a valid full
/// trace.
proof fn lemma_read_finish(
    ls: Seq<Seq<char>>,
    i: int,
    hdr: Option<usize>,
    decode: bool,
    log: Seq<ReadEvent>,
)
    requires
        i >= ls.len(),
        read_continuation(ls, i, hdr, decode, log),
    ensures
        spec_dispatch(ls, 0, None, decode, log, Ok::<(), ReaderError>(())),
{
    assert(spec_dispatch(ls, i, hdr, decode, Seq::empty(), Ok::<(), ReaderError>(())));
    assert(log + Seq::<ReadEvent>::empty() =~= log);
}

/// A line without extra whitespace goes straight to its category dispatch.
proof fn lemma_no_anomaly(
    ls: Seq<Seq<char>>,
    i: int,
    hdr: Option<usize>,
    decode: bool,
    log: Seq<ReadEvent>,
)
    requires
        0 <= i < ls.len(),
        spec_trim(ls[i]).len() == ls[i].len(),
        read_continuation(ls, i, hdr, decode, log),
    ensures
        line_continuation(ls, i, hdr, decode, log),
{
    assert forall|rest: Seq<ReadEvent>, res: Result<(), ReaderError>|
        #[trigger] spec_dispatch_line(ls, i, hdr, decode, rest, res) implies spec_dispatch(
        ls,
        0,
        None,
        decode,
        log + rest,
        res,
    ) by {
        assert(spec_dispatch(ls, i, hdr, decode, rest, res));
    }
}

/// Logging the whitespace-anomaly dispatch of line `i`: on Terminate the
/// log is complete with a clean `Ok`, on Continue the line's category
/// dispatch is still owed.
proof fn lemma_log_anomaly(
    ls: Seq<Seq<char>>,
    i: int,
    hdr: Option<usize>,
    decode: bool,
    log: Seq<ReadEvent>,
    a: Action,
)
    requires
        0 <= i < ls.len(),
        spec_trim(ls[i]).len() != ls[i].len(),
        read_continuation(ls, i, hdr, decode, log),
    ensures
        ({
            let ev = ReadEvent::ExtraWhitespace { lineno: i as usize, line: ls[i], action: a };
            &&& a == Action::Terminate ==> spec_dispatch(
                ls,
                0,
                None,
                decode,
                log.push(ev),
                Ok::<(), ReaderError>(()),
            )
            &&& a != Action::Terminate ==> line_continuation(ls, i, hdr, decode, log.push(ev))
        }),
{
    let ev = ReadEvent::ExtraWhitespace { lineno: i as usize, line: ls[i], action: a };
    if a == Action::Terminate {
        assert(seq![ev].skip(1) =~= Seq::<ReadEvent>::empty());
        assert(spec_dispatch(ls, i, hdr, decode, seq![ev], Ok::<(), ReaderError>(())));
        assert(log + seq![ev] =~= log.push(ev));
    } else {
        assert forall|rest: Seq<ReadEvent>, res: Result<(), ReaderError>|
            #[trigger] spec_dispatch_line(ls, i, hdr, decode, rest, res) implies spec_dispatch(
            ls,
            0,
            None,
            decode,
            log.push(ev) + rest,
            res,
        ) by {
            assert((seq![ev] + rest)[0] == ev);
            assert((seq![ev] + rest).skip(1) =~= rest);
            assert(spec_dispatch(ls, i, hdr, decode, seq![ev] + rest, res));
            assert(log + (seq![ev] + rest) =~= log.push(ev) + rest);
            assert(spec_dispatch(ls, 0, None, decode, log + (seq![ev] + rest), res));
        }
    }
}

/// An empty or comment line runs no handler and moves on.
proof fn lemma_skip_line(
    ls: Seq<Seq<char>>,
    i: int,
    hdr: Option<usize>,
    decode: bool,
    log: Seq<ReadEvent>,
)
    requires
        0 <= i < ls.len(),
        spec_classify(spec_trim(ls[i])) == LineClass::Empty || spec_classify(spec_trim(ls[i]))
            == LineClass::Comment,
        line_continuation(ls, i, hdr, decode, log),
    ensures
        read_continuation(ls, i + 1, hdr, decode, log),
{
    assert forall|rest: Seq<ReadEvent>, res: Result<(), ReaderError>|
        #[trigger] spec_dispatch(ls, i + 1, hdr, decode, rest, res) implies spec_dispatch(
        ls,
        0,
        None,
        decode,
        log + rest,
        res,
    ) by {
        assert(spec_dispatch_line(ls, i, hdr, decode, rest, res));
    }
}

/// A `treedecomp` parameter line of a visitor that opted out of decoding
/// runs no handler and moves on.
proof fn lemma_skip_param(
    ls: Seq<Seq<char>>,
    i: int,
    hdr: Option<usize>,
    decode: bool,
    log: Seq<ReadEvent>,
)
    requires
        0 <= i < ls.len(),
        spec_classify(spec_trim(ls[i])) == LineClass::Param,
        spec_parse_param(spec_trim(ls[i])) matches Some(kv) && kv.0 == treedecomp_key(),
        !decode,
        line_continuation(ls, i, hdr, decode, log),
    ensures
        read_continuation(ls, i + 1, hdr, decode, log),
{
    assert forall|rest: Seq<ReadEvent>, res: Result<(), ReaderError>|
        #[trigger] spec_dispatch(ls, i + 1, hdr, decode, rest, res) implies spec_dispatch(
        ls,
        0,
        None,
        decode,
        log + rest,
        res,
    ) by {
        assert(spec_dispatch_line(ls, i, hdr, decode, rest, res));
    }
}

/// A malformed or duplicate line aborts the read there: the collected log
/// with the line's error is a valid full trace.
proof fn lemma_log_error(
    ls: Seq<Seq<char>>,
    i: int,
    hdr: Option<usize>,
    decode: bool,
    log: Seq<ReadEvent>,
    e: ReaderError,
)
    requires
        0 <= i < ls.len(),
        spec_dispatch_line(ls, i, hdr, decode, Seq::empty(), Err::<(), ReaderError>(e)),
        line_continuation(ls, i, hdr, decode, log),
    ensures
        spec_dispatch(ls, 0, None, decode, log, Err::<(), ReaderError>(e)),
{
    assert(log + Seq::<ReadEvent>::empty() =~= log);
}

/// Logging the header dispatch of line `i`: on Terminate the log is
/// complete with a clean `Ok`, on Continue the read proceeds with the next
/// line.
proof fn lemma_log_header(
    ls: Seq<Seq<char>>,
    i: int,
    hdr: Option<usize>,
    decode: bool,
    log: Seq<ReadEvent>,
    nt: usize, nl: usize,
    a: Action,
)
    requires
        0 <= i < ls.len(),
        spec_classify(spec_trim(ls[i])) == LineClass::Header,
        spec_parse_header(spec_trim(ls[i])) == Some((nt, nl)),
        hdr is None,
        line_continuation(ls, i, hdr, decode, log),
    ensures
        ({
            let ev = ReadEvent::Header { lineno: i as usize, num_trees: nt, num_leaves: nl, action: a };
            &&& a == Action::Terminate ==> spec_dispatch(
                ls,
                0,
                None,
                decode,
                log.push(ev),
                Ok::<(), ReaderError>(()),
            )
            &&& a != Action::Terminate ==> read_continuation(ls, i + 1, Some(i as usize), decode, log.push(ev))
        }),
{
    let ev = ReadEvent::Header { lineno: i as usize, num_trees: nt, num_leaves: nl, action: a };
    if a == Action::Terminate {
        assert(seq![ev].skip(1) =~= Seq::<ReadEvent>::empty());
        assert(spec_dispatch_line(ls, i, hdr, decode, seq![ev], Ok::<(), ReaderError>(())));
        assert(log + seq![ev] =~= log.push(ev));
    } else {
        assert forall|rest: Seq<ReadEvent>, res: Result<(), ReaderError>|
            #[trigger] spec_dispatch(ls, i + 1, Some(i as usize), decode, rest, res) implies spec_dispatch(
            ls,
            0,
            None,
            decode,
            log.push(ev) + rest,
            res,
        ) by {
            assert((seq![ev] + rest)[0] == ev);
            assert((seq![ev] + rest).skip(1) =~= rest);
            assert(spec_dispatch_line(ls, i, hdr, decode, seq![ev] + rest, res));
            assert(log + (seq![ev] + rest) =~= log.push(ev) + rest);
            assert(spec_dispatch(ls, 0, None, decode, log + (seq![ev] + rest), res));
        }
    }
}

/// Logging the stride dispatch of line `i`: on Terminate the log is
/// complete with a clean `Ok`, on Continue the read proceeds with the next
/// line.
proof fn lemma_log_stride(
    ls: Seq<Seq<char>>,
    i: int,
    hdr: Option<usize>,
    decode: bool,
    log: Seq<ReadEvent>,
    k: Seq<char>, v: Seq<char>,
    a: Action,
)
    requires
        0 <= i < ls.len(),
        spec_classify(spec_trim(ls[i])) == LineClass::Stride,
        spec_parse_stride(spec_trim(ls[i])) == Some((k, v)),
        line_continuation(ls, i, hdr, decode, log),
    ensures
        ({
            let ev = ReadEvent::Stride { lineno: i as usize, line: spec_trim(ls[i]), key: k, value: v, action: a };
            &&& a == Action::Terminate ==> spec_dispatch(
                ls,
                0,
                None,
                decode,
                log.push(ev),
                Ok::<(), ReaderError>(()),
            )
            &&& a != Action::Terminate ==> read_continuation(ls, i + 1, hdr, decode, log.push(ev))
        }),
{
    let ev = ReadEvent::Stride { lineno: i as usize, line: spec_trim(ls[i]), key: k, value: v, action: a };
    if a == Action::Terminate {
        assert(seq![ev].skip(1) =~= Seq::<ReadEvent>::empty());
        assert(spec_dispatch_line(ls, i, hdr, decode, seq![ev], Ok::<(), ReaderError>(())));
        assert(log + seq![ev] =~= log.push(ev));
    } else {
        assert forall|rest: Seq<ReadEvent>, res: Result<(), ReaderError>|
            #[trigger] spec_dispatch(ls, i + 1, hdr, decode, rest, res) implies spec_dispatch(
            ls,
            0,
            None,
            decode,
            log.push(ev) + rest,
            res,
        ) by {
            assert((seq![ev] + rest)[0] == ev);
            assert((seq![ev] + rest).skip(1) =~= rest);
            assert(spec_dispatch_line(ls, i, hdr, decode, seq![ev] + rest, res));
            assert(log + (seq![ev] + rest) =~= log.push(ev) + rest);
            assert(spec_dispatch(ls, 0, None, decode, log + (seq![ev] + rest), res));
        }
    }
}

/// Logging the approx dispatch of line `i`: on Terminate the log is
/// complete with a clean `Ok`, on Continue the read proceeds with the next
/// line.
proof fn lemma_log_approx(
    ls: Seq<Seq<char>>,
    i: int,
    hdr: Option<usize>,
    decode: bool,
    log: Seq<ReadEvent>,
    val: Seq<char>, count: usize,
    a: Action,
)
    requires
        0 <= i < ls.len(),
        spec_classify(spec_trim(ls[i])) == LineClass::Approx,
        spec_parse_approx(spec_trim(ls[i])) == Some((val, count)),
        line_continuation(ls, i, hdr, decode, log),
    ensures
        ({
            let ev = ReadEvent::Approx { lineno: i as usize, value: val, count, action: a };
            &&& a == Action::Terminate ==> spec_dispatch(
                ls,
                0,
                None,
                decode,
                log.push(ev),
                Ok::<(), ReaderError>(()),
            )
            &&& a != Action::Terminate ==> read_continuation(ls, i + 1, hdr, decode, log.push(ev))
        }),
{
    let ev = ReadEvent::Approx { lineno: i as usize, value: val, count, action: a };
    if a == Action::Terminate {
        assert(seq![ev].skip(1) =~= Seq::<ReadEvent>::empty());
        assert(spec_dispatch_line(ls, i, hdr, decode, seq![ev], Ok::<(), ReaderError>(())));
        assert(log + seq![ev] =~= log.push(ev));
    } else {
        assert forall|rest: Seq<ReadEvent>, res: Result<(), ReaderError>|
            #[trigger] spec_dispatch(ls, i + 1, hdr, decode, rest, res) implies spec_dispatch(
            ls,
            0,
            None,
            decode,
            log.push(ev) + rest,
            res,
        ) by {
            assert((seq![ev] + rest)[0] == ev);
            assert((seq![ev] + rest).skip(1) =~= rest);
            assert(spec_dispatch_line(ls, i, hdr, decode, seq![ev] + rest, res));
            assert(log + (seq![ev] + rest) =~= log.push(ev) + rest);
            assert(spec_dispatch(ls, 0, None, decode, log + (seq![ev] + rest), res));
        }
    }
}

/// Logging the decomposition dispatch of line `i`: on Terminate the log is
/// complete with a clean `Ok`, on Continue the read proceeds with the next
/// line.
proof fn lemma_log_decomposition(
    ls: Seq<Seq<char>>,
    i: int,
    hdr: Option<usize>,
    decode: bool,
    log: Seq<ReadEvent>,
    m: (u32, Seq<Seq<u32>>, Seq<(u32, u32)>),
    a: Action,
)
    requires
        0 <= i < ls.len(),
        spec_classify(spec_trim(ls[i])) == LineClass::Param,
        spec_parse_param(spec_trim(ls[i])) matches Some(kv) && kv.0 == treedecomp_key()
            && json_td_of(kv.1) == Some(m),
        decode,
        line_continuation(ls, i, hdr, decode, log),
    ensures
        ({
            let ev = ReadEvent::Decomposition { lineno: i as usize, model: m, action: a };
            &&& a == Action::Terminate ==> spec_dispatch(
                ls,
                0,
                None,
                decode,
                log.push(ev),
                Ok::<(), ReaderError>(()),
            )
            &&& a != Action::Terminate ==> read_continuation(ls, i + 1, hdr, decode, log.push(ev))
        }),
{
    let ev = ReadEvent::Decomposition { lineno: i as usize, model: m, action: a };
    if a == Action::Terminate {
        assert(seq![ev].skip(1) =~= Seq::<ReadEvent>::empty());
        assert(spec_dispatch_line(ls, i, hdr, decode, seq![ev], Ok::<(), ReaderError>(())));
        assert(log + seq![ev] =~= log.push(ev));
    } else {
        assert forall|rest: Seq<ReadEvent>, res: Result<(), ReaderError>|
            #[trigger] spec_dispatch(ls, i + 1, hdr, decode, rest, res) implies spec_dispatch(
            ls,
            0,
            None,
            decode,
            log.push(ev) + rest,
            res,
        ) by {
            assert((seq![ev] + rest)[0] == ev);
            assert((seq![ev] + rest).skip(1) =~= rest);
            assert(spec_dispatch_line(ls, i, hdr, decode, seq![ev] + rest, res));
            assert(log + (seq![ev] + rest) =~= log.push(ev) + rest);
            assert(spec_dispatch(ls, 0, None, decode, log + (seq![ev] + rest), res));
        }
    }
}

/// Logging the dash dispatch of line `i`: on Terminate the log is
/// complete with a clean `Ok`, on Continue the read proceeds with the next
/// line.
proof fn lemma_log_dash(
    ls: Seq<Seq<char>>,
    i: int,
    hdr: Option<usize>,
    decode: bool,
    log: Seq<ReadEvent>,
    
    a: Action,
)
    requires
        0 <= i < ls.len(),
        spec_classify(spec_trim(ls[i])) == LineClass::OtherHash,

        line_continuation(ls, i, hdr, decode, log),
    ensures
        ({
            let ev = ReadEvent::UnrecognizedDash { lineno: i as usize, line: spec_trim(ls[i]), action: a };
            &&& a == Action::Terminate ==> spec_dispatch(
                ls,
                0,
                None,
                decode,
                log.push(ev),
                Ok::<(), ReaderError>(()),
            )
            &&& a != Action::Terminate ==> read_continuation(ls, i + 1, hdr, decode, log.push(ev))
        }),
{
    let ev = ReadEvent::UnrecognizedDash { lineno: i as usize, line: spec_trim(ls[i]), action: a };
    if a == Action::Terminate {
        assert(seq![ev].skip(1) =~= Seq::<ReadEvent>::empty());
        assert(spec_dispatch_line(ls, i, hdr, decode, seq![ev], Ok::<(), ReaderError>(())));
        assert(log + seq![ev] =~= log.push(ev));
    } else {
        assert forall|rest: Seq<ReadEvent>, res: Result<(), ReaderError>|
            #[trigger] spec_dispatch(ls, i + 1, hdr, decode, rest, res) implies spec_dispatch(
            ls,
            0,
            None,
            decode,
            log.push(ev) + rest,
            res,
        ) by {
            assert((seq![ev] + rest)[0] == ev);
            assert((seq![ev] + rest).skip(1) =~= rest);
            assert(spec_dispatch_line(ls, i, hdr, decode, seq![ev] + rest, res));
            assert(log + (seq![ev] + rest) =~= log.push(ev) + rest);
            assert(spec_dispatch(ls, 0, None, decode, log + (seq![ev] + rest), res));
        }
    }
}

/// Logging the tree dispatch of line `i`: on Terminate the log is
/// complete with a clean `Ok`, on Continue the read proceeds with the next
/// line.
proof fn lemma_log_tree(
    ls: Seq<Seq<char>>,
    i: int,
    hdr: Option<usize>,
    decode: bool,
    log: Seq<ReadEvent>,
    
    a: Action,
)
    requires
        0 <= i < ls.len(),
        spec_classify(spec_trim(ls[i])) == LineClass::Tree,

        line_continuation(ls, i, hdr, decode, log),
    ensures
        ({
            let ev = ReadEvent::Tree { lineno: i as usize, line: spec_trim(ls[i]), action: a };
            &&& a == Action::Terminate ==> spec_dispatch(
                ls,
                0,
                None,
                decode,
                log.push(ev),
                Ok::<(), ReaderError>(()),
            )
            &&& a != Action::Terminate ==> read_continuation(ls, i + 1, hdr, decode, log.push(ev))
        }),
{
    let ev = ReadEvent::Tree { lineno: i as usize, line: spec_trim(ls[i]), action: a };
    if a == Action::Terminate {
        assert(seq![ev].skip(1) =~= Seq::<ReadEvent>::empty());
        assert(spec_dispatch_line(ls, i, hdr, decode, seq![ev], Ok::<(), ReaderError>(())));
        assert(log + seq![ev] =~= log.push(ev));
    } else {
        assert forall|rest: Seq<ReadEvent>, res: Result<(), ReaderError>|
            #[trigger] spec_dispatch(ls, i + 1, hdr, decode, rest, res) implies spec_dispatch(
            ls,
            0,
            None,
            decode,
            log.push(ev) + rest,
            res,
        ) by {
            assert((seq![ev] + rest)[0] == ev);
            assert((seq![ev] + rest).skip(1) =~= rest);
            assert(spec_dispatch_line(ls, i, hdr, decode, seq![ev] + rest, res));
            assert(log + (seq![ev] + rest) =~= log.push(ev) + rest);
            assert(spec_dispatch(ls, 0, None, decode, log + (seq![ev] + rest), res));
        }
    }
}

/// Logging the unrecognized dispatch of line `i`: on Terminate the log is
/// complete with a clean `Ok`, on Continue the read proceeds with the next
/// line.
proof fn lemma_log_unrecognized(
    ls: Seq<Seq<char>>,
    i: int,
    hdr: Option<usize>,
    decode: bool,
    log: Seq<ReadEvent>,
    
    a: Action,
)
    requires
        0 <= i < ls.len(),
        spec_classify(spec_trim(ls[i])) == LineClass::Other,

        line_continuation(ls, i, hdr, decode, log),
    ensures
        ({
            let ev = ReadEvent::Unrecognized { lineno: i as usize, line: spec_trim(ls[i]), action: a };
            &&& a == Action::Terminate ==> spec_dispatch(
                ls,
                0,
                None,
                decode,
                log.push(ev),
                Ok::<(), ReaderError>(()),
            )
            &&& a != Action::Terminate ==> read_continuation(ls, i + 1, hdr, decode, log.push(ev))
        }),
{
    let ev = ReadEvent::Unrecognized { lineno: i as usize, line: spec_trim(ls[i]), action: a };
    if a == Action::Terminate {
        assert(seq![ev].skip(1) =~= Seq::<ReadEvent>::empty());
        assert(spec_dispatch_line(ls, i, hdr, decode, seq![ev], Ok::<(), ReaderError>(())));
        assert(log + seq![ev] =~= log.push(ev));
    } else {
        assert forall|rest: Seq<ReadEvent>, res: Result<(), ReaderError>|
            #[trigger] spec_dispatch(ls, i + 1, hdr, decode, rest, res) implies spec_dispatch(
            ls,
            0,
            None,
            decode,
            log.push(ev) + rest,
            res,
        ) by {
            assert((seq![ev] + rest)[0] == ev);
            assert((seq![ev] + rest).skip(1) =~= rest);
            assert(spec_dispatch_line(ls, i, hdr, decode, seq![ev] + rest, res));
            assert(log + (seq![ev] + rest) =~= log.push(ev) + rest);
            assert(spec_dispatch(ls, 0, None, decode, log + (seq![ev] + rest), res));
        }
    }
}

/// Reads an instance in the PACE 2026 format, dispatching every recognized
/// line to the visitor it owns; the visitor is taken over at construction
/// and can be inspected again through the public field once reading is
/// done. The ghost `log` records the dispatch of the most recent read.
pub struct InstanceReader<V> {
    pub visitor: V,
    /// Dispatch log of the most recent [`InstanceReader::read`] call: every
    /// handler invocation in input order, with its line number, its parsed
    /// arguments, and the action the handler returned.
    pub log: Ghost<Seq<ReadEvent>>,
}

impl<V: InstanceVisitor> InstanceReader<V> {
    pub fn new(visitor: V) -> (r: Self)
        ensures
            r.visitor == visitor,
            r.log@ =~= Seq::<ReadEvent>::empty(),
    {
        Self { visitor, log: Ghost(Seq::empty()) }
    }

    /// Processes `input` line by line: classifies each line, hands it to the
    /// matching visitor method, and stops cleanly the first time a handler
    /// returns [`Action::Terminate`]. The whole dispatch is recorded in the
    /// ghost [`InstanceReader::log`] and pinned by [`spec_dispatch`]: the
    /// right handler for every line in input order with nothing skipped,
    /// ending at the first Terminate, at the first malformed line (whose
    /// error comes back), or at the end of the input. Any returned error is
    /// the one [`spec_scan`] names, and where no handler runs before the
    /// scan fails ([`spec_undeflected`]) that error is owed.
    pub fn read(&mut self, input: &str) -> (r: Result<(), ReaderError>)
        ensures
            spec_dispatch(
                spec_lines(input@),
                0,
                None,
                V::opts_in_tree_decomposition(),
                final(self).log@,
                r,
            ),
            r matches Err(e) ==> spec_scan(
                spec_lines(input@),
                V::opts_in_tree_decomposition(),
            ) == Some(e),
            match spec_scan(spec_lines(input@), V::opts_in_tree_decomposition()) {
                Some(e) => spec_undeflected(spec_lines(input@), spec_error_line(e)) ==> r
                    == Err::<(), ReaderError>(e),
                None => r is Ok,
            },
            (forall|k: int|
                0 <= k < final(self).log@.len() ==> #[trigger] event_action(final(self).log@[k])
                    == Action::Continue) ==> match spec_scan(
                spec_lines(input@),
                V::opts_in_tree_decomposition(),
            ) {
                Some(e) => r == Err::<(), ReaderError>(e),
                None => r == Ok::<(), ReaderError>(()),
            },
    {
        let r = self.dispatch_lines(input);
        proof {
            let ls = spec_lines(input@);
            let decode = V::opts_in_tree_decomposition();
            match r {
                Err(e) => lemma_dispatch_err(ls, 0, None, decode, self.log@, e),
                Ok(_) => {},
            }
            match spec_scan(ls, decode) {
                Some(e) => {
                    if spec_undeflected(ls, spec_error_line(e)) {
                        lemma_dispatch_undeflected(ls, 0, decode, self.log@, r, e);
                    }
                },
                None => {},
            }
            if forall|k: int|
                0 <= k < self.log@.len() ==> #[trigger] event_action(self.log@[k])
                    == Action::Continue {
                lemma_dispatch_all_continue(ls, 0, None, decode, self.log@, r);
            }
        }
        r
    }

    /// The dispatch loop behind [`InstanceReader::read`]: classifies each
    /// line, runs the matching handler, records the event, and maintains
    /// the header-uniqueness state.
    fn dispatch_lines(&mut self, input: &str) -> (r: Result<(), ReaderError>)
        ensures
            spec_lines(input@).len() <= usize::MAX,
            spec_dispatch(
                spec_lines(input@),
                0,
                None,
                V::opts_in_tree_decomposition(),
                final(self).log@,
                r,
            ),
    {
        self.log = Ghost(Seq::empty());
        let lines = lines_of(input);
        let ghost ls = spec_lines(input@);
        let ghost decode = V::opts_in_tree_decomposition();
        let total = lines.len();
        proof {
            assert(ls.len() == total as int);
            lemma_read_start(ls, decode);
        }
        let mut header_line: Option<usize> = None;
        let mut lineno: usize = 0;
        while lineno < lines.len()
            invariant
                lineno <= lines.len(),
                ls == spec_lines(input@),
                lines@.len() == ls.len(),
                forall|k: int| 0 <= k < ls.len() ==> #[trigger] lines@[k]@ == ls[k],
                decode == V::opts_in_tree_decomposition(),
                read_continuation(ls, lineno as int, header_line, decode, self.log@),
            decreases lines.len() - lineno,
        {
            let ghost i = lineno as int;
            let ghost hdr0 = header_line;
            let line = lines[lineno];
            let content = trim_str(line);
            proof {
                assert(content@ == spec_trim(ls[i]));
            }
            if content.unicode_len() != line.unicode_len() {
                let a = self.visitor.visit_line_with_extra_whitespace(lineno, line);
                proof {
                    lemma_log_anomaly(ls, i, hdr0, decode, self.log@, a);
                }
                self.log = Ghost(
                    self.log@.push(ReadEvent::ExtraWhitespace { lineno, line: line@, action: a }),
                );
                if a == Action::Terminate {
                    return Ok(());
                }
            } else {
                proof {
                    lemma_no_anomaly(ls, i, hdr0, decode, self.log@);
                }
            }
            // on every path here, `line_continuation` holds of the current log
            match classify_line(content) {
                LineClass::Empty => {
                    proof {
                        lemma_skip_line(ls, i, hdr0, decode, self.log@);
                    }
                },
                LineClass::Comment => {
                    proof {
                        lemma_skip_line(ls, i, hdr0, decode, self.log@);
                    }
                },
                LineClass::Header => {
                    match header_line {
                        Some(lineno0) => {
                            let err = ReaderError::MultipleHeaders { lineno0, lineno1: lineno };
                            proof {
                                lemma_log_error(ls, i, hdr0, decode, self.log@, err);
                            }
                            return Err(err);
                        },
                        None => {
                            match try_parse_header(content) {
                                None => {
                                    let err = ReaderError::InvalidHeaderLine { lineno };
                                    proof {
                                        lemma_log_error(ls, i, hdr0, decode, self.log@, err);
                                    }
                                    return Err(err);
                                },
                                Some((num_trees, num_leaves)) => {
                                    header_line = Some(lineno);
                                    let a = self.visitor.visit_header(lineno, num_trees, num_leaves);
                                    proof {
                                        lemma_log_header(
                                            ls,
                                            i,
                                            hdr0,
                                            decode,
                                            self.log@,
                                            num_trees,
                                            num_leaves,
                                            a,
                                        );
                                    }
                                    self.log = Ghost(
                                        self.log@.push(
                                            ReadEvent::Header {
                                                lineno,
                                                num_trees,
                                                num_leaves,
                                                action: a,
                                            },
                                        ),
                                    );
                                    if a == Action::Terminate {
                                        return Ok(());
                                    }
                                },
                            }
                        },
                    }
                },
                LineClass::Stride => {
                    match try_parse_stride_line(content) {
                        None => {
                            let err = ReaderError::InvalidStrideLine { lineno };
                            proof {
                                lemma_log_error(ls, i, hdr0, decode, self.log@, err);
                            }
                            return Err(err);
                        },
                        Some((key, value)) => {
                            let a = self.visitor.visit_stride_line(lineno, content, key, value);
                            proof {
                                lemma_log_stride(ls, i, hdr0, decode, self.log@, key@, value@, a);
                            }
                            self.log = Ghost(
                                self.log@.push(
                                    ReadEvent::Stride {
                                        lineno,
                                        line: content@,
                                        key: key@,
                                        value: value@,
                                        action: a,
                                    },
                                ),
                            );
                            if a == Action::Terminate {
                                return Ok(());
                            }
                        },
                    }
                },
                LineClass::Approx => {
                    match try_parse_approx_line(content) {
                        None => {
                            let err = ReaderError::InvalidApproxLine { lineno };
                            proof {
                                lemma_log_error(ls, i, hdr0, decode, self.log@, err);
                            }
                            return Err(err);
                        },
                        Some((value, count)) => {
                            let a = self.visitor.visit_approx_line(lineno, value, count);
                            proof {
                                lemma_log_approx(ls, i, hdr0, decode, self.log@, value@, count, a);
                            }
                            self.log = Ghost(
                                self.log@.push(
                                    ReadEvent::Approx { lineno, value: value@, count, action: a },
                                ),
                            );
                            if a == Action::Terminate {
                                return Ok(());
                            }
                        },
                    }
                },
                LineClass::Param => {
                    match try_parse_param_line(content) {
                        None => {
                            let err = ReaderError::InvalidParameterLine { lineno };
                            proof {
                                lemma_log_error(ls, i, hdr0, decode, self.log@, err);
                            }
                            return Err(err);
                        },
                        Some((key, value)) => {
                            if !is_treedecomp_key(key) {
                                let err = ReaderError::UnknownParameter { lineno };
                                proof {
                                    lemma_log_error(ls, i, hdr0, decode, self.log@, err);
                                }
                                return Err(err);
                            }
                            if V::wants_tree_decomposition() {
                                match TreeDecomposition::try_from_json(value) {
                                    None => {
                                        let err = ReaderError::InvalidJSON { lineno };
                                        proof {
                                            lemma_log_error(ls, i, hdr0, decode, self.log@, err);
                                        }
                                        return Err(err);
                                    },
                                    Some(td) => {
                                        let ghost m = td.model();
                                        let a = self.visitor.visit_param_tree_decomposition(
                                            lineno,
                                            td,
                                        );
                                        proof {
                                            lemma_log_decomposition(
                                                ls,
                                                i,
                                                hdr0,
                                                decode,
                                                self.log@,
                                                m,
                                                a,
                                            );
                                        }
                                        self.log = Ghost(
                                            self.log@.push(
                                                ReadEvent::Decomposition {
                                                    lineno,
                                                    model: m,
                                                    action: a,
                                                },
                                            ),
                                        );
                                        if a == Action::Terminate {
                                            return Ok(());
                                        }
                                    },
                                }
                            } else {
                                proof {
                                    lemma_skip_param(ls, i, hdr0, decode, self.log@);
                                }
                            }
                        },
                    }
                },
                LineClass::OtherHash => {
                    let a = self.visitor.visit_unrecognized_dash_line(lineno, content);
                    proof {
                        lemma_log_dash(ls, i, hdr0, decode, self.log@, a);
                    }
                    self.log = Ghost(
                        self.log@.push(
                            ReadEvent::UnrecognizedDash { lineno, line: content@, action: a },
                        ),
                    );
                    if a == Action::Terminate {
                        return Ok(());
                    }
                },
                LineClass::Tree => {
                    let a = self.visitor.visit_tree(lineno, content);
                    proof {
                        lemma_log_tree(ls, i, hdr0, decode, self.log@, a);
                    }
                    self.log = Ghost(
                        self.log@.push(ReadEvent::Tree { lineno, line: content@, action: a }),
                    );
                    if a == Action::Terminate {
                        return Ok(());
                    }
                },
                LineClass::Other => {
                    let a = self.visitor.visit_unrecognized_line(lineno, content);
                    proof {
                        lemma_log_unrecognized(ls, i, hdr0, decode, self.log@, a);
                    }
                    self.log = Ghost(
                        self.log@.push(ReadEvent::Unrecognized { lineno, line: content@, action: a }),
                    );
                    if a == Action::Terminate {
                        return Ok(());
                    }
                },
            }
            lineno = lineno + 1;
        }
        proof {
            lemma_read_finish(ls, lineno as int, header_line, decode, self.log@);
        }
        Ok(())
    }
}

} // verus!
