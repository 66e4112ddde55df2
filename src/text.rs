use vstd::prelude::*;

verus! {

/// Whether a character has the Unicode `White_Space` property, the set that
/// `char::is_whitespace` tests.
pub open spec fn is_white(c: char) -> bool {
    ('\u{9}' <= c && c <= '\u{d}') || c == ' ' || c == '\u{85}' || c == '\u{a0}' || c == '\u{1680}'
        || ('\u{2000}' <= c && c <= '\u{200a}') || c == '\u{2028}' || c == '\u{2029}' || c
        == '\u{202f}' || c == '\u{205f}' || c == '\u{3000}'
}

/// Whether `c` is whitespace in the sense of `is_white`.
pub fn char_is_whitespace(c: char) -> (r: bool)
    ensures
        r == is_white(c),
{
    ('\u{9}' <= c && c <= '\u{d}') || c == ' ' || c == '\u{85}' || c == '\u{a0}' || c == '\u{1680}'
        || ('\u{2000}' <= c && c <= '\u{200a}') || c == '\u{2028}' || c == '\u{2029}' || c
        == '\u{202f}' || c == '\u{205f}' || c == '\u{3000}'
}

/// Relies on String::push: appends one character.
#[verifier::external_body]
fn push_char(s: &mut String, c: char)
    ensures
        final(s)@ == old(s)@.push(c),
{
    s.push(c);
}

/// `s` without its leading whitespace.
pub open spec fn trim_start(s: Seq<char>) -> Seq<char>
    decreases s.len(),
{
    if s.len() > 0 && is_white(s[0]) {
        trim_start(s.drop_first())
    } else {
        s
    }
}

/// `s` without its trailing whitespace.
pub open spec fn trim_end(s: Seq<char>) -> Seq<char>
    decreases s.len(),
{
    if s.len() > 0 && is_white(s.last()) {
        trim_end(s.drop_last())
    } else {
        s
    }
}

/// `s` without leading and trailing whitespace.
pub open spec fn trim(s: Seq<char>) -> Seq<char> {
    trim_end(trim_start(s))
}

/// One line, trimmed; a single space stands for what trimming removed.
pub open spec fn normalize_line(l: Seq<char>) -> Seq<char> {
    if trim(l).len() == l.len() {
        trim(l)
    } else {
        seq![' '] + trim(l)
    }
}

/// The index of the first line feed in `s`, or its length if there is none.
pub open spec fn first_newline(s: Seq<char>) -> nat
    decreases s.len(),
{
    if s.len() == 0 {
        0
    } else if s[0] == '\n' {
        0
    } else {
        1 + first_newline(s.drop_first())
    }
}

/// A line without the carriage return that ended it.
pub open spec fn drop_cr(l: Seq<char>) -> Seq<char> {
    if l.len() > 0 && l.last() == '\r' {
        l.drop_last()
    } else {
        l
    }
}

/// The text split into lines (at `\n` or `\r\n`; a last line feed ends the
/// last line), each line normalized, and the results joined with nothing
/// between them.
pub open spec fn strip_indent(s: Seq<char>) -> Seq<char>
    decreases s.len(),
{
    if s.len() == 0 {
        Seq::<char>::empty()
    } else {
        let k = first_newline(s) as int;
        if k >= s.len() {
            normalize_line(s)
        } else {
            normalize_line(drop_cr(s.take(k))) + strip_indent(s.skip(k + 1))
        }
    }
}

proof fn lemma_first_newline(s: Seq<char>, k: int)
    requires
        0 <= k <= s.len(),
        forall|j: int| 0 <= j < k ==> s[j] != '\n',
        k == s.len() || s[k] == '\n',
    ensures
        first_newline(s) == k,
    decreases k,
{
    if k > 0 {
        lemma_first_newline(s.drop_first(), k - 1);
    }
}

/// The characters of `s`, one by one.
fn chars_of(s: &str) -> (r: Vec<char>)
    ensures
        r@ == s@,
{
    let mut v: Vec<char> = Vec::new();
    for c in it: s.chars()
        invariant
            v@ == it.seq().take(it.index() as int),
    {
        v.push(c);
    }
    v
}

/// Appends `cs[a..b]`, as `normalize_line` has it.
fn push_normalized_line(cs: &Vec<char>, a: usize, b: usize, out: &mut String)
    requires
        a <= b <= cs@.len(),
    ensures
        final(out)@ == old(out)@ + normalize_line(cs@.subrange(a as int, b as int)),
{
    let ghost l = cs@.subrange(a as int, b as int);
    let mut lo: usize = a;
    while lo < b && char_is_whitespace(cs[lo])
        invariant
            a <= lo <= b <= cs@.len(),
            trim_start(l) == trim_start(cs@.subrange(lo as int, b as int)),
        decreases b - lo,
    {
        assert(cs@.subrange(lo as int, b as int).drop_first() == cs@.subrange(lo + 1, b as int));
        lo = lo + 1;
    }
    assert(trim_start(l) == cs@.subrange(lo as int, b as int));
    let mut hi: usize = b;
    while hi > lo && char_is_whitespace(cs[hi - 1])
        invariant
            a <= lo <= hi <= b <= cs@.len(),
            trim(l) == trim_end(cs@.subrange(lo as int, hi as int)),
        decreases hi - lo,
    {
        assert(cs@.subrange(lo as int, hi as int).drop_last() == cs@.subrange(lo as int, hi - 1));
        hi = hi - 1;
    }
    assert(trim(l) == cs@.subrange(lo as int, hi as int));
    let ghost start = out@;
    if lo != a || hi != b {
        push_char(out, ' ');
    }
    let ghost lead = out@;
    let mut i: usize = lo;
    while i < hi
        invariant
            lo <= i <= hi <= cs@.len(),
            out@ == lead + cs@.subrange(lo as int, i as int),
        decreases hi - i,
    {
        push_char(out, cs[i]);
        assert(cs@.subrange(lo as int, i + 1) == cs@.subrange(lo as int, i as int).push(cs@[i as int]));
        i = i + 1;
    }
}

/// Removes the indentation of pretty-printed text: each line (split at `\n`
/// or `\r\n`) is trimmed, and where trimming removed anything a single space
/// takes its place; the lines are then joined with nothing between them.
pub fn strip_text_indent(s: &str) -> (r: String)
    ensures
        r@ == strip_indent(s@),
{
    let cs = chars_of(s);
    let n = cs.len();
    let mut out = String::new();
    let mut ls: usize = 0;
    let mut i: usize = 0;
    assert(cs@.subrange(0, n as int) == s@);
    assert(out@ + strip_indent(s@) == strip_indent(s@));
    while i < n
        invariant
            n == cs@.len(),
            cs@ == s@,
            ls <= i <= n,
            forall|j: int| ls <= j < i ==> cs@[j] != '\n',
            out@ + strip_indent(cs@.subrange(ls as int, n as int)) == strip_indent(s@),
        decreases n - i,
    {
        if cs[i] == '\n' {
            let ghost rest = cs@.subrange(ls as int, n as int);
            proof {
                lemma_first_newline(rest, i - ls);
            }
            assert(rest.take(i - ls) == cs@.subrange(ls as int, i as int));
            assert(rest.skip(i - ls + 1) == cs@.subrange(i + 1, n as int));
            let end = if i > ls && cs[i - 1] == '\r' {
                i - 1
            } else {
                i
            };
            assert(drop_cr(cs@.subrange(ls as int, i as int)) == cs@.subrange(ls as int, end as int));
            push_normalized_line(&cs, ls, end, &mut out);
            assert(out@ + strip_indent(cs@.subrange(i + 1, n as int)) == strip_indent(s@));
            ls = i + 1;
        }
        i = i + 1;
    }
    if ls < n {
        let ghost rest = cs@.subrange(ls as int, n as int);
        proof {
            lemma_first_newline(rest, n - ls);
        }
        push_normalized_line(&cs, ls, n, &mut out);
    } else {
        assert(out@ + Seq::<char>::empty() == out@);
    }
    out
}

} // verus!
