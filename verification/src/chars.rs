//! Character classes and text helpers shared by the assembler and the
//! symbol-map codec. The codec's row layout is defined over these ASCII
//! classes.

use vstd::prelude::*;
use vstd::string::StringSliceAdditionalSpecFns;

verus! {

/// Whitespace, as the codec's row layout counts it.
pub open spec fn is_space_char(c: char) -> bool {
    c == ' ' || c == '\t' || c == '\n' || c == '\r' || c == '\u{b}' || c == '\u{c}'
}

/// A word character of the codec's row layout: ASCII letters, digits, `_`.
pub open spec fn is_word_char(c: char) -> bool {
    ('0' <= c && c <= '9') || ('a' <= c && c <= 'z') || ('A' <= c && c <= 'Z') || c == '_'
}

pub open spec fn is_digit_char(c: char) -> bool {
    '0' <= c && c <= '9'
}

pub open spec fn is_hex_digit_char(c: char) -> bool {
    ('0' <= c && c <= '9') || ('a' <= c && c <= 'f') || ('A' <= c && c <= 'F')
}

/// The value of one hex digit.
pub open spec fn spec_hex_val(c: char) -> u64 {
    if '0' <= c && c <= '9' {
        ((c as int) - ('0' as int)) as u64
    } else if 'a' <= c && c <= 'f' {
        ((c as int) - ('a' as int) + 10) as u64
    } else {
        ((c as int) - ('A' as int) + 10) as u64
    }
}

pub fn exec_is_space_char(c: char) -> (r: bool)
    ensures
        r == is_space_char(c),
{
    c == ' ' || c == '\t' || c == '\n' || c == '\r' || c == '\u{b}' || c == '\u{c}'
}

pub fn exec_is_word_char(c: char) -> (r: bool)
    ensures
        r == is_word_char(c),
{
    ('0' <= c && c <= '9') || ('a' <= c && c <= 'z') || ('A' <= c && c <= 'Z') || c == '_'
}

pub fn exec_is_digit_char(c: char) -> (r: bool)
    ensures
        r == is_digit_char(c),
{
    '0' <= c && c <= '9'
}

pub fn exec_is_hex_digit_char(c: char) -> (r: bool)
    ensures
        r == is_hex_digit_char(c),
{
    ('0' <= c && c <= '9') || ('a' <= c && c <= 'f') || ('A' <= c && c <= 'F')
}

pub fn exec_hex_val(c: char) -> (r: u64)
    requires
        is_hex_digit_char(c),
    ensures
        r == spec_hex_val(c),
        r < 16,
{
    if '0' <= c && c <= '9' {
        (c as u64) - ('0' as u64)
    } else if 'a' <= c && c <= 'f' {
        (c as u64) - ('a' as u64) + 10
    } else {
        (c as u64) - ('A' as u64) + 10
    }
}

/// The characters of a string slice, as an indexable vector.
pub fn str_to_chars(s: &str) -> (r: Vec<char>)
    ensures
        r@ == s@,
{
    let n: usize = s.unicode_len();
    let mut r: Vec<char> = Vec::new();
    let mut i: usize = 0;
    while i < n
        invariant
            i <= n,
            n == s@.len(),
            r@ == s@.subrange(0, i as int),
        decreases n - i,
    {
        r.push(s.get_char(i));
        proof {
            assert(r@ =~= s@.subrange(0, i + 1 as int));
        }
        i += 1;
    }
    proof {
        assert(r@ =~= s@);
    }
    r
}

/// `s` with its leading whitespace dropped.
pub open spec fn spec_trim_start(s: Seq<char>) -> Seq<char>
    decreases s.len(),
{
    if s.len() > 0 && is_space_char(s[0]) {
        spec_trim_start(s.subrange(1, s.len() as int))
    } else {
        s
    }
}

/// `s` with its trailing whitespace dropped.
pub open spec fn spec_trim_end(s: Seq<char>) -> Seq<char>
    decreases s.len(),
{
    if s.len() > 0 && is_space_char(s[s.len() - 1]) {
        spec_trim_end(s.subrange(0, s.len() - 1))
    } else {
        s
    }
}

/// `s` with whitespace dropped at both ends.
pub open spec fn spec_trim(s: Seq<char>) -> Seq<char> {
    spec_trim_end(spec_trim_start(s))
}

pub proof fn lemma_trim_start_len(s: Seq<char>)
    ensures
        spec_trim_start(s).len() <= s.len(),
    decreases s.len(),
{
    if s.len() > 0 && is_space_char(s[0]) {
        lemma_trim_start_len(s.subrange(1, s.len() as int));
    }
}

pub proof fn lemma_trim_start_skip(s: Seq<char>, i: int)
    requires
        0 <= i <= s.len(),
        forall|j: int| 0 <= j < i ==> is_space_char(s[j]),
    ensures
        spec_trim_start(s) == spec_trim_start(s.subrange(i, s.len() as int)),
    decreases i,
{
    if i > 0 {
        let t = s.subrange(1, s.len() as int);
        assert(spec_trim_start(s) == spec_trim_start(t));
        lemma_trim_start_skip(t, i - 1);
        assert(t.subrange(i - 1, t.len() as int) =~= s.subrange(i, s.len() as int));
    } else {
        assert(s.subrange(0, s.len() as int) =~= s);
    }
}

pub proof fn lemma_trim_end_skip(s: Seq<char>, i: int)
    requires
        0 <= i <= s.len(),
        forall|j: int| i <= j < s.len() ==> is_space_char(s[j]),
    ensures
        spec_trim_end(s) == spec_trim_end(s.subrange(0, i)),
    decreases s.len() - i,
{
    if i < s.len() {
        let t = s.subrange(0, s.len() - 1);
        assert(spec_trim_end(s) == spec_trim_end(t));
        lemma_trim_end_skip(t, i);
        assert(t.subrange(0, i) =~= s.subrange(0, i));
    } else {
        assert(s.subrange(0, s.len() as int) =~= s);
    }
}

/// A copy of `v[lo..hi]`.
pub fn slice_chars(v: &Vec<char>, lo: usize, hi: usize) -> (r: Vec<char>)
    requires
        lo <= hi <= v.len(),
    ensures
        r@ == v@.subrange(lo as int, hi as int),
{
    let mut r: Vec<char> = Vec::new();
    let mut i: usize = lo;
    while i < hi
        invariant
            lo <= i <= hi <= v.len(),
            r@ == v@.subrange(lo as int, i as int),
        decreases hi - i,
    {
        r.push(v[i]);
        proof {
            assert(r@ =~= v@.subrange(lo as int, i + 1 as int));
        }
        i += 1;
    }
    r
}

/// The bounds of `v[..k]` with whitespace dropped at both ends:
/// `v[r.0 .. r.1]` is the trimmed text.
pub fn trim_bounds(v: &Vec<char>, k: usize) -> (r: (usize, usize))
    requires
        k <= v.len(),
    ensures
        r.0 <= r.1 <= k,
        v@.subrange(r.0 as int, r.1 as int) == spec_trim(v@.subrange(0, k as int)),
{
    let ghost w = v@.subrange(0, k as int);
    let mut lo: usize = 0;
    while lo < k && exec_is_space_char(v[lo])
        invariant
            lo <= k <= v@.len(),
            w == v@.subrange(0, k as int),
            forall|j: int| 0 <= j < lo ==> is_space_char(w[j]),
        decreases k - lo,
    {
        lo += 1;
    }
    proof {
        lemma_trim_start_skip(w, lo as int);
    }
    if lo == k {
        proof {
            assert(w.subrange(k as int, k as int) =~= Seq::<char>::empty());
            assert(v@.subrange(k as int, k as int) =~= spec_trim(w));
        }
        return (k, k);
    }
    let ghost t = w.subrange(lo as int, k as int);
    proof {
        assert(spec_trim_start(w) == t);
        assert(t[0] == w[lo as int] == v@[lo as int]);
        assert(!is_space_char(t[0]));
    }
    let mut hi: usize = k;
    while hi > lo + 1 && exec_is_space_char(v[hi - 1])
        invariant
            lo < hi <= k <= v@.len(),
            w == v@.subrange(0, k as int),
            forall|j: int| hi <= j < k ==> is_space_char(w[j]),
        decreases hi,
    {
        hi -= 1;
    }
    proof {
        assert(forall|j: int| hi - lo <= j < t.len() ==> is_space_char(t[j]));
        lemma_trim_end_skip(t, hi - lo);
        assert(t.subrange(0, hi - lo) =~= v@.subrange(lo as int, hi as int));
        if hi == lo + 1 {
            assert(v@[hi - 1] == t[0]);
        }
        assert(!is_space_char(v@[hi - 1]));
        let u = t.subrange(0, hi - lo);
        assert(u[u.len() - 1] == v@[hi - 1]);
        assert(spec_trim_end(u) == u);
        assert(spec_trim(w) == v@.subrange(lo as int, hi as int));
    }
    (lo, hi)
}

/// A copy of `v` with whitespace dropped at both ends.
pub fn trim_chars(v: &Vec<char>) -> (r: Vec<char>)
    ensures
        r@ == spec_trim(v@),
{
    let (lo, hi) = trim_bounds(v, v.len());
    proof {
        assert(v@.subrange(0, v@.len() as int) =~= v@);
    }
    slice_chars(v, lo, hi)
}

/// The index of the first `\n` at or past `i`, or `s.len()`.
pub open spec fn spec_first_nl(s: Seq<char>, i: int) -> int
    decreases s.len() - i,
{
    if 0 <= i < s.len() && s[i] != '\n' {
        spec_first_nl(s, i + 1)
    } else {
        i
    }
}

pub proof fn lemma_first_nl(s: Seq<char>, i: int, j: int)
    requires
        0 <= i <= j <= s.len(),
        forall|k: int| i <= k < j ==> s[k] != '\n',
        j == s.len() || s[j] == '\n',
    ensures
        spec_first_nl(s, i) == j,
    decreases j - i,
{
    if i < j {
        lemma_first_nl(s, i + 1, j);
    }
}

/// A line with its trailing carriage return dropped.
pub open spec fn spec_strip_cr(t: Seq<char>) -> Seq<char> {
    if t.len() > 0 && t[t.len() - 1] == '\r' {
        t.subrange(0, t.len() - 1)
    } else {
        t
    }
}

/// The lines of `s`: split at `\n`, a carriage return before the split
/// dropped, and no empty final line after a trailing newline.
pub open spec fn spec_lines(s: Seq<char>) -> Seq<Seq<char>>
    decreases s.len(),
    via spec_lines_dec
{
    if s.len() == 0 {
        Seq::empty()
    } else {
        let j = spec_first_nl(s, 0);
        if j == s.len() {
            seq![spec_strip_cr(s)]
        } else {
            seq![spec_strip_cr(s.subrange(0, j))] + spec_lines(s.subrange(j + 1, s.len() as int))
        }
    }
}

#[via_fn]
proof fn spec_lines_dec(s: Seq<char>) {
    if s.len() > 0 {
        lemma_first_nl_bounds(s, 0);
    }
}

pub proof fn lemma_first_nl_bounds(s: Seq<char>, i: int)
    requires
        0 <= i <= s.len(),
    ensures
        i <= spec_first_nl(s, i) <= s.len(),
    decreases s.len() - i,
{
    if i < s.len() && s[i] != '\n' {
        lemma_first_nl_bounds(s, i + 1);
    }
}

/// A newline-free line followed by `\n` splits off whole.
pub proof fn lemma_lines_cons(body: Seq<char>, rest: Seq<char>)
    requires
        forall|k: int| 0 <= k < body.len() ==> body[k] != '\n',
        body.len() == 0 || body[body.len() - 1] != '\r',
    ensures
        spec_lines(body + seq!['\n'] + rest) == seq![body] + spec_lines(rest),
{
    let s = body + seq!['\n'] + rest;
    assert(s.len() > 0);
    assert forall|k: int| 0 <= k < body.len() implies s[k] != '\n' by {
        assert(s[k] == body[k]);
    }
    assert(s[body.len() as int] == '\n');
    lemma_first_nl(s, 0, body.len() as int);
    assert(spec_first_nl(s, 0) == body.len());
    assert(s.subrange(0, body.len() as int) =~= body);
    assert(spec_strip_cr(body) == body);
    assert(s.subrange(body.len() as int + 1, s.len() as int) =~= rest);
}

/// Splits the text into its lines, each line a character vector.
#[verifier::loop_isolation(false)]
pub fn split_lines(v: &Vec<char>) -> (r: Vec<Vec<char>>)
    ensures
        r.deep_view() == spec_lines(v@),
{
    let n = v.len();
    let ghost whole = spec_lines(v@);
    let mut out: Vec<Vec<char>> = Vec::new();
    let mut pos: usize = 0;
    proof {
        assert(v@.subrange(0, n as int) =~= v@);
        assert(out.deep_view() =~~= Seq::<Seq<char>>::empty());
        assert(out.deep_view() + whole =~= whole);
    }
    while pos < n
        invariant
            pos <= n,
            whole == out.deep_view() + spec_lines(v@.subrange(pos as int, n as int)),
        decreases n - pos,
    {
        let ghost rest = v@.subrange(pos as int, n as int);
        let mut j: usize = pos;
        while j < n && v[j] != '\n'
            invariant
                pos <= j <= n,
                forall|k: int| pos <= k < j ==> v@[k] != '\n',
            decreases n - j,
        {
            j += 1;
        }
        proof {
            lemma_first_nl(rest, 0, (j - pos) as int);
            assert(forall|k: int|
                0 <= k < j - pos ==> #[trigger] rest[k] == v@[pos + k] && rest[k] != '\n');
        }
        let mut hi: usize = j;
        if hi > pos && v[hi - 1] == '\r' {
            hi = hi - 1;
        }
        let line = slice_chars(v, pos, hi);
        proof {
            assert(rest.subrange(0, (j - pos) as int) =~= v@.subrange(pos as int, j as int));
            if j == n {
                assert(rest =~= v@.subrange(pos as int, j as int));
            }
            assert(line@ =~= spec_strip_cr(v@.subrange(pos as int, j as int)));
        }
        let ghost prev = out.deep_view();
        out.push(line);
        proof {
            assert(out.deep_view() =~~= prev + seq![line@]);
            if (j as int) < rest.len() + pos {
            }
            if j < n {
                assert(rest.subrange((j - pos) + 1, rest.len() as int) =~= v@.subrange(
                    j + 1 as int,
                    n as int,
                ));
                assert((prev + seq![line@]) + spec_lines(v@.subrange(j + 1 as int, n as int))
                    =~= prev + (seq![line@] + spec_lines(v@.subrange(j + 1 as int, n as int))));
            } else {
                assert(v@.subrange(n as int, n as int).len() == 0);
                assert((prev + seq![line@]) + spec_lines(v@.subrange(n as int, n as int)) =~= prev
                    + seq![line@]);
            }
        }
        if j < n {
            pos = j + 1;
        } else {
            pos = n;
        }
    }
    proof {
        assert(v@.subrange(n as int, n as int).len() == 0);
        assert(out.deep_view() + Seq::<Seq<char>>::empty() =~= out.deep_view());
    }
    out
}

/// Relies on std's `core::str::from_utf8`: `Some` exactly when the bytes
/// are valid UTF-8, and then the returned text is those bytes.
#[verifier::external_body]
pub fn utf8_to_str(v: &[u8]) -> (r: Option<&str>)
    ensures
        (r is Some) == vstd::utf8::valid_utf8(v@),
        r is Some ==> r->0.spec_bytes() == v@,
{
    core::str::from_utf8(v).ok()
}

/// Relies on std's `String::push`: appends the given character to the end of
/// this string.
#[verifier::external_body]
pub fn push_char(s: &mut String, c: char)
    ensures
        final(s)@ == old(s)@.push(c),
{
    s.push(c);
}

/// A `String` holding exactly the characters of `v`.
pub fn chars_to_string(v: &Vec<char>) -> (r: String)
    ensures
        r@ == v@,
{
    let mut r = String::new();
    let mut i: usize = 0;
    while i < v.len()
        invariant
            i <= v@.len(),
            r@ == v@.subrange(0, i as int),
        decreases v@.len() - i,
    {
        push_char(&mut r, v[i]);
        proof {
            assert(r@ =~= v@.subrange(0, i + 1 as int));
        }
        i += 1;
    }
    proof {
        assert(r@ =~= v@);
    }
    r
}

/// The lowercase hex digit for a value below 16.
pub open spec fn hex_digit_char(v: u64) -> char {
    if v == 0 {
        '0'
    } else if v == 1 {
        '1'
    } else if v == 2 {
        '2'
    } else if v == 3 {
        '3'
    } else if v == 4 {
        '4'
    } else if v == 5 {
        '5'
    } else if v == 6 {
        '6'
    } else if v == 7 {
        '7'
    } else if v == 8 {
        '8'
    } else if v == 9 {
        '9'
    } else if v == 10 {
        'a'
    } else if v == 11 {
        'b'
    } else if v == 12 {
        'c'
    } else if v == 13 {
        'd'
    } else if v == 14 {
        'e'
    } else {
        'f'
    }
}

/// `value` written as `width` lowercase hex digits, most significant first,
/// truncated to the low `width` digits.
pub open spec fn spec_hex(value: u64, width: nat) -> Seq<char>
    decreases width,
{
    if width == 0 {
        Seq::empty()
    } else {
        spec_hex(value / 16, (width - 1) as nat) + seq![hex_digit_char(value % 16)]
    }
}

fn append_hex_digit(s: &mut String, v: u64)
    requires
        v < 16,
    ensures
        final(s)@ == old(s)@ + seq![hex_digit_char(v)],
{
    let t: &str = if v == 0 {
        "0"
    } else if v == 1 {
        "1"
    } else if v == 2 {
        "2"
    } else if v == 3 {
        "3"
    } else if v == 4 {
        "4"
    } else if v == 5 {
        "5"
    } else if v == 6 {
        "6"
    } else if v == 7 {
        "7"
    } else if v == 8 {
        "8"
    } else if v == 9 {
        "9"
    } else if v == 10 {
        "a"
    } else if v == 11 {
        "b"
    } else if v == 12 {
        "c"
    } else if v == 13 {
        "d"
    } else if v == 14 {
        "e"
    } else {
        "f"
    };
    proof {
        reveal_strlit("0");
        reveal_strlit("1");
        reveal_strlit("2");
        reveal_strlit("3");
        reveal_strlit("4");
        reveal_strlit("5");
        reveal_strlit("6");
        reveal_strlit("7");
        reveal_strlit("8");
        reveal_strlit("9");
        reveal_strlit("a");
        reveal_strlit("b");
        reveal_strlit("c");
        reveal_strlit("d");
        reveal_strlit("e");
        reveal_strlit("f");
        assert(t@ =~= seq![hex_digit_char(v)]);
    }
    s.append(t);
}

/// Appends `value` as `width` lowercase hex digits, most significant first.
pub fn append_hex(s: &mut String, value: u64, width: u64)
    ensures
        final(s)@ == old(s)@ + spec_hex(value, width as nat),
    decreases width,
{
    if width == 0 {
        proof {
            assert(old(s)@ + spec_hex(value, 0) =~= old(s)@);
        }
        return ;
    }
    append_hex(s, value / 16, width - 1);
    append_hex_digit(s, value % 16);
    proof {
        assert(old(s)@ + spec_hex(value / 16, (width - 1) as nat) + seq![
            hex_digit_char(value % 16),
        ] =~= old(s)@ + spec_hex(value, width as nat));
    }
}

} // verus!
