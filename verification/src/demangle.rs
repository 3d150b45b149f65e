//! The legacy game's symbol-mangling scheme, as its toolchain wrote it:
//! `base__<len><Class>F<signature>` names the member function `Class::base`,
//! and `base__F<signature>` a free function `base`. Anything else is left
//! alone: a name that does not demangle is kept raw, never an error.
//! Demangled names ordinarily fall outside the scheme and are then kept
//! raw, though a base that itself holds a `__` suffix of the scheme's
//! shape can still match.

use vstd::prelude::*;
use crate::chars::{
    chars_to_string, exec_is_digit_char, is_digit_char, push_char, slice_chars, str_to_chars,
};

verus! {

/// The largest `i` at or below `j` where `__` stands (and a non-empty base
/// precedes it).
pub open spec fn spec_last_sep(s: Seq<char>, j: int) -> Option<int>
    decreases j,
{
    if j < 1 {
        None
    } else if s[j] == '_' && s[j + 1] == '_' {
        Some(j)
    } else {
        spec_last_sep(s, j - 1)
    }
}

/// The number of leading decimal digits of `s` from `i`.
pub open spec fn spec_digit_run(s: Seq<char>, i: int) -> int
    decreases s.len() - i,
{
    if 0 <= i < s.len() && is_digit_char(s[i]) {
        spec_digit_run(s, i + 1)
    } else {
        i
    }
}

/// The decimal value of `s[i..j]`, all digits.
pub open spec fn spec_decimal(s: Seq<char>, i: int, j: int, acc: int) -> int
    decreases j - i,
{
    if i >= j {
        acc
    } else {
        spec_decimal(s, i + 1, j, acc * 10 + (s[i] as int - '0' as int))
    }
}

/// What a mangled name denotes: `Class::base` for a member function,
/// `base` for a free function, `None` when the name is not of the scheme.
pub open spec fn spec_demangle(s: Seq<char>) -> Option<Seq<char>> {
    match spec_last_sep(s, s.len() - 2) {
        None => None,
        Some(p) => {
            let base = s.subrange(0, p);
            let suffix = s.subrange(p + 2, s.len() as int);
            if suffix.len() >= 2 && suffix[0] == 'F' {
                Some(base)
            } else {
                let dl = spec_digit_run(suffix, 0);
                if dl < 1 || dl > 4 {
                    None
                } else {
                    let val = spec_decimal(suffix, 0, dl, 0);
                    if val < 1 || !(dl + val + 2 <= suffix.len()) || suffix[dl + val] != 'F' {
                        None
                    } else {
                        Some(suffix.subrange(dl, dl + val) + seq![':', ':'] + base)
                    }
                }
            }
        },
    }
}

pub open spec fn spec_pow10(e: int) -> int
    decreases e,
{
    if e <= 0 {
        1
    } else {
        10 * spec_pow10(e - 1)
    }
}

/// Demangles one legacy-scheme name; a name not of the scheme is `None`,
/// and the caller keeps the raw text.
pub fn demangle(name: &str) -> (r: Option<String>)
    ensures
        (r is Some) == (spec_demangle(name@) is Some),
        r is Some ==> Some(r->0@) == spec_demangle(name@),
{
    let v = str_to_chars(name);
    let n = v.len();
    if n < 2 {
        proof {
            assert(spec_last_sep(v@, n - 2) is None);
        }
        return None;
    }
    let mut jj: usize = n - 2;
    let mut sep: Option<usize> = None;
    while jj >= 1
        invariant_except_break
            jj <= n - 2,
            n == v@.len(),
            n >= 2,
            sep is None,
            spec_last_sep(v@, n - 2) == spec_last_sep(v@, jj as int),
        ensures
            match sep {
                Some(p) => Some(p as int) == spec_last_sep(v@, n - 2) && p + 2 <= n,
                None => spec_last_sep(v@, n - 2) is None,
            },
        decreases jj,
    {
        if v[jj] == '_' && v[jj + 1] == '_' {
            sep = Some(jj);
            proof {
                assert(spec_last_sep(v@, jj as int) == Some(jj as int));
            }
            break ;
        }
        jj = jj - 1;
    }
    let p = match sep {
        None => {
            return None;
        },
        Some(p) => p,
    };
    let ghost base = v@.subrange(0, p as int);
    let ghost suffix = v@.subrange((p + 2) as int, n as int);
    proof {
        assert(suffix.len() == n - p - 2);
    }
    if n - p > 3 && v[p + 2] == 'F' {
        proof {
            assert(suffix[0] == v@[(p + 2) as int]);
            assert(suffix.len() >= 2);
        }
        let b = slice_chars(&v, 0, p);
        return Some(chars_to_string(&b));
    }
    proof {
        if suffix.len() >= 2 && suffix[0] == 'F' {
            assert(suffix[0] == v@[(p + 2) as int]);
        }
    }
    // length-prefixed class name, then `F` and a non-empty signature
    let start = p + 2;
    let mut k: usize = start;
    while k < n && k - start < 5 && exec_is_digit_char(v[k])
        invariant
            start <= k <= n,
            k - start <= 5,
            n == v@.len(),
            start == p + 2,
            p + 2 <= n,
            suffix == v@.subrange((p + 2) as int, n as int),
            forall|m: int| start <= m < k ==> is_digit_char(v@[m]),
            spec_digit_run(suffix, 0) == spec_digit_run(suffix, (k - start) as int),
        decreases n - k,
    {
        proof {
            assert(suffix[(k - start) as int] == v@[k as int]);
        }
        k = k + 1;
    }
    proof {
        lemma_digit_run_ge(suffix, (k - start) as int);
        if k < n && k - start < 5 {
            assert(suffix[(k - start) as int] == v@[k as int]);
            assert(spec_digit_run(suffix, (k - start) as int) == (k - start) as int);
        }
        if k == n {
            assert(spec_digit_run(suffix, (k - start) as int) == (k - start) as int);
        }
    }
    let dl = k - start;
    if dl < 1 || dl > 4 {
        proof {
            if dl > 4 {
                assert(spec_digit_run(suffix, 0) > 4);
            } else {
                assert(spec_digit_run(suffix, 0) == 0);
            }
        }
        return None;
    }
    let mut val: usize = 0;
    let mut m: usize = start;
    while m < k
        invariant
            start <= m <= k <= n,
            k - start <= 4,
            n == v@.len(),
            start == p + 2,
            p + 2 <= n,
            suffix == v@.subrange((p + 2) as int, n as int),
            forall|q: int| start <= q < k ==> is_digit_char(v@[q]),
            val < spec_pow10((m - start) as int),
            spec_decimal(suffix, 0, (k - start) as int, 0) == spec_decimal(
                suffix,
                (m - start) as int,
                (k - start) as int,
                val as int,
            ),
        decreases k - m,
    {
        proof {
            assert(suffix[(m - start) as int] == v@[m as int]);
            assert(is_digit_char(v@[m as int]));
            assert(spec_pow10(0) == 1);
            assert(spec_pow10(1) == 10);
            assert(spec_pow10(2) == 100);
            assert(spec_pow10(3) == 1000);
            assert(spec_pow10(4) == 10000);
            assert(spec_pow10((m - start) as int) <= spec_pow10(4)) by {
                lemma_pow10_mono((m - start) as int, 4);
            }
        }
        let c = v[m];
        val = val * 10 + ((c as u32) - ('0' as u32)) as usize;
        m = m + 1;
    }
    proof {
        assert(spec_pow10(0) == 1);
        assert(spec_pow10(1) == 10);
        assert(spec_pow10(2) == 100);
        assert(spec_pow10(3) == 1000);
        assert(spec_pow10(4) == 10000);
        lemma_pow10_mono((k - start) as int, 4);
        assert(val <= 9999);
    }
    if val < 1 {
        return None;
    }
    if (val as u64) + 2 > ((n - k) as u64) {
        proof {
            assert(!((k - start) + val + 2 <= suffix.len()));
        }
        return None;
    }
    if v[k + val] != 'F' {
        proof {
            assert(suffix[(k - start) + val] == v@[(k + val) as int]);
        }
        return None;
    }
    proof {
        assert(suffix[(k - start) + val] == v@[(k + val) as int]);
    }
    let class_vec = slice_chars(&v, k, k + val);
    let base_vec = slice_chars(&v, 0, p);
    let mut out = chars_to_string(&class_vec);
    push_char(&mut out, ':');
    push_char(&mut out, ':');
    let base_str = chars_to_string(&base_vec);
    out.append(base_str.as_str());
    proof {
        assert(suffix.subrange((k - start) as int, (k - start) + val) =~= v@.subrange(
            k as int,
            (k + val) as int,
        ));
        assert(out@ =~= suffix.subrange((k - start) as int, (k - start) + val) + seq![':', ':']
            + base);
    }
    Some(out)
}

pub proof fn lemma_digit_run_ge(s: Seq<char>, i: int)
    requires
        0 <= i,
    ensures
        spec_digit_run(s, i) >= i,
    decreases s.len() - i,
{
    if i < s.len() && is_digit_char(s[i]) {
        lemma_digit_run_ge(s, i + 1);
    }
}

pub proof fn lemma_pow10_mono(a: int, b: int)
    requires
        a <= b,
    ensures
        spec_pow10(a) <= spec_pow10(b),
    decreases b - a,
{
    if a < b {
        lemma_pow10_mono(a, b - 1);
        if b > 0 {
            assert(spec_pow10(b) == 10 * spec_pow10(b - 1));
            lemma_pow10_pos(b - 1);
        }
    }
}

pub proof fn lemma_pow10_pos(e: int)
    ensures
        spec_pow10(e) >= 1,
    decreases e,
{
    if e > 0 {
        lemma_pow10_pos(e - 1);
    }
}

} // verus!
