//! Which format strings the format-string parser can take without panicking.
//!
//! The parser slices two characters past the leading digits of a bitfield
//! type without checking that they are there, and it sizes a table by the
//! largest explicit argument index. Strings where the first would fail, or
//! with an index no smaller than the string's length, are left out here. The
//! parser refuses such an index anyway: every index below it would have to be
//! used, and a string holds fewer parameters than characters.
use vstd::prelude::*;
use vstd::string::StrSliceExecFns;

verus! {

pub open spec fn is_ascii_digit(c: char) -> bool {
    '0' <= c && c <= '9'
}

/// Number of ASCII digits of `s` from `i` on, before `hi`.
pub open spec fn digit_run(s: Seq<char>, i: int, hi: int) -> nat
    decreases hi - i,
{
    if 0 <= i < hi && hi <= s.len() && is_ascii_digit(s[i]) {
        1 + digit_run(s, i + 1, hi)
    } else {
        0
    }
}

/// The value of the `k` decimal digits of `s` from `i` on.
pub open spec fn digits_value(s: Seq<char>, i: int, k: nat) -> nat
    decreases k,
{
    if k == 0 {
        0
    } else {
        digits_value(s, i, (k - 1) as nat) * 10 + (s[i + k - 1] as nat - 48) as nat
    }
}

/// The first index in `i..hi` where `s` holds `c`, or `hi`.
pub open spec fn first_of(s: Seq<char>, c: char, i: int, hi: int) -> int
    decreases hi - i,
{
    if i < 0 || i >= hi || hi > s.len() {
        hi
    } else if s[i] == c {
        i
    } else {
        first_of(s, c, i + 1, hi)
    }
}

/// Whether the parser's bitfield reading of type text `s[a..e]` stays in
/// bounds: where it starts with digits worth at most 255, the two characters
/// after them must end on a character boundary inside the text.
pub open spec fn type_ok(s: Seq<char>, a: int, e: int) -> bool {
    let k = digit_run(s, a, e);
    let p = a + k;
    (k >= 1 && digits_value(s, a, k) <= 255) ==> (p < e && ((0x80 <= s[p] as u32 && (s[p] as u32)
        < 0x800) || ((s[p] as u32) < 0x80 && p + 1 < e && (s[p + 1] as u32) < 0x80)))
}

/// Whether parameter text `s[lo..hi]` is safe: an explicit index below the
/// string's length, and safe type text after a `=`.
pub open spec fn body_ok(s: Seq<char>, lo: int, hi: int) -> bool {
    let m = digit_run(s, lo, hi);
    &&& (m == 0 || digits_value(s, lo, m) < s.len())
    &&& (lo + m < hi && s[lo + m] == '=') ==> type_ok(s, lo + m + 1, first_of(s, ':', lo + m + 1, hi))
}

/// Whether every parameter from `i` on, as the parser finds them, is safe. A
/// parameter is the text between a `{` that does not start `{{` and the next
/// `}`; like the parser, the scan goes on right after that `{`, so a `{`
/// inside a parameter's text starts a parameter of its own.
pub open spec fn bodies_ok(s: Seq<char>, i: int) -> bool
    decreases s.len() - i,
{
    if i < 0 || i >= s.len() {
        true
    } else if s[i] != '{' {
        bodies_ok(s, i + 1)
    } else if i + 1 < s.len() && s[i + 1] == '{' {
        bodies_ok(s, i + 2)
    } else {
        let j = first_of(s, '}', i + 1, s.len() as int);
        if j >= s.len() || j < i {
            true
        } else {
            body_ok(s, i + 1, j) && bodies_ok(s, i + 1)
        }
    }
}

/// Whether the format-string parser takes `s` without panicking.
pub open spec fn parse_safe(s: Seq<char>) -> bool {
    bodies_ok(s, 0)
}

fn chars_of(s: &str) -> (r: Vec<char>)
    ensures
        r@ == s@,
{
    let n = s.unicode_len();
    let mut v: Vec<char> = Vec::new();
    let mut i: usize = 0;
    while i < n
        invariant
            n as nat == s@.len(),
            i <= n,
            v@ == s@.subrange(0, i as int),
        decreases n - i,
    {
        v.push(s.get_char(i));
        assert(v@ =~= s@.subrange(0, i + 1));
        i = i + 1;
    }
    assert(v@ =~= s@);
    v
}

fn first_of_exec(s: &Vec<char>, c: char, i: usize, hi: usize) -> (r: usize)
    requires
        i <= hi <= s@.len(),
    ensures
        r as int == first_of(s@, c, i as int, hi as int),
        i <= r <= hi,
{
    let mut j = i;
    while j < hi && s[j] != c
        invariant
            i <= j <= hi <= s@.len(),
            first_of(s@, c, i as int, hi as int) == first_of(s@, c, j as int, hi as int),
        decreases hi - j,
    {
        j = j + 1;
    }
    j
}

fn digit_run_exec(s: &Vec<char>, i: usize, hi: usize) -> (r: usize)
    requires
        i <= hi <= s@.len(),
    ensures
        r as nat == digit_run(s@, i as int, hi as int),
        i + r <= hi,
{
    let mut j = i;
    while j < hi && '0' <= s[j] && s[j] <= '9'
        invariant
            i <= j <= hi <= s@.len(),
            digit_run(s@, i as int, hi as int) == (j - i) + digit_run(s@, j as int, hi as int),
        decreases hi - j,
    {
        j = j + 1;
    }
    j - i
}

proof fn lemma_digits_value_grows(s: Seq<char>, i: int, k: nat)
    requires
        k >= 1,
        forall|j: int| i <= j < i + k ==> #[trigger] is_ascii_digit(s[j]),
    ensures
        digits_value(s, i, k) >= digits_value(s, i, (k - 1) as nat),
{
}

/// The value of the `k` digits of `s` from `i` on, capped at `cap`.
fn capped_value(s: &Vec<char>, i: usize, k: usize, cap: u128) -> (r: u128)
    requires
        i + k <= s.len(),
        forall|j: int| i <= j < i + k ==> #[trigger] is_ascii_digit(s@[j]),
        cap < 0x1_0000_0000_0000_0000_0000,
    ensures
        r as nat == if digits_value(s@, i as int, k as nat) < cap {
            digits_value(s@, i as int, k as nat)
        } else {
            cap as nat
        },
{
    let mut v: u128 = 0;
    let mut t: usize = 0;
    while t < k
        invariant
            t <= k,
            i + k <= s.len(),
            forall|j: int| i <= j < i + k ==> #[trigger] is_ascii_digit(s@[j]),
            cap < 0x1_0000_0000_0000_0000_0000,
            v as nat == if digits_value(s@, i as int, t as nat) < cap {
                digits_value(s@, i as int, t as nat)
            } else {
                cap as nat
            },
        decreases k - t,
    {
        let c = s[i + t];
        assert(is_ascii_digit(s@[i + t]));
        let d: u128 = (c as u32 - 48) as u128;
        proof {
            lemma_digits_value_grows(s@, i as int, (t + 1) as nat);
        }
        let w = v * 10 + d;
        v = if w < cap {
            w
        } else {
            cap
        };
        t = t + 1;
    }
    v
}

fn type_ok_exec(s: &Vec<char>, a: usize, e: usize) -> (r: bool)
    requires
        a <= e <= s@.len(),
    ensures
        r == type_ok(s@, a as int, e as int),
{
    let k = digit_run_exec(s, a, e);
    proof {
        lemma_run_digits(s@, a as int, e as int);
    }
    if k == 0 {
        return true;
    }
    let v = capped_value(s, a, k, 256);
    if v > 255 {
        return true;
    }
    let p = a + k;
    if p >= e {
        return false;
    }
    let c = s[p] as u32;
    if 0x80 <= c && c < 0x800 {
        return true;
    }
    c < 0x80 && p + 1 < e && (s[p + 1] as u32) < 0x80
}

proof fn lemma_run_digits(s: Seq<char>, i: int, hi: int)
    ensures
        forall|j: int| i <= j < i + digit_run(s, i, hi) ==> #[trigger] is_ascii_digit(s[j]),
        digit_run(s, i, hi) > 0 ==> i + digit_run(s, i, hi) <= hi && hi <= s.len() && 0 <= i,
    decreases hi - i,
{
    if 0 <= i < hi && hi <= s.len() && is_ascii_digit(s[i]) {
        lemma_run_digits(s, i + 1, hi);
    }
}

fn body_ok_exec(s: &Vec<char>, lo: usize, hi: usize) -> (r: bool)
    requires
        lo <= hi <= s@.len(),
    ensures
        r == body_ok(s@, lo as int, hi as int),
{
    let m = digit_run_exec(s, lo, hi);
    proof {
        lemma_run_digits(s@, lo as int, hi as int);
    }
    if m > 0 {
        let v = capped_value(s, lo, m, s.len() as u128 + 1);
        if v >= s.len() as u128 {
            return false;
        }
    }
    if lo + m < hi && s[lo + m] == '=' {
        let e = first_of_exec(s, ':', lo + m + 1, hi);
        type_ok_exec(s, lo + m + 1, e)
    } else {
        true
    }
}

/// Whether the format-string parser takes `format` without panicking.
pub fn parse_is_safe(format: &str) -> (r: bool)
    ensures
        r == parse_safe(format@),
{
    let s = chars_of(format);
    let n = s.len();
    let mut i: usize = 0;
    while i < n
        invariant
            n == s@.len(),
            s@ == format@,
            i <= n + 1,
            bodies_ok(s@, 0) == bodies_ok(s@, i as int),
        decreases n + 1 - i,
    {
        if s[i] != '{' {
            i = i + 1;
        } else if i + 1 < n && s[i + 1] == '{' {
            i = i + 2;
        } else {
            let j = first_of_exec(&s, '}', i + 1, n);
            if j >= n {
                return true;
            }
            if !body_ok_exec(&s, i + 1, j) {
                return false;
            }
            i = i + 1;
        }
    }
    true
}

} // verus!
