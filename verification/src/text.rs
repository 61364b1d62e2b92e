//! Small text helpers shared by the notation and protocol modules.
use vstd::prelude::*;
use vstd::string::StrSliceExecFns;

verus! {

/// `String::push` from std: appends one character at the end.
#[verifier::external_body]
pub(crate) fn push_char(s: &mut String, c: char)
    ensures
        final(s)@ == old(s)@.push(c),
{
    s.push(c);
}

/// Appends every character of `t` to `s`.
pub fn push_str(s: &mut String, t: &str)
    ensures
        final(s)@ == old(s)@ + t@,
{
    let n = t.unicode_len();
    let mut i: usize = 0;
    while i < n
        invariant
            n == t@.len(),
            i <= n,
            s@ == old(s)@ + t@.subrange(0, i as int),
        decreases n - i,
    {
        let c = t.get_char(i);
        push_char(s, c);
        i = i + 1;
        assert(t@.subrange(0, i as int) == t@.subrange(0, (i - 1) as int).push(c));
    }
    assert(t@.subrange(0, n as int) == t@);
}

/// The characters of `s`, one per element.
pub fn chars_of(s: &str) -> (v: Vec<char>)
    ensures
        v@ == s@,
{
    let n = s.unicode_len();
    let mut v: Vec<char> = Vec::new();
    let mut i: usize = 0;
    while i < n
        invariant
            n == s@.len(),
            i <= n,
            v@ == s@.subrange(0, i as int),
        decreases n - i,
    {
        v.push(s.get_char(i));
        i = i + 1;
    }
    v
}

/// Appends the given characters to `s`.
pub fn push_chars(s: &mut String, cs: &Vec<char>)
    ensures
        final(s)@ == old(s)@ + cs@,
{
    let mut i: usize = 0;
    while i < cs.len()
        invariant
            i <= cs.len(),
            s@ == old(s)@ + cs@.subrange(0, i as int),
        decreases cs.len() - i,
    {
        push_char(s, cs[i]);
        i = i + 1;
        assert(cs@.subrange(0, i as int) == cs@.subrange(0, (i - 1) as int).push(cs@[i - 1]));
    }
    assert(cs@.subrange(0, i as int) == cs@);
}

/// A string made of the given characters.
pub fn string_of(cs: &Vec<char>) -> (s: String)
    ensures
        s@ == cs@,
{
    let mut s = String::new();
    let mut i: usize = 0;
    while i < cs.len()
        invariant
            i <= cs.len(),
            s@ == cs@.subrange(0, i as int),
        decreases cs.len() - i,
    {
        push_char(&mut s, cs[i]);
        i = i + 1;
    }
    s
}

/// The decimal digits of `n`, most significant first, with no sign.
pub open spec fn decimal(n: nat) -> Seq<char>
    decreases n,
{
    if n < 10 {
        seq![digit_char(n)]
    } else {
        decimal(n / 10).push(digit_char(n % 10))
    }
}

pub open spec fn digit_char(d: nat) -> char {
    (48 + d) as char
}

/// The usual decimal rendering of an integer, with a leading '-' when negative.
pub open spec fn int_text(n: int) -> Seq<char> {
    if n < 0 {
        seq!['-'] + decimal((-n) as nat)
    } else {
        decimal(n as nat)
    }
}

/// Appends the decimal digits of `n`.
pub fn push_decimal(s: &mut String, n: u64)
    ensures
        final(s)@ == old(s)@ + decimal(n as nat),
    decreases n,
{
    if n >= 10 {
        push_decimal(s, n / 10);
    }
    let d = (n % 10) as u8;
    push_char(s, (48u8 + d) as char);
}

/// Appends the decimal digits of a 128-bit `n`.
pub fn push_decimal_wide(s: &mut String, n: u128)
    ensures
        final(s)@ == old(s)@ + decimal(n as nat),
    decreases n,
{
    if n >= 10 {
        push_decimal_wide(s, n / 10);
    }
    let d = (n % 10) as u8;
    push_char(s, (48u8 + d) as char);
}

/// Appends `n` in decimal, with a '-' first when it is negative.
pub fn push_int(s: &mut String, n: i64)
    ensures
        final(s)@ == old(s)@ + int_text(n as int),
{
    if n < 0 {
        push_char(s, '-');
        let m: u64 = if n == i64::MIN {
            9223372036854775808u64
        } else {
            (-n) as u64
        };
        push_decimal(s, m);
        assert(old(s)@.push('-') + decimal(m as nat) == old(s)@ + (seq!['-'] + decimal(m as nat)));
    } else {
        push_decimal(s, n as u64);
    }
}

/// Whether two character sequences agree once ASCII letters are folded to
/// lower case.
pub open spec fn lower(c: char) -> char {
    if 'A' <= c && c <= 'Z' {
        ((c as u32) + 32) as char
    } else {
        c
    }
}

pub open spec fn eq_ignore_ascii_case(a: Seq<char>, b: Seq<char>) -> bool {
    a.len() == b.len() && forall|i: int| 0 <= i < a.len() ==> lower(#[trigger] a[i]) == lower(b[i])
}

pub fn to_lower(c: char) -> (r: char)
    ensures
        r == lower(c),
{
    if 'A' <= c && c <= 'Z' {
        let b = c as u8;
        assert(b as u32 == c as u32);
        (b + 32) as char
    } else {
        c
    }
}

/// `str::eq_ignore_ascii_case` over character vectors.
pub fn chars_eq_ignore_case(a: &Vec<char>, b: &Vec<char>) -> (r: bool)
    ensures
        r == eq_ignore_ascii_case(a@, b@),
{
    if a.len() != b.len() {
        return false;
    }
    let mut i: usize = 0;
    while i < a.len()
        invariant
            a.len() == b.len(),
            i <= a.len(),
            forall|j: int| 0 <= j < i ==> lower(#[trigger] a@[j]) == lower(b@[j]),
        decreases a.len() - i,
    {
        if to_lower(a[i]) != to_lower(b[i]) {
            return false;
        }
        i = i + 1;
    }
    true
}

/// Exact equality of two character vectors.
pub fn chars_eq(a: &Vec<char>, b: &Vec<char>) -> (r: bool)
    ensures
        r == (a@ == b@),
{
    if a.len() != b.len() {
        return false;
    }
    let mut i: usize = 0;
    while i < a.len()
        invariant
            a.len() == b.len(),
            i <= a.len(),
            forall|j: int| 0 <= j < i ==> a@[j] == b@[j],
        decreases a.len() - i,
    {
        if a[i] != b[i] {
            return false;
        }
        i = i + 1;
    }
    assert(a@ =~= b@);
    true
}

/// An element-by-element copy of `v`.
pub fn copy_vec<T: Copy>(v: &Vec<T>) -> (r: Vec<T>)
    ensures
        r@ == v@,
{
    let mut r: Vec<T> = Vec::new();
    let mut i: usize = 0;
    while i < v.len()
        invariant
            i <= v@.len(),
            r@ == v@.take(i as int),
        decreases v@.len() - i,
    {
        r.push(v[i]);
        i = i + 1;
    }
    assert(v@.take(i as int) == v@);
    r
}

/// What `str::parse` accepts for an unsigned integer type whose largest
/// value is `max`: an optional `+`, then at least one decimal digit, with a
/// value no larger than `max`.
pub open spec fn unsigned_value(s: Seq<char>, max: nat) -> Option<nat> {
    let d = if s.len() > 0 && s[0] == '+' {
        s.drop_first()
    } else {
        s
    };
    if d.len() > 0 && crate::fen::all_digits(d) && crate::fen::digits_value(d) <= max {
        Some(crate::fen::digits_value(d))
    } else {
        None
    }
}

/// `str::parse::<u64>`.
pub fn parse_u64(text: &str) -> (r: Option<u64>)
    ensures
        r matches Some(v) ==> unsigned_value(text@, u64::MAX as nat) == Some(v as nat),
        r is None ==> unsigned_value(text@, u64::MAX as nat) is None,
{
    parse_u64_chars(&chars_of(text))
}

/// `str::parse::<usize>`.
pub fn parse_usize_chars(s: &Vec<char>) -> (r: Option<usize>)
    ensures
        r matches Some(v) ==> unsigned_value(s@, usize::MAX as nat) == Some(v as nat),
        r is None ==> unsigned_value(s@, usize::MAX as nat) is None,
{
    match parse_u64_chars(s) {
        Some(v) => if v <= usize::MAX as u64 {
            Some(v as usize)
        } else {
            None
        },
        None => None,
    }
}

/// `str::parse::<u64>` over characters.
pub fn parse_u64_chars(s: &Vec<char>) -> (r: Option<u64>)
    ensures
        r matches Some(v) ==> unsigned_value(s@, u64::MAX as nat) == Some(v as nat),
        r is None ==> unsigned_value(s@, u64::MAX as nat) is None,
{
    let ghost text = s@;
    let start: usize = if s.len() > 0 && s[0] == '+' {
        1
    } else {
        0
    };
    let ghost d = if s@.len() > 0 && s@[0] == '+' {
        s@.drop_first()
    } else {
        s@
    };
    assert(d == s@.subrange(start as int, s@.len() as int));
    if start >= s.len() {
        return None;
    }
    let mut value: u64 = 0;
    let mut i: usize = start;
    while i < s.len()
        invariant
            start <= i <= s@.len(),
            s@ == text,
            d == s@.subrange(start as int, s@.len() as int),
            d == (if s@.len() > 0 && s@[0] == '+' { s@.drop_first() } else { s@ }),
            crate::fen::all_digits(d.subrange(0, i - start)),
            value as nat == crate::fen::digits_value(d.subrange(0, i - start)),
        decreases s@.len() - i,
    {
        let c = s[i];
        if !('0' <= c && c <= '9') {
            proof {
                assert(d[i - start] == c);
                assert(!crate::fen::all_digits(d));
            }
            return None;
        }
        let digit: u64 = (c as u32 - 48) as u64;
        let ghost pre = d.subrange(0, i - start);
        let ghost now = d.subrange(0, i + 1 - start);
        proof {
            assert(now.drop_last() =~= pre);
            assert(now.last() == c);
            assert(crate::fen::all_digits(now));
            assert(crate::fen::digits_value(now) == crate::fen::digits_value(pre) * 10 + digit);
        }
        if value > (u64::MAX - digit) / 10 {
            proof {
                assert(value * 10 + digit > u64::MAX) by (nonlinear_arith)
                    requires
                        value > (u64::MAX - digit) / 10,
                        digit <= 9,
                ;
                if crate::fen::all_digits(d) {
                    crate::fen::lemma_digits_grow(d, i + 1 - start);
                }
            }
            return None;
        }
        proof {
            assert(value * 10 + digit <= u64::MAX) by (nonlinear_arith)
                requires
                    value <= (u64::MAX - digit) / 10,
                    digit <= 9,
            ;
        }
        value = value * 10 + digit;
        i = i + 1;
    }
    proof {
        assert(d.subrange(0, i - start) == d);
    }
    Some(value)
}

/// The elements `v[a..b]`.
pub fn copy_range<T: Copy>(v: &Vec<T>, a: usize, b: usize) -> (r: Vec<T>)
    requires
        a <= b <= v@.len(),
    ensures
        r@ == v@.subrange(a as int, b as int),
{
    let mut r: Vec<T> = Vec::new();
    let mut i: usize = a;
    while i < b
        invariant
            a <= i <= b <= v@.len(),
            r@ == v@.subrange(a as int, i as int),
        decreases b - i,
    {
        r.push(v[i]);
        i = i + 1;
        assert(r@ =~= v@.subrange(a as int, i as int));
    }
    r
}

/// Copies of the vectors `v[a..b]`.
pub fn copy_vec_range(v: &Vec<Vec<char>>, a: usize, b: usize) -> (r: Vec<Vec<char>>)
    requires
        a <= b <= v@.len(),
    ensures
        r@.len() == b - a,
        forall|k: int| 0 <= k < b - a ==> (#[trigger] r@[k])@ == v@[a + k]@,
{
    let mut r: Vec<Vec<char>> = Vec::new();
    let mut i: usize = a;
    while i < b
        invariant
            a <= i <= b <= v@.len(),
            r@.len() == i - a,
            forall|k: int| 0 <= k < i - a ==> (#[trigger] r@[k])@ == v@[a + k]@,
        decreases b - i,
    {
        r.push(copy_vec(&v[i]));
        i = i + 1;
    }
    r
}

} // verus!
