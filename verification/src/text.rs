//! Character-level reading of XML text: trimming, qualified names, and the
//! lexical forms of the built-in simple types.

use vstd::prelude::*;

verus! {

/// The Unicode `White_Space` property, which `char::is_whitespace` and
/// `str::trim` go by.
pub open spec fn is_white_space(c: char) -> bool {
    ||| ('\t' <= c && c <= '\r')
    ||| c == ' '
    ||| c == '\u{85}'
    ||| c == '\u{a0}'
    ||| c == '\u{1680}'
    ||| ('\u{2000}' <= c && c <= '\u{200a}')
    ||| c == '\u{2028}'
    ||| c == '\u{2029}'
    ||| c == '\u{202f}'
    ||| c == '\u{205f}'
    ||| c == '\u{3000}'
}

pub open spec fn trim_start(s: Seq<char>) -> Seq<char>
    decreases s.len(),
{
    if s.len() > 0 && is_white_space(s[0]) {
        trim_start(s.drop_first())
    } else {
        s
    }
}

pub open spec fn trim_end(s: Seq<char>) -> Seq<char>
    decreases s.len(),
{
    if s.len() > 0 && is_white_space(s.last()) {
        trim_end(s.drop_last())
    } else {
        s
    }
}

/// `s` without leading and trailing white space.
pub open spec fn trimmed(s: Seq<char>) -> Seq<char> {
    trim_end(trim_start(s))
}

/// The position of the first `c` in `s`, or `s.len()` where there is none.
pub open spec fn first_index(s: Seq<char>, c: char) -> int
    decreases s.len(),
{
    if s.len() == 0 {
        0
    } else if s[0] == c {
        0
    } else {
        1 + first_index(s.drop_first(), c)
    }
}

/// The position of the last `c` in `s`, or `-1` where there is none.
pub open spec fn last_index(s: Seq<char>, c: char) -> int
    decreases s.len(),
{
    if s.len() == 0 {
        -1
    } else if s.last() == c {
        s.len() - 1
    } else {
        last_index(s.drop_last(), c)
    }
}

/// What stands before the first `c` (all of `s` where there is none).
pub open spec fn before_first(s: Seq<char>, c: char) -> Seq<char> {
    s.take(first_index(s, c))
}

/// The local part of a qualified name: what follows its last colon.
pub open spec fn local_part(q: Seq<char>) -> Seq<char> {
    q.skip(last_index(q, ':') + 1)
}

pub open spec fn is_digit(c: char) -> bool {
    '0' <= c && c <= '9'
}

pub open spec fn all_digits(s: Seq<char>) -> bool {
    forall|i: int| 0 <= i < s.len() ==> is_digit(#[trigger] s[i])
}

pub open spec fn digit_value(c: char) -> nat {
    (c as nat - '0' as nat) as nat
}

/// The number that a run of decimal digits writes.
pub open spec fn digits_value(s: Seq<char>) -> nat
    decreases s.len(),
{
    if s.len() == 0 {
        0
    } else {
        digits_value(s.drop_last()) * 10 + digit_value(s.last())
    }
}

pub open spec fn is_sign(c: char) -> bool {
    c == '+' || c == '-'
}

/// The value of `s` read as a signed 64-bit decimal integer: an optional
/// sign, then at least one digit, and nothing else.
pub open spec fn signed_value(s: Seq<char>) -> Option<int> {
    let negative = s.len() > 0 && s[0] == '-';
    let digits = if s.len() > 0 && is_sign(s[0]) { s.drop_first() } else { s };
    let value: int = if negative { -digits_value(digits) } else { digits_value(digits) as int };
    if digits.len() > 0 && all_digits(digits) && i64::MIN <= value <= i64::MAX {
        Some(value)
    } else {
        None
    }
}

/// The value of `s` read as an unsigned decimal integer no greater than
/// `bound`: an optional `+`, then at least one digit, and nothing else.
pub open spec fn unsigned_at_most(s: Seq<char>, bound: int) -> Option<int> {
    let digits = if s.len() > 0 && s[0] == '+' { s.drop_first() } else { s };
    if digits.len() > 0 && all_digits(digits) && digits_value(digits) <= bound {
        Some(digits_value(digits) as int)
    } else {
        None
    }
}

pub open spec fn ascii_lower(c: char) -> char {
    if 'A' <= c && c <= 'Z' {
        ((c as u32) + 32) as char
    } else {
        c
    }
}

/// Equal when ASCII letters are compared without regard to case.
pub open spec fn same_ignoring_ascii_case(a: Seq<char>, b: Seq<char>) -> bool {
    a.len() == b.len() && forall|i: int|
        0 <= i < a.len() ==> ascii_lower(#[trigger] a[i]) == ascii_lower(b[i])
}

/// `Digit+ | Digit+ '.' Digit* | Digit* '.' Digit+`
pub open spec fn is_mantissa(m: Seq<char>) -> bool {
    let dot = first_index(m, '.');
    if dot == m.len() {
        m.len() > 0 && all_digits(m)
    } else {
        all_digits(m.take(dot)) && all_digits(m.skip(dot + 1)) && m.len() > 1
    }
}

/// The position of the first `e` or `E`, or `s.len()` where there is none.
pub open spec fn exponent_index(s: Seq<char>) -> int
    decreases s.len(),
{
    if s.len() == 0 {
        0
    } else if s[0] == 'e' || s[0] == 'E' {
        0
    } else {
        1 + exponent_index(s.drop_first())
    }
}

/// `Sign? Digit+`
pub open spec fn is_exponent(x: Seq<char>) -> bool {
    let digits = if x.len() > 0 && is_sign(x[0]) { x.drop_first() } else { x };
    digits.len() > 0 && all_digits(digits)
}

/// `Mantissa Exp?` where `Exp ::= [eE] Sign? Digit+`
pub open spec fn is_number(b: Seq<char>) -> bool {
    let e = exponent_index(b);
    is_mantissa(b.take(e)) && (e == b.len() || is_exponent(b.skip(e + 1)))
}

/// The grammar that `f64::from_str` documents: an optional sign, then
/// `inf`, `infinity` or `nan` in any ASCII case, or a decimal number with
/// an optional exponent.
pub open spec fn is_float_text(s: Seq<char>) -> bool {
    let body = if s.len() > 0 && is_sign(s[0]) { s.drop_first() } else { s };
    ||| same_ignoring_ascii_case(body, "inf"@)
    ||| same_ignoring_ascii_case(body, "infinity"@)
    ||| same_ignoring_ascii_case(body, "nan"@)
    ||| is_number(body)
}

/// `YYYY-MM-DD` at the start of `t`, whatever follows.
pub open spec fn is_date_text(t: Seq<char>) -> bool {
    &&& t.len() >= 10
    &&& is_digit(t[0]) && is_digit(t[1]) && is_digit(t[2]) && is_digit(t[3])
    &&& t[4] == '-'
    &&& is_digit(t[5]) && is_digit(t[6])
    &&& t[7] == '-'
    &&& is_digit(t[8]) && is_digit(t[9])
}

/// `hh:mm:ss` at the start of `t`, whatever follows.
pub open spec fn is_time_text(t: Seq<char>) -> bool {
    &&& t.len() >= 8
    &&& is_digit(t[0]) && is_digit(t[1])
    &&& t[2] == ':'
    &&& is_digit(t[3]) && is_digit(t[4])
    &&& t[5] == ':'
    &&& is_digit(t[6]) && is_digit(t[7])
}

/// A date and a time on either side of the first `T`.
pub open spec fn is_date_time_text(t: Seq<char>) -> bool {
    let k = first_index(t, 'T');
    k < t.len() && is_date_text(t.take(k)) && is_time_text(t.skip(k + 1))
}

pub open spec fn digit_char(d: nat) -> char {
    ((d + '0' as nat) as u32) as char
}

/// The decimal numeral of `n`, with no leading zeros.
pub open spec fn decimal(n: nat) -> Seq<char>
    decreases n,
{
    if n < 10 {
        seq![digit_char(n)]
    } else {
        decimal(n / 10).push(digit_char(n % 10))
    }
}

/// What `format!("{:?}", text)` writes for a string slice: the text in double
/// quotes, escaped as `str::escape_debug` escapes it.
pub uninterp spec fn debug_quoted(text: Seq<char>) -> Seq<char>;

/// `text` quoted and escaped as Rust's `Debug` formatting of `str` writes it.
#[verifier::external_body]
pub fn quote(text: &str) -> (r: String)
    ensures
        r@ == debug_quoted(text@),
{
    format!("{:?}", text)
}

pub fn chars_of(s: &str) -> (v: Vec<char>)
    ensures
        v@ == s@,
{
    let mut v: Vec<char> = Vec::new();
    for c in it: s.chars()
        invariant
            v@ == it.seq().take(it.index() as int),
            it.seq() == s@,
    {
        v.push(c);
    }
    v
}

/// Whether two texts are the same.
pub fn same_text(a: &str, b: &str) -> (r: bool)
    ensures
        r == (a@ == b@),
{
    a.to_owned() == b.to_owned()
}

pub fn white_space(c: char) -> (r: bool)
    ensures
        r == is_white_space(c),
{
    ('\t' <= c && c <= '\r') || c == ' ' || c == '\u{85}' || c == '\u{a0}' || c == '\u{1680}' || (
    '\u{2000}' <= c && c <= '\u{200a}') || c == '\u{2028}' || c == '\u{2029}' || c == '\u{202f}'
        || c == '\u{205f}' || c == '\u{3000}'
}

proof fn lemma_trim_start_step(s: Seq<char>, a: int)
    requires
        0 <= a < s.len(),
        is_white_space(s[a]),
    ensures
        trim_start(s.subrange(a, s.len() as int)) == trim_start(s.subrange(a + 1, s.len() as int)),
{
    assert(s.subrange(a, s.len() as int).drop_first() =~= s.subrange(a + 1, s.len() as int));
}

proof fn lemma_trim_end_step(s: Seq<char>, b: int)
    requires
        0 < b <= s.len(),
        is_white_space(s[b - 1]),
    ensures
        trim_end(s.subrange(0, b)) == trim_end(s.subrange(0, b - 1)),
{
    assert(s.subrange(0, b).drop_last() =~= s.subrange(0, b - 1));
}

/// `s` without leading and trailing white space, as `str::trim` gives it.
pub fn trim(s: &str) -> (r: &str)
    ensures
        r@ == trimmed(s@),
{
    let cs = chars_of(s);
    let n = cs.len();
    let mut a: usize = 0;
    assert(cs@.subrange(0, n as int) =~= cs@);
    while a < n && white_space(cs[a])
        invariant
            a <= n,
            n == cs@.len(),
            trim_start(cs@) == trim_start(cs@.subrange(a as int, n as int)),
        decreases n - a,
    {
        proof {
            lemma_trim_start_step(cs@, a as int);
        }
        a = a + 1;
    }
    let ghost rest = cs@.subrange(a as int, n as int);
    assert(trim_start(cs@) == rest);
    let mut b: usize = n;
    assert(rest.subrange(0, rest.len() as int) =~= rest);
    while b > a && white_space(cs[b - 1])
        invariant
            a <= b <= n,
            n == cs@.len(),
            rest == cs@.subrange(a as int, n as int),
            trim_end(rest) == trim_end(rest.subrange(0, b - a)),
        decreases b,
    {
        proof {
            lemma_trim_end_step(rest, (b - a) as int);
        }
        b = b - 1;
    }
    assert(rest.subrange(0, b - a) =~= cs@.subrange(a as int, b as int));
    s.substring_char(a, b)
}


proof fn lemma_first_index_step(s: Seq<char>, i: int, c: char)
    requires
        0 <= i < s.len(),
        s[i] != c,
    ensures
        first_index(s.skip(i), c) == 1 + first_index(s.skip(i + 1), c),
{
    assert(s.skip(i).drop_first() =~= s.skip(i + 1));
}

/// The position in `cs[a..b]` of the first `c`, counted from the start of
/// `cs`, or `b` where there is none.
pub fn find_char(cs: &[char], a: usize, b: usize, c: char) -> (r: usize)
    requires
        a <= b <= cs@.len(),
    ensures
        r == a + first_index(cs@.subrange(a as int, b as int), c),
        a <= r <= b,
{
    let ghost s = cs@.subrange(a as int, b as int);
    let mut i: usize = a;
    assert(s.skip(0) =~= s);
    while i < b && cs[i] != c
        invariant
            a <= i <= b <= cs@.len(),
            s == cs@.subrange(a as int, b as int),
            first_index(s, c) == (i - a) + first_index(s.skip(i - a), c),
        decreases b - i,
    {
        proof {
            lemma_first_index_step(s, i - a, c);
        }
        i = i + 1;
    }
    assert(i == b ==> s.skip(i - a) =~= Seq::<char>::empty());
    i
}

proof fn lemma_exponent_index_step(s: Seq<char>, i: int)
    requires
        0 <= i < s.len(),
        s[i] != 'e' && s[i] != 'E',
    ensures
        exponent_index(s.skip(i)) == 1 + exponent_index(s.skip(i + 1)),
{
    assert(s.skip(i).drop_first() =~= s.skip(i + 1));
}

/// The position in `cs[a..b]` of the first `e` or `E`, counted from the start
/// of `cs`, or `b` where there is none.
pub fn find_exponent(cs: &[char], a: usize, b: usize) -> (r: usize)
    requires
        a <= b <= cs@.len(),
    ensures
        r == a + exponent_index(cs@.subrange(a as int, b as int)),
        a <= r <= b,
{
    let ghost s = cs@.subrange(a as int, b as int);
    let mut i: usize = a;
    assert(s.skip(0) =~= s);
    while i < b && cs[i] != 'e' && cs[i] != 'E'
        invariant
            a <= i <= b <= cs@.len(),
            s == cs@.subrange(a as int, b as int),
            exponent_index(s) == (i - a) + exponent_index(s.skip(i - a)),
        decreases b - i,
    {
        proof {
            lemma_exponent_index_step(s, i - a);
        }
        i = i + 1;
    }
    assert(i == b ==> s.skip(i - a) =~= Seq::<char>::empty());
    i
}

proof fn lemma_last_index_step(s: Seq<char>, k: int, c: char)
    requires
        0 < k <= s.len(),
        s[k - 1] != c,
    ensures
        last_index(s.take(k), c) == last_index(s.take(k - 1), c),
{
    assert(s.take(k).drop_last() =~= s.take(k - 1));
}

/// The local part of a qualified name, as `rsplit(':').next()` gives it.
pub fn local_name(q: &str) -> (r: &str)
    ensures
        r@ == local_part(q@),
{
    let cs = chars_of(q);
    let n = cs.len();
    let mut k: usize = n;
    assert(cs@.take(n as int) =~= cs@);
    while k > 0 && cs[k - 1] != ':'
        invariant
            k <= n,
            n == cs@.len(),
            last_index(cs@, ':') == last_index(cs@.take(k as int), ':'),
        decreases k,
    {
        proof {
            lemma_last_index_step(cs@, k as int, ':');
        }
        k = k - 1;
    }
    assert(k > 0 ==> cs@.take(k as int).last() == ':');
    q.substring_char(k, n)
}

/// What stands in `s` before the first `c`, as `split(c).next()` gives it.
pub fn prefix_before(s: &str, c: char) -> (r: &str)
    ensures
        r@ == before_first(s@, c),
{
    let cs = chars_of(s);
    let k = find_char(cs.as_slice(), 0, cs.len(), c);
    assert(cs@.subrange(0, cs@.len() as int) =~= cs@);
    s.substring_char(0, k)
}

/// Whether every character of `cs[a..b]` is a decimal digit.
pub fn digits_in(cs: &[char], a: usize, b: usize) -> (r: bool)
    requires
        a <= b <= cs@.len(),
    ensures
        r == all_digits(cs@.subrange(a as int, b as int)),
{
    let mut i: usize = a;
    while i < b
        invariant
            a <= i <= b <= cs@.len(),
            forall|j: int| a <= j < i ==> is_digit(#[trigger] cs@[j]),
        decreases b - i,
    {
        if !('0' <= cs[i] && cs[i] <= '9') {
            assert(!is_digit(cs@.subrange(a as int, b as int)[i - a]));
            return false;
        }
        i = i + 1;
    }
    assert forall|j: int| 0 <= j < b - a implies is_digit(
        #[trigger] cs@.subrange(a as int, b as int)[j],
    ) by {
        assert(cs@.subrange(a as int, b as int)[j] == cs@[a + j]);
    }
    true
}

fn lower_code(c: char) -> (r: u32)
    ensures
        r == ascii_lower(c) as u32,
{
    if 'A' <= c && c <= 'Z' {
        c as u32 + 32
    } else {
        c as u32
    }
}

/// Whether `cs[a..b]` is `lit` when ASCII letters are compared without
/// regard to case.
pub fn same_ignoring_case_in(cs: &[char], a: usize, b: usize, lit: &[char]) -> (r: bool)
    requires
        a <= b <= cs@.len(),
    ensures
        r == same_ignoring_ascii_case(cs@.subrange(a as int, b as int), lit@),
{
    let ghost s = cs@.subrange(a as int, b as int);
    if b - a != lit.len() {
        return false;
    }
    let mut i: usize = 0;
    while i < lit.len()
        invariant
            i <= lit@.len(),
            b - a == lit@.len(),
            a <= b <= cs@.len(),
            s == cs@.subrange(a as int, b as int),
            forall|j: int| 0 <= j < i ==> ascii_lower(#[trigger] s[j]) == ascii_lower(lit@[j]),
        decreases lit@.len() - i,
    {
        if lower_code(cs[a + i]) != lower_code(lit[i]) {
            assert(s[i as int] == cs@[a + i]);
            return false;
        }
        assert(s[i as int] == cs@[a + i]);
        i = i + 1;
    }
    true
}

/// Whether `s` and `lit` are the same when ASCII letters are compared
/// without regard to case, as `str::eq_ignore_ascii_case` compares them.
pub fn same_ignoring_case(s: &str, lit: &str) -> (r: bool)
    ensures
        r == same_ignoring_ascii_case(s@, lit@),
{
    let cs = chars_of(s);
    let ls = chars_of(lit);
    assert(cs@.subrange(0, cs@.len() as int) =~= cs@);
    same_ignoring_case_in(cs.as_slice(), 0, cs.len(), ls.as_slice())
}

proof fn lemma_digits_take_step(s: Seq<char>, k: int)
    requires
        0 <= k < s.len(),
    ensures
        digits_value(s.take(k + 1)) == digits_value(s.take(k)) * 10 + digit_value(s[k]),
{
    assert(s.take(k + 1).drop_last() =~= s.take(k));
}

proof fn lemma_digits_prefix_le(s: Seq<char>, k: int)
    requires
        0 <= k <= s.len(),
    ensures
        digits_value(s.take(k)) <= digits_value(s),
    decreases s.len() - k,
{
    if k == s.len() {
        assert(s.take(k) =~= s);
    } else {
        lemma_digits_take_step(s, k);
        lemma_digits_prefix_le(s, k + 1);
    }
}

/// The value of the digits `cs[a..b]`, where they are at least one, all
/// digits, and no more than `bound`.
pub fn read_digits(cs: &[char], a: usize, b: usize, bound: u64) -> (r: Option<u64>)
    requires
        a <= b <= cs@.len(),
    ensures
        r is Some <==> (b > a && all_digits(cs@.subrange(a as int, b as int)) && digits_value(
            cs@.subrange(a as int, b as int),
        ) <= bound),
        r matches Some(v) ==> v == digits_value(cs@.subrange(a as int, b as int)),
{
    let ghost s = cs@.subrange(a as int, b as int);
    let mut v: u64 = 0;
    let mut i: usize = a;
    assert(s.take(0) =~= Seq::<char>::empty());
    while i < b
        invariant
            a <= i <= b <= cs@.len(),
            s == cs@.subrange(a as int, b as int),
            all_digits(s.take(i - a)),
            v == digits_value(s.take(i - a)),
            v <= bound,
        decreases b - i,
    {
        let c = cs[i];
        assert(s[i - a] == c);
        if !('0' <= c && c <= '9') {
            assert(!is_digit(s[i - a]));
            return None;
        }
        let d: u64 = (c as u32 - '0' as u32) as u64;
        proof {
            lemma_digits_take_step(s, i - a);
        }
        if d > bound || v > (bound - d) / 10 {
            assert(v * 10 + d > bound) by (nonlinear_arith)
                requires
                    d > bound || v > (bound - d) / 10,
                    d <= bound ==> (bound - d) / 10 * 10 + 10 > bound - d,
            ;
            proof {
                if all_digits(s) {
                    lemma_digits_prefix_le(s, i - a + 1);
                }
            }
            return None;
        }
        assert(v * 10 + d <= bound) by (nonlinear_arith)
            requires
                v <= (bound - d) / 10,
                d <= bound,
        ;
        v = v * 10 + d;
        assert(s.take(i - a + 1).last() == c);
        assert forall|j: int| 0 <= j < i - a + 1 implies is_digit(#[trigger] s.take(i - a + 1)[j]) by {
            if j < i - a {
                assert(s.take(i - a + 1)[j] == s.take(i - a)[j]);
            }
        }
        i = i + 1;
    }
    assert(s.take(b - a) =~= s);
    if i == a {
        return None;
    }
    Some(v)
}

/// `cs` read as a signed 64-bit decimal integer, as `str::parse::<i64>`
/// reads it.
pub fn parse_signed(cs: &[char]) -> (r: Option<i64>)
    ensures
        r matches Some(v) ==> signed_value(cs@) == Some(v as int),
        r is None ==> signed_value(cs@) is None,
{
    let n = cs.len();
    let negative = n > 0 && cs[0] == '-';
    let a: usize = if n > 0 && (cs[0] == '+' || cs[0] == '-') {
        1
    } else {
        0
    };
    assert(a == 1 ==> cs@.drop_first() =~= cs@.subrange(1, n as int));
    assert(cs@.subrange(0, n as int) =~= cs@);
    let bound: u64 = if negative {
        9223372036854775808
    } else {
        9223372036854775807
    };
    match read_digits(cs, a, n, bound) {
        None => None,
        Some(m) => {
            if negative {
                if m == 9223372036854775808 {
                    Some(i64::MIN)
                } else {
                    Some(-(m as i64))
                }
            } else {
                Some(m as i64)
            }
        },
    }
}

/// `cs` read as an unsigned decimal integer no greater than `bound`, as
/// `str::parse` reads an unsigned integer type whose greatest value is
/// `bound`.
pub fn parse_unsigned(cs: &[char], bound: u64) -> (r: Option<u64>)
    ensures
        r matches Some(v) ==> unsigned_at_most(cs@, bound as int) == Some(v as int),
        r is None ==> unsigned_at_most(cs@, bound as int) is None,
{
    let n = cs.len();
    let a: usize = if n > 0 && cs[0] == '+' {
        1
    } else {
        0
    };
    assert(a == 1 ==> cs@.drop_first() =~= cs@.subrange(1, n as int));
    assert(cs@.subrange(0, n as int) =~= cs@);
    read_digits(cs, a, n, bound)
}

fn mantissa_in(cs: &[char], a: usize, b: usize) -> (r: bool)
    requires
        a <= b <= cs@.len(),
    ensures
        r == is_mantissa(cs@.subrange(a as int, b as int)),
{
    let ghost m = cs@.subrange(a as int, b as int);
    let dot = find_char(cs, a, b, '.');
    if dot == b {
        b > a && digits_in(cs, a, b)
    } else {
        assert(m.take(dot - a) =~= cs@.subrange(a as int, dot as int));
        assert(m.skip(dot - a + 1) =~= cs@.subrange(dot + 1, b as int));
        digits_in(cs, a, dot) && digits_in(cs, dot + 1, b) && b - a > 1
    }
}

fn exponent_in(cs: &[char], a: usize, b: usize) -> (r: bool)
    requires
        a <= b <= cs@.len(),
    ensures
        r == is_exponent(cs@.subrange(a as int, b as int)),
{
    let ghost x = cs@.subrange(a as int, b as int);
    let d: usize = if a < b && (cs[a] == '+' || cs[a] == '-') {
        a + 1
    } else {
        a
    };
    assert(d == a + 1 ==> x.drop_first() =~= cs@.subrange(d as int, b as int));
    d < b && digits_in(cs, d, b)
}

/// Whether `cs` follows the grammar that `f64::from_str` accepts.
pub fn float_text(cs: &[char]) -> (r: bool)
    ensures
        r == is_float_text(cs@),
{
    let n = cs.len();
    let a: usize = if n > 0 && (cs[0] == '+' || cs[0] == '-') {
        1
    } else {
        0
    };
    let ghost body = if n > 0 && is_sign(cs@[0]) {
        cs@.drop_first()
    } else {
        cs@
    };
    assert(body =~= cs@.subrange(a as int, n as int));
    let inf = chars_of("inf");
    let infinity = chars_of("infinity");
    let nan = chars_of("nan");
    if same_ignoring_case_in(cs, a, n, inf.as_slice()) || same_ignoring_case_in(
        cs,
        a,
        n,
        infinity.as_slice(),
    ) || same_ignoring_case_in(cs, a, n, nan.as_slice()) {
        return true;
    }
    let e = find_exponent(cs, a, n);
    assert(body.take(e - a) =~= cs@.subrange(a as int, e as int));
    assert(e < n ==> body.skip(e - a + 1) =~= cs@.subrange(e + 1, n as int));
    mantissa_in(cs, a, e) && (e == n || exponent_in(cs, e + 1, n))
}

fn digit_at(cs: &[char], i: usize) -> (r: bool)
    requires
        i < cs@.len(),
    ensures
        r == is_digit(cs@[i as int]),
{
    '0' <= cs[i] && cs[i] <= '9'
}

/// Whether `cs[a..b]` starts with `YYYY-MM-DD`.
pub fn date_in(cs: &[char], a: usize, b: usize) -> (r: bool)
    requires
        a <= b <= cs@.len(),
    ensures
        r == is_date_text(cs@.subrange(a as int, b as int)),
{
    let ghost t = cs@.subrange(a as int, b as int);
    if b - a < 10 {
        return false;
    }
    assert(forall|k: int| 0 <= k < 10 ==> t[k] == cs@[a + k]);
    digit_at(cs, a) && digit_at(cs, a + 1) && digit_at(cs, a + 2) && digit_at(cs, a + 3) && cs[a
        + 4] == '-' && digit_at(cs, a + 5) && digit_at(cs, a + 6) && cs[a + 7] == '-' && digit_at(
        cs,
        a + 8,
    ) && digit_at(cs, a + 9)
}

/// Whether `cs[a..b]` starts with `hh:mm:ss`.
pub fn time_in(cs: &[char], a: usize, b: usize) -> (r: bool)
    requires
        a <= b <= cs@.len(),
    ensures
        r == is_time_text(cs@.subrange(a as int, b as int)),
{
    let ghost t = cs@.subrange(a as int, b as int);
    if b - a < 8 {
        return false;
    }
    assert(forall|k: int| 0 <= k < 8 ==> t[k] == cs@[a + k]);
    digit_at(cs, a) && digit_at(cs, a + 1) && cs[a + 2] == ':' && digit_at(cs, a + 3) && digit_at(
        cs,
        a + 4,
    ) && cs[a + 5] == ':' && digit_at(cs, a + 6) && digit_at(cs, a + 7)
}

/// Whether `cs` is a date and a time on either side of its first `T`.
pub fn date_time_in(cs: &[char]) -> (r: bool)
    ensures
        r == is_date_time_text(cs@),
{
    let n = cs.len();
    let k = find_char(cs, 0, n, 'T');
    assert(cs@.subrange(0, n as int) =~= cs@);
    if k == n {
        return false;
    }
    assert(cs@.take(k as int) =~= cs@.subrange(0, k as int));
    assert(cs@.skip(k + 1) =~= cs@.subrange(k + 1, n as int));
    date_in(cs, 0, k) && time_in(cs, k + 1, n)
}

fn digit_text(d: u64) -> (r: &'static str)
    requires
        d < 10,
    ensures
        r@ == seq![digit_char(d as nat)],
{
    if d == 0 {
        proof { reveal_strlit("0"); }
        "0"
    } else if d == 1 {
        proof { reveal_strlit("1"); }
        "1"
    } else if d == 2 {
        proof { reveal_strlit("2"); }
        "2"
    } else if d == 3 {
        proof { reveal_strlit("3"); }
        "3"
    } else if d == 4 {
        proof { reveal_strlit("4"); }
        "4"
    } else if d == 5 {
        proof { reveal_strlit("5"); }
        "5"
    } else if d == 6 {
        proof { reveal_strlit("6"); }
        "6"
    } else if d == 7 {
        proof { reveal_strlit("7"); }
        "7"
    } else if d == 8 {
        proof { reveal_strlit("8"); }
        "8"
    } else {
        proof { reveal_strlit("9"); }
        "9"
    }
}

/// The decimal numeral of `n`.
pub fn decimal_text(n: u64) -> (r: String)
    ensures
        r@ == decimal(n as nat),
    decreases n,
{
    if n < 10 {
        digit_text(n).to_owned()
    } else {
        let mut s = decimal_text(n / 10);
        s.append(digit_text(n % 10));
        s
    }
}

proof fn lemma_trim_start_shape(s: Seq<char>)
    ensures
        trim_start(s).len() == 0 || !is_white_space(trim_start(s)[0]),
        trim_start(trim_start(s)) == trim_start(s),
    decreases s.len(),
{
    if s.len() > 0 && is_white_space(s[0]) {
        lemma_trim_start_shape(s.drop_first());
    }
}

proof fn lemma_trim_end_shape(s: Seq<char>)
    ensures
        trim_end(s).len() == 0 || !is_white_space(trim_end(s).last()),
        trim_end(s).len() <= s.len(),
        trim_end(s) == s.take(trim_end(s).len() as int),
        trim_end(trim_end(s)) == trim_end(s),
    decreases s.len(),
{
    if s.len() > 0 && is_white_space(s.last()) {
        lemma_trim_end_shape(s.drop_last());
        assert(s.drop_last().take(trim_end(s).len() as int) =~= s.take(trim_end(s).len() as int));
    } else {
        assert(s.take(s.len() as int) =~= s);
    }
}

/// Trimming twice is trimming once.
pub proof fn lemma_trimmed_idempotent(s: Seq<char>)
    ensures
        trimmed(trimmed(s)) == trimmed(s),
{
    let u = trim_start(s);
    let v = trim_end(u);
    lemma_trim_start_shape(s);
    lemma_trim_end_shape(u);
    if v.len() > 0 {
        assert(v[0] == u[0]);
    }
    assert(trim_start(v) == v);
}


proof fn lemma_last_index_bounds(s: Seq<char>, c: char)
    ensures
        -1 <= last_index(s, c) < s.len(),
        forall|k: int| last_index(s, c) < k < s.len() ==> #[trigger] s[k] != c,
    decreases s.len(),
{
    if s.len() > 0 && s.last() != c {
        lemma_last_index_bounds(s.drop_last(), c);
        assert forall|k: int| last_index(s, c) < k < s.len() implies #[trigger] s[k] != c by {
            if k < s.len() - 1 {
                assert(s[k] == s.drop_last()[k]);
            }
        }
    }
}

/// A local name holds no colon.
pub proof fn lemma_local_part_plain(q: Seq<char>)
    ensures
        !local_part(q).contains(':'),
{
    lemma_last_index_bounds(q, ':');
    let l = local_part(q);
    assert forall|k: int| 0 <= k < l.len() implies #[trigger] l[k] != ':' by {
        assert(l[k] == q[last_index(q, ':') + 1 + k]);
    }
}


proof fn lemma_first_index_bounds(s: Seq<char>, c: char)
    ensures
        0 <= first_index(s, c) <= s.len(),
        forall|k: int| 0 <= k < first_index(s, c) ==> #[trigger] s[k] != c,
        !s.contains(c) ==> first_index(s, c) == s.len(),
    decreases s.len(),
{
    if s.len() > 0 && s[0] != c {
        lemma_first_index_bounds(s.drop_first(), c);
        assert forall|k: int| 0 <= k < first_index(s, c) implies #[trigger] s[k] != c by {
            if k > 0 {
                assert(s[k] == s.drop_first()[k - 1]);
            }
        }
        if !s.contains(c) {
            assert forall|k: int| 0 <= k < s.drop_first().len() implies #[trigger] s.drop_first()[k] != c by {
                assert(s.drop_first()[k] == s[k + 1]);
            }
        }
    } else if s.len() > 0 {
        assert(s.contains(c)) by {
            assert(s[0] == c);
        }
    }
}

proof fn lemma_trim_start_free(s: Seq<char>, c: char)
    requires
        !s.contains(c),
    ensures
        !trim_start(s).contains(c),
    decreases s.len(),
{
    if s.len() > 0 && is_white_space(s[0]) {
        assert forall|k: int| 0 <= k < s.drop_first().len() implies #[trigger] s.drop_first()[k] != c by {
            assert(s.drop_first()[k] == s[k + 1]);
        }
        lemma_trim_start_free(s.drop_first(), c);
    }
}

proof fn lemma_trim_end_free(s: Seq<char>, c: char)
    requires
        !s.contains(c),
    ensures
        !trim_end(s).contains(c),
    decreases s.len(),
{
    if s.len() > 0 && is_white_space(s.last()) {
        assert forall|k: int| 0 <= k < s.drop_last().len() implies #[trigger] s.drop_last()[k] != c by {
            assert(s.drop_last()[k] == s[k]);
        }
        lemma_trim_end_free(s.drop_last(), c);
    }
}

/// The trimmed text before the first `c` is its own essence: taking what
/// stands before its first `c` and trimming it again gives it back.
pub proof fn lemma_essence_settled(s: Seq<char>, c: char)
    ensures
        trimmed(before_first(trimmed(before_first(s, c)), c)) == trimmed(before_first(s, c)),
{
    let b = before_first(s, c);
    lemma_first_index_bounds(s, c);
    assert forall|k: int| 0 <= k < b.len() implies #[trigger] b[k] != c by {
        assert(b[k] == s[k]);
    }
    lemma_trim_start_free(b, c);
    lemma_trim_end_free(trim_start(b), c);
    let e = trimmed(b);
    lemma_first_index_bounds(e, c);
    assert(before_first(e, c) =~= e);
    lemma_trimmed_idempotent(b);
}


proof fn lemma_last_index_absent(s: Seq<char>, c: char)
    requires
        !s.contains(c),
    ensures
        last_index(s, c) == -1,
    decreases s.len(),
{
    if s.len() > 0 {
        assert(s[s.len() - 1] != c);
        assert forall|k: int| 0 <= k < s.drop_last().len() implies #[trigger] s.drop_last()[k] != c by {
            assert(s.drop_last()[k] == s[k]);
        }
        lemma_last_index_absent(s.drop_last(), c);
    }
}

/// The local name of a local name is itself.
pub proof fn lemma_local_part_idempotent(q: Seq<char>)
    ensures
        local_part(local_part(q)) == local_part(q),
{
    lemma_local_part_plain(q);
    lemma_last_index_absent(local_part(q), ':');
    assert(local_part(q).skip(0) =~= local_part(q));
}

} // verus!
