//! Decimal numbers as sequences of characters.
use vstd::prelude::*;

verus! {

pub open spec fn is_digit(c: char) -> bool {
    '0' <= c && c <= '9'
}

pub open spec fn digit_value(c: char) -> int {
    c as int - '0' as int
}

/// Every character is a decimal digit, and there is at least one.
pub open spec fn all_digits(s: Seq<char>) -> bool {
    s.len() > 0 && forall|i: int| 0 <= i < s.len() ==> is_digit(#[trigger] s[i])
}

/// The value of a string of decimal digits, most significant first.
pub open spec fn digits_value(s: Seq<char>) -> int
    decreases s.len(),
{
    if s.len() == 0 {
        0
    } else {
        digits_value(s.drop_last()) * 10 + digit_value(s.last())
    }
}

/// The integer that a decimal literal denotes: an optional `+` or `-`, then
/// one or more digits. `None` for anything else.
pub open spec fn int_of(s: Seq<char>) -> Option<int> {
    if s.len() > 0 && s[0] == '-' && all_digits(s.drop_first()) {
        Some(-digits_value(s.drop_first()))
    } else if s.len() > 0 && s[0] == '+' && all_digits(s.drop_first()) {
        Some(digits_value(s.drop_first()))
    } else if all_digits(s) {
        Some(digits_value(s))
    } else {
        None
    }
}

pub open spec fn fits_i64(v: int) -> bool {
    i64::MIN <= v <= i64::MAX
}

/// The `i64` that a decimal literal denotes, if it denotes one in range.
pub open spec fn i64_of(s: Seq<char>) -> Option<i64> {
    match int_of(s) {
        Some(v) => if fits_i64(v) {
            Some(v as i64)
        } else {
            None
        },
        None => None,
    }
}

proof fn lemma_digits_value_nonneg(s: Seq<char>)
    requires
        forall|i: int| 0 <= i < s.len() ==> is_digit(#[trigger] s[i]),
    ensures
        digits_value(s) >= 0,
    decreases s.len(),
{
    if s.len() > 0 {
        lemma_digits_value_nonneg(s.drop_last());
    }
}

/// A prefix of a digit string never has a larger value than the whole.
proof fn lemma_digits_value_prefix(s: Seq<char>, k: int)
    requires
        0 <= k <= s.len(),
        forall|i: int| 0 <= i < s.len() ==> is_digit(#[trigger] s[i]),
    ensures
        digits_value(s.take(k)) <= digits_value(s),
    decreases s.len(),
{
    if k < s.len() {
        assert(s.drop_last().take(k) =~= s.take(k));
        lemma_digits_value_prefix(s.drop_last(), k);
        lemma_digits_value_nonneg(s.drop_last());
    } else {
        assert(s.take(k) =~= s);
    }
}

/// Whether every character from `start` on is a decimal digit.
fn digits_from(s: &Vec<char>, start: usize) -> (r: bool)
    requires
        start <= s@.len(),
    ensures
        r == (forall|j: int| start <= j < s@.len() ==> is_digit(#[trigger] s@[j])),
{
    let mut k: usize = start;
    while k < s.len()
        invariant
            start <= k <= s@.len(),
            forall|j: int| start <= j < k ==> is_digit(#[trigger] s@[j]),
        decreases s@.len() - k,
    {
        let c = s[k];
        if !('0' <= c && c <= '9') {
            return false;
        }
        k = k + 1;
    }
    true
}

/// Reads a decimal literal as `str::parse::<i64>` reads one: an optional sign,
/// then digits, the value in range.
pub fn parse_i64(s: &Vec<char>) -> (r: Option<i64>)
    ensures
        r == i64_of(s@),
{
    let n = s.len();
    if n == 0 {
        return None;
    }
    let negative = s[0] == '-';
    let start: usize = if s[0] == '-' || s[0] == '+' {
        1
    } else {
        0
    };
    let ghost body = s@.subrange(start as int, n as int);
    proof {
        if start == 1 {
            assert(body =~= s@.drop_first());
        } else {
            assert(body =~= s@);
        }
    }
    if start == n {
        return None;
    }
    if !digits_from(s, start) {
        proof {
            let j = choose|j: int| start <= j < n && !is_digit(#[trigger] s@[j]);
            assert(body[j - start] == s@[j]);
        }
        return None;
    }
    proof {
        assert forall|j: int| 0 <= j < body.len() implies is_digit(#[trigger] body[j]) by {
            assert(body[j] == s@[j + start]);
        }
    }
    let limit: u64 = 9223372036854775808;
    let mut acc: u64 = 0;
    let mut i: usize = start;
    while i < n
        invariant
            start <= i <= n,
            n == s@.len(),
            start < n,
            start <= 1,
            body == s@.subrange(start as int, n as int),
            all_digits(body),
            start == 1 ==> body == s@.drop_first() && (s@[0] == '-' || s@[0] == '+'),
            start == 0 ==> body == s@ && s@[0] != '-' && s@[0] != '+',
            negative == (s@[0] == '-'),
            acc as int == digits_value(body.take(i - start)),
            acc <= limit,
            limit == 9223372036854775808,
        decreases n - i,
    {
        let c = s[i];
        proof {
            assert(body[i - start] == c);
            assert(is_digit(body[i - start]));
        }
        let dv = (c as u32 - '0' as u32) as u64;
        proof {
            assert(dv <= 9 && dv == digit_value(c));
            assert(body.take(i - start + 1).drop_last() =~= body.take(i - start));
            assert(body.take(i - start + 1).last() == c);
        }
        let next: u128 = acc as u128 * 10 + dv as u128;
        if next > limit as u128 {
            proof {
                lemma_digits_value_prefix(body, i - start + 1);
                assert(digits_value(body) > limit);
            }
            return None;
        }
        acc = next as u64;
        i = i + 1;
    }
    proof {
        assert(body.take(n - start) =~= body);
    }
    if negative {
        if acc == limit {
            Some(i64::MIN)
        } else {
            Some(-(acc as i64))
        }
    } else if acc == limit {
        None
    } else {
        Some(acc as i64)
    }
}

pub open spec fn digit_char(d: int) -> char {
    if d == 0 {
        '0'
    } else if d == 1 {
        '1'
    } else if d == 2 {
        '2'
    } else if d == 3 {
        '3'
    } else if d == 4 {
        '4'
    } else if d == 5 {
        '5'
    } else if d == 6 {
        '6'
    } else if d == 7 {
        '7'
    } else if d == 8 {
        '8'
    } else {
        '9'
    }
}

/// The decimal digits of `v`, without leading zeros.
pub open spec fn decimal(v: nat) -> Seq<char>
    decreases v,
{
    if v < 10 {
        seq![digit_char(v as int)]
    } else {
        decimal(v / 10).push(digit_char((v % 10) as int))
    }
}

/// `v` as `format!("{}", v)` writes it.
pub open spec fn signed_decimal(v: int) -> Seq<char> {
    if v >= 0 {
        decimal(v as nat)
    } else {
        seq!['-'] + decimal((-v) as nat)
    }
}

/// `v` as `format!("{:02}", v)` writes it: at least two characters, padded
/// with a leading zero.
pub open spec fn padded(v: int) -> Seq<char> {
    if 0 <= v < 10 {
        seq!['0'] + decimal(v as nat)
    } else {
        signed_decimal(v)
    }
}

/// Relies on `String::push`: appends one character at the end.
#[verifier::external_body]
pub(crate) fn push_char(s: &mut String, c: char)
    ensures
        final(s)@ == old(s)@.push(c),
{
    s.push(c);
}

fn digit_of(d: u64) -> (c: char)
    requires
        d < 10,
    ensures
        c == digit_char(d as int),
{
    if d == 0 {
        '0'
    } else if d == 1 {
        '1'
    } else if d == 2 {
        '2'
    } else if d == 3 {
        '3'
    } else if d == 4 {
        '4'
    } else if d == 5 {
        '5'
    } else if d == 6 {
        '6'
    } else if d == 7 {
        '7'
    } else if d == 8 {
        '8'
    } else {
        '9'
    }
}

/// Appends the decimal digits of `v`.
pub fn push_decimal(out: &mut String, v: u64)
    ensures
        final(out)@ == old(out)@ + decimal(v as nat),
    decreases v,
{
    if v >= 10 {
        push_decimal(out, v / 10);
    }
    push_char(out, digit_of(v % 10));
    proof {
        if v >= 10 {
            assert(final(out)@ =~= old(out)@ + decimal(v as nat));
        } else {
            assert(final(out)@ =~= old(out)@ + decimal(v as nat));
        }
    }
}

fn magnitude(v: i64) -> (r: u64)
    ensures
        r == if v >= 0 {
            v as int
        } else {
            -v
        },
{
    if v >= 0 {
        v as u64
    } else if v == i64::MIN {
        9223372036854775808
    } else {
        (-v) as u64
    }
}

/// Appends `v` as `format!("{}", v)` writes it.
pub fn push_signed(out: &mut String, v: i64)
    ensures
        final(out)@ == old(out)@ + signed_decimal(v as int),
{
    if v < 0 {
        push_char(out, '-');
    }
    push_decimal(out, magnitude(v));
    proof {
        assert(final(out)@ =~= old(out)@ + signed_decimal(v as int));
    }
}

/// Appends `v` as `format!("{:02}", v)` writes it.
pub fn push_padded(out: &mut String, v: i64)
    ensures
        final(out)@ == old(out)@ + padded(v as int),
{
    if 0 <= v && v < 10 {
        push_char(out, '0');
        push_decimal(out, v as u64);
        proof {
            assert(final(out)@ =~= old(out)@ + padded(v as int));
        }
    } else {
        push_signed(out, v);
    }
}

/// The characters of `s`.
pub fn chars_of(s: &str) -> (r: Vec<char>)
    ensures
        r@ == s@,
{
    let n = s.unicode_len();
    let mut r: Vec<char> = Vec::new();
    let mut i: usize = 0;
    while i < n
        invariant
            i <= n,
            n == s@.len(),
            r@ == s@.take(i as int),
        decreases n - i,
    {
        r.push(s.get_char(i));
        i = i + 1;
        proof {
            assert(r@ =~= s@.take(i as int));
        }
    }
    proof {
        assert(s@.take(n as int) =~= s@);
    }
    r
}

/// Whether `s` holds the token `%` followed by `t`.
pub open spec fn has_token(s: Seq<char>, t: char) -> bool {
    exists|i: int| 0 <= i && i + 1 < s.len() && s[i] == '%' && #[trigger] s[i + 1] == t
}

/// Whether `s` holds the token `%` followed by `t`.
pub fn contains_token(s: &Vec<char>, t: char) -> (r: bool)
    ensures
        r == has_token(s@, t),
{
    let mut i: usize = 0;
    while i < s.len()
        invariant
            i <= s@.len(),
            forall|j: int| 0 <= j < i && j + 1 < s@.len() ==> !(s@[j] == '%' && #[trigger] s@[j + 1] == t),
        decreases s@.len() - i,
    {
        if i + 1 < s.len() && s[i] == '%' && s[i + 1] == t {
            return true;
        }
        i = i + 1;
    }
    false
}

pub open spec fn pow10(n: nat) -> int
    decreases n,
{
    if n == 0 {
        1
    } else {
        10 * pow10((n - 1) as nat)
    }
}

/// Reading two digit strings one after the other shifts the first by the
/// length of the second.
pub proof fn lemma_digits_value_concat(a: Seq<char>, b: Seq<char>)
    ensures
        digits_value(a + b) == digits_value(a) * pow10(b.len()) + digits_value(b),
    decreases b.len(),
{
    if b.len() == 0 {
        assert(a + b =~= a);
    } else {
        assert((a + b).drop_last() =~= a + b.drop_last());
        assert((a + b).last() == b.last());
        lemma_digits_value_concat(a, b.drop_last());
        assert(pow10(b.len()) == 10 * pow10(b.drop_last().len()));
        assert(digits_value(a) * pow10(b.len()) == (digits_value(a) * pow10(b.drop_last().len())) * 10)
            by (nonlinear_arith)
            requires
                pow10(b.len()) == 10 * pow10(b.drop_last().len()),
        ;
    }
}

proof fn lemma_digit_char(d: int)
    requires
        0 <= d < 10,
    ensures
        is_digit(digit_char(d)),
        digit_value(digit_char(d)) == d,
{
}

/// A number below a hundred, written on two digits, reads back as itself.
pub proof fn lemma_padded_two_digits(v: int)
    requires
        0 <= v < 100,
    ensures
        padded(v).len() == 2,
        all_digits(padded(v)),
        digits_value(padded(v)) == v,
{
    if v < 10 {
        lemma_digit_char(v);
        assert(padded(v) =~= seq!['0', digit_char(v)]);
        assert(seq!['0', digit_char(v)].drop_last() =~= seq!['0']);
        assert(seq!['0'].drop_last() =~= Seq::<char>::empty());
        assert(digits_value(Seq::<char>::empty()) == 0);
        assert(seq!['0'].last() == '0');
        assert(digits_value(seq!['0']) == 0);
        assert(digits_value(padded(v)) == v);
    } else {
        lemma_digit_char(v / 10);
        lemma_digit_char(v % 10);
        assert(decimal((v / 10) as nat) == seq![digit_char(v / 10)]);
        assert(padded(v) =~= seq![digit_char(v / 10), digit_char(v % 10)]);
        assert(seq![digit_char(v / 10), digit_char(v % 10)].drop_last() =~= seq![digit_char(v / 10)]);
        assert(seq![digit_char(v / 10)].drop_last() =~= Seq::<char>::empty());
        assert(digits_value(Seq::<char>::empty()) == 0);
        assert(seq![digit_char(v / 10)].last() == digit_char(v / 10));
        assert(digits_value(seq![digit_char(v / 10)]) == v / 10);
        assert(digits_value(padded(v)) == v);
    }
}

} // verus!
