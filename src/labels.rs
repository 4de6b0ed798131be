use vstd::prelude::*;
use vstd::string::{StrSliceExecFns, StringExecFns};

use crate::error::SeatError;

verus! {

/// The character of a decimal digit.
pub open spec fn digit_char(d: nat) -> char {
    if d == 0 { '0' }
    else if d == 1 { '1' }
    else if d == 2 { '2' }
    else if d == 3 { '3' }
    else if d == 4 { '4' }
    else if d == 5 { '5' }
    else if d == 6 { '6' }
    else if d == 7 { '7' }
    else if d == 8 { '8' }
    else { '9' }
}

pub open spec fn is_digit(c: char) -> bool {
    '0' <= c && c <= '9'
}

pub open spec fn digit_value(c: char) -> nat {
    (c as u32 - '0' as u32) as nat
}

/// `n` written in decimal, without leading zeros.
pub open spec fn decimal(n: nat) -> Seq<char>
    decreases n,
{
    if n < 10 {
        seq![digit_char(n)]
    } else {
        decimal(n / 10) + seq![digit_char(n % 10)]
    }
}

/// Zeros in front of `s` up to a width of three.
pub open spec fn pad3(s: Seq<char>) -> Seq<char> {
    if s.len() >= 3 {
        s
    } else {
        Seq::new((3 - s.len()) as nat, |i: int| '0') + s
    }
}

/// The label of seat `n`: the prefix, then the ordinal on at least three digits.
pub open spec fn label_of(prefix: char, n: nat) -> Seq<char> {
    seq![prefix] + pad3(decimal(n))
}

pub open spec fn all_digits(s: Seq<char>) -> bool {
    forall|i: int| 0 <= i < s.len() ==> is_digit(#[trigger] s[i])
}

/// The number that a string of decimal digits stands for.
pub open spec fn digits_value(s: Seq<char>) -> nat
    decreases s.len(),
{
    if s.len() == 0 {
        0
    } else {
        10 * digits_value(s.drop_last()) + digit_value(s.last())
    }
}

/// The digits of a row number as an unsigned parse reads them: one optional `+`, then digits.
pub open spec fn unsigned_digits(t: Seq<char>) -> Seq<char> {
    if t.len() > 0 && t[0] == '+' {
        t.drop_first()
    } else {
        t
    }
}

/// Whether a label is one character of prefix followed by a row number in 1..=u32::MAX.
pub open spec fn label_has_row(label: Seq<char>) -> bool {
    label.len() >= 1 && {
        let d = unsigned_digits(label.drop_first());
        d.len() > 0 && all_digits(d) && 1 <= digits_value(d) <= u32::MAX
    }
}

/// The row number that a label names.
pub open spec fn row_of(label: Seq<char>) -> nat {
    digits_value(unsigned_digits(label.drop_first()))
}

proof fn lemma_digit_char(d: nat)
    requires
        d < 10,
    ensures
        is_digit(digit_char(d)),
        digit_value(digit_char(d)) == d,
{
}

proof fn lemma_decimal(n: nat)
    ensures
        all_digits(decimal(n)),
        digits_value(decimal(n)) == n,
        1 <= decimal(n).len(),
        n < 10 ==> decimal(n).len() == 1,
        10 <= n < 100 ==> decimal(n).len() == 2,
        100 <= n ==> decimal(n).len() >= 3,
        decimal(n)[0] != '+',
    decreases n,
{
    if n < 10 {
        lemma_digit_char(n);
        assert(decimal(n).drop_last() =~= Seq::<char>::empty());
        assert(digits_value(Seq::<char>::empty()) == 0);
    } else {
        lemma_decimal(n / 10);
        lemma_digit_char(n % 10);
        let s = decimal(n);
        assert(s.drop_last() =~= decimal(n / 10));
        assert(s.last() == digit_char(n % 10));
        assert(digits_value(s) == 10 * digits_value(decimal(n / 10)) + digit_value(digit_char(n % 10)));
        assert(10 * (n / 10) + n % 10 == n);
        assert(digits_value(s) == 10 * (n / 10) + n % 10);
        assert(all_digits(s)) by {
            assert forall|i: int| 0 <= i < s.len() implies is_digit(#[trigger] s[i]) by {
                if i < s.len() - 1 {
                    assert(s[i] == decimal(n / 10)[i]);
                }
            }
        }
    }
}

proof fn lemma_leading_zeros(k: nat, s: Seq<char>)
    ensures
        digits_value(Seq::new(k, |i: int| '0') + s) == digits_value(s),
    decreases s.len(),
{
    let z = Seq::new(k, |i: int| '0');
    if s.len() == 0 {
        assert(z + s =~= z);
        lemma_zeros(k);
    } else {
        assert((z + s).drop_last() =~= z + s.drop_last());
        lemma_leading_zeros(k, s.drop_last());
    }
}

proof fn lemma_zeros(k: nat)
    ensures
        digits_value(Seq::new(k, |i: int| '0')) == 0,
    decreases k,
{
    if k > 0 {
        assert(Seq::new(k, |i: int| '0').drop_last() =~= Seq::new((k - 1) as nat, |i: int| '0'));
        lemma_zeros((k - 1) as nat);
    }
}

proof fn lemma_label_value(prefix: char, n: nat)
    ensures
        digits_value(label_of(prefix, n).drop_first()) == n,
{
    lemma_decimal(n);
    let d = decimal(n);
    assert(label_of(prefix, n).drop_first() =~= pad3(d));
    if d.len() < 3 {
        lemma_leading_zeros((3 - d.len()) as nat, d);
    }
}

/// A label names the row of its ordinal, for every ordinal in 1..=u32::MAX.
pub proof fn lemma_label_row(prefix: char, n: nat)
    requires
        1 <= n <= u32::MAX,
    ensures
        label_has_row(label_of(prefix, n)),
        row_of(label_of(prefix, n)) == n,
{
    lemma_decimal(n);
    let d = decimal(n);
    let p = pad3(d);
    let l = label_of(prefix, n);
    assert(l.drop_first() =~= p);
    if d.len() < 3 {
        let z = Seq::new((3 - d.len()) as nat, |i: int| '0');
        lemma_leading_zeros((3 - d.len()) as nat, d);
        assert(p[0] == '0');
        assert(all_digits(p)) by {
            assert forall|i: int| 0 <= i < p.len() implies is_digit(#[trigger] p[i]) by {
                if i >= z.len() {
                    assert(p[i] == d[i - z.len()]);
                }
            }
        }
    }
    assert(unsigned_digits(p) =~= p);
}

/// Two ordinals with the same label are equal.
pub proof fn lemma_label_injective(prefix: char, a: nat, b: nat)
    requires
        label_of(prefix, a) == label_of(prefix, b),
    ensures
        a == b,
{
    lemma_label_value(prefix, a);
    lemma_label_value(prefix, b);
}

/// Relies on `String::from(char)`: a string of that one character.
#[verifier::external_body]
fn char_string(c: char) -> (r: String)
    ensures
        r@ == seq![c],
{
    String::from(c)
}

fn exec_digit_char(d: usize) -> (c: char)
    requires
        d < 10,
    ensures
        c == digit_char(d as nat),
{
    if d == 0 { '0' }
    else if d == 1 { '1' }
    else if d == 2 { '2' }
    else if d == 3 { '3' }
    else if d == 4 { '4' }
    else if d == 5 { '5' }
    else if d == 6 { '6' }
    else if d == 7 { '7' }
    else if d == 8 { '8' }
    else { '9' }
}

fn push_decimal(s: &mut String, n: usize)
    ensures
        final(s)@ == old(s)@ + decimal(n as nat),
    decreases n,
{
    if n >= 10 {
        push_decimal(s, n / 10);
    }
    let d = char_string(exec_digit_char(n % 10));
    s.append(d.as_str());
    proof {
        if n >= 10 {
            assert(decimal(n as nat) == decimal((n / 10) as nat) + seq![digit_char((n % 10) as nat)]);
        }
    }
    assert(final(s)@ =~= old(s)@ + decimal(n as nat));
}

/// The label of seat `n`, such as `A007` for prefix `A` and `n == 7`.
pub fn seat_label(prefix: char, n: usize) -> (r: String)
    ensures
        r@ == label_of(prefix, n as nat),
{
    proof {
        lemma_decimal(n as nat);
    }
    let mut s = char_string(prefix);
    if n < 10 {
        s.append("00");
    } else if n < 100 {
        s.append("0");
    }
    push_decimal(&mut s, n);
    proof {
        reveal_strlit("00");
        reveal_strlit("0");
    }
    assert(s@ =~= label_of(prefix, n as nat));
    s
}

proof fn lemma_digits_grow(a: Seq<char>, b: Seq<char>)
    ensures
        digits_value(a) <= digits_value(a + b),
    decreases b.len(),
{
    if b.len() == 0 {
        assert(a + b =~= a);
    } else {
        assert((a + b).drop_last() =~= a + b.drop_last());
        lemma_digits_grow(a, b.drop_last());
    }
}

/// Whether `e` is a failure to read a row number from `label`.
pub open spec fn is_format_failure(e: SeatError, label: Seq<char>) -> bool {
    match e {
        SeatError::FormatFailure { label: l } => l@ == label,
        _ => false,
    }
}

fn format_failure(label: &str) -> (e: SeatError)
    ensures
        is_format_failure(e, label@),
{
    SeatError::FormatFailure { label: String::from_str(label) }
}

/// The row that a seat label names: what follows its first character, read as an unsigned
/// number. A label without such a number, or naming row 0, is refused.
pub fn parse_seat_row(label: &str) -> (r: Result<u32, SeatError>)
    ensures
        match r {
            Ok(row) => label_has_row(label@) && row as nat == row_of(label@),
            Err(e) => !label_has_row(label@) && is_format_failure(e, label@),
        },
{
    let len = label.unicode_len();
    if len == 0 {
        return Err(format_failure(label));
    }
    let mut start: usize = 1;
    if len >= 2 && label.get_char(1) == '+' {
        start = 2;
    }
    let ghost d = unsigned_digits(label@.drop_first());
    proof {
        assert(d =~= label@.subrange(start as int, len as int));
    }
    if len == start {
        return Err(format_failure(label));
    }
    let mut i: usize = start;
    let mut value: u64 = 0;
    while i < len
        invariant
            1 <= start <= i <= len,
            len == label@.len(),
            d =~= label@.subrange(start as int, len as int),
            d == unsigned_digits(label@.drop_first()),
            all_digits(label@.subrange(start as int, i as int)),
            value as nat == digits_value(label@.subrange(start as int, i as int)),
            value <= u32::MAX,
        decreases len - i,
    {
        let c = label.get_char(i);
        let a = Ghost(label@.subrange(start as int, i as int));
        let b = Ghost(label@.subrange(start as int, i + 1));
        proof {
            assert(b@.drop_last() =~= a@);
            assert(b@.last() == c);
        }
        if !('0' <= c && c <= '9') {
            proof {
                assert(d[i - start] == c);
                assert(!all_digits(d));
            }
            return Err(format_failure(label));
        }
        let next = value * 10 + (c as u32 - '0' as u32) as u64;
        if next > u32::MAX as u64 {
            proof {
                assert(d =~= b@ + label@.subrange(i + 1, len as int));
                lemma_digits_grow(b@, label@.subrange(i + 1, len as int));
                assert(digits_value(b@) == next);
                assert(digits_value(d) > u32::MAX);
            }
            return Err(format_failure(label));
        }
        value = next;
        i = i + 1;
        proof {
            assert forall|j: int| 0 <= j < b@.len() implies is_digit(#[trigger] b@[j]) by {
                if j < a@.len() {
                    assert(b@[j] == a@[j]);
                }
            }
        }
    }
    if value == 0 {
        return Err(format_failure(label));
    }
    Ok(value as u32)
}

} // verus!
