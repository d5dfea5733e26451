//! Decimal numerals: reading a token of digits as a number, and writing a
//! number back as text, padded with zeros to a given width.

use vstd::prelude::*;
use crate::text::string_of;

verus! {

/// The largest number a token may denote.
pub open spec fn max_number() -> int {
    i32::MAX as int
}

/// One of the ten characters `0` to `9`.
pub open spec fn is_decimal_digit(c: char) -> bool {
    '0' as int <= c as int <= '9' as int
}

/// What a decimal digit counts for.
pub open spec fn digit_value(c: char) -> int {
    c as int - '0' as int
}

/// The character that writes `d`, for `d` from 0 to 9.
pub open spec fn digit_char(d: int) -> char {
    ('0' as int + d) as char
}

/// Every character of `s` is a decimal digit.
pub open spec fn all_decimal(s: Seq<char>) -> bool {
    forall|i: int| 0 <= i < s.len() ==> is_decimal_digit(#[trigger] s[i])
}

/// The number that a run of decimal digits denotes, most significant digit
/// first. The empty run denotes 0.
pub open spec fn decimal_value(s: Seq<char>) -> int
    decreases s.len(),
{
    if s.len() == 0 {
        0
    } else {
        decimal_value(s.drop_last()) * 10 + digit_value(s.last())
    }
}

/// A token is a number when it is a non-empty run of decimal digits whose
/// value does not exceed `max_number()`. Leading zeros are allowed.
pub open spec fn is_number(s: Seq<char>) -> bool {
    &&& s.len() > 0
    &&& all_decimal(s)
    &&& decimal_value(s) <= max_number()
}

/// The shortest decimal text of `n`: no leading zero, but `0` itself.
pub open spec fn decimal_text(n: nat) -> Seq<char>
    decreases n,
{
    if n < 10 {
        seq![digit_char(n as int)]
    } else {
        decimal_text(n / 10).push(digit_char((n % 10) as int))
    }
}

/// The decimal text of an integer, with a minus sign in front of a negative
/// one.
pub open spec fn integer_text(n: int) -> Seq<char> {
    if n < 0 {
        seq!['-'] + decimal_text((-n) as nat)
    } else {
        decimal_text(n as nat)
    }
}

/// `k` zeros.
pub open spec fn zeros(k: nat) -> Seq<char> {
    Seq::new(k, |i: int| '0')
}

/// `text` with zeros in front of it until it is `width` characters long. A
/// text that is long enough already is left as it is.
pub open spec fn zero_padded(text: Seq<char>, width: int) -> Seq<char> {
    if text.len() >= width {
        text
    } else {
        zeros((width - text.len()) as nat) + text
    }
}

/// The text of `n`, padded with zeros to `width` characters.
pub open spec fn padded_number(n: int, width: int) -> Seq<char> {
    zero_padded(integer_text(n), width)
}

/// The value of a run of digits is at least the value of each of its
/// prefixes.
pub proof fn lemma_prefix_value(s: Seq<char>, k: int)
    requires
        all_decimal(s),
        0 <= k <= s.len(),
    ensures
        0 <= decimal_value(s.take(k)) <= decimal_value(s),
    decreases s.len(),
{
    if k == s.len() {
        assert(s.take(k) =~= s);
        if s.len() > 0 {
            assert(is_decimal_digit(s[s.len() - 1]));
            assert(all_decimal(s.drop_last()));
            lemma_prefix_value(s.drop_last(), k - 1);
        }
    } else {
        assert(is_decimal_digit(s[s.len() - 1]));
        assert(all_decimal(s.drop_last()));
        lemma_prefix_value(s.drop_last(), k);
        assert(s.drop_last().take(k) =~= s.take(k));
    }
}

/// The decimal text of a number is a run of digits that denotes it.
pub proof fn lemma_decimal_text(n: nat)
    ensures
        decimal_text(n).len() >= 1,
        all_decimal(decimal_text(n)),
        decimal_value(decimal_text(n)) == n,
    decreases n,
{
    let text = decimal_text(n);
    if n < 10 {
        assert(text.drop_last() =~= Seq::<char>::empty());
        assert(decimal_value(text) == decimal_value(text.drop_last()) * 10 + digit_value(
            text.last(),
        ));
    } else {
        lemma_decimal_text(n / 10);
        assert(text.drop_last() =~= decimal_text(n / 10));
        assert(text.last() == digit_char((n % 10) as int));
        assert forall|i: int| 0 <= i < text.len() implies is_decimal_digit(#[trigger] text[i]) by {
            if i < text.len() - 1 {
                assert(text[i] == decimal_text(n / 10)[i]);
            }
        }
    }
}

/// A number that does not exceed the value of a run of digits can be written
/// within the length of that run.
pub proof fn lemma_decimal_text_fits(n: nat, bound: Seq<char>)
    requires
        all_decimal(bound),
        bound.len() >= 1,
        n <= decimal_value(bound),
    ensures
        decimal_text(n).len() <= bound.len(),
    decreases bound.len(),
{
    if n >= 10 {
        let shorter = bound.drop_last();
        assert(is_decimal_digit(bound[bound.len() - 1]));
        assert(all_decimal(shorter));
        if shorter.len() == 0 {
            assert(decimal_value(shorter) == 0);
        } else {
            lemma_decimal_text_fits(n / 10, shorter);
        }
    }
}

/// Zeros in front of a run of digits leave a run of digits, of the same
/// value.
pub proof fn lemma_leading_zeros(k: nat, text: Seq<char>)
    requires
        all_decimal(text),
    ensures
        all_decimal(zeros(k) + text),
        decimal_value(zeros(k) + text) == decimal_value(text),
    decreases text.len(), k,
{
    let whole = zeros(k) + text;
    assert forall|i: int| 0 <= i < whole.len() implies is_decimal_digit(#[trigger] whole[i]) by {
        if i >= k {
            assert(whole[i] == text[i - k]);
        }
    }
    if text.len() > 0 {
        assert(is_decimal_digit(text[text.len() - 1]));
        assert(all_decimal(text.drop_last()));
        lemma_leading_zeros(k, text.drop_last());
        assert(whole.drop_last() =~= zeros(k) + text.drop_last());
    } else if k > 0 {
        lemma_leading_zeros((k - 1) as nat, text);
        assert(whole.drop_last() =~= zeros((k - 1) as nat) + text);
    } else {
        assert(whole =~= text);
    }
}

/// Two runs of digits of one length that denote the same number are the
/// same run.
pub proof fn lemma_same_value_same_digits(a: Seq<char>, b: Seq<char>)
    requires
        all_decimal(a),
        all_decimal(b),
        a.len() == b.len(),
        decimal_value(a) == decimal_value(b),
    ensures
        a == b,
    decreases a.len(),
{
    if a.len() == 0 {
        assert(a =~= b);
    } else {
        assert(is_decimal_digit(a[a.len() - 1]));
        assert(is_decimal_digit(b[b.len() - 1]));
        assert(all_decimal(a.drop_last()));
        assert(all_decimal(b.drop_last()));
        lemma_same_value_same_digits(a.drop_last(), b.drop_last());
        assert(a =~= a.drop_last().push(a.last()));
        assert(b =~= b.drop_last().push(b.last()));
    }
}

/// A number written with padding to a width in which it fits is a run of
/// exactly that many digits, and denotes the number.
pub proof fn lemma_padded_number(n: nat, width: int, bound: Seq<char>)
    requires
        all_decimal(bound),
        bound.len() == width,
        width >= 1,
        n <= decimal_value(bound),
    ensures
        padded_number(n as int, width).len() == width,
        all_decimal(padded_number(n as int, width)),
        decimal_value(padded_number(n as int, width)) == n,
{
    lemma_decimal_text(n);
    lemma_decimal_text_fits(n, bound);
    let text = decimal_text(n);
    if text.len() < width {
        lemma_leading_zeros((width - text.len()) as nat, text);
    }
}

/// A run of digits, read as a number and written again with padding to its
/// own length, is the same run: leading zeros are kept.
pub proof fn lemma_padded_round_trip(digits: Seq<char>)
    requires
        all_decimal(digits),
        digits.len() >= 1,
    ensures
        padded_number(decimal_value(digits), digits.len() as int) == digits,
{
    lemma_prefix_value(digits, 0);
    lemma_padded_number(decimal_value(digits) as nat, digits.len() as int, digits);
    lemma_same_value_same_digits(
        padded_number(decimal_value(digits), digits.len() as int),
        digits,
    );
}

/// Reads a token as a number.
pub fn parse_number(token: &Vec<char>) -> (r: Option<i32>)
    ensures
        r is Some <==> is_number(token@),
        r matches Some(n) ==> 0 <= n == decimal_value(token@),
{
    let len: usize = token.len();
    if len == 0 {
        return None;
    }
    let mut value: i64 = 0;
    let mut i: usize = 0;
    while i < len
        invariant
            len == token@.len(),
            0 <= i <= len,
            all_decimal(token@.take(i as int)),
            value == decimal_value(token@.take(i as int)),
            0 <= value <= i32::MAX,
        decreases len - i,
    {
        let c = token[i];
        if !(c >= '0' && c <= '9') {
            proof {
                if all_decimal(token@) {
                    assert(is_decimal_digit(token@[i as int]));
                }
            }
            return None;
        }
        let d: i64 = (c as u32 - '0' as u32) as i64;
        proof {
            let next = token@.take(i as int + 1);
            assert(next.drop_last() =~= token@.take(i as int));
            assert(next.last() == c);
            assert forall|j: int| 0 <= j < next.len() implies is_decimal_digit(
                #[trigger] next[j],
            ) by {
                if j < i {
                    assert(next[j] == token@.take(i as int)[j]);
                }
            }
            assert(decimal_value(next) == value * 10 + d);
        }
        value = value * 10 + d;
        if value > 2147483647 {
            proof {
                if all_decimal(token@) {
                    lemma_prefix_value(token@, i as int + 1);
                }
            }
            return None;
        }
        i = i + 1;
    }
    proof {
        assert(token@.take(len as int) =~= token@);
    }
    Some(value as i32)
}

/// Appends the shortest decimal text of `n` to `out`.
fn push_decimal(out: &mut Vec<char>, n: u32)
    ensures
        final(out)@ == old(out)@ + decimal_text(n as nat),
    decreases n,
{
    if n >= 10 {
        push_decimal(out, n / 10);
    }
    let d: u8 = (n % 10) as u8;
    out.push((48u8 + d) as char);
    assert(final(out)@ =~= old(out)@ + decimal_text(n as nat));
}

/// The text of `num`, padded with zeros to `pad` characters, as a vector of
/// characters.
pub fn padded_chars(num: i32, pad: usize) -> (r: Vec<char>)
    ensures
        r@ == padded_number(num as int, pad as int),
{
    let mut text: Vec<char> = Vec::new();
    let magnitude: u32 = if num < 0 {
        text.push('-');
        (-(num as i64)) as u32
    } else {
        num as u32
    };
    push_decimal(&mut text, magnitude);
    assert(text@ =~= integer_text(num as int));
    let width: usize = text.len();
    let mut r: Vec<char> = Vec::new();
    if width < pad {
        let missing: usize = pad - width;
        let mut k: usize = 0;
        while k < missing
            invariant
                k <= missing,
                r@ == zeros(k as nat),
            decreases missing - k,
        {
            r.push('0');
            assert(r@ =~= zeros((k + 1) as nat));
            k = k + 1;
        }
    }
    r.append(&mut text);
    r
}

/// The text of `num`, padded with zeros to `pad` characters. A number whose
/// text is longer than `pad` is written in full.
pub fn pad_number(num: i32, pad: i32) -> (r: String)
    requires
        pad >= 0,
    ensures
        r@ == padded_number(num as int, pad as int),
{
    let chars = padded_chars(num, pad as usize);
    string_of(&chars)
}

} // verus!
