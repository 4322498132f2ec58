//! Decimal numbers as text.
use crate::text::to_chars;
use vstd::prelude::*;

verus! {

/// The character of a decimal digit.
pub open spec fn digit_char(d: nat) -> char {
    (48 + d) as char
}

/// Whether a character is a decimal digit.
pub open spec fn is_digit(c: char) -> bool {
    '0' <= c <= '9'
}

/// The number that a digit stands for.
pub open spec fn digit_value(c: char) -> nat {
    (c as u32 - 48) as nat
}

/// The decimal text of a number, without leading zeros.
pub open spec fn digits(n: nat) -> Seq<char>
    decreases n,
{
    if n < 10 {
        seq![digit_char(n)]
    } else {
        digits(n / 10).push(digit_char(n % 10))
    }
}

/// Whether a text holds nothing but digits.
pub open spec fn all_digits(s: Seq<char>) -> bool {
    forall|i: int| 0 <= i < s.len() ==> is_digit(#[trigger] s[i])
}

/// The number that a text of digits stands for.
pub open spec fn digits_value(s: Seq<char>) -> nat
    decreases s.len(),
{
    if s.len() == 0 {
        0
    } else {
        digits_value(s.drop_last()) * 10 + digit_value(s.last())
    }
}

/// A number written without leading zeros.
pub open spec fn canonical(s: Seq<char>) -> bool {
    s.len() > 0 && all_digits(s) && (s.len() > 1 ==> s[0] != '0')
}

/// The decimal text of a number is canonical and stands for it.
pub proof fn law_digits_read_back(n: nat)
    ensures
        canonical(digits(n)),
        digits_value(digits(n)) == n,
        n > 0 ==> digits(n)[0] != '0',
    decreases n,
{
    reveal_with_fuel(digits_value, 2);
    if n >= 10 {
        law_digits_read_back(n / 10);
        let s = digits(n);
        assert(s.drop_last() =~= digits(n / 10));
        assert(s.last() == digit_char(n % 10));
        assert forall|i: int| 0 <= i < s.len() implies is_digit(#[trigger] s[i]) by {
            if i < s.len() - 1 {
                assert(s[i] == digits(n / 10)[i]);
            }
        }
        assert(s[0] == digits(n / 10)[0]);
    } else {
        assert(digits(n).drop_last() =~= Seq::<char>::empty());
    }
}

proof fn lemma_value_positive(s: Seq<char>)
    requires
        s.len() > 0,
        all_digits(s),
        s[0] != '0',
    ensures
        digits_value(s) > 0,
    decreases s.len(),
{
    reveal_with_fuel(digits_value, 2);
    assert(is_digit(s[0]));
    assert(is_digit(s[s.len() - 1]));
    if s.len() > 1 {
        let t = s.drop_last();
        assert forall|i: int| 0 <= i < t.len() implies is_digit(#[trigger] t[i]) by {
            assert(t[i] == s[i]);
        }
        assert(t[0] == s[0]);
        lemma_value_positive(t);
    }
}

/// A canonical text is the decimal text of the number it stands for.
pub proof fn law_canonical_is_digits(s: Seq<char>)
    requires
        canonical(s),
    ensures
        digits(digits_value(s)) == s,
    decreases s.len(),
{
    let t = s.drop_last();
    assert(is_digit(s[s.len() - 1]));
    if s.len() == 1 {
        reveal_with_fuel(digits_value, 2);
        assert(t =~= Seq::<char>::empty());
        assert(digits(digits_value(s)) =~= s);
    } else {
        assert forall|i: int| 0 <= i < t.len() implies is_digit(#[trigger] t[i]) by {
            assert(t[i] == s[i]);
        }
        assert(t[0] == s[0]);
        law_canonical_is_digits(t);
        lemma_value_positive(t);
        assert(digits_value(s) / 10 == digits_value(t));
        assert(digits(digits_value(s)) =~= s);
    }
}

proof fn lemma_value_grows(s: Seq<char>, k: int)
    requires
        0 <= k <= s.len(),
        all_digits(s),
    ensures
        digits_value(s.take(k)) <= digits_value(s),
    decreases s.len(),
{
    if k < s.len() {
        let t = s.drop_last();
        assert forall|i: int| 0 <= i < t.len() implies is_digit(#[trigger] t[i]) by {
            assert(t[i] == s[i]);
        }
        assert(is_digit(s[s.len() - 1]));
        lemma_value_grows(t, k);
        assert(t.take(k) =~= s.take(k));
    } else {
        assert(s.take(k) =~= s);
    }
}

/// Reads the digits from a place on as a number of at most `max`.
fn digits_from(chars: &Vec<char>, from: usize, max: u32) -> (r: Option<u32>)
    requires
        from <= chars@.len(),
        max <= 0xFFFF,
    ensures
        ({
            let s = chars@.skip(from as int);
            r == (if all_digits(s) && digits_value(s) <= max {
                Some(digits_value(s) as u32)
            } else {
                None
            })
        }),
{
    let ghost s = chars@.skip(from as int);
    let mut value: u32 = 0;
    let mut i: usize = from;
    assert(s.take(0) =~= Seq::<char>::empty());
    while i < chars.len()
        invariant
            from <= i <= chars@.len(),
            max <= 0xFFFF,
            s == chars@.skip(from as int),
            all_digits(s.take(i - from)),
            value == digits_value(s.take(i - from)),
            value <= max,
        decreases chars@.len() - i,
    {
        let c: char = chars[i];
        let ghost k = i - from;
        assert(s[k] == chars@[i as int]);
        if c < '0' || c > '9' {
            assert(!is_digit(s[k]));
            return None;
        }
        let ghost upto = s.take(k + 1);
        assert(upto.drop_last() =~= s.take(k));
        assert forall|j: int| 0 <= j < upto.len() implies is_digit(#[trigger] upto[j]) by {
            if j < k {
                assert(upto[j] == s.take(k)[j]);
            }
        }
        value = value * 10 + (c as u32 - 48);
        if value > max {
            proof {
                if all_digits(s) {
                    lemma_value_grows(s, k + 1);
                }
            }
            return None;
        }
        i += 1;
    }
    assert(s.take(s.len() as int) =~= s);
    Some(value)
}

/// Reads one part of a dotted address: a number below 256 without leading
/// zeros.
pub fn parse_octet(s: &str) -> (r: Option<u8>)
    ensures
        match r {
            Some(v) => s@ == digits(v as nat),
            None => forall|v: u8| s@ != #[trigger] digits(v as nat),
        },
{
    let chars: Vec<char> = to_chars(s);
    proof {
        assert(chars@.skip(0) =~= s@);
        assert forall|v: u8| s@ == #[trigger] digits(v as nat) implies canonical(s@)
            && digits_value(s@) == v by {
            law_digits_read_back(v as nat);
        }
        if canonical(s@) {
            law_canonical_is_digits(s@);
        }
    }
    if chars.len() == 0 || (chars.len() > 1 && chars[0] == '0') {
        return None;
    }
    match digits_from(&chars, 0, 255) {
        Some(v) => Some(v as u8),
        None => None,
    }
}

/// What follows the sign of a number, where it has one.
pub open spec fn behind_plus(s: Seq<char>) -> Seq<char> {
    if s.len() > 0 && s[0] == '+' {
        s.drop_first()
    } else {
        s
    }
}

/// The number below 256 that a text stands for: digits, and a plus before them
/// where one wants it.
pub open spec fn byte_value(s: Seq<char>) -> Option<u8> {
    let t = behind_plus(s);
    if t.len() > 0 && all_digits(t) && digits_value(t) < 256 {
        Some(digits_value(t) as u8)
    } else {
        None
    }
}

/// Reads a number below 256.
pub fn parse_byte(s: &str) -> (r: Option<u8>)
    ensures
        r == byte_value(s@),
{
    let chars: Vec<char> = to_chars(s);
    let mut from: usize = 0;
    if chars.len() > 0 && chars[0] == '+' {
        from = 1;
    }
    assert(chars@.skip(from as int) =~= behind_plus(s@));
    if from == chars.len() {
        return None;
    }
    match digits_from(&chars, from, 255) {
        Some(v) => Some(v as u8),
        None => None,
    }
}

/// Appends the decimal text of a number.
pub fn push_decimal(out: &mut String, n: u64)
    ensures
        final(out)@ == old(out)@ + digits(n as nat),
    decreases n,
{
    if n >= 10 {
        push_decimal(out, n / 10);
    }
    let d: u8 = (n % 10) as u8;
    out.push((48 + d) as char);
    assert(out@ =~= old(out)@ + digits(n as nat));
}

/// The last digit of a number is what is left of it by ten, and what stands before it
/// are the digits of a tenth of it. A number below ten is one digit.
pub proof fn law_tens_stand_before_units(n: nat)
    ensures
        n < 10 ==> digits(n).len() == 1,
        n >= 10 ==> digits(n).drop_last() == digits(n / 10),
        digits(n).len() > 0,
        digits(n).last() as int == '0' as int + n % 10,
{
    if n >= 10 {
        assert(digits(n).drop_last() =~= digits(n / 10));
    }
}

} // verus!
