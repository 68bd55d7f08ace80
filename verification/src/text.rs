//! Character classes and decimal digit strings.
//!
//! The lexer and the number model both speak about sequences of ASCII
//! digit characters; this module defines their numeric value and the
//! handful of facts about it that the rest of the crate needs.

use vstd::prelude::*;

verus! {

/// JSON whitespace: space, tab, newline, carriage return.
pub open spec fn is_ws_char(c: char) -> bool {
    c == ' ' || c == '\t' || c == '\n' || c == '\r'
}

/// ASCII decimal digit.
pub open spec fn is_digit_char(c: char) -> bool {
    48 <= c as u32 && c as u32 <= 57
}

/// ASCII letter; a keyword scan starts at one of these.
pub open spec fn is_alpha_char(c: char) -> bool {
    (97 <= c as u32 && c as u32 <= 122) || (65 <= c as u32 && c as u32 <= 90)
}

/// ASCII letter or digit; a keyword scan consumes these.
pub open spec fn is_alnum_char(c: char) -> bool {
    is_alpha_char(c) || is_digit_char(c)
}

/// Numeric value of a digit character; zero for anything else.
pub open spec fn digit_val(c: char) -> nat {
    if is_digit_char(c) {
        (c as u32 - 48) as nat
    } else {
        0
    }
}

pub open spec fn all_digits(s: Seq<char>) -> bool {
    forall|i: int| 0 <= i < s.len() ==> is_digit_char(#[trigger] s[i])
}

pub open spec fn all_zero_digits(s: Seq<char>) -> bool {
    forall|i: int| 0 <= i < s.len() ==> #[trigger] s[i] == '0'
}

/// Value of a digit string read in base ten; non-digits count as zero.
pub open spec fn digits_val(s: Seq<char>) -> nat
    decreases s.len(),
{
    if s.len() == 0 {
        0
    } else {
        digits_val(s.drop_last()) * 10 + digit_val(s.last())
    }
}

pub open spec fn pow10(n: nat) -> nat
    decreases n,
{
    if n == 0 {
        1
    } else {
        10 * pow10((n - 1) as nat)
    }
}

/// The digit character for a value below ten.
pub open spec fn digit_char(d: nat) -> char {
    if d == 0 { '0' }
    else if d == 1 { '1' }
    else if d == 2 { '2' }
    else if d == 3 { '3' }
    else if d == 4 { '4' }
    else if d == 5 { '5' }
    else if d == 6 { '6' }
    else if d == 7 { '7' }
    else if d == 8 { '8' }
    else { '9' }
}

/// Decimal digit string of a natural number, most significant digit first.
pub open spec fn nat_digits(n: nat) -> Seq<char>
    decreases n,
{
    if n < 10 {
        seq![digit_char(n)]
    } else {
        nat_digits(n / 10).push(digit_char(n % 10))
    }
}

pub proof fn lemma_digits_val_push(s: Seq<char>, c: char)
    ensures
        digits_val(s.push(c)) == digits_val(s) * 10 + digit_val(c),
{
    assert(s.push(c).drop_last() =~= s);
    assert(s.push(c).last() == c);
}

pub proof fn lemma_digits_val_take_step(s: Seq<char>, i: int)
    requires
        0 <= i < s.len(),
    ensures
        digits_val(s.take(i + 1)) == digits_val(s.take(i)) * 10 + digit_val(s[i]),
{
    assert(s.take(i + 1) =~= s.take(i).push(s[i]));
    lemma_digits_val_push(s.take(i), s[i]);
}

pub proof fn lemma_digits_val_zero(s: Seq<char>)
    requires
        all_zero_digits(s),
    ensures
        digits_val(s) == 0,
    decreases s.len(),
{
    if s.len() > 0 {
        assert(all_zero_digits(s.drop_last()));
        lemma_digits_val_zero(s.drop_last());
        assert(digit_val(s.last()) == 0);
    }
}

/// Two characters with the same code point are the same character.
pub proof fn lemma_char_cast_injective(a: char, b: char)
    requires
        a as u32 == b as u32,
    ensures
        a == b,
{
    vstd::utf8::char_u32_cast(a, a as u32);
    vstd::utf8::char_u32_cast(b, b as u32);
}

pub proof fn lemma_digits_val_nonzero(s: Seq<char>)
    requires
        all_digits(s),
        !all_zero_digits(s),
    ensures
        digits_val(s) >= 1,
    decreases s.len(),
{
    let w = choose|i: int| 0 <= i < s.len() && s[i] != '0';
    if s.last() != '0' {
        assert(is_digit_char(s.last()));
        if s.last() as u32 == 48 {
            lemma_char_cast_injective(s.last(), '0');
        }
        assert(digit_val(s.last()) >= 1);
    } else {
        assert(s[w] != '0' && w < s.len() - 1);
        assert(s.drop_last()[w] != '0');
        assert(all_digits(s.drop_last())) by {
            assert(forall|i: int| 0 <= i < s.len() - 1 ==> is_digit_char(#[trigger] s.drop_last()[i]));
        }
        lemma_digits_val_nonzero(s.drop_last());
    }
}

pub proof fn lemma_pow10_pos(n: nat)
    ensures
        pow10(n) >= 1,
    decreases n,
{
    if n > 0 {
        lemma_pow10_pos((n - 1) as nat);
    }
}

pub proof fn lemma_pow10_mono(a: nat, b: nat)
    requires
        a <= b,
    ensures
        pow10(a) <= pow10(b),
    decreases b,
{
    if a < b {
        lemma_pow10_mono(a, (b - 1) as nat);
        lemma_pow10_pos((b - 1) as nat);
    }
}

pub proof fn lemma_nat_digits(n: nat)
    ensures
        nat_digits(n).len() >= 1,
        all_digits(nat_digits(n)),
        digits_val(nat_digits(n)) == n,
    decreases n,
{
    if n < 10 {
        let s = seq![digit_char(n)];
        assert(s.drop_last() =~= Seq::<char>::empty());
        assert(digits_val(Seq::<char>::empty()) == 0);
        assert(s.last() == digit_char(n));
        assert(is_digit_char(digit_char(n)) && digit_val(digit_char(n)) == n);
    } else {
        lemma_nat_digits(n / 10);
        lemma_digits_val_push(nat_digits(n / 10), digit_char(n % 10));
        assert(is_digit_char(digit_char(n % 10)) && digit_val(digit_char(n % 10)) == n % 10);
        let s = nat_digits(n / 10).push(digit_char(n % 10));
        assert forall|i: int| 0 <= i < s.len() implies is_digit_char(#[trigger] s[i]) by {
            if i < s.len() - 1 {
                assert(s[i] == nat_digits(n / 10)[i]);
            }
        }
    }
}

/// Relies on `String`'s `FromIterator<char>` implementation: collecting an
/// iterator of characters yields the string of exactly those characters.
#[verifier::external_body]
pub fn chars_to_string(v: &Vec<char>) -> (r: String)
    ensures
        r@ == v@,
{
    v.iter().collect()
}

/// Whether a string consists of digit characters only.
pub fn str_all_digits(s: &str) -> (r: bool)
    ensures
        r == all_digits(s@),
{
    let len = s.unicode_len();
    for i in 0..len
        invariant
            len == s@.len(),
            forall|k: int| 0 <= k < i ==> is_digit_char(#[trigger] s@[k]),
    {
        if !digit_char_test(s.get_char(i)) {
            return false;
        }
    }
    true
}

/// Executable test for `is_ws_char`.
pub fn ws_char(c: char) -> (r: bool)
    ensures
        r == is_ws_char(c),
{
    c == ' ' || c == '\t' || c == '\n' || c == '\r'
}

/// Executable test for `is_digit_char`.
pub fn digit_char_test(c: char) -> (r: bool)
    ensures
        r == is_digit_char(c),
{
    let u = c as u32;
    48 <= u && u <= 57
}

/// Executable test for `is_alpha_char`.
pub fn alpha_char_test(c: char) -> (r: bool)
    ensures
        r == is_alpha_char(c),
{
    let u = c as u32;
    (97 <= u && u <= 122) || (65 <= u && u <= 90)
}

/// Executable test for `is_alnum_char`.
pub fn alnum_char_test(c: char) -> (r: bool)
    ensures
        r == is_alnum_char(c),
{
    alpha_char_test(c) || digit_char_test(c)
}

/// Numeric value of a digit character.
pub fn digit_of(c: char) -> (r: u32)
    requires
        is_digit_char(c),
    ensures
        r == digit_val(c),
{
    c as u32 - 48
}

/// The digit character of a value below ten.
pub fn digit_char_of(d: u32) -> (r: char)
    requires
        d < 10,
    ensures
        r == digit_char(d as nat),
{
    if d == 0 { '0' }
    else if d == 1 { '1' }
    else if d == 2 { '2' }
    else if d == 3 { '3' }
    else if d == 4 { '4' }
    else if d == 5 { '5' }
    else if d == 6 { '6' }
    else if d == 7 { '7' }
    else if d == 8 { '8' }
    else { '9' }
}

} // verus!
