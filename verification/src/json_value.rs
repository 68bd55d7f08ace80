//! The JSON value tree and its mathematical model.
//!
//! A `JsonValue` is a fully owned tagged-union tree. Its model is a
//! `SpecValue`, in which strings are character sequences and numbers are
//! `SpecNumber`s: the sign, digit strings and exponent that the lexer read.
//! Numbers are kept in this exact decimal form; the one numeric conversion
//! the codec needs, the lossy truncating cast to `u32`, is specified by
//! `SpecNumber::trunc_u32` and computed by `JsonNumber::to_u32_trunc`.

use vstd::prelude::*;
use crate::text::{
    all_digits, all_zero_digits, chars_to_string, digit_char, digit_char_of, digit_of, digit_val,
    digits_val, is_digit_char,
    lemma_digits_val_nonzero, lemma_digits_val_take_step, lemma_digits_val_zero, lemma_nat_digits,
    lemma_pow10_mono, lemma_pow10_pos, nat_digits, pow10, str_all_digits,
};

verus! {

/// Model of a JSON number: sign, integer digits, fraction digits, exponent.
/// The represented magnitude is
/// `digits_val(int_digits + frac_digits) * 10^(exp_val - frac_digits.len())`.
pub struct SpecNumber {
    pub neg: bool,
    pub int_digits: Seq<char>,
    pub frac_digits: Seq<char>,
    pub exp_neg: bool,
    pub exp_digits: Seq<char>,
}

impl SpecNumber {
    pub open spec fn wf(self) -> bool {
        &&& self.int_digits.len() >= 1
        &&& all_digits(self.int_digits)
        &&& all_digits(self.frac_digits)
        &&& all_digits(self.exp_digits)
        &&& (self.exp_digits.len() == 0 ==> !self.exp_neg)
    }

    /// All mantissa digits, the decimal point forgotten.
    pub open spec fn digits(self) -> Seq<char> {
        self.int_digits + self.frac_digits
    }

    /// Signed value of the exponent.
    pub open spec fn exp_val(self) -> int {
        if self.exp_neg {
            -(digits_val(self.exp_digits) as int)
        } else {
            digits_val(self.exp_digits) as int
        }
    }

    /// Position of the decimal point within `digits()` once the exponent
    /// has been applied: the magnitude is `digits` with the point after
    /// position `point_pos()`.
    pub open spec fn point_pos(self) -> int {
        self.int_digits.len() + self.exp_val()
    }

    /// The magnitude truncated toward zero to a whole number.
    pub open spec fn trunc_mag(self) -> nat {
        let d = self.digits();
        let p = self.point_pos();
        if p <= 0 {
            0
        } else if p >= d.len() {
            digits_val(d) * pow10((p - d.len()) as nat)
        } else {
            digits_val(d.take(p))
        }
    }

    /// The lossy cast to `u32`: negative numbers give zero, the fraction is
    /// dropped, and magnitudes beyond `u32::MAX` saturate.
    pub open spec fn trunc_u32(self) -> u32 {
        if self.neg {
            0
        } else if self.trunc_mag() > u32::MAX {
            u32::MAX
        } else {
            self.trunc_mag() as u32
        }
    }

    /// The canonical number model of a `u32`.
    pub open spec fn of_u32(v: u32) -> SpecNumber {
        SpecNumber {
            neg: false,
            int_digits: nat_digits(v as nat),
            frac_digits: Seq::empty(),
            exp_neg: false,
            exp_digits: Seq::empty(),
        }
    }
}

/// A JSON number as lexed: kept in its exact decimal form.
#[derive(Debug, Clone, PartialEq, Eq)]
pub struct JsonNumber {
    neg: bool,
    int_digits: String,
    frac_digits: String,
    exp_neg: bool,
    exp_digits: String,
}

impl View for JsonNumber {
    type V = SpecNumber;

    closed spec fn view(&self) -> SpecNumber {
        SpecNumber {
            neg: self.neg,
            int_digits: self.int_digits@,
            frac_digits: self.frac_digits@,
            exp_neg: self.exp_neg,
            exp_digits: self.exp_digits@,
        }
    }
}

impl JsonNumber {
    /// Build a number from its parts, checking well-formedness.
    pub fn from_parts(
        neg: bool,
        int_part: &str,
        frac_part: &str,
        exp_neg: bool,
        exp_part: &str,
    ) -> (r: Option<JsonNumber>)
        ensures
            ({
                let m = SpecNumber {
                    neg,
                    int_digits: int_part@,
                    frac_digits: frac_part@,
                    exp_neg,
                    exp_digits: exp_part@,
                };
                match r {
                    Some(n) => n@ == m && m.wf(),
                    None => !m.wf(),
                }
            }),
    {
        if int_part.unicode_len() == 0 {
            return None;
        }
        if !str_all_digits(int_part) || !str_all_digits(frac_part) || !str_all_digits(exp_part) {
            return None;
        }
        if exp_part.unicode_len() == 0 && exp_neg {
            return None;
        }
        Some(JsonNumber {
            neg,
            int_digits: int_part.to_owned(),
            frac_digits: frac_part.to_owned(),
            exp_neg,
            exp_digits: exp_part.to_owned(),
        })
    }

    /// Used by the lexer, which has already established well-formedness.
    pub(crate) fn from_checked_parts(
        neg: bool,
        int_part: String,
        frac_part: String,
        exp_neg: bool,
        exp_part: String,
    ) -> (r: JsonNumber)
        requires
            (SpecNumber {
                neg,
                int_digits: int_part@,
                frac_digits: frac_part@,
                exp_neg,
                exp_digits: exp_part@,
            }).wf(),
        ensures
            r@ == (SpecNumber {
                neg,
                int_digits: int_part@,
                frac_digits: frac_part@,
                exp_neg,
                exp_digits: exp_part@,
            }),
            r@.wf(),
    {
        JsonNumber { neg, int_digits: int_part, frac_digits: frac_part, exp_neg, exp_digits: exp_part }
    }

    /// The canonical representation of a `u32`: its decimal digits, no
    /// fraction, no exponent.
    pub fn from_u32(v: u32) -> (r: JsonNumber)
        ensures
            r@ == SpecNumber::of_u32(v),
            r@.wf(),
    {
        let mut rev: Vec<char> = Vec::new();
        let mut n: u32 = v;
        proof {
            assert(nat_digits(v as nat) =~= nat_digits(n as nat) + rev@.reverse()) by {
                assert(rev@.reverse() =~= Seq::<char>::empty());
            }
        }
        loop
            invariant_except_break
                nat_digits(v as nat) =~= nat_digits(n as nat) + rev@.reverse(),
            ensures
                nat_digits(v as nat) =~= rev@.reverse(),
            decreases n,
        {
            let ghost n0 = n as nat;
            let d = digit_char_of(n % 10);
            let ghost old_rev = rev@;
            rev.push(d);
            proof {
                assert(rev@.reverse() =~= seq![d] + old_rev.reverse());
                assert(d == digit_char(n0 % 10));
                if n0 >= 10 {
                    assert(nat_digits(n0) == nat_digits(n0 / 10).push(digit_char(n0 % 10)));
                    assert(nat_digits(n0 / 10).push(d) + old_rev.reverse()
                        =~= nat_digits(n0 / 10) + (seq![d] + old_rev.reverse()));
                } else {
                    assert(nat_digits(n0) == seq![digit_char(n0)]);
                    assert(n0 % 10 == n0);
                    assert(seq![d] + old_rev.reverse() =~= rev@.reverse());
                }
            }
            n = n / 10;
            if n == 0 {
                proof {
                    assert(n0 < 10);
                    assert(nat_digits(v as nat) =~= rev@.reverse());
                }
                break;
            }
            proof {
                assert(n0 >= 10);
                assert((n0 / 10) == n as nat);
            }
        }
        // reverse the collected digits
        let mut digits: Vec<char> = Vec::new();
        let len = rev.len();
        for i in 0..len
            invariant
                len == rev.len(),
                digits@.len() == i,
                forall|k: int| 0 <= k < i ==> digits@[k] == rev@[len - 1 - k],
        {
            digits.push(rev[len - 1 - i]);
        }
        proof {
            assert(digits@ =~= rev@.reverse());
        }
        let s = chars_to_string(&digits);
        proof {
            lemma_nat_digits(v as nat);
        }
        JsonNumber {
            neg: false,
            int_digits: s,
            frac_digits: String::new(),
            exp_neg: false,
            exp_digits: String::new(),
        }
    }

    /// Magnitude of the exponent, saturating far above any position the
    /// mantissa digits could reach.
    fn exp_magnitude(&self) -> (r: (bool, u128))
        requires
            self@.wf(),
        ensures
            !r.0 ==> r.1 == digits_val(self@.exp_digits)
                && r.1 < 79228162514264337593543950336u128,
            r.0 ==> digits_val(self@.exp_digits) >= 79228162514264337593543950336u128,
    {
        let s = self.exp_digits.as_str();
        let len = s.unicode_len();
        let mut acc: u128 = 0;
        let mut sat: bool = false;
        proof {
            assert(s@.take(0) =~= Seq::<char>::empty());
        }
        for i in 0..len
            invariant
                len == s@.len(),
                s@ == self@.exp_digits,
                all_digits(s@),
                !sat ==> acc == digits_val(s@.take(i as int))
                    && acc < 79228162514264337593543950336u128,
                sat ==> digits_val(s@.take(i as int)) >= 79228162514264337593543950336u128,
        {
            let c = s.get_char(i);
            let d = digit_of(c);
            proof {
                lemma_digits_val_take_step(s@, i as int);
            }
            if !sat {
                let next: u128 = acc * 10 + d as u128;
                if next >= 79228162514264337593543950336u128 {
                    sat = true;
                }
                acc = next;
            }
        }
        proof {
            assert(s@.take(len as int) =~= s@);
        }
        (sat, acc)
    }

    /// Whether any mantissa digit is non-zero.
    #[verifier::loop_isolation(false)]
    fn has_nonzero_digit(&self) -> (r: bool)
        requires
            self@.wf(),
        ensures
            r == !all_zero_digits(self@.digits()),
    {
        let ghost d = self@.digits();
        let si = self.int_digits.as_str();
        let il = si.unicode_len();
        for i in 0..il
            invariant
                il == si@.len(),
                si@ == self@.int_digits,
                forall|k: int| 0 <= k < i ==> #[trigger] si@[k] == '0',
        {
            if si.get_char(i) != '0' {
                proof {
                    assert(d[i as int] == si@[i as int]);
                }
                return true;
            }
        }
        let sf = self.frac_digits.as_str();
        let fl = sf.unicode_len();
        for j in 0..fl
            invariant
                il == si@.len(),
                si@ == self@.int_digits,
                fl == sf@.len(),
                sf@ == self@.frac_digits,
                forall|k: int| 0 <= k < il ==> #[trigger] si@[k] == '0',
                forall|k: int| 0 <= k < j ==> #[trigger] sf@[k] == '0',
        {
            if sf.get_char(j) != '0' {
                proof {
                    assert(d[il + j] == sf@[j as int]);
                }
                return true;
            }
        }
        proof {
            assert forall|k: int| 0 <= k < d.len() implies #[trigger] d[k] == '0' by {
                if k < il {
                    assert(d[k] == si@[k]);
                } else {
                    assert(d[k] == sf@[k - il]);
                }
            }
        }
        false
    }

    /// Value of the first `ti` integer digits followed by the first `tf`
    /// fraction digits, saturating just past `u32::MAX`.
    fn prefix_value_sat(&self, ti: usize, tf: usize) -> (r: (bool, u32))
        requires
            self@.wf(),
            ti <= self@.int_digits.len(),
            tf <= self@.frac_digits.len(),
            tf > 0 ==> ti == self@.int_digits.len(),
        ensures
            ({
                let pref = self@.int_digits.take(ti as int) + self@.frac_digits.take(tf as int);
                if r.0 {
                    digits_val(pref) > u32::MAX
                } else {
                    r.1 == digits_val(pref) && digits_val(pref) <= u32::MAX
                }
            }),
    {
        let si = self.int_digits.as_str();
        let sf = self.frac_digits.as_str();
        let mut acc: u64 = 0;
        let mut sat: bool = false;
        proof {
            assert(si@.take(0) =~= Seq::<char>::empty());
        }
        for i in 0..ti
            invariant
                si@ == self@.int_digits,
                ti <= si@.len(),
                all_digits(si@),
                !sat ==> acc == digits_val(si@.take(i as int)) && acc <= u32::MAX,
                sat ==> digits_val(si@.take(i as int)) > u32::MAX,
        {
            let c = si.get_char(i);
            let d = digit_of(c);
            proof {
                lemma_digits_val_take_step(si@, i as int);
            }
            if !sat {
                let next: u64 = acc * 10 + d as u64;
                if next > u32::MAX as u64 {
                    sat = true;
                }
                acc = next;
            }
        }
        let ghost ipart = si@.take(ti as int);
        proof {
            assert(ipart + sf@.take(0) =~= ipart);
        }
        for j in 0..tf
            invariant
                si@ == self@.int_digits,
                sf@ == self@.frac_digits,
                ti <= si@.len(),
                tf <= sf@.len(),
                all_digits(sf@),
                ipart == si@.take(ti as int),
                !sat ==> acc == digits_val(ipart + sf@.take(j as int)) && acc <= u32::MAX,
                sat ==> digits_val(ipart + sf@.take(j as int)) > u32::MAX,
        {
            let c = sf.get_char(j);
            let d = digit_of(c);
            proof {
                assert(ipart + sf@.take(j + 1) =~= (ipart + sf@.take(j as int)).push(sf@[j as int]));
                crate::text::lemma_digits_val_push(ipart + sf@.take(j as int), sf@[j as int]);
            }
            if !sat {
                let next: u64 = acc * 10 + d as u64;
                if next > u32::MAX as u64 {
                    sat = true;
                }
                acc = next;
            }
        }
        (sat, acc as u32)
    }

    /// The lossy truncating cast, as `SpecNumber::trunc_u32` specifies it:
    /// fractions are dropped,
    /// negative values give zero, magnitudes beyond `u32::MAX` saturate.
    #[verifier::loop_isolation(false)]
    pub fn to_u32_trunc(&self) -> (r: u32)
        requires
            self@.wf(),
        ensures
            r == self@.trunc_u32(),
    {
        if self.neg {
            return 0;
        }
        let il = self.int_digits.as_str().unicode_len();
        let fl = self.frac_digits.as_str().unicode_len();
        let ghost d = self@.digits();
        let ghost p = self@.point_pos();
        proof {
            assert(d.len() == il + fl);
            assert forall|k: int| 0 <= k < d.len() implies is_digit_char(#[trigger] d[k]) by {
                if k < il {
                    assert(d[k] == self@.int_digits[k]);
                } else {
                    assert(d[k] == self@.frac_digits[k - il]);
                }
            }
        }
        let (esat, e) = self.exp_magnitude();
        if self.exp_neg {
            // the point moves left: p == il - digits_val(exp)
            if esat || e >= il as u128 {
                proof {
                    assert(p <= 0);
                    assert(self@.trunc_mag() == 0);
                }
                return 0;
            }
            let ti: usize = il - (e as usize);
            proof {
                assert(e as usize as u128 == e);
                assert(p == ti as int);
                let pref = self@.int_digits.take(ti as int) + self@.frac_digits.take(0);
                assert(pref =~= d.take(ti as int));
                if p == d.len() {
                    assert(d.take(p) =~= d);
                    assert(pow10(0) == 1);
                    assert(digits_val(d) * pow10(0) == digits_val(d));
                }
            }
            let (sat, v) = self.prefix_value_sat(ti, 0);
            if sat {
                u32::MAX
            } else {
                v
            }
        } else {
            // the point moves right: p == il + digits_val(exp)
            let m: u128 = il as u128 + fl as u128;
            if esat || il as u128 + e >= m + 10 {
                // p >= m + 10: any non-zero mantissa overshoots u32
                proof {
                    assert(p >= d.len() + 10);
                }
                if self.has_nonzero_digit() {
                    proof {
                        lemma_digits_val_nonzero(d);
                        let k = (p - d.len()) as nat;
                        assert(pow10(10) == 10000000000) by {
                            reveal_with_fuel(pow10, 11);
                        }
                        lemma_pow10_mono(10, k);
                        assert(digits_val(d) * pow10(k) >= pow10(k)) by (nonlinear_arith)
                            requires
                                digits_val(d) >= 1,
                                pow10(k) >= 0,
                        ;
                        assert(self@.trunc_mag() > u32::MAX);
                    }
                    u32::MAX
                } else {
                    proof {
                        lemma_digits_val_zero(d);
                        assert(self@.trunc_mag() == 0 * pow10((p - d.len()) as nat));
                    }
                    0
                }
            } else {
                let pe: u128 = il as u128 + e;
                proof {
                    assert(p == pe);
                }
                if pe >= m {
                    // whole mantissa, then shift left by pe - m places
                    proof {
                        assert(self@.int_digits.take(il as int) + self@.frac_digits.take(fl as int) =~= d);
                    }
                    let (sat, v) = self.prefix_value_sat(il, fl);
                    if sat {
                        proof {
                            let k = (p - d.len()) as nat;
                            lemma_pow10_pos(k);
                            assert(digits_val(d) * pow10(k) >= digits_val(d)) by (nonlinear_arith)
                                requires
                                    pow10(k) >= 1,
                                    digits_val(d) >= 0,
                            ;
                        }
                        return u32::MAX;
                    }
                    let k: usize = (pe - m) as usize;
                    let mut acc: u64 = v as u64;
                    let mut j: usize = 0;
                    proof {
                        assert(pow10(0) == 1);
                    assert(digits_val(d) * pow10(0) == digits_val(d));
                    }
                    while j < k
                        invariant
                            j <= k,
                            k < 10,
                            acc <= u32::MAX,
                            acc == digits_val(d) * pow10(j as nat),
                        decreases k - j,
                    {
                        let next: u64 = acc * 10;
                        proof {
                            assert(pow10(j as nat + 1) == 10 * pow10(j as nat));
                            assert(digits_val(d) * pow10(j as nat + 1) == (digits_val(d) * pow10(j as nat)) * 10)
                                by (nonlinear_arith)
                                requires
                                    pow10(j as nat + 1) == 10 * pow10(j as nat),
                            ;
                        }
                        if next > u32::MAX as u64 {
                            proof {
                                let k0 = (p - d.len()) as nat;
                                lemma_pow10_mono(j as nat + 1, k0);
                                assert(digits_val(d) * pow10(k0) >= digits_val(d) * pow10(j as nat + 1))
                                    by (nonlinear_arith)
                                    requires
                                        pow10(k0) >= pow10(j as nat + 1),
                                        digits_val(d) >= 0,
                                ;
                                assert(self@.trunc_mag() > u32::MAX);
                            }
                            return u32::MAX;
                        }
                        acc = next;
                        j = j + 1;
                    }
                    proof {
                        assert(self@.trunc_mag() == digits_val(d) * pow10(k as nat));
                    }
                    acc as u32
                } else {
                    // p < m: keep only the digits before the point
                    let ti: usize;
                    let tf: usize;
                    if pe <= il as u128 {
                        ti = pe as usize;
                        tf = 0;
                    } else {
                        ti = il;
                        tf = (pe - il as u128) as usize;
                    }
                    proof {
                        let pref = self@.int_digits.take(ti as int) + self@.frac_digits.take(tf as int);
                        assert(pref =~= d.take(p));
                        assert(0 < p < d.len());
                    }
                    let (sat, v) = self.prefix_value_sat(ti, tf);
                    if sat {
                        u32::MAX
                    } else {
                        v
                    }
                }
            }
        }
    }
}

/// Model of a JSON value tree: strings are character sequences, numbers
/// are their exact decimal form.
pub enum SpecValue {
    Object(Seq<(Seq<char>, SpecValue)>),
    Array(Seq<SpecValue>),
    String(Seq<char>),
    Number(SpecNumber),
    Bool(bool),
    Null,
}

/// First-match lookup among ordered key/value pairs: duplicate keys are
/// tolerated, the earliest pair wins.
pub open spec fn lookup_pairs(ps: Seq<(Seq<char>, SpecValue)>, key: Seq<char>) -> Option<SpecValue>
    decreases ps.len(),
{
    if ps.len() == 0 {
        None
    } else if ps[0].0 == key {
        Some(ps[0].1)
    } else {
        lookup_pairs(ps.subrange(1, ps.len() as int), key)
    }
}

pub open spec fn wf_pairs(ps: Seq<(Seq<char>, SpecValue)>) -> bool
    decreases ps,
{
    if ps.len() == 0 {
        true
    } else {
        ps[ps.len() - 1].1.wf() && wf_pairs(ps.subrange(0, ps.len() - 1))
    }
}

pub open spec fn wf_elems(es: Seq<SpecValue>) -> bool
    decreases es,
{
    if es.len() == 0 {
        true
    } else {
        es[es.len() - 1].wf() && wf_elems(es.subrange(0, es.len() - 1))
    }
}

impl SpecValue {
    /// Every number in the tree is well formed.
    pub open spec fn wf(self) -> bool
        decreases self,
    {
        match self {
            SpecValue::Object(ps) => wf_pairs(ps),
            SpecValue::Array(es) => wf_elems(es),
            SpecValue::Number(n) => n.wf(),
            _ => true,
        }
    }

    /// Key lookup: the value of the first pair with this key, on Objects only.
    pub open spec fn lookup(self, key: Seq<char>) -> Option<SpecValue> {
        match self {
            SpecValue::Object(ps) => lookup_pairs(ps, key),
            _ => None,
        }
    }

    /// Index lookup, on Arrays only.
    pub open spec fn at_index(self, i: int) -> Option<SpecValue> {
        match self {
            SpecValue::Array(es) => if 0 <= i < es.len() {
                Some(es[i])
            } else {
                None
            },
            _ => None,
        }
    }
}

pub proof fn lemma_wf_pairs_index(ps: Seq<(Seq<char>, SpecValue)>)
    requires
        wf_pairs(ps),
    ensures
        forall|i: int| 0 <= i < ps.len() ==> (#[trigger] ps[i]).1.wf(),
    decreases ps.len(),
{
    if ps.len() > 0 {
        lemma_wf_pairs_index(ps.subrange(0, ps.len() - 1));
        assert forall|i: int| 0 <= i < ps.len() implies (#[trigger] ps[i]).1.wf() by {
            if i < ps.len() - 1 {
                assert(ps.subrange(0, ps.len() - 1)[i] == ps[i]);
            }
        }
    }
}

pub proof fn lemma_wf_elems_index(es: Seq<SpecValue>)
    requires
        wf_elems(es),
    ensures
        forall|i: int| 0 <= i < es.len() ==> (#[trigger] es[i]).wf(),
    decreases es.len(),
{
    if es.len() > 0 {
        lemma_wf_elems_index(es.subrange(0, es.len() - 1));
        assert forall|i: int| 0 <= i < es.len() implies (#[trigger] es[i]).wf() by {
            if i < es.len() - 1 {
                assert(es.subrange(0, es.len() - 1)[i] == es[i]);
            }
        }
    }
}

/// A JSON value: a fully owned, immutable tree built by the parser or by
/// the serialization capability.
#[derive(Debug, PartialEq)]
pub enum JsonValue {
    Object(Vec<(String, JsonValue)>),
    Array(Vec<JsonValue>),
    String(String),
    Number(JsonNumber),
    Bool(bool),
    Null,
}

/// Model of a pair sequence, keys and values both abstracted.
pub open spec fn model_pairs(s: Seq<(String, JsonValue)>) -> Seq<(Seq<char>, SpecValue)>
    decreases s,
{
    if s.len() == 0 {
        Seq::empty()
    } else {
        model_pairs(s.subrange(0, s.len() - 1)).push(
            (s[s.len() - 1].0@, s[s.len() - 1].1.model()),
        )
    }
}

/// Model of an element sequence.
pub open spec fn model_elems(s: Seq<JsonValue>) -> Seq<SpecValue>
    decreases s,
{
    if s.len() == 0 {
        Seq::empty()
    } else {
        model_elems(s.subrange(0, s.len() - 1)).push(s[s.len() - 1].model())
    }
}

pub proof fn lemma_model_pairs(s: Seq<(String, JsonValue)>)
    ensures
        model_pairs(s).len() == s.len(),
        forall|i: int| 0 <= i < s.len()
            ==> #[trigger] model_pairs(s)[i] == ((s[i].0@, s[i].1.model())),
    decreases s.len(),
{
    if s.len() > 0 {
        lemma_model_pairs(s.subrange(0, s.len() - 1));
        assert forall|i: int| 0 <= i < s.len()
            implies #[trigger] model_pairs(s)[i] == ((s[i].0@, s[i].1.model())) by {
            if i < s.len() - 1 {
                assert(s.subrange(0, s.len() - 1)[i] == s[i]);
                assert(model_pairs(s)[i] == model_pairs(s.subrange(0, s.len() - 1))[i]);
            }
        }
    }
}

pub proof fn lemma_model_elems(s: Seq<JsonValue>)
    ensures
        model_elems(s).len() == s.len(),
        forall|i: int| 0 <= i < s.len() ==> #[trigger] model_elems(s)[i] == s[i].model(),
    decreases s.len(),
{
    if s.len() > 0 {
        lemma_model_elems(s.subrange(0, s.len() - 1));
        assert forall|i: int| 0 <= i < s.len()
            implies #[trigger] model_elems(s)[i] == s[i].model() by {
            if i < s.len() - 1 {
                assert(s.subrange(0, s.len() - 1)[i] == s[i]);
                assert(model_elems(s)[i] == model_elems(s.subrange(0, s.len() - 1))[i]);
            }
        }
    }
}

impl JsonValue {
    /// The mathematical value of this tree.
    pub open spec fn model(self) -> SpecValue
        decreases self,
    {
        match self {
            JsonValue::Object(pairs) => SpecValue::Object(model_pairs(pairs@)),
            JsonValue::Array(elems) => SpecValue::Array(model_elems(elems@)),
            JsonValue::String(s) => SpecValue::String(s@),
            JsonValue::Number(n) => SpecValue::Number(n@),
            JsonValue::Bool(b) => SpecValue::Bool(b),
            JsonValue::Null => SpecValue::Null,
        }
    }

    /// Every number held anywhere in the tree is well formed; true of every
    /// value this library produces.
    pub open spec fn wf(self) -> bool {
        self.model().wf()
    }

    /// An empty Object.
    pub fn new_obj() -> (r: JsonValue)
        ensures
            r.model() == SpecValue::Object(Seq::<(Seq<char>, SpecValue)>::empty()),
            r.wf(),
    {
        let v: Vec<(String, JsonValue)> = Vec::new();
        proof {
            assert(model_pairs(v@) =~= Seq::<(Seq<char>, SpecValue)>::empty());
        }
        JsonValue::Object(v)
    }

    /// Index lookup: `Some` exactly on an Array and an index below its
    /// length, and then the element at that index.
    pub fn get_arr<'a>(&'a self, index: usize) -> (r: Option<&'a JsonValue>)
        ensures
            match r {
                Some(v) => self.model().at_index(index as int) == Some(v.model())
                    && (self.wf() ==> v.wf()),
                None => self.model().at_index(index as int) is None,
            },
    {
        match self {
            JsonValue::Array(arr) => {
                proof {
                    lemma_model_elems(arr@);
                }
                if index < arr.len() {
                    proof {
                        if self.wf() {
                            lemma_wf_elems_index(model_elems(arr@));
                        }
                    }
                    Some(&arr[index])
                } else {
                    None
                }
            },
            _ => None,
        }
    }

    /// Key lookup: `Some` exactly on an Object holding the key, and then
    /// the value of the first pair whose key matches.
    #[verifier::loop_isolation(false)]
    pub fn get<'a>(&'a self, index: &str) -> (r: Option<&'a JsonValue>)
        ensures
            match r {
                Some(v) => self.model().lookup(index@) == Some(v.model())
                    && (self.wf() ==> v.wf()),
                None => self.model().lookup(index@) is None,
            },
    {
        let key: String = index.to_owned();
        match self {
            JsonValue::Object(obj) => {
                proof {
                    lemma_model_pairs(obj@);
                }
                let ghost mps = model_pairs(obj@);
                proof {
                    assert(mps.subrange(0, mps.len() as int) =~= mps);
                }
                let n = obj.len();
                for i in 0..n
                    invariant
                        n == obj@.len(),
                        lookup_pairs(mps, index@) == lookup_pairs(
                            mps.subrange(i as int, mps.len() as int),
                            index@,
                        ),
                {
                    let ghost rest = mps.subrange(i as int, mps.len() as int);
                    if obj[i].0 == key {
                        proof {
                            assert(rest[0] == mps[i as int]);
                            assert(lookup_pairs(rest, index@) == Some(mps[i as int].1));
                            if self.wf() {
                                lemma_wf_pairs_index(mps);
                            }
                        }
                        return Some(&obj[i].1);
                    }
                    proof {
                        assert(rest[0] == mps[i as int]);
                        assert(rest.subrange(1, rest.len() as int)
                            =~= mps.subrange(i + 1, mps.len() as int));
                    }
                }
                proof {
                    assert(mps.subrange(n as int, mps.len() as int).len() == 0);
                }
                None
            },
            _ => None,
        }
    }
}


/// The canonical number of a `u32` truncates back to that `u32`: the cast
/// loses nothing on values that were whole and in range to begin with.
pub proof fn lemma_of_u32_trunc(v: u32)
    ensures
        SpecNumber::of_u32(v).trunc_u32() == v,
{
    let m = SpecNumber::of_u32(v);
    lemma_nat_digits(v as nat);
    assert(m.digits() =~= nat_digits(v as nat));
    assert(digits_val(m.exp_digits) == 0);
    assert(m.point_pos() == m.digits().len());
    assert(pow10(0) == 1);
    assert(m.trunc_mag() == digits_val(m.digits()) * pow10(0));
    assert(m.trunc_mag() == v);
}


} // verus!
