//! Exact non-negative decimal numbers.
//!
//! A [`Dec`] holds a base-10 mantissa as big-endian digit values (each `0..=9`)
//! together with a power-of-ten scale: the number denoted is
//! `mantissa / 10^scale`. Parsing from decimal text and the zero test are
//! verified here; multiplication, ordering and rendering go through the
//! `bigdecimal` crate behind trusted wrappers whose contracts are stated over
//! the mantissa and scale alone.

use vstd::prelude::*;
use bigdecimal::BigDecimal;
use bigdecimal::num_bigint::{BigInt, Sign};

verus! {

/// Ten to the power `n`.
pub open spec fn pow10(n: nat) -> nat
    decreases n,
{
    if n == 0 {
        1
    } else {
        10 * pow10((n - 1) as nat)
    }
}

/// Every entry is a digit value, `0..=9`.
pub open spec fn digits_ok(s: Seq<u8>) -> bool {
    forall|i: int| 0 <= i < s.len() ==> s[i] < 10
}

/// The number spelled by big-endian digit values.
pub open spec fn be_val(s: Seq<u8>) -> nat
    decreases s.len(),
{
    if s.len() == 0 {
        0
    } else {
        be_val(s.drop_last()) * 10 + s.last() as nat
    }
}

/// An exact non-negative decimal: `be_val(digits) / 10^scale`.
#[derive(Debug)]
pub struct Dec {
    /// Big-endian base-10 digit values, each `0..=9`.
    pub digits: Vec<u8>,
    /// How many of the least significant digits lie behind the decimal point.
    pub scale: u128,
}

impl Dec {
    /// The digit vector really holds digit values.
    pub open spec fn wf(self) -> bool {
        digits_ok(self.digits@)
    }

    /// The mantissa as a number.
    pub open spec fn num(self) -> nat {
        be_val(self.digits@)
    }

    /// The scale as a number.
    pub open spec fn sc(self) -> nat {
        self.scale as nat
    }
}

/// The largest scale the search keeps exact values at. Scales beyond it
/// cannot be handed to the decimal backend, whose scales are `i64`; the
/// search prunes such paths instead. A value this large arises only from
/// fraction parts around 10^18 digits long.
pub const SC_LIMIT: u128 = 1000000000000000000;

/// `a >= b` on the denoted values `a.num/10^a.sc` and `b.num/10^b.sc`,
/// stated without division by cross-multiplying.
pub open spec fn dec_ge_spec(a: Dec, b: Dec) -> bool {
    a.num() * pow10(b.sc()) >= b.num() * pow10(a.sc())
}

/// Relies on `BigInt::from_radix_be` / `to_radix_be` (radix 10) and `BigInt`
/// multiplication from `num-bigint` (re-exported by `bigdecimal`): the digits
/// returned spell exactly the product of the two inputs.
#[verifier::external_body]
pub(crate) fn mul_digits(a: &Vec<u8>, b: &Vec<u8>) -> (r: Vec<u8>)
    requires
        digits_ok(a@),
        digits_ok(b@),
    ensures
        digits_ok(r@),
        be_val(r@) == be_val(a@) * be_val(b@),
{
    let x = BigInt::from_radix_be(Sign::Plus, a.as_slice(), 10).unwrap();
    let y = BigInt::from_radix_be(Sign::Plus, b.as_slice(), 10).unwrap();
    let (_, digits) = (x * y).to_radix_be(10);
    digits
}

/// Relies on `BigDecimal::from_bigint` (value `digits * 10^-scale`) and the
/// numeric `Ord` of `BigDecimal`: the comparison is by denoted value.
#[verifier::external_body]
pub fn dec_ge(a: &Dec, b: &Dec) -> (r: bool)
    requires
        a.wf(),
        b.wf(),
        a.sc() <= i64::MAX,
        b.sc() <= i64::MAX,
    ensures
        r == dec_ge_spec(*a, *b),
{
    let xm = BigInt::from_radix_be(Sign::Plus, a.digits.as_slice(), 10).unwrap();
    let ym = BigInt::from_radix_be(Sign::Plus, b.digits.as_slice(), 10).unwrap();
    let x = BigDecimal::from_bigint(xm, a.scale as i64);
    let y = BigDecimal::from_bigint(ym, b.scale as i64);
    x >= y
}

/// What `bigdecimal`'s display with a precision of five renders for a value
/// given by digits and scale; a function of the two arguments alone.
pub uninterp spec fn fixed5_of(digits: Seq<u8>, scale: int) -> Seq<char>;

/// Relies on `BigDecimal`'s `Display` honouring a precision of five digits
/// after the point; the text depends on the digits and scale alone. The
/// rounding mode is the one `bigdecimal` was compiled with (half-even by
/// default), fixed within any one build.
#[verifier::external_body]
pub fn format_5dp(d: &Dec) -> (r: String)
    requires
        d.wf(),
        d.sc() <= i64::MAX,
    ensures
        r@ == fixed5_of(d.digits@, d.scale as int),
{
    let m = BigInt::from_radix_be(Sign::Plus, d.digits.as_slice(), 10).unwrap();
    let x = BigDecimal::from_bigint(m, d.scale as i64);
    format!("{:.5}", x)
}

/// Ten to any power is positive.
pub proof fn lemma_pow10_pos(n: nat)
    ensures
        pow10(n) >= 1,
    decreases n,
{
    if n > 0 {
        lemma_pow10_pos((n - 1) as nat);
        assert(10 * pow10((n - 1) as nat) >= 10 * 1) by (nonlinear_arith)
            requires
                pow10((n - 1) as nat) >= 1,
        ;
    }
}

/// The ordering on denoted values is transitive.
pub proof fn lemma_dec_ge_trans(a: Dec, b: Dec, c: Dec)
    requires
        dec_ge_spec(a, b),
        dec_ge_spec(b, c),
    ensures
        dec_ge_spec(a, c),
{
    let an = a.num();
    let bn = b.num();
    let cn = c.num();
    let pa = pow10(a.sc());
    let pb = pow10(b.sc());
    let pc = pow10(c.sc());
    lemma_pow10_pos(b.sc());
    assert((an * pb) * pc >= (bn * pa) * pc) by (nonlinear_arith)
        requires
            an * pb >= bn * pa,
    ;
    assert((bn * pc) * pa >= (cn * pb) * pa) by (nonlinear_arith)
        requires
            bn * pc >= cn * pb,
    ;
    assert((an * pb) * pc == (an * pc) * pb) by (nonlinear_arith);
    assert((bn * pa) * pc == (bn * pc) * pa) by (nonlinear_arith);
    assert((cn * pb) * pa == (cn * pa) * pb) by (nonlinear_arith);
    assert((an * pc) * pb >= (cn * pa) * pb);
    assert(an * pc >= cn * pa) by (nonlinear_arith)
        requires
            (an * pc) * pb >= (cn * pa) * pb,
            pb >= 1,
    ;
}

/// The decimal denoting zero.
pub fn dec_zero() -> (r: Dec)
    ensures
        r.wf(),
        r.num() == 0,
        r.sc() == 0,
{
    Dec { digits: Vec::new(), scale: 0 }
}

/// Exact product: mantissas multiply, scales add.
pub fn dec_mul(a: &Dec, b: &Dec) -> (r: Dec)
    requires
        a.wf(),
        b.wf(),
        a.sc() + b.sc() <= u128::MAX,
    ensures
        r.wf(),
        r.num() == a.num() * b.num(),
        r.sc() == a.sc() + b.sc(),
{
    Dec { digits: mul_digits(&a.digits, &b.digits), scale: a.scale + b.scale }
}

proof fn lemma_be_val_prepend(d: u8, s: Seq<u8>)
    ensures
        be_val(seq![d] + s) == d * pow10(s.len()) + be_val(s),
    decreases s.len(),
{
    if s.len() == 0 {
        assert(seq![d] + s =~= seq![d]);
        assert((seq![d]).drop_last() =~= Seq::<u8>::empty());
        assert(be_val(Seq::<u8>::empty()) == 0);
        assert((seq![d]).last() == d);
        assert(be_val(seq![d]) == be_val((seq![d]).drop_last()) * 10 + d);
        assert(pow10(s.len()) == 1);
    } else {
        let t = s.drop_last();
        let l = s.last();
        assert((seq![d] + s).drop_last() =~= seq![d] + t);
        assert((seq![d] + s).last() == l);
        lemma_be_val_prepend(d, t);
        assert(be_val(seq![d] + s) == be_val(seq![d] + t) * 10 + l);
        assert(be_val(seq![d] + t) == d * pow10(t.len()) + be_val(t));
        assert((d * pow10(t.len()) + be_val(t)) * 10 == d * (10 * pow10(t.len())) + be_val(t) * 10)
            by (nonlinear_arith);
        assert(pow10(s.len()) == 10 * pow10(t.len()));
        assert(be_val(s) == be_val(t) * 10 + l);
    }
}

/// The decimal denoting the integer `n`.
pub fn dec_from_u64(n: u64) -> (r: Dec)
    ensures
        r.wf(),
        r.num() == n,
        r.sc() == 0,
{
    let mut digits: Vec<u8> = Vec::new();
    let mut m = n;
    proof {
        assert(pow10(0) == 1);
        assert(be_val(Seq::<u8>::empty()) == 0);
    }
    while m > 0
        invariant
            digits_ok(digits@),
            m * pow10(digits@.len()) + be_val(digits@) == n,
        decreases m,
    {
        let d: u8 = (m % 10) as u8;
        let ghost pre = digits@;
        digits.insert(0, d);
        proof {
            assert(digits@ =~= seq![d] + pre);
            lemma_be_val_prepend(d, pre);
            assert((m / 10) * (10 * pow10(pre.len())) + (m % 10) * pow10(pre.len()) == m * pow10(
                pre.len(),
            )) by (nonlinear_arith);
        }
        m = m / 10;
    }
    Dec { digits, scale: 0 }
}

proof fn lemma_be_val_zero_iff(s: Seq<u8>)
    ensures
        be_val(s) == 0 <==> (forall|i: int| 0 <= i < s.len() ==> s[i] == 0),
    decreases s.len(),
{
    if s.len() > 0 {
        lemma_be_val_zero_iff(s.drop_last());
        if be_val(s) == 0 {
            assert(forall|i: int|
                0 <= i < s.len() ==> s[i] == 0) by {
                assert(forall|i: int| 0 <= i < s.len() - 1 ==> s[i] == s.drop_last()[i]);
            }
        } else {
            if forall|i: int| 0 <= i < s.len() ==> s[i] == 0 {
                assert(forall|i: int| 0 <= i < s.len() - 1 ==> s.drop_last()[i] == s[i]);
                assert(be_val(s.drop_last()) == 0);
                assert(s.last() == 0);
            }
        }
    }
}

/// The UTF-8 bytes behind a string view; `str::as_bytes` returns exactly
/// these.
pub open spec fn sbytes(s: Seq<char>) -> Seq<u8> {
    vstd::utf8::encode_utf8(s)
}

/// An ASCII digit.
pub open spec fn is_digit_byte(b: u8) -> bool {
    48 <= b <= 57
}

/// Every byte is an ASCII digit.
pub open spec fn all_digit_bytes(s: Seq<u8>) -> bool {
    forall|i: int| 0 <= i < s.len() ==> is_digit_byte(s[i])
}

/// ASCII digits turned into digit values.
pub open spec fn to_vals(s: Seq<u8>) -> Seq<u8> {
    s.map_values(|b: u8| (b - 48) as u8)
}

/// Position `i` holds the decimal point and only digits precede it.
pub open spec fn dot_at(s: Seq<u8>, i: int) -> bool {
    0 <= i < s.len() && s[i] == 46 && all_digit_bytes(s.take(i))
}

/// The text spells a plain non-negative decimal: digits with at most one
/// decimal point and at least one digit.
pub open spec fn valid_dec_bytes(s: Seq<u8>) -> bool {
    if all_digit_bytes(s) {
        s.len() >= 1
    } else {
        s.len() >= 2 && exists|i: int| dot_at(s, i) && all_digit_bytes(s.skip(i + 1))
    }
}

/// The position of the decimal point; meaningful only when one is there.
pub open spec fn dot_pos(s: Seq<u8>) -> int {
    choose|i: int| dot_at(s, i)
}

/// The digit bytes of the text, with the decimal point removed.
pub open spec fn digit_seq(s: Seq<u8>) -> Seq<u8> {
    if all_digit_bytes(s) {
        s
    } else {
        s.take(dot_pos(s)) + s.skip(dot_pos(s) + 1)
    }
}

/// The mantissa spelled by the text.
pub open spec fn dec_bytes_num(s: Seq<u8>) -> nat {
    be_val(to_vals(digit_seq(s)))
}

/// How many digits of the text follow the decimal point.
pub open spec fn dec_bytes_scale(s: Seq<u8>) -> nat {
    if all_digit_bytes(s) {
        0
    } else {
        (s.len() - dot_pos(s) - 1) as nat
    }
}

proof fn lemma_dot_unique(s: Seq<u8>, i: int, j: int)
    requires
        dot_at(s, i),
        dot_at(s, j),
    ensures
        i == j,
{
    if i < j {
        assert(s.take(j)[i] == s[i]);
    }
    if j < i {
        assert(s.take(i)[j] == s[j]);
    }
}

/// Parse a plain non-negative decimal written in ASCII: digits with at most
/// one decimal point. Signed and exponent notations ("+1", "1e5") are
/// outside this grammar — a record written that way reads as malformed and
/// loses its contribution rather than being priced.
pub fn parse_dec_bytes(s: &[u8]) -> (r: Option<Dec>)
    ensures
        r is Some <==> valid_dec_bytes(s@),
        r is Some ==> r.unwrap().wf(),
        r is Some ==> r.unwrap().num() == dec_bytes_num(s@),
        r is Some ==> r.unwrap().sc() == dec_bytes_scale(s@),
        r is Some ==> r.unwrap().sc() <= s@.len(),
{
    let mut digits: Vec<u8> = Vec::new();
    let mut dot: Option<usize> = None;
    let mut i: usize = 0;
    proof {
        assert(digits@ =~= to_vals(s@.take(0)));
    }
    while i < s.len()
        invariant
            i <= s@.len(),
            digits_ok(digits@),
            dot is None ==> all_digit_bytes(s@.take(i as int)) && digits@ == to_vals(
                s@.take(i as int),
            ),
            dot is Some ==> dot.unwrap() < i && dot_at(s@, dot.unwrap() as int)
                && all_digit_bytes(s@.subrange(dot.unwrap() + 1, i as int)) && digits@ == to_vals(
                s@.take(dot.unwrap() as int) + s@.subrange(dot.unwrap() + 1, i as int),
            ),
        decreases s@.len() - i,
    {
        let b = s[i];
        if 48 <= b && b <= 57 {
            digits.push(b - 48);
            proof {
                match dot {
                    None => {
                        assert(s@.take(i + 1) =~= s@.take(i as int).push(s@[i as int]));
                        assert(to_vals(s@.take(i + 1)) =~= to_vals(s@.take(i as int)).push(
                            (b - 48) as u8,
                        ));
                    },
                    Some(d) => {
                        assert(s@.subrange(d + 1, i + 1) =~= s@.subrange(d + 1, i as int).push(
                            s@[i as int],
                        ));
                        assert(s@.take(d as int) + s@.subrange(d + 1, i + 1) =~= (s@.take(d as int)
                            + s@.subrange(d + 1, i as int)).push(s@[i as int]));
                        assert(to_vals(s@.take(d as int) + s@.subrange(d + 1, i + 1)) =~= to_vals(
                            s@.take(d as int) + s@.subrange(d + 1, i as int),
                        ).push((b - 48) as u8));
                    },
                }
            }
        } else if b == 46 {
            match dot {
                None => {
                    dot = Some(i);
                    proof {
                        assert(s@.subrange(i + 1, i + 1) =~= Seq::<u8>::empty());
                        assert(s@.take(i as int) + s@.subrange(i + 1, i + 1) =~= s@.take(i as int));
                    }
                },
                Some(d) => {
                    proof {
                        assert(!all_digit_bytes(s@)) by {
                            assert(s@[d as int] == 46);
                        }
                        assert forall|j: int|
                            !(dot_at(s@, j) && all_digit_bytes(s@.skip(j + 1))) by {
                            if dot_at(s@, j) {
                                lemma_dot_unique(s@, j, d as int);
                                assert(s@.skip(d + 1)[i - d - 1] == s@[i as int]);
                            }
                        }
                    }
                    return None;
                },
            }
        } else {
            proof {
                assert(!all_digit_bytes(s@)) by {
                    assert(!is_digit_byte(s@[i as int]));
                }
                assert forall|j: int| !(dot_at(s@, j) && all_digit_bytes(s@.skip(j + 1))) by {
                    if dot_at(s@, j) && all_digit_bytes(s@.skip(j + 1)) {
                        if j > i {
                            assert(s@.take(j)[i as int] == s@[i as int]);
                        } else if j < i {
                            assert(s@.skip(j + 1)[i - j - 1] == s@[i as int]);
                        }
                    }
                }
            }
            return None;
        }
        i += 1;
    }
    proof {
        assert(s@.take(i as int) =~= s@);
        if dot is Some {
            let d = dot.unwrap() as int;
            assert(s@.subrange(d + 1, i as int) =~= s@.skip(d + 1));
        }
    }
    if digits.len() == 0 {
        proof {
            match dot {
                None => {},
                Some(d) => {
                    assert(!all_digit_bytes(s@)) by {
                        assert(s@[d as int] == 46);
                    }
                    assert(s@.take(d as int).len() + s@.skip(d + 1).len() == 0);
                    assert(s@.len() < 2);
                },
            }
        }
        return None;
    }
    let sc: usize = match dot {
        Some(d) => s.len() - d - 1,
        None => 0,
    };
    proof {
        match dot {
            None => {
                assert(valid_dec_bytes(s@));
            },
            Some(d) => {
                assert(!all_digit_bytes(s@)) by {
                    assert(s@[d as int] == 46);
                }
                assert(dot_at(s@, d as int) && all_digit_bytes(s@.skip(d + 1)));
                assert(s@.len() >= 2);
                assert(valid_dec_bytes(s@));
                lemma_dot_unique(s@, dot_pos(s@), d as int);
            },
        }
    }
    Some(Dec { digits, scale: sc as u128 })
}

proof fn lemma_be_val_take_le(s: Seq<u8>, i: int)
    requires
        0 <= i <= s.len(),
    ensures
        be_val(s.take(i)) <= be_val(s),
    decreases s.len() - i,
{
    if i < s.len() {
        assert(s.take(i + 1).drop_last() =~= s.take(i));
        assert(be_val(s.take(i + 1)) == be_val(s.take(i)) * 10 + s.take(i + 1).last());
        assert(be_val(s.take(i)) <= be_val(s.take(i)) * 10) by (nonlinear_arith);
        lemma_be_val_take_le(s, i + 1);
        assert(s.take(s.len() as int) =~= s);
    } else {
        assert(s.take(i) =~= s);
    }
}

/// Parse a non-negative ASCII integer no greater than `cap`.
pub fn parse_u64_capped(s: &[u8], cap: u64) -> (r: Option<u64>)
    ensures
        r is Some <==> (all_digit_bytes(s@) && s@.len() >= 1 && be_val(to_vals(s@)) <= cap),
        r is Some ==> r.unwrap() as nat == be_val(to_vals(s@)),
{
    if s.len() == 0 {
        return None;
    }
    let ghost t = to_vals(s@);
    let mut v: u64 = 0;
    let mut i: usize = 0;
    proof {
        assert(t.take(0) =~= Seq::<u8>::empty());
    }
    while i < s.len()
        invariant
            i <= s@.len(),
            t == to_vals(s@),
            all_digit_bytes(s@.take(i as int)),
            v as nat == be_val(t.take(i as int)),
            v <= cap,
        decreases s@.len() - i,
    {
        let b = s[i];
        if !(48 <= b && b <= 57) {
            proof {
                assert(!is_digit_byte(s@[i as int]));
            }
            return None;
        }
        let d = (b - 48) as u64;
        proof {
            assert(t.take(i + 1).drop_last() =~= t.take(i as int));
            assert(t.take(i + 1).last() == d);
            assert(be_val(t.take(i + 1)) == (v as nat) * 10 + d);
        }
        if d > cap {
            proof {
                lemma_be_val_take_le(t, i + 1);
                assert(t.take(t.len() as int) =~= t);
            }
            return None;
        }
        if v > (cap - d) / 10 {
            proof {
                let c2 = (cap - d) as int;
                vstd::arithmetic::div_mod::lemma_fundamental_div_mod(c2, 10);
                let q = c2 / 10;
                assert((v as int) * 10 >= (q + 1) * 10) by (nonlinear_arith)
                    requires
                        v as int >= q + 1,
                ;
                assert((v as nat) * 10 + d > cap);
                lemma_be_val_take_le(t, i + 1);
                assert(t.take(t.len() as int) =~= t);
            }
            return None;
        }
        proof {
            let c2 = (cap - d) as int;
            vstd::arithmetic::div_mod::lemma_fundamental_div_mod(c2, 10);
            let q = c2 / 10;
            assert((v as int) * 10 <= q * 10) by (nonlinear_arith)
                requires
                    v as int <= q,
            ;
            assert(s@.take(i + 1) =~= s@.take(i as int).push(s@[i as int]));
        }
        v = v * 10 + d;
        i += 1;
    }
    proof {
        assert(s@.take(i as int) =~= s@);
        assert(t.take(i as int) =~= t);
    }
    Some(v)
}

/// Whether the denoted value is zero.
pub fn dec_is_zero(a: &Dec) -> (r: bool)
    ensures
        r == (a.num() == 0),
{
    let mut i: usize = 0;
    while i < a.digits.len()
        invariant
            i <= a.digits@.len(),
            forall|j: int| 0 <= j < i ==> a.digits@[j] == 0,
        decreases a.digits@.len() - i,
    {
        if a.digits[i] != 0 {
            proof {
                lemma_be_val_zero_iff(a.digits@);
            }
            return false;
        }
        i += 1;
    }
    proof {
        lemma_be_val_zero_iff(a.digits@);
    }
    true
}

} // verus!
