use vstd::prelude::*;

use vstd::arithmetic::power::{
    pow, lemma_pow_adds, lemma_pow_positive, lemma_pow_strictly_increases,
};
use crate::strutil::{digit_char, nat_str, push_u128, push_all, digit_char_exec};

verus! {

/// Largest number of fractional digits a stored value may carry.
pub const MAX_SCALE: u32 = 36;

/// An exact decimal number: `mant / 10^scale`, negated when `neg` is set.
/// All probabilities, rates and solver results the engine works with are
/// held in this form, so every arithmetic step has an exact meaning.
pub struct Dec {
    pub neg: bool,
    pub mant: u128,
    pub scale: u32,
}

impl Clone for Dec {
    fn clone(&self) -> (r: Self)
        ensures
            r == *self,
    {
        Dec { neg: self.neg, mant: self.mant, scale: self.scale }
    }
}

/// Ten to the given power, as a mathematical integer.
pub open spec fn p10(e: nat) -> int {
    pow(10, e)
}

/// The signed numerator of a decimal; its denominator is `p10(scale)`.
pub open spec fn dec_num(d: Dec) -> int {
    if d.neg {
        -(d.mant as int)
    } else {
        d.mant as int
    }
}

/// The decimal is well formed: its scale stays within the supported range.
pub open spec fn dec_wf(d: Dec) -> bool {
    d.scale <= MAX_SCALE
}

/// The decimal denotes a probability: a value between zero and one.
pub open spec fn dec_is_prob(d: Dec) -> bool {
    0 <= dec_num(d) <= p10(d.scale as nat)
}

proof fn lemma_p10_pos(e: nat)
    ensures
        p10(e) >= 1,
{
    lemma_pow_positive(10, e);
}

proof fn lemma_p10_unfold(e: nat)
    requires
        e >= 1,
    ensures
        p10(e) == 10 * p10((e - 1) as nat),
{
    reveal(pow);
}

/// Ten to the given power, when it fits a u128.
pub fn pow10_u128(e: u32) -> (r: Option<u128>)
    ensures
        r matches Some(v) ==> v == p10(e as nat),
        r is None <==> p10(e as nat) > u128::MAX,
{
    let mut acc: u128 = 1;
    let mut i: u32 = 0;
    proof {
        reveal(pow);
        assert(p10(0) == 1);
    }
    while i < e
        invariant
            i <= e,
            acc == p10(i as nat),
            acc >= 1,
        decreases e - i,
    {
        proof {
            lemma_p10_unfold((i + 1) as nat);
        }
        match acc.checked_mul(10) {
            Some(v) => {
                acc = v;
            },
            None => {
                proof {
                    if p10(e as nat) <= u128::MAX {
                        if i + 1 < e {
                            lemma_pow_strictly_increases(10, (i + 1) as nat, e as nat);
                        }
                        assert(p10((i + 1) as nat) <= p10(e as nat));
                    }
                }
                return None;
            },
        }
        i = i + 1;
    }
    Some(acc)
}

/// A decimal equal to zero.
pub fn dec_zero() -> (r: Dec)
    ensures
        dec_wf(r),
        dec_num(r) == 0,
        r.scale == 0,
        !r.neg,
{
    Dec { neg: false, mant: 0, scale: 0 }
}

/// A decimal equal to one.
pub fn dec_one() -> (r: Dec)
    ensures
        dec_wf(r),
        dec_num(r) == 1,
        r.scale == 0,
        !r.neg,
{
    Dec { neg: false, mant: 1, scale: 0 }
}

/// The complement `1 - d` of a probability, kept at the same scale.
pub fn dec_complement(d: &Dec) -> (r: Dec)
    requires
        dec_wf(*d),
        dec_is_prob(*d),
    ensures
        dec_wf(r),
        r.scale == d.scale,
        !r.neg,
        dec_num(r) == p10(d.scale as nat) - dec_num(*d),
        dec_is_prob(r),
{
    proof {
        lemma_p10_pos(d.scale as nat);
        lemma_p10_le_max(d.scale as nat);
    }
    let full = pow10_u128(d.scale).unwrap();
    Dec { neg: false, mant: full - d.mant, scale: d.scale }
}

pub proof fn lemma_p10_le_max(e: nat)
    requires
        e <= 38,
    ensures
        p10(e) <= u128::MAX,
{
    lemma_p10_38();
    if e < 38 {
        lemma_pow_strictly_increases(10, e, 38);
    }
}

/// Powers of ten multiply by adding exponents.
pub proof fn lemma_p10_mul(a: nat, b: nat)
    ensures
        p10(a) * p10(b) == p10(a + b),
{
    lemma_pow_adds(10, a, b);
}

proof fn lemma_p10_38()
    ensures
        p10(38) == 100000000000000000000000000000000000000,
{
    reveal_with_fuel(pow, 40);
}

/// The same value with the opposite sign.
pub fn dec_flip(d: &Dec) -> (r: Dec)
    ensures
        r.scale == d.scale,
        r.mant == d.mant,
        r.neg == !d.neg,
        dec_num(r) == -dec_num(*d),
{
    Dec { neg: !d.neg, mant: d.mant, scale: d.scale }
}

/// Whether the sum of two aligned magnitudes overflows, as a spec condition.
pub open spec fn add_fits(a: Dec, b: Dec) -> bool {
    let s = if a.scale >= b.scale {
        a.scale
    } else {
        b.scale
    };
    &&& a.mant * p10((s - a.scale) as nat) <= u128::MAX
    &&& b.mant * p10((s - b.scale) as nat) <= u128::MAX
    &&& (a.neg == b.neg ==> a.mant * p10((s - a.scale) as nat) + b.mant * p10(
        (s - b.scale) as nat,
    ) <= u128::MAX)
}

/// Exact sum of two decimals, at the larger of the two scales.
pub fn dec_add(a: &Dec, b: &Dec) -> (r: Option<Dec>)
    requires
        dec_wf(*a),
        dec_wf(*b),
    ensures
        r matches Some(c) ==> {
            &&& dec_wf(c)
            &&& c.scale == if a.scale >= b.scale {
                a.scale
            } else {
                b.scale
            }
            &&& dec_num(c) == dec_num(*a) * p10((c.scale - a.scale) as nat) + dec_num(*b) * p10(
                (c.scale - b.scale) as nat,
            )
        },
        r is None <==> !add_fits(*a, *b),
{
    let s: u32 = if a.scale >= b.scale {
        a.scale
    } else {
        b.scale
    };
    proof {
        lemma_p10_le_max((s - a.scale) as nat);
        lemma_p10_le_max((s - b.scale) as nat);
    }
    let fa = pow10_u128(s - a.scale).unwrap();
    let fb = pow10_u128(s - b.scale).unwrap();
    let av = match a.mant.checked_mul(fa) {
        Some(v) => v,
        None => {
            return None;
        },
    };
    let bv = match b.mant.checked_mul(fb) {
        Some(v) => v,
        None => {
            return None;
        },
    };
    proof {
        let pa = p10((s - a.scale) as nat);
        let pb = p10((s - b.scale) as nat);
        assert(dec_num(*a) * pa == (if a.neg {
            -(av as int)
        } else {
            av as int
        })) by (nonlinear_arith)
            requires
                av == a.mant * pa,
                dec_num(*a) == (if a.neg {
                    -(a.mant as int)
                } else {
                    a.mant as int
                }),
        ;
        assert(dec_num(*b) * pb == (if b.neg {
            -(bv as int)
        } else {
            bv as int
        })) by (nonlinear_arith)
            requires
                bv == b.mant * pb,
                dec_num(*b) == (if b.neg {
                    -(b.mant as int)
                } else {
                    b.mant as int
                }),
        ;
    }
    if a.neg == b.neg {
        match av.checked_add(bv) {
            Some(m) => Some(Dec { neg: a.neg, mant: m, scale: s }),
            None => None,
        }
    } else if av >= bv {
        Some(Dec { neg: a.neg, mant: av - bv, scale: s })
    } else {
        Some(Dec { neg: b.neg, mant: bv - av, scale: s })
    }
}

/// Exact difference `a - b` of two decimals.
pub fn dec_sub(a: &Dec, b: &Dec) -> (r: Option<Dec>)
    requires
        dec_wf(*a),
        dec_wf(*b),
    ensures
        r matches Some(c) ==> {
            &&& dec_wf(c)
            &&& c.scale == if a.scale >= b.scale {
                a.scale
            } else {
                b.scale
            }
            &&& dec_num(c) == dec_num(*a) * p10((c.scale - a.scale) as nat) - dec_num(*b) * p10(
                (c.scale - b.scale) as nat,
            )
        },
        r is None <==> !add_fits(*a, Dec { neg: !b.neg, mant: b.mant, scale: b.scale }),
{
    let nb = dec_flip(b);
    let r = dec_add(a, &nb);
    proof {
        if r is Some {
            let c = r->Some_0;
            let pb = p10((c.scale - b.scale) as nat);
            assert(dec_num(nb) * pb == -(dec_num(*b) * pb)) by (nonlinear_arith)
                requires
                    dec_num(nb) == -dec_num(*b),
            ;
        }
    }
    r
}

/// Exact product of two decimals; the scales add up.
pub fn dec_mul(a: &Dec, b: &Dec) -> (r: Option<Dec>)
    requires
        dec_wf(*a),
        dec_wf(*b),
    ensures
        r matches Some(c) ==> {
            &&& dec_wf(c)
            &&& c.scale == a.scale + b.scale
            &&& dec_num(c) == dec_num(*a) * dec_num(*b)
            &&& c.mant == a.mant * b.mant
            &&& c.neg == (a.neg != b.neg)
        },
        r is None <==> (a.mant * b.mant > u128::MAX || a.scale + b.scale > MAX_SCALE),
{
    if a.scale + b.scale > MAX_SCALE {
        return None;
    }
    match a.mant.checked_mul(b.mant) {
        Some(m) => {
            let c = Dec { neg: a.neg != b.neg, mant: m, scale: a.scale + b.scale };
            proof {
                assert(dec_num(c) == dec_num(*a) * dec_num(*b)) by (nonlinear_arith)
                    requires
                        c.mant == a.mant * b.mant,
                        c.neg == (a.neg != b.neg),
                        dec_num(c) == if c.neg {
                            -(c.mant as int)
                        } else {
                            c.mant as int
                        },
                        dec_num(*a) == if a.neg {
                            -(a.mant as int)
                        } else {
                            a.mant as int
                        },
                        dec_num(*b) == if b.neg {
                            -(b.mant as int)
                        } else {
                            b.mant as int
                        },
                ;
            }
            Some(c)
        },
        None => None,
    }
}

/// Exact half of a decimal: one more fractional digit, five times the mantissa.
pub fn dec_half(d: &Dec) -> (r: Option<Dec>)
    requires
        dec_wf(*d),
    ensures
        r matches Some(c) ==> {
            &&& dec_wf(c)
            &&& c.scale == d.scale + 1
            &&& dec_num(c) == 5 * dec_num(*d)
            &&& c.mant == 5 * d.mant
            &&& c.neg == d.neg
        },
        r is None <==> (5 * d.mant > u128::MAX || d.scale + 1 > MAX_SCALE),
{
    if d.scale + 1 > MAX_SCALE {
        return None;
    }
    match d.mant.checked_mul(5) {
        Some(m) => Some(Dec { neg: d.neg, mant: m, scale: d.scale + 1 }),
        None => None,
    }
}

/// A run of zero characters.
pub open spec fn zeros(n: nat) -> Seq<char>
    decreases n,
{
    if n == 0 {
        Seq::empty()
    } else {
        zeros((n - 1) as nat) + seq!['0']
    }
}

/// The fractional digits of a decimal, left-padded with zeros to the scale.
pub open spec fn pad_frac(fp: nat, s: nat) -> Seq<char> {
    zeros((s - nat_str(fp).len()) as nat) + nat_str(fp)
}

/// The canonical text of a decimal: optional sign, integer digits, and, for a
/// positive scale, a point followed by exactly `scale` fractional digits.
pub open spec fn dec_str(d: Dec) -> Seq<char> {
    let sign: Seq<char> = if d.neg && d.mant != 0 {
        seq!['-']
    } else {
        Seq::empty()
    };
    if d.scale == 0 {
        sign + nat_str(d.mant as nat)
    } else {
        sign + nat_str((d.mant as nat) / (p10(d.scale as nat) as nat)) + seq!['.'] + pad_frac(
            (d.mant as nat) % (p10(d.scale as nat) as nat),
            d.scale as nat,
        )
    }
}

proof fn lemma_nat_str_len(m: nat, k: nat)
    requires
        k >= 1,
        m < p10(k),
    ensures
        nat_str(m).len() <= k,
    decreases k,
{
    lemma_p10_pos(k);
    if m < 10 {
        assert(nat_str(m).len() == 1);
    } else {
        lemma_p10_unfold(k);
        assert(m / 10 < p10((k - 1) as nat));
        assert(k - 1 >= 1) by {
            if k == 1 {
                assert(p10(1) == 10) by {
                    reveal_with_fuel(pow, 2);
                }
            }
        }
        lemma_nat_str_len(m / 10, (k - 1) as nat);
    }
}

proof fn lemma_zeros_len(n: nat)
    ensures
        zeros(n).len() == n,
    decreases n,
{
    if n > 0 {
        lemma_zeros_len((n - 1) as nat);
    }
}

/// Appends the canonical text of a decimal to `out`.
pub fn dec_push(out: &mut Vec<char>, d: &Dec)
    requires
        dec_wf(*d),
    ensures
        final(out)@ == old(out)@ + dec_str(*d),
{
    if d.neg && d.mant != 0 {
        out.push('-');
    }
    if d.scale == 0 {
        push_u128(out, d.mant);
    } else {
        proof {
            lemma_p10_pos(d.scale as nat);
            lemma_p10_le_max(d.scale as nat);
        }
        let pw = pow10_u128(d.scale).unwrap();
        let ip = d.mant / pw;
        let fp = d.mant % pw;
        push_u128(out, ip);
        out.push('.');
        let mut fd: Vec<char> = Vec::new();
        push_u128(&mut fd, fp);
        proof {
            lemma_nat_str_len(fp as nat, d.scale as nat);
        }
        let mut z: usize = (d.scale as usize) - fd.len();
        let ghost mid = out@;
        proof {
            lemma_zeros_len((z) as nat);
            assert(zeros(0nat) =~= Seq::<char>::empty());
        }
        let ghost ztotal = z;
        while z > 0
            invariant
                z <= ztotal,
                out@ == mid + zeros((ztotal - z) as nat),
            decreases z,
        {
            out.push('0');
            proof {
                lemma_zeros_len((ztotal - z + 1) as nat);
                assert(zeros((ztotal - z + 1) as nat) =~= zeros((ztotal - z) as nat) + seq!['0']);
            }
            z = z - 1;
        }
        push_all(out, &fd);
        proof {
            lemma_zeros_len(ztotal as nat);
            assert(out@ =~= old(out)@ + dec_str(*d));
        }
    }
}

/// The largest divisor the digit-by-digit division loop accepts.
pub const DIV_LIMIT: u128 = 34028236692093846346337460743176821144;

/// Whether a character is a decimal digit.
pub open spec fn is_digit(c: char) -> bool {
    '0' <= c && c <= '9'
}

/// The numeric value of a digit character.
pub open spec fn digit_val(c: char) -> nat {
    (c as nat - '0' as nat) as nat
}

/// The numeric value of a run of digit characters, most significant first.
pub open spec fn val_chars(s: Seq<char>) -> nat
    decreases s.len(),
{
    if s.len() == 0 {
        0
    } else {
        val_chars(s.drop_last()) * 10 + digit_val(s.last())
    }
}

proof fn lemma_nat_str_val(n: nat)
    ensures
        val_chars(nat_str(n)) == n,
        forall|i: int| 0 <= i < nat_str(n).len() ==> is_digit(#[trigger] nat_str(n)[i]),
    decreases n,
{
    if n < 10 {
        assert(nat_str(n) == seq![digit_char(n)]);
        assert(nat_str(n).drop_last() =~= Seq::<char>::empty());
        assert(val_chars(Seq::<char>::empty()) == 0);
        lemma_digit_roundtrip(n);
        assert(val_chars(nat_str(n)) == 0 * 10 + digit_val(digit_char(n)));
    } else {
        lemma_nat_str_val(n / 10);
        lemma_digit_roundtrip(n % 10);
        assert(nat_str(n).drop_last() =~= nat_str(n / 10));
        assert(nat_str(n).last() == digit_char(n % 10));
    }
}

proof fn lemma_digit_roundtrip(d: nat)
    requires
        d < 10,
    ensures
        digit_val(digit_char(d)) == d,
{
    if d == 0 {
        assert(digit_val('0') == 0);
    } else if d == 1 {
        assert(digit_val('1') == 1);
    } else if d == 2 {
        assert(digit_val('2') == 2);
    } else if d == 3 {
        assert(digit_val('3') == 3);
    } else if d == 4 {
        assert(digit_val('4') == 4);
    } else if d == 5 {
        assert(digit_val('5') == 5);
    } else if d == 6 {
        assert(digit_val('6') == 6);
    } else if d == 7 {
        assert(digit_val('7') == 7);
    } else if d == 8 {
        assert(digit_val('8') == 8);
    } else {
        assert(digit_val('9') == 9);
    }
}

/// The numeric value of a digit character.
pub fn digit_val_exec(c: char) -> (d: u8)
    requires
        is_digit(c),
    ensures
        d == digit_val(c),
        d < 10,
{
    (c as u8) - 48
}

/// Divides `n * 10^t` by `d`, digit by digit.
fn div_digits(n: u128, t: u32, d: u128) -> (r: Option<u128>)
    requires
        1 <= d <= DIV_LIMIT,
        t <= 72,
    ensures
        r matches Some(q) ==> q == (n * p10(t as nat)) / (d as int),
        r is None <==> (n * p10(t as nat)) / (d as int) > u128::MAX,
{
    let mut ds: Vec<char> = Vec::new();
    push_u128(&mut ds, n);
    proof {
        lemma_nat_str_val(n as nat);
        lemma_nat_str_len_upper(n as nat);
    }
    let mut q: u128 = 0;
    let mut rem: u128 = 0;
    let ghost mut pval: int = 0;
    let mut i: usize = 0;
    proof {
        reveal(pow);
        assert(p10(0) == 1);
    }
    let total: usize = ds.len() + (t as usize);
    while i < total
        invariant
            1 <= d <= DIV_LIMIT,
            ds@ == nat_str(n as nat),
            total == ds@.len() + t,
            i <= total,
            pval == if i <= ds@.len() {
                val_chars(ds@.subrange(0, i as int)) as int
            } else {
                (n as int) * p10((i - ds@.len()) as nat)
            },
            pval >= 0,
            rem < d,
            q == pval / (d as int),
            rem == pval % (d as int),
            forall|j: int| 0 <= j < ds@.len() ==> is_digit(#[trigger] ds@[j]),
        decreases total - i,
    {
        let dg: u128 = if i < ds.len() {
            digit_val_exec(ds[i]) as u128
        } else {
            0
        };
        let top = rem * 10 + dg;
        let qd = top / d;
        let newrem = top % d;
        let ghost newpval = pval * 10 + dg;
        proof {
            vstd::arithmetic::div_mod::lemma_fundamental_div_mod(pval, d as int);
            assert(newpval == (10 * q) * (d as int) + top) by (nonlinear_arith)
                requires
                    pval == q * (d as int) + rem,
                    newpval == pval * 10 + dg,
                    top == rem * 10 + dg,
            ;
            vstd::arithmetic::div_mod::lemma_fundamental_div_mod(top as int, d as int);
            assert(newpval == (10 * q + qd) * (d as int) + newrem) by (nonlinear_arith)
                requires
                    newpval == (10 * q) * (d as int) + top,
                    top == qd * d + newrem,
            ;
            vstd::arithmetic::div_mod::lemma_fundamental_div_mod_converse(
                newpval,
                d as int,
                (10 * q + qd) as int,
                newrem as int,
            );
            if i + 1 <= ds@.len() {
                assert(ds@.subrange(0, i as int) =~= ds@.subrange(0, i + 1).drop_last());
                assert(val_chars(ds@.subrange(0, i + 1)) == val_chars(ds@.subrange(0, i as int))
                    * 10 + digit_val(ds@[i as int]));
            } else {
                if i == ds@.len() {
                    assert(ds@.subrange(0, i as int) =~= ds@);
                    lemma_nat_str_val(n as nat);
                    assert(pval == n as int);
                    assert(newpval == (n as int) * 10);
                    reveal(pow);
                    lemma_p10_unfold(1);
                    assert(p10(1) == 10);
                } else {
                    lemma_p10_unfold((i + 1 - ds@.len()) as nat);
                    assert(newpval == (n as int) * (p10((i - ds@.len()) as nat) * 10) + 0)
                        by (nonlinear_arith)
                        requires
                            newpval == ((n as int) * p10((i - ds@.len()) as nat)) * 10 + 0,
                    ;
                }
            }
        }
        let newq = match q.checked_mul(10) {
            Some(v) => match v.checked_add(qd) {
                Some(w) => w,
                None => {
                    proof {
                        lemma_div_digits_grows(n as nat, ds@, i as int, t as nat, newpval);
                        vstd::arithmetic::div_mod::lemma_div_is_ordered(
                            newpval,
                            (n as int) * p10(t as nat),
                            d as int,
                        );
                    }
                    return None;
                },
            },
            None => {
                proof {
                    lemma_div_digits_grows(n as nat, ds@, i as int, t as nat, newpval);
                    vstd::arithmetic::div_mod::lemma_div_is_ordered(
                        newpval,
                        (n as int) * p10(t as nat),
                        d as int,
                    );
                }
                return None;
            },
        };
        q = newq;
        rem = newrem;
        proof {
            pval = newpval;
        }
        i = i + 1;
    }
    proof {
        if t == 0 {
            assert(ds@.subrange(0, ds@.len() as int) =~= ds@);
            assert(pval == n as int);
        }
        assert(pval == (n as int) * p10(t as nat));
    }
    Some(q)
}

proof fn lemma_nat_str_len_upper(n: nat)
    requires
        n <= u128::MAX,
    ensures
        nat_str(n).len() <= 39,
{
    lemma_p10_38();
    lemma_p10_unfold(39);
    assert(p10(39) == 10 * p10(38));
    assert(n < p10(39));
    lemma_nat_str_len(n, 39);
}

/// The value so far never exceeds the final value of the division scan.
proof fn lemma_div_digits_grows(n: nat, ds: Seq<char>, i: int, t: nat, newpval: int)
    requires
        ds == nat_str(n),
        0 <= i < ds.len() + t,
        newpval == if i + 1 <= ds.len() {
            val_chars(ds.subrange(0, i + 1)) as int
        } else {
            (n as int) * p10((i + 1 - ds.len()) as nat)
        },
    ensures
        newpval <= n * p10(t),
{
    lemma_nat_str_val(n);
    lemma_p10_pos(t);
    if i + 1 <= ds.len() {
        lemma_val_chars_prefix(ds, i + 1);
        assert(val_chars(ds) == n);
        assert(newpval <= n);
        assert((n as int) * 1 <= (n as int) * p10(t)) by (nonlinear_arith)
            requires
                p10(t) >= 1,
                n >= 0,
        ;
    } else {
        let k = (i + 1 - ds.len()) as nat;
        assert(k <= t);
        if k < t {
            lemma_pow_strictly_increases(10, k, t);
        }
        assert((n as int) * p10(k) <= (n as int) * p10(t)) by (nonlinear_arith)
            requires
                p10(k) <= p10(t),
                n >= 0,
        ;
    }
}

/// The value of a digit prefix is at most the value of the whole run.
proof fn lemma_val_chars_prefix(ds: Seq<char>, i: int)
    requires
        0 <= i <= ds.len(),
    ensures
        val_chars(ds.subrange(0, i)) <= val_chars(ds),
    decreases ds.len() - i,
{
    if i == ds.len() {
        assert(ds.subrange(0, i) =~= ds);
    } else {
        lemma_val_chars_prefix(ds, i + 1);
        assert(ds.subrange(0, i) =~= ds.subrange(0, i + 1).drop_last());
        assert(val_chars(ds.subrange(0, i + 1)) == val_chars(ds.subrange(0, i)) * 10 + digit_val(
            ds.subrange(0, i + 1).last(),
        ));
    }
}

/// Quotient of two decimals, truncated to `prec` fractional digits.
pub fn dec_div(a: &Dec, b: &Dec, prec: u32) -> (r: Option<Dec>)
    requires
        dec_wf(*a),
        dec_wf(*b),
        prec <= MAX_SCALE,
    ensures
        r matches Some(c) ==> {
            &&& dec_wf(c)
            &&& c.scale == prec
            &&& c.neg == (a.neg != b.neg)
            &&& c.mant == ((a.mant * p10((b.scale + prec) as nat)) as int) / ((b.mant * p10(
                a.scale as nat,
            )) as int)
        },
        r is None <==> (b.mant == 0 || (b.scale + prec > a.scale && b.mant > DIV_LIMIT) || (
        b.mant >= 1 && ((a.mant * p10((b.scale + prec) as nat)) as int) / ((b.mant * p10(
            a.scale as nat,
        )) as int) > u128::MAX)),
{
    if b.mant == 0 {
        return None;
    }
    let en: u32 = b.scale + prec;
    let ed: u32 = a.scale;
    let ghost nn = (a.mant * p10(en as nat)) as int;
    let ghost dd = (b.mant * p10(ed as nat)) as int;
    proof {
        lemma_p10_pos(en as nat);
        lemma_p10_pos(ed as nat);
        assert(dd >= 1) by (nonlinear_arith)
            requires
                dd == b.mant * p10(ed as nat),
                b.mant >= 1,
                p10(ed as nat) >= 1,
        ;
    }
    if en > ed {
        if b.mant > DIV_LIMIT {
            return None;
        }
        let q = div_digits(a.mant, en - ed, b.mant);
        proof {
            lemma_pow_adds(10, (en - ed) as nat, ed as nat);
            assert(nn == (a.mant * p10((en - ed) as nat)) * p10(ed as nat)) by (nonlinear_arith)
                requires
                    nn == a.mant * (p10((en - ed) as nat) * p10(ed as nat)),
            ;
            lemma_p10_pos((en - ed) as nat);
            assert(a.mant * p10((en - ed) as nat) >= 0) by (nonlinear_arith)
                requires
                    a.mant >= 0,
                    p10((en - ed) as nat) >= 1,
            ;
            lemma_mul_div_cancel(
                (a.mant * p10((en - ed) as nat)) as int,
                b.mant as int,
                p10(ed as nat),
            );
        }
        match q {
            Some(m) => Some(Dec { neg: a.neg != b.neg, mant: m, scale: prec }),
            None => None,
        }
    } else {
        proof {
            lemma_p10_le_max((ed - en) as nat);
        }
        let shift = pow10_u128(ed - en).unwrap();
        match b.mant.checked_mul(shift) {
            Some(d2) => {
                proof {
                    lemma_p10_pos((ed - en) as nat);
                    assert(d2 >= 1) by (nonlinear_arith)
                        requires
                            d2 == b.mant * p10((ed - en) as nat),
                            b.mant >= 1,
                            p10((ed - en) as nat) >= 1,
                    ;
                }
                let m = a.mant / d2;
                proof {
                    lemma_pow_adds(10, (ed - en) as nat, en as nat);
                    assert(dd == (b.mant * p10((ed - en) as nat)) * p10(en as nat))
                        by (nonlinear_arith)
                        requires
                            dd == b.mant * (p10((ed - en) as nat) * p10(en as nat)),
                    ;
                    lemma_mul_div_cancel(a.mant as int, d2 as int, p10(en as nat));
                    vstd::arithmetic::div_mod::lemma_div_is_ordered(
                        a.mant as int,
                        u128::MAX as int,
                        d2 as int,
                    );
                }
                Some(Dec { neg: a.neg != b.neg, mant: m, scale: prec })
            },
            None => {
                // the divisor exceeds every representable numerator: quotient zero
                proof {
                    lemma_pow_adds(10, (ed - en) as nat, en as nat);
                    assert(dd == (b.mant * p10((ed - en) as nat)) * p10(en as nat))
                        by (nonlinear_arith)
                        requires
                            dd == b.mant * (p10((ed - en) as nat) * p10(en as nat)),
                    ;
                    assert(nn < dd) by (nonlinear_arith)
                        requires
                            nn == a.mant * p10(en as nat),
                            dd == (b.mant * p10((ed - en) as nat)) * p10(en as nat),
                            b.mant * p10((ed - en) as nat) > u128::MAX,
                            a.mant <= u128::MAX,
                            p10(en as nat) >= 1,
                    ;
                    vstd::arithmetic::div_mod::lemma_basic_div(nn, dd);
                }
                Some(Dec { neg: a.neg != b.neg, mant: 0, scale: prec })
            },
        }
    }
}

/// For a positive common factor, `(x*m) / (y*m) == x / y`.
proof fn lemma_mul_div_cancel(x: int, y: int, m: int)
    requires
        x >= 0,
        y >= 1,
        m >= 1,
    ensures
        (x * m) / (y * m) == x / y,
{
    vstd::arithmetic::div_mod::lemma_fundamental_div_mod(x, y);
    let q = x / y;
    let r = x % y;
    assert(x * m == q * (y * m) + r * m) by (nonlinear_arith)
        requires
            x == y * q + r,
    ;
    assert(0 <= r * m < y * m) by (nonlinear_arith)
        requires
            0 <= r < y,
            m >= 1,
    ;
    assert(y * m >= 1) by (nonlinear_arith)
        requires
            y >= 1,
            m >= 1,
    ;
    vstd::arithmetic::div_mod::lemma_fundamental_div_mod_converse(x * m, y * m, q, r * m);
}

/// Largest exponent magnitude a parsed decimal token may carry.
pub const EXP_LIMIT: u64 = 1000;

/// Whether a character introduces an exponent.
pub open spec fn is_e_char(c: char) -> bool {
    c == 'e' || c == 'E'
}

/// Index of the first exponent marker, or the length when there is none.
pub open spec fn find_e(s: Seq<char>) -> int
    decreases s.len(),
{
    if s.len() == 0 {
        0
    } else if is_e_char(s[0]) {
        0
    } else {
        1 + find_e(s.drop_first())
    }
}

/// Index of the first decimal point, or the length when there is none.
pub open spec fn find_dot(s: Seq<char>) -> int
    decreases s.len(),
{
    if s.len() == 0 {
        0
    } else if s[0] == '.' {
        0
    } else {
        1 + find_dot(s.drop_first())
    }
}

/// The sequence with one leading sign character removed.
pub open spec fn strip_sign(s: Seq<char>) -> Seq<char> {
    if s.len() > 0 && (s[0] == '+' || s[0] == '-') {
        s.drop_first()
    } else {
        s
    }
}

/// Whether the sequence starts with a minus sign.
pub open spec fn neg_sign(s: Seq<char>) -> bool {
    s.len() > 0 && s[0] == '-'
}

/// Every character is a decimal digit.
pub open spec fn all_digits(s: Seq<char>) -> bool {
    forall|i: int| 0 <= i < s.len() ==> is_digit(#[trigger] s[i])
}

/// The mantissa of a decimal token, sign removed.
pub open spec fn mant_part(s: Seq<char>) -> Seq<char> {
    strip_sign(s.subrange(0, find_e(s)))
}

/// The digits before the decimal point.
pub open spec fn int_part(s: Seq<char>) -> Seq<char> {
    let m = mant_part(s);
    m.subrange(0, find_dot(m))
}

/// The digits after the decimal point.
pub open spec fn frac_part(s: Seq<char>) -> Seq<char> {
    let m = mant_part(s);
    if find_dot(m) == m.len() {
        Seq::empty()
    } else {
        m.subrange(find_dot(m) + 1, m.len() as int)
    }
}

/// All mantissa digits, the decimal point removed.
pub open spec fn mant_digits(s: Seq<char>) -> Seq<char> {
    int_part(s) + frac_part(s)
}

/// The exponent of a decimal token, with its sign, empty when absent.
pub open spec fn exp_part(s: Seq<char>) -> Seq<char> {
    if find_e(s) == s.len() {
        Seq::empty()
    } else {
        s.subrange(find_e(s) + 1, s.len() as int)
    }
}

/// The signed exponent value; zero when the token has no exponent.
pub open spec fn exp_val(s: Seq<char>) -> int {
    let x = exp_part(s);
    if neg_sign(x) {
        -(val_chars(strip_sign(x)) as int)
    } else {
        val_chars(strip_sign(x)) as int
    }
}

/// The token matches the decimal grammar: an optional sign, digits with at
/// most one point and at least one digit, and an optional signed exponent.
pub open spec fn dec_token_valid(s: Seq<char>) -> bool {
    &&& all_digits(int_part(s))
    &&& all_digits(frac_part(s))
    &&& mant_digits(s).len() >= 1
    &&& (find_e(s) == s.len() || {
        let x = strip_sign(exp_part(s));
        all_digits(x) && x.len() >= 1
    })
}

/// The digit value of the mantissa.
pub open spec fn dec_token_d(s: Seq<char>) -> nat {
    val_chars(mant_digits(s))
}

/// The number of fractional digits the token denotes, negative when the
/// exponent moves the point past the last digit.
pub open spec fn dec_token_scale(s: Seq<char>) -> int {
    frac_part(s).len() - exp_val(s)
}

/// The decimal a valid, representable token denotes.
pub open spec fn dec_token_value(s: Seq<char>) -> Dec {
    let neg = neg_sign(s.subrange(0, find_e(s)));
    let sc = dec_token_scale(s);
    if sc <= 0 {
        Dec { neg, mant: (dec_token_d(s) * p10((-sc) as nat)) as u128, scale: 0 }
    } else {
        Dec { neg, mant: dec_token_d(s) as u128, scale: sc as u32 }
    }
}

/// The token's value stays within the supported mantissa and scale range.
pub open spec fn dec_token_fits(s: Seq<char>) -> bool {
    &&& dec_token_d(s) <= u128::MAX
    &&& -(EXP_LIMIT as int) <= exp_val(s) <= EXP_LIMIT as int
    &&& if dec_token_scale(s) <= 0 {
        dec_token_d(s) * p10((-dec_token_scale(s)) as nat) <= u128::MAX
    } else {
        dec_token_scale(s) <= MAX_SCALE
    }
}

proof fn lemma_find_e_props(s: Seq<char>)
    ensures
        0 <= find_e(s) <= s.len(),
        find_e(s) < s.len() ==> is_e_char(s[find_e(s)]),
        forall|j: int| 0 <= j < find_e(s) ==> !is_e_char(#[trigger] s[j]),
    decreases s.len(),
{
    if s.len() > 0 && !is_e_char(s[0]) {
        lemma_find_e_props(s.drop_first());
        assert forall|j: int| 0 <= j < find_e(s) implies !is_e_char(#[trigger] s[j]) by {
            if j > 0 {
                assert(!is_e_char(s.drop_first()[j - 1]));
            }
        }
    }
}

proof fn lemma_find_dot_props(s: Seq<char>)
    ensures
        0 <= find_dot(s) <= s.len(),
        find_dot(s) < s.len() ==> s[find_dot(s)] == '.',
        forall|j: int| 0 <= j < find_dot(s) ==> #[trigger] s[j] != '.',
    decreases s.len(),
{
    if s.len() > 0 && s[0] != '.' {
        lemma_find_dot_props(s.drop_first());
        assert forall|j: int| 0 <= j < find_dot(s) implies #[trigger] s[j] != '.' by {
            if j > 0 {
                assert(s.drop_first()[j - 1] != '.');
            }
        }
    }
}

/// Folds the digits into a value, reporting overflow exactly.
fn fold_digits(digs: &Vec<char>) -> (r: Option<u128>)
    requires
        forall|j: int| 0 <= j < digs@.len() ==> is_digit(#[trigger] digs@[j]),
    ensures
        r matches Some(v) ==> v == val_chars(digs@),
        r is None <==> val_chars(digs@) > u128::MAX,
{
    let mut v: u128 = 0;
    let mut i: usize = 0;
    while i < digs.len()
        invariant
            i <= digs@.len(),
            forall|j: int| 0 <= j < digs@.len() ==> is_digit(#[trigger] digs@[j]),
            v == val_chars(digs@.subrange(0, i as int)),
        decreases digs@.len() - i,
    {
        let d = digit_val_exec(digs[i]);
        proof {
            assert(digs@.subrange(0, i as int) =~= digs@.subrange(0, i + 1).drop_last());
            assert(val_chars(digs@.subrange(0, i + 1)) == val_chars(digs@.subrange(0, i as int))
                * 10 + digit_val(digs@[i as int]));
            lemma_val_chars_prefix(digs@, i + 1);
        }
        match v.checked_mul(10) {
            Some(w) => match w.checked_add(d as u128) {
                Some(x) => {
                    v = x;
                },
                None => {
                    return None;
                },
            },
            None => {
                return None;
            },
        }
        i = i + 1;
    }
    proof {
        assert(digs@.subrange(0, digs@.len() as int) =~= digs@);
    }
    Some(v)
}

/// Collects the mantissa digits between `mstart` and `ei`, skipping the
/// point at `di`; fails exactly when a non-digit stands among them.
fn collect_mant(s: &Vec<char>, mstart: usize, di: usize, ei: usize) -> (r: Option<Vec<char>>)
    requires
        mstart <= di <= ei <= s@.len(),
        int_part(s@) == s@.subrange(mstart as int, di as int),
        di < ei ==> frac_part(s@) == s@.subrange(di + 1, ei as int),
        di == ei ==> frac_part(s@) == Seq::<char>::empty(),
    ensures
        r matches Some(digs) ==> {
            &&& digs@ == mant_digits(s@)
            &&& all_digits(digs@)
            &&& all_digits(int_part(s@))
            &&& all_digits(frac_part(s@))
        },
        r is None <==> !(all_digits(int_part(s@)) && all_digits(frac_part(s@))),
{
    let mut digs: Vec<char> = Vec::new();
    let mut j: usize = mstart;
    while j < di
        invariant
            mstart <= j <= di <= ei <= s@.len(),
            digs@ == s@.subrange(mstart as int, j as int),
            forall|k: int| 0 <= k < digs@.len() ==> is_digit(#[trigger] digs@[k]),
            int_part(s@) == s@.subrange(mstart as int, di as int),
        decreases di - j,
    {
        let c = s[j];
        if !(c >= '0' && c <= '9') {
            proof {
                assert(!is_digit(int_part(s@)[j - mstart]));
            }
            return None;
        }
        digs.push(c);
        proof {
            assert(s@.subrange(mstart as int, j as int).push(s@[j as int]) =~= s@.subrange(
                mstart as int,
                j + 1,
            ));
        }
        j = j + 1;
    }
    let ghost ilen = digs@.len();
    proof {
        assert(digs@ == int_part(s@));
    }
    if di < ei {
        let mut j2: usize = di + 1;
        while j2 < ei
            invariant
                di + 1 <= j2 <= ei <= s@.len(),
                digs@ == int_part(s@) + s@.subrange(di + 1, j2 as int),
                forall|k: int| 0 <= k < digs@.len() ==> is_digit(#[trigger] digs@[k]),
                frac_part(s@) == s@.subrange(di + 1, ei as int),
                int_part(s@).len() == ilen,
            decreases ei - j2,
        {
            let c = s[j2];
            if !(c >= '0' && c <= '9') {
                proof {
                    assert(!is_digit(frac_part(s@)[j2 - (di + 1)]));
                }
                return None;
            }
            digs.push(c);
            proof {
                assert((int_part(s@) + s@.subrange(di + 1, j2 as int)).push(s@[j2 as int])
                    =~= int_part(s@) + s@.subrange(di + 1, j2 + 1));
            }
            j2 = j2 + 1;
        }
    }
    proof {
        assert(digs@ =~= mant_digits(s@));
        assert forall|i: int| 0 <= i < int_part(s@).len() implies is_digit(
            #[trigger] int_part(s@)[i],
        ) by {
            assert(int_part(s@)[i] == digs@[i]);
        }
        assert forall|i: int| 0 <= i < frac_part(s@).len() implies is_digit(
            #[trigger] frac_part(s@)[i],
        ) by {
            assert(frac_part(s@)[i] == digs@[int_part(s@).len() + i]);
        }
        assert(all_digits(int_part(s@)));
        assert(all_digits(frac_part(s@)));
    }
    Some(digs)
}

/// Scans the exponent digits after the marker at `ei`.
fn scan_exponent(s: &Vec<char>, ei: usize) -> (r: Option<(bool, u64)>)
    requires
        ei == find_e(s@),
        ei < s@.len(),
    ensures
        r matches Some(p) ==> {
            let x = strip_sign(exp_part(s@));
            &&& all_digits(x)
            &&& x.len() >= 1
            &&& p.1 == val_chars(x)
            &&& p.1 <= 1000
            &&& p.0 == neg_sign(exp_part(s@))
        },
        r is None <==> {
            let x = strip_sign(exp_part(s@));
            !(all_digits(x) && x.len() >= 1 && val_chars(x) <= 1000)
        },
{
    let ghost x = exp_part(s@);
    proof {
        assert(x =~= s@.subrange(ei + 1, s@.len() as int));
    }
    let slen = s.len();
    proof {
        assert(ei < slen);
    }
    let mut k: usize = ei + 1;
    let mut eneg = false;
    if k < s.len() && (s[k] == '-' || s[k] == '+') {
        eneg = s[k] == '-';
        k = k + 1;
    }
    let ghost xd = strip_sign(x);
    proof {
        assert(xd =~= s@.subrange(k as int, s@.len() as int));
        assert(eneg == neg_sign(x));
    }
    if k == s.len() {
        // an exponent marker with no digits after it
        return None;
    }
    let mut ev: u64 = 0;
    let mut kk: usize = k;
    while kk < s.len()
        invariant
            k <= kk <= s@.len(),
            xd == s@.subrange(k as int, s@.len() as int),
            xd == strip_sign(exp_part(s@)),
            ev == val_chars(s@.subrange(k as int, kk as int)),
            ev <= 20000,
            forall|j: int| 0 <= j < kk - k ==> is_digit(#[trigger] xd[j]),
        decreases s@.len() - kk,
    {
        let c = s[kk];
        if !(c >= '0' && c <= '9') {
            proof {
                assert(!is_digit(xd[kk - k]));
            }
            return None;
        }
        let d = digit_val_exec(c);
        proof {
            assert(s@.subrange(k as int, kk as int) =~= s@.subrange(k as int, kk + 1).drop_last());
            assert(val_chars(s@.subrange(k as int, kk + 1)) == val_chars(s@.subrange(
                k as int,
                kk as int,
            )) * 10 + digit_val(s@[kk as int]));
            lemma_val_chars_seq_prefix(s@, k as int, kk + 1, s@.len() as int);
        }
        if ev > 1000 {
            // the exponent is already beyond every representable value
            proof {
                lemma_val_chars_seq_prefix(s@, k as int, kk as int, s@.len() as int);
            }
            return None;
        }
        ev = ev * 10 + (d as u64);
        kk = kk + 1;
    }
    proof {
        assert(s@.subrange(k as int, s@.len() as int) =~= xd);
    }
    if ev > 1000 {
        return None;
    }
    Some((eneg, ev))
}

/// Parses a decimal token, scientific notation included.  Returns the exact
/// value when the token matches the grammar and stays representable.
#[verifier::rlimit(60)]
pub fn parse_dec(s: &Vec<char>) -> (r: Option<Dec>)
    ensures
        r matches Some(d) ==> dec_token_valid(s@) && dec_token_fits(s@) && dec_wf(d) && d
            == dec_token_value(s@),
        r is None <==> !(dec_token_valid(s@) && dec_token_fits(s@)),
{
    proof {
        lemma_find_e_props(s@);
    }
    // locate the exponent marker
    let mut ei: usize = 0;
    while ei < s.len() && !(s[ei] == 'e' || s[ei] == 'E')
        invariant
            ei <= s@.len(),
            forall|j: int| 0 <= j < ei ==> !is_e_char(#[trigger] s@[j]),
        decreases s@.len() - ei,
    {
        ei = ei + 1;
    }
    proof {
        assert(ei == find_e(s@)) by {
            if ei < find_e(s@) {
                assert(is_e_char(s@[ei as int]));
            }
            if find_e(s@) < ei {
                assert(!is_e_char(s@[find_e(s@)]));
            }
        }
    }
    // sign of the mantissa
    let mut mstart: usize = 0;
    let mut neg = false;
    if ei > 0 && (s[0] == '-' || s[0] == '+') {
        neg = s[0] == '-';
        mstart = 1;
    }
    let ghost msub = s@.subrange(0, ei as int);
    let ghost m = mant_part(s@);
    proof {
        assert(m =~= s@.subrange(mstart as int, ei as int));
        assert(neg == neg_sign(msub));
        lemma_find_dot_props(m);
    }
    // locate the decimal point
    let mut di: usize = mstart;
    while di < ei && s[di] != '.'
        invariant
            mstart <= di <= ei,
            ei <= s@.len(),
            m == s@.subrange(mstart as int, ei as int),
            forall|j: int| mstart <= j < di ==> #[trigger] s@[j] != '.',
        decreases ei - di,
    {
        di = di + 1;
    }
    proof {
        assert(di - mstart == find_dot(m)) by {
            if di - mstart < find_dot(m) {
                assert(m[di - mstart] == s@[di as int]);
            }
            if find_dot(m) < di - mstart {
                assert(m[find_dot(m)] == s@[find_dot(m) + mstart]);
            }
        }
        assert(int_part(s@) =~= s@.subrange(mstart as int, di as int));
        if di == ei {
            assert(frac_part(s@) =~= Seq::<char>::empty());
        } else {
            assert(frac_part(s@) =~= s@.subrange(di + 1, ei as int));
        }
    }
    // collect the mantissa digits
    let digs = match collect_mant(s, mstart, di, ei) {
        Some(v) => v,
        None => {
            return None;
        },
    };
    if digs.len() == 0 {
        return None;
    }
    // the mantissa digits are valid; fold them
    let dval = match fold_digits(&digs) {
        Some(v) => v,
        None => {
            return None;
        },
    };
    // the exponent
    let mut ev: u64 = 0;
    let mut eneg = false;
    if ei < s.len() {
        match scan_exponent(s, ei) {
            Some(p) => {
                eneg = p.0;
                ev = p.1;
            },
            None => {
                return None;
            },
        }
    }
    let ghost ee = exp_val(s@);
    proof {
        if ei == s@.len() {
            assert(exp_part(s@) =~= Seq::<char>::empty());
            assert(strip_sign(exp_part(s@)) =~= Seq::<char>::empty());
            assert(ee == 0);
        } else {
            assert(ee == if eneg {
                -(ev as int)
            } else {
                ev as int
            });
        }
        assert(-1000 <= ee <= 1000);
    }
    // combine mantissa and exponent
    let fraclen: usize = if di < ei {
        ei - di - 1
    } else {
        0
    };
    proof {
        assert(fraclen == frac_part(s@).len());
    }
    let sc: i128 = (fraclen as i128) - (if eneg {
        -(ev as i128)
    } else {
        ev as i128
    });
    proof {
        assert(sc == dec_token_scale(s@));
    }
    if sc <= 0 {
        let k2: u32 = (-sc) as u32;
        if dval == 0 {
            proof {
                lemma_p10_pos(k2 as nat);
                assert(dec_token_d(s@) * p10((-dec_token_scale(s@)) as nat) == 0)
                    by (nonlinear_arith)
                    requires
                        dec_token_d(s@) == 0,
                ;
                assert(dec_token_value(s@) == Dec { neg, mant: 0, scale: 0 });
            }
            return Some(Dec { neg, mant: 0, scale: 0 });
        }
        let pw = match pow10_u128(k2) {
            Some(v) => v,
            None => {
                proof {
                    assert(dec_token_d(s@) * p10(k2 as nat) > u128::MAX) by (nonlinear_arith)
                        requires
                            dec_token_d(s@) >= 1,
                            p10(k2 as nat) > u128::MAX,
                    ;
                }
                return None;
            },
        };
        match dval.checked_mul(pw) {
            Some(mv) => Some(Dec { neg, mant: mv, scale: 0 }),
            None => None,
        }
    } else if sc > MAX_SCALE as i128 {
        None
    } else {
        Some(Dec { neg, mant: dval, scale: sc as u32 })
    }
}

/// The value of an inner digit prefix never exceeds the full run's value.
pub proof fn lemma_val_chars_seq_prefix(s: Seq<char>, k: int, mid: int, end: int)
    requires
        0 <= k <= mid <= end <= s.len(),
    ensures
        val_chars(s.subrange(k, mid)) <= val_chars(s.subrange(k, end)),
{
    lemma_val_chars_prefix(s.subrange(k, end), mid - k);
    assert(s.subrange(k, end).subrange(0, mid - k) =~= s.subrange(k, mid));
}

/// The token is a valid decimal and stays representable.
#[verifier::opaque]
pub open spec fn token_ok(t: Seq<char>) -> bool {
    dec_token_valid(t) && dec_token_fits(t)
}

/// The decimal is exactly the value the token denotes.
#[verifier::opaque]
pub open spec fn token_value_rel(t: Seq<char>, d: Dec) -> bool {
    dec_token_valid(t) && dec_token_fits(t) && dec_wf(d) && d == dec_token_value(t)
}

/// The token denotes a probability: a value between zero and one.
#[verifier::opaque]
pub open spec fn token_prob(t: Seq<char>) -> bool {
    dec_is_prob(dec_token_value(t))
}

/// The probability bound check: the value lies between zero and one.
pub fn dec_prob_ok(d: &Dec) -> (r: bool)
    requires
        dec_wf(*d),
    ensures
        r == dec_is_prob(*d),
{
    proof {
        lemma_p10_le_max(d.scale as nat);
    }
    let pw = pow10_u128(d.scale).unwrap();
    (!d.neg || d.mant == 0) && d.mant <= pw
}

/// Parses a decimal token; the contract is carried by the two opaque
/// predicates, which keeps callers' proof contexts small.
pub fn parse_dec_tok(s: &Vec<char>) -> (r: Option<Dec>)
    ensures
        r matches Some(d) ==> token_value_rel(s@, d) && token_ok(s@),
        r is None <==> !token_ok(s@),
{
    let r = parse_dec(s);
    proof {
        reveal(token_ok);
        reveal(token_value_rel);
        if r is Some {
            let d = r->Some_0;
            assert(dec_wf(d));
        }
    }
    r
}

/// The canonical text of a decimal as a string.
pub fn dec_to_string(d: &Dec) -> (r: String)
    requires
        dec_wf(*d),
    ensures
        r@ == dec_str(*d),
{
    let mut v: Vec<char> = Vec::new();
    dec_push(&mut v, d);
    crate::strutil::chars_to_string(&v)
}

} // verus!
