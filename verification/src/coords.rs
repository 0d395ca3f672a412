//! Fixed-point coordinates.
//!
//! A coordinate is held as a signed count of nanodegrees: one unit is
//! `10^-9` of a degree. A literal such as `1.5` or `1.0E1` is parsed into
//! this representation exactly; digits beyond the ninth fractional place
//! are truncated toward zero. The representable magnitude is capped at
//! `COORD_LIMIT` so that later arithmetic cannot overflow.

use vstd::prelude::*;

verus! {

/// Largest magnitude a coordinate may take, in nanodegrees: `10^28`.
pub const COORD_LIMIT: i128 = 10_000_000_000_000_000_000_000_000_000;

/// Absolute per-axis tolerance for two point geometries to count as equal,
/// in nanodegrees: one thousandth of a degree.
pub const TOLERANCE_NANO: i128 = 1_000_000;

/// Ten to the given power.
pub open spec fn pow10(n: nat) -> int
    decreases n,
{
    if n == 0 {
        1
    } else {
        10 * pow10((n - 1) as nat)
    }
}

pub proof fn lemma_pow10_pos(n: nat)
    ensures
        pow10(n) >= 1,
    decreases n,
{
    if n > 0 {
        lemma_pow10_pos((n - 1) as nat);
    }
}

pub proof fn lemma_pow10_add(a: nat, b: nat)
    ensures
        pow10(a + b) == pow10(a) * pow10(b),
    decreases a,
{
    if a == 0 {
    } else {
        lemma_pow10_add((a - 1) as nat, b);
        assert(pow10((a + b - 1) as nat) == pow10((a - 1) as nat) * pow10(b));
        assert(10 * (pow10((a - 1) as nat) * pow10(b)) == (10 * pow10((a - 1) as nat)) * pow10(b))
            by (nonlinear_arith);
    }
}

pub proof fn lemma_pow10_mono(a: nat, b: nat)
    requires
        a <= b,
    ensures
        pow10(a) <= pow10(b),
{
    lemma_pow10_add(a, (b - a) as nat);
    lemma_pow10_pos(a);
    lemma_pow10_pos((b - a) as nat);
    assert(pow10(a) * 1 <= pow10(a) * pow10((b - a) as nat)) by (nonlinear_arith)
        requires
            pow10(a) >= 1,
            pow10((b - a) as nat) >= 1,
    ;
}

/// Whether the character is a decimal digit.
pub open spec fn is_digit(c: char) -> bool {
    48 <= (c as u32) <= 57
}

/// Numeric value of a decimal digit character.
pub open spec fn digit_val(c: char) -> int {
    (c as u32) - 48
}

/// First position at or after `i` that does not hold a decimal digit.
pub open spec fn scan_digits(s: Seq<char>, i: int) -> int
    recommends
        0 <= i <= s.len(),
    decreases s.len() - i,
    when 0 <= i <= s.len()
{
    if i < s.len() && is_digit(s[i]) {
        scan_digits(s, i + 1)
    } else {
        i
    }
}

pub proof fn lemma_scan_digits_bounds(s: Seq<char>, i: int)
    requires
        0 <= i <= s.len(),
    ensures
        i <= scan_digits(s, i) <= s.len(),
        forall|j: int| i <= j < scan_digits(s, i) ==> is_digit(s[j]),
    decreases s.len() - i,
{
    if i < s.len() && is_digit(s[i]) {
        lemma_scan_digits_bounds(s, i + 1);
    }
}

/// Value of the decimal digit run `s[i..j)`, most significant digit first.
pub open spec fn digits_val(s: Seq<char>, i: int, j: int) -> int
    recommends
        0 <= i <= j <= s.len(),
    decreases j - i,
    when i <= j
{
    if j <= i {
        0
    } else {
        digits_val(s, i, j - 1) * 10 + digit_val(s[j - 1])
    }
}

/// Position where the optional leading sign ends.
pub open spec fn sign_start(s: Seq<char>) -> int {
    if s.len() > 0 && (s[0] == '+' || s[0] == '-') {
        1
    } else {
        0
    }
}

/// Whether the literal carries a leading minus sign.
pub open spec fn is_neg(s: Seq<char>) -> bool {
    s.len() > 0 && s[0] == '-'
}

/// End of the run of integer-part digits.
pub open spec fn int_end(s: Seq<char>) -> int {
    scan_digits(s, sign_start(s))
}

/// Start of the run of fractional digits, after an optional point.
pub open spec fn frac_start(s: Seq<char>) -> int {
    if int_end(s) < s.len() && s[int_end(s)] == '.' {
        int_end(s) + 1
    } else {
        int_end(s)
    }
}

/// End of the run of fractional digits.
pub open spec fn frac_end(s: Seq<char>) -> int {
    scan_digits(s, frac_start(s))
}

/// Whether an exponent marker follows the mantissa.
pub open spec fn has_exp(s: Seq<char>) -> bool {
    frac_end(s) < s.len() && (s[frac_end(s)] == 'e' || s[frac_end(s)] == 'E')
}

/// Start of the exponent digits, after an optional sign.
pub open spec fn exp_digits_start(s: Seq<char>) -> int {
    if frac_end(s) + 1 < s.len() && (s[frac_end(s) + 1] == '+' || s[frac_end(s) + 1] == '-') {
        frac_end(s) + 2
    } else {
        frac_end(s) + 1
    }
}

/// Whether the exponent carries a minus sign.
pub open spec fn exp_neg(s: Seq<char>) -> bool {
    frac_end(s) + 1 < s.len() && s[frac_end(s) + 1] == '-'
}

/// End of the run of exponent digits.
pub open spec fn exp_digits_end(s: Seq<char>) -> int
    recommends
        has_exp(s),
{
    scan_digits(s, exp_digits_start(s))
}

/// Whether the whole literal matches the decimal grammar: an optional
/// sign, digits with an optional fractional part (at least one digit in
/// all), and an optional exponent part that must then run to the end.
pub open spec fn coord_shape_ok(s: Seq<char>) -> bool {
    &&& (int_end(s) > sign_start(s) || frac_end(s) > frac_start(s))
    &&& if has_exp(s) {
        exp_digits_end(s) == s.len() && exp_digits_end(s) > exp_digits_start(s)
    } else {
        frac_end(s) == s.len()
    }
}

/// The mantissa read as one unsigned integer, fractional digits last.
pub open spec fn mantissa_val(s: Seq<char>) -> int {
    digits_val(s, sign_start(s), int_end(s)) * pow10((frac_end(s) - frac_start(s)) as nat)
        + digits_val(s, frac_start(s), frac_end(s))
}

/// The signed exponent value, or zero if there is no exponent part.
pub open spec fn exp_val(s: Seq<char>) -> int {
    if has_exp(s) {
        if exp_neg(s) {
            -digits_val(s, exp_digits_start(s), exp_digits_end(s))
        } else {
            digits_val(s, exp_digits_start(s), exp_digits_end(s))
        }
    } else {
        0
    }
}

/// `m` shifted by `k` decimal places, truncating toward zero on a shift
/// to the right (`m` is never negative where this is applied).
pub open spec fn shift_val(m: int, k: int) -> int {
    if k >= 0 {
        m * pow10(k as nat)
    } else {
        m / pow10((-k) as nat)
    }
}

/// Magnitude of the literal in nanodegrees, before the sign is applied.
pub open spec fn coord_magnitude(s: Seq<char>) -> int {
    shift_val(mantissa_val(s), 9 + exp_val(s) - (frac_end(s) - frac_start(s)))
}

/// Whether the literal is accepted: it matches the grammar and its value
/// stays within the representable magnitude. The bound is on the value
/// alone; digit counts and exponent sizes are unrestricted.
pub open spec fn coord_ok(s: Seq<char>) -> bool {
    &&& coord_shape_ok(s)
    &&& coord_magnitude(s) <= COORD_LIMIT
}

/// The nanodegree value of the literal, or `None` if it is rejected.
pub open spec fn coord_value(s: Seq<char>) -> Option<int> {
    if coord_ok(s) {
        if is_neg(s) {
            Some(-coord_magnitude(s))
        } else {
            Some(coord_magnitude(s))
        }
    } else {
        None
    }
}

pub proof fn lemma_pow10_values()
    ensures
        pow10(3) == 1000,
        pow10(9) == 1_000_000_000,
        pow10(28) == COORD_LIMIT as int,
        pow10(29) == 100_000_000_000_000_000_000_000_000_000,
        pow10(30) == 1_000_000_000_000_000_000_000_000_000_000,
{
    assert(pow10(0) == 1);
    assert(pow10(1) == 10);
    assert(pow10(2) == 100);
    assert(pow10(3) == 1000);
    assert(pow10(4) == 10_000);
    assert(pow10(5) == 100_000);
    assert(pow10(6) == 1_000_000);
    assert(pow10(7) == 10_000_000);
    assert(pow10(8) == 100_000_000);
    assert(pow10(9) == 1_000_000_000);
    assert(pow10(10) == 10_000_000_000);
    assert(pow10(11) == 100_000_000_000);
    assert(pow10(12) == 1_000_000_000_000);
    assert(pow10(13) == 10_000_000_000_000);
    assert(pow10(14) == 100_000_000_000_000);
    assert(pow10(15) == 1_000_000_000_000_000);
    assert(pow10(16) == 10_000_000_000_000_000);
    assert(pow10(17) == 100_000_000_000_000_000);
    assert(pow10(18) == 1_000_000_000_000_000_000);
    assert(pow10(19) == 10_000_000_000_000_000_000);
    assert(pow10(20) == 100_000_000_000_000_000_000);
    assert(pow10(21) == 1_000_000_000_000_000_000_000);
    assert(pow10(22) == 10_000_000_000_000_000_000_000);
    assert(pow10(23) == 100_000_000_000_000_000_000_000);
    assert(pow10(24) == 1_000_000_000_000_000_000_000_000);
    assert(pow10(25) == 10_000_000_000_000_000_000_000_000);
    assert(pow10(26) == 100_000_000_000_000_000_000_000_000);
    assert(pow10(27) == 1_000_000_000_000_000_000_000_000_000);
    assert(pow10(28) == 10_000_000_000_000_000_000_000_000_000);
    assert(pow10(29) == 100_000_000_000_000_000_000_000_000_000);
    assert(pow10(30) == 1_000_000_000_000_000_000_000_000_000_000);
}

/// Whether the character is a decimal digit.
fn is_digit_exec(c: char) -> (r: bool)
    ensures
        r == is_digit(c),
{
    let u = c as u32;
    48 <= u && u <= 57
}

/// First position at or after `start` that does not hold a decimal digit.
fn scan_digits_exec(v: &Vec<char>, start: usize) -> (r: usize)
    requires
        start as int <= v@.len(),
    ensures
        r as int == scan_digits(v@, start as int),
        start <= r,
        r as int <= v@.len(),
{
    let n = v.len();
    let mut i = start;
    while i < n && is_digit_exec(v[i])
        invariant
            start <= i <= n,
            n == v@.len(),
            scan_digits(v@, start as int) == scan_digits(v@, i as int),
        decreases n - i,
    {
        i = i + 1;
    }
    i
}

/// A digit run is worth at least zero and less than ten to its length.
pub proof fn lemma_digits_val_bound(s: Seq<char>, i: int, j: int)
    requires
        0 <= i <= j <= s.len(),
        forall|k: int| i <= k < j ==> is_digit(s[k]),
    ensures
        0 <= digits_val(s, i, j) < pow10((j - i) as nat),
    decreases j - i,
{
    if j > i {
        lemma_digits_val_bound(s, i, j - 1);
        let prev = digits_val(s, i, j - 1);
        let p = pow10((j - 1 - i) as nat);
        assert(prev * 10 + digit_val(s[j - 1]) < p * 10) by (nonlinear_arith)
            requires
                prev < p,
                digit_val(s[j - 1]) <= 9,
        ;
    }
}

/// A digit run is worth at least any of its prefixes.
pub proof fn lemma_digits_val_prefix_le(s: Seq<char>, lo: int, i: int, j: int)
    requires
        0 <= lo <= i <= j <= s.len(),
        forall|k: int| lo <= k < j ==> is_digit(s[k]),
    ensures
        digits_val(s, lo, i) <= digits_val(s, lo, j),
    decreases j - i,
{
    if i < j {
        lemma_digits_val_prefix_le(s, lo, i, j - 1);
        lemma_digits_val_bound(s, lo, j - 1);
    }
}

/// A digit run is worth its prefix, shifted past the suffix, plus the
/// suffix.
pub proof fn lemma_digits_val_split(s: Seq<char>, i: int, p: int, j: int)
    requires
        0 <= i <= p <= j <= s.len(),
    ensures
        digits_val(s, i, j) == digits_val(s, i, p) * pow10((j - p) as nat) + digits_val(s, p, j),
    decreases j - p,
{
    if p == j {
        assert(pow10(0) == 1);
        assert(digits_val(s, j, j) == 0);
    } else {
        lemma_digits_val_split(s, i, p, j - 1);
        let a = digits_val(s, i, p);
        let b = digits_val(s, p, j - 1);
        let q = pow10((j - 1 - p) as nat);
        let d = digit_val(s[j - 1]);
        assert((a * q + b) * 10 + d == a * (10 * q) + (b * 10 + d)) by (nonlinear_arith);
        assert(pow10((j - p) as nat) == 10 * pow10((j - 1 - p) as nat));
    }
}

/// Saturation bound for an exponent value: larger than any possible
/// digit count of an in-memory literal, plus the scale.
pub const EXP_CAP: u128 = 100_000_000_000_000_000_000;

/// The value of the digit run `v[lo..hi)`, or `None` as soon as a prefix
/// of it exceeds the representable magnitude.
fn accum_digits_bail(v: &Vec<char>, lo: usize, hi: usize) -> (r: Option<u128>)
    requires
        lo <= hi,
        hi as int <= v@.len(),
        forall|j: int| lo <= j < hi ==> is_digit(v@[j]),
    ensures
        r matches Some(x) ==> (x as int) == digits_val(v@, lo as int, hi as int) && (x as int)
            <= COORD_LIMIT as int,
        r is None ==> digits_val(v@, lo as int, hi as int) > COORD_LIMIT as int,
{
    let ghost s = v@;
    proof {
        assert(digits_val(s, lo as int, lo as int) == 0);
    }
    let mut acc: u128 = 0;
    let mut i: usize = lo;
    while i < hi
        invariant
            lo <= i <= hi,
            hi as int <= s.len(),
            v@ == s,
            forall|j: int| lo <= j < hi ==> is_digit(s[j]),
            acc as int == digits_val(s, lo as int, i as int),
            (acc as int) <= COORD_LIMIT as int,
        decreases hi - i,
    {
        let u = v[i] as u32;
        proof {
            assert(is_digit(s[i as int]));
        }
        let d = (u - 48) as u128;
        let tmp = acc * 10 + d;
        proof {
            assert(tmp as int == digits_val(s, lo as int, i + 1 as int));
        }
        if tmp > 10_000_000_000_000_000_000_000_000_000u128 {
            proof {
                lemma_digits_val_prefix_le(s, lo as int, i + 1 as int, hi as int);
            }
            return None;
        }
        acc = tmp;
        i = i + 1;
    }
    Some(acc)
}

/// The value of the digit run `v[lo..hi)`, saturated just above
/// `EXP_CAP`: the result is exact where the run's value is at most the
/// cap, and otherwise only known to exceed it.
fn accum_exp_sat(v: &Vec<char>, lo: usize, hi: usize) -> (r: u128)
    requires
        lo <= hi,
        hi as int <= v@.len(),
        forall|j: int| lo <= j < hi ==> is_digit(v@[j]),
    ensures
        digits_val(v@, lo as int, hi as int) <= EXP_CAP as int ==> (r as int) == digits_val(
            v@,
            lo as int,
            hi as int,
        ),
        digits_val(v@, lo as int, hi as int) > EXP_CAP as int ==> (r as int) > EXP_CAP as int,
        r <= EXP_CAP + 1,
{
    let ghost s = v@;
    proof {
        assert(digits_val(s, lo as int, lo as int) == 0);
    }
    let mut acc: u128 = 0;
    let mut i: usize = lo;
    while i < hi
        invariant
            lo <= i <= hi,
            hi as int <= s.len(),
            v@ == s,
            forall|j: int| lo <= j < hi ==> is_digit(s[j]),
            digits_val(s, lo as int, i as int) <= EXP_CAP as int ==> acc as int == digits_val(
                s,
                lo as int,
                i as int,
            ),
            digits_val(s, lo as int, i as int) > EXP_CAP as int ==> acc == EXP_CAP + 1,
            acc <= EXP_CAP + 1,
        decreases hi - i,
    {
        let u = v[i] as u32;
        proof {
            assert(is_digit(s[i as int]));
            lemma_digits_val_bound(s, lo as int, i as int);
            assert(digits_val(s, lo as int, i + 1 as int) == digits_val(s, lo as int, i as int)
                * 10 + digit_val(s[i as int]));
        }
        let d = (u - 48) as u128;
        if acc > EXP_CAP {
            proof {
                let dv = digits_val(s, lo as int, i as int);
                assert(dv * 10 + digit_val(s[i as int]) > EXP_CAP as int) by (nonlinear_arith)
                    requires
                        dv > EXP_CAP as int,
                        digit_val(s[i as int]) >= 0,
                ;
            }
        } else {
            let tmp = acc * 10 + d;
            if tmp > EXP_CAP {
                acc = EXP_CAP + 1;
            } else {
                acc = tmp;
            }
        }
        i = i + 1;
    }
    acc
}

/// Positions of the parts of a decimal literal that matched the grammar.
struct CoordShape {
    neg: bool,
    ss: usize,
    ie: usize,
    fs: usize,
    fe: usize,
    has_e: bool,
    eneg: bool,
    eds: usize,
    ede: usize,
}

/// The part positions of the literal, or `None` where the literal does
/// not match the decimal grammar.
fn coord_positions(v: &Vec<char>) -> (r: Option<CoordShape>)
    ensures
        (r is Some) == coord_shape_ok(v@),
        r matches Some(cs) ==> {
            &&& cs.neg == is_neg(v@)
            &&& cs.ss as int == sign_start(v@)
            &&& cs.ie as int == int_end(v@)
            &&& cs.fs as int == frac_start(v@)
            &&& cs.fe as int == frac_end(v@)
            &&& cs.has_e == has_exp(v@)
            &&& cs.eneg == exp_neg(v@)
            &&& (cs.has_e ==> cs.eds as int == exp_digits_start(v@))
            &&& (cs.has_e ==> cs.ede as int == exp_digits_end(v@))
            &&& (!cs.has_e ==> cs.eds == cs.ede)
        },
{
    let ghost s = v@;
    let n = v.len();
    let has_sign = n > 0 && (v[0] == '+' || v[0] == '-');
    let ss: usize = if has_sign {
        1
    } else {
        0
    };
    let neg = n > 0 && v[0] == '-';
    proof {
        assert(ss as int == sign_start(s));
        assert(neg == is_neg(s));
    }
    let ie = scan_digits_exec(v, ss);
    let has_dot = ie < n && v[ie] == '.';
    let fs: usize = if has_dot {
        ie + 1
    } else {
        ie
    };
    let fe = scan_digits_exec(v, fs);
    proof {
        assert(ie as int == int_end(s));
        assert(fs as int == frac_start(s));
        assert(fe as int == frac_end(s));
    }
    if ie == ss && fe == fs {
        return None;
    }
    let has_e = fe < n && (v[fe] == 'e' || v[fe] == 'E');
    let mut eneg = false;
    let mut eds: usize = fe;
    let mut ede: usize = fe;
    if has_e {
        let es = fe + 1;
        if es < n && (v[es] == '+' || v[es] == '-') {
            eds = es + 1;
        } else {
            eds = es;
        }
        eneg = es < n && v[es] == '-';
        ede = scan_digits_exec(v, eds);
        proof {
            assert(eds as int == exp_digits_start(s));
            assert(ede as int == exp_digits_end(s));
            assert(eneg == exp_neg(s));
        }
        if ede != n {
            return None;
        }
        if ede == eds {
            return None;
        }
    } else {
        if fe != n {
            return None;
        }
    }
    Some(CoordShape { neg, ss, ie, fs, fe, has_e, eneg, eds, ede })
}

/// Whether the characters match the decimal grammar, with no bound on
/// the value.
pub(crate) fn coord_shape_check(v: &Vec<char>) -> (r: bool)
    ensures
        r == coord_shape_ok(v@),
{
    matches!(coord_positions(v), Some(_))
}

/// The nanodegree value of a decimal literal such as `-1.5` or `1.0E1`,
/// or `None` where the literal does not match the grammar or its value
/// leaves the representable range.
#[verifier::rlimit(60)]
#[verifier::spinoff_prover]
pub fn parse_coord(v: &Vec<char>) -> (r: Option<i128>)
    ensures
        (r is Some) == (coord_value(v@) is Some),
        r matches Some(x) ==> coord_value(v@) == Some(x as int) && -COORD_LIMIT <= x
            <= COORD_LIMIT,
{
    let ghost s = v@;
    let cs = match coord_positions(v) {
        None => {
            return None;
        },
        Some(cs) => cs,
    };
    let ss = cs.ss;
    let ie = cs.ie;
    let fs = cs.fs;
    let fe = cs.fe;
    proof {
        lemma_scan_digits_bounds(s, ss as int);
        lemma_scan_digits_bounds(s, fs as int);
        lemma_pow10_values();
    }
    // the mantissa digits as one run: integer part then fractional part
    let mut comb = crate::text::sub_chars(v, ss, ie);
    let mut frac_part = crate::text::sub_chars(v, fs, fe);
    comb.append(&mut frac_part);
    let ghost cb = comb@;
    let ilen = ie - ss;
    let flen = fe - fs;
    let n_all = comb.len();
    proof {
        assert(cb.subrange(0, ilen as int) =~= s.subrange(ss as int, ie as int));
        assert(cb.subrange(ilen as int, n_all as int) =~= s.subrange(fs as int, fe as int));
        assert forall|j: int| 0 <= j < cb.len() implies is_digit(cb[j]) by {
            if j < ilen {
                assert(cb[j] == s[ss + j]);
            } else {
                assert(cb[j] == s[fs + (j - ilen)]);
            }
        }
        // the combined run is worth the mantissa
        lemma_digits_val_split(cb, 0, ilen as int, n_all as int);
        lemma_digits_val_subrange(cb, 0, ilen as int);
        lemma_digits_val_subrange(cb, ilen as int, n_all as int);
        lemma_digits_val_subrange(s, ss as int, ie as int);
        lemma_digits_val_subrange(s, fs as int, fe as int);
        assert(digits_val(cb, 0, n_all as int) == mantissa_val(s));
    }
    // the exponent value, saturated just above the cap
    let mut e_sat: u128 = 0;
    if cs.has_e {
        proof {
            lemma_scan_digits_bounds(s, cs.eds as int);
        }
        e_sat = accum_exp_sat(v, cs.eds, cs.ede);
    }
    let ghost e_abs: int = if cs.has_e {
        digits_val(s, cs.eds as int, cs.ede as int)
    } else {
        0
    };
    let ghost kg: int = 9 + exp_val(s) - (flen as int);
    proof {
        assert(coord_magnitude(s) == shift_val(mantissa_val(s), kg));
        assert(exp_val(s) == if cs.eneg {
            -e_abs
        } else {
            e_abs
        });
        if cs.has_e {
            lemma_digits_val_bound(s, cs.eds as int, cs.ede as int);
        }
        assert((flen as int) <= usize::MAX as int);
        assert((n_all as int) <= usize::MAX as int);
        assert(usize::MAX as int <= u64::MAX as int);
    }
    if e_sat > EXP_CAP {
        // the exponent is larger than any literal's digit count can offset
        if cs.eneg {
            // the shift wipes out every digit: the value is zero
            proof {
                assert(kg < -(n_all as int));
                lemma_digits_val_bound(cb, 0, n_all as int);
                lemma_pow10_mono(n_all as nat, (-kg) as nat);
                vstd::arithmetic::div_mod::lemma_basic_div(mantissa_val(s), pow10((-kg) as nat));
                assert(coord_magnitude(s) == 0);
                assert(coord_ok(s));
            }
            Some(0)
        } else {
            proof {
                assert(kg >= 29);
            }
            match accum_digits_bail(&comb, 0, n_all) {
                Some(m) if m == 0 => {
                    proof {
                        assert(mantissa_val(s) == 0);
                        assert(coord_magnitude(s) == 0) by (nonlinear_arith)
                            requires
                                coord_magnitude(s) == mantissa_val(s) * pow10(kg as nat),
                                mantissa_val(s) == 0,
                        ;
                        assert(coord_ok(s));
                    }
                    Some(0)
                },
                _ => {
                    // a nonzero mantissa shifted that far is out of range
                    proof {
                        lemma_digits_val_bound(cb, 0, n_all as int);
                        lemma_pow10_mono(29, kg as nat);
                        assert(mantissa_val(s) >= 1);
                        assert(mantissa_val(s) * pow10(kg as nat) >= pow10(kg as nat))
                            by (nonlinear_arith)
                            requires
                                mantissa_val(s) >= 1,
                                pow10(kg as nat) >= 0,
                        ;
                        lemma_pow10_values();
                        assert(!coord_ok(s));
                    }
                    None
                },
            }
        }
    } else {
        // the exponent is exact
        let e_i = e_sat as i128;
        let k_i: i128 = if cs.eneg {
            9 - e_i - flen as i128
        } else {
            9 + e_i - flen as i128
        };
        proof {
            assert(k_i as int == kg);
        }
        if k_i >= 0 {
            match accum_digits_bail(&comb, 0, n_all) {
                None => {
                    proof {
                        lemma_pow10_pos(kg as nat);
                        assert(mantissa_val(s) * pow10(kg as nat) >= mantissa_val(s))
                            by (nonlinear_arith)
                            requires
                                mantissa_val(s) >= 0,
                                pow10(kg as nat) >= 1,
                        ;
                        lemma_digits_val_bound(cb, 0, n_all as int);
                        assert(!coord_ok(s));
                    }
                    None
                },
                Some(m) => {
                    if m == 0 {
                        proof {
                            assert(coord_magnitude(s) == 0) by (nonlinear_arith)
                                requires
                                    coord_magnitude(s) == mantissa_val(s) * pow10(kg as nat),
                                    mantissa_val(s) == 0,
                            ;
                            assert(coord_ok(s));
                        }
                        Some(0)
                    } else if k_i > 28 {
                        proof {
                            lemma_pow10_mono(29, kg as nat);
                            assert(mantissa_val(s) * pow10(kg as nat) >= pow10(kg as nat))
                                by (nonlinear_arith)
                                requires
                                    mantissa_val(s) >= 1,
                                    pow10(kg as nat) >= 0,
                            ;
                            lemma_pow10_values();
                            assert(!coord_ok(s));
                        }
                        None
                    } else {
                        let mag = shift_mag(m, k_i);
                        match mag {
                            None => {
                                proof {
                                    assert(!coord_ok(s));
                                }
                                None
                            },
                            Some(x) => {
                                proof {
                                    assert(coord_ok(s));
                                }
                                if cs.neg {
                                    Some(-x)
                                } else {
                                    Some(x)
                                }
                            },
                        }
                    }
                },
            }
        } else {
            // shift to the right: the value is the prefix of the digits
            // that stays at or above the nanodegree place
            let p_i: i128 = n_all as i128 + k_i;
            if p_i <= 0 {
                proof {
                    lemma_digits_val_bound(cb, 0, n_all as int);
                    lemma_pow10_mono(n_all as nat, (-kg) as nat);
                    vstd::arithmetic::div_mod::lemma_basic_div(
                        mantissa_val(s),
                        pow10((-kg) as nat),
                    );
                    assert(coord_magnitude(s) == 0);
                    assert(coord_ok(s));
                }
                Some(0)
            } else {
                let p = p_i as usize;
                proof {
                    lemma_digits_val_split(cb, 0, p as int, n_all as int);
                    lemma_digits_val_bound(cb, p as int, n_all as int);
                    lemma_digits_val_bound(cb, 0, p as int);
                    lemma_pow10_pos((n_all - p) as nat);
                    vstd::arithmetic::div_mod::lemma_fundamental_div_mod_converse(
                        mantissa_val(s),
                        pow10((n_all - p) as nat),
                        digits_val(cb, 0, p as int),
                        digits_val(cb, p as int, n_all as int),
                    );
                    assert(coord_magnitude(s) == digits_val(cb, 0, p as int));
                }
                match accum_digits_bail(&comb, 0, p) {
                    None => {
                        proof {
                            assert(!coord_ok(s));
                        }
                        None
                    },
                    Some(x) => {
                        proof {
                            assert(coord_ok(s));
                        }
                        let mag = x as i128;
                        if cs.neg {
                            Some(-mag)
                        } else {
                            Some(mag)
                        }
                    },
                }
            }
        }
    }
}

/// `m` shifted left by `k` decimal places, or `None` where the result is
/// greater than `COORD_LIMIT`.
fn shift_mag(m: u128, k: i128) -> (r: Option<i128>)
    requires
        (m as int) <= COORD_LIMIT as int,
        0 <= k <= 28,
    ensures
        r matches Some(x) ==> 0 <= x as int == shift_val(m as int, k as int) <= COORD_LIMIT as int,
        r is None ==> shift_val(m as int, k as int) > COORD_LIMIT as int,
{
    proof {
        lemma_pow10_values();
        lemma_pow10_mono(28, 31);
        assert(pow10(31) == 10 * pow10(30));
    }
    let mut acc: u128 = m;
    let mut t: i128 = 0;
    while t < k
        invariant
            0 <= t <= k <= 28,
            acc as int == (m as int) * pow10(t as nat),
            shift_val(m as int, k as int) == (m as int) * pow10(k as nat),
            (acc as int) < pow10(31),
        decreases k - t,
    {
        if acc > 10_000_000_000_000_000_000_000_000_000u128 {
            proof {
                lemma_pow10_values();
                lemma_pow10_add(t as nat, (k - t) as nat);
                lemma_pow10_pos((k - t) as nat);
                assert((m as int) * pow10(k as nat) == ((m as int) * pow10(t as nat)) * pow10(
                    (k - t) as nat,
                )) by (nonlinear_arith)
                    requires
                        pow10(k as nat) == pow10(t as nat) * pow10((k - t) as nat),
                ;
                assert((acc as int) * pow10((k - t) as nat) >= acc as int) by (nonlinear_arith)
                    requires
                        pow10((k - t) as nat) >= 1,
                        acc as int >= 0,
                ;
            }
            return None;
        }
        proof {
            lemma_pow10_values();
            assert((acc as int) * 10 == (m as int) * pow10((t + 1) as nat)) by (nonlinear_arith)
                requires
                    acc as int == (m as int) * pow10(t as nat),
                    pow10((t + 1) as nat) == 10 * pow10(t as nat),
            ;
        }
        acc = acc * 10;
        t = t + 1;
    }
    proof {
        lemma_pow10_values();
    }
    if acc > 10_000_000_000_000_000_000_000_000_000u128 {
        return None;
    }
    Some(acc as i128)
}

/// A scan over a run of digits ends exactly at the run's end: at the
/// first position after it that is no digit, or at the end of the text.
pub proof fn lemma_scan_digits_run(s: Seq<char>, i: int, j: int)
    requires
        0 <= i <= j <= s.len(),
        forall|k: int| i <= k < j ==> is_digit(s[k]),
        j == s.len() || !is_digit(s[j]),
    ensures
        scan_digits(s, i) == j,
    decreases j - i,
{
    if i < j {
        lemma_scan_digits_run(s, i + 1, j);
    }
}

/// The value of a digit run depends only on the characters in the run.
pub proof fn lemma_digits_val_subrange(s: Seq<char>, i: int, j: int)
    requires
        0 <= i <= j <= s.len(),
    ensures
        digits_val(s, i, j) == digits_val(s.subrange(i, j), 0, j - i),
    decreases j - i,
{
    if i < j {
        lemma_digits_val_subrange(s, i, j - 1);
        let t = s.subrange(i, j);
        assert(t.subrange(0, j - i - 1) =~= s.subrange(i, j - 1));
        lemma_digits_val_subrange(t, 0, j - i - 1);
        assert(t[j - i - 1] == s[j - 1]);
    }
}

/// The nanodegree value a coordinate literal term denotes: everything
/// before the datatype marker, with surrounding quotes removed, read as
/// a decimal number.
pub open spec fn coord_of_term(s: Seq<char>) -> Option<int> {
    coord_value(crate::text::lenient_lexical(s))
}

/// The coordinate a literal term such as
/// `"1.0E1"^^<http://www.w3.org/2001/XMLSchema#double>` denotes, in
/// nanodegrees, or a malformed-number error naming the term.
pub fn coord_from_triple_term(data: &str) -> (r: Result<
    i128,
    crate::errors::TriplesError,
>)
    ensures
        (r is Ok) == (coord_of_term(data@) is Some),
        r matches Ok(v) ==> coord_of_term(data@) == Some(v as int) && -COORD_LIMIT <= v
            <= COORD_LIMIT,
        r matches Err(e) ==> e@ == (crate::errors::ErrorView::MalformedNumber {
            literal: data@,
        }),
{
    let cv = crate::text::chars_of(data);
    let lex = crate::text::lexical_lenient(&cv);
    match parse_coord(&lex) {
        Some(v) => Ok(v),
        None => Err(
            crate::errors::TriplesError::MalformedNumber {
                literal: <String as vstd::string::StringExecFns>::from_str(data),
            },
        ),
    }
}

} // verus!
