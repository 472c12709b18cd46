//! The seconds field of a time token, read as a nonnegative decimal number:
//! an optional sign, digits with an optional point, and an optional exponent.
//! The value is kept exactly: whole seconds and the first nine digits of the
//! fraction.
use vstd::prelude::*;
use crate::duration::{all_digits, digits_value, dot, is_digit, pow10, seconds_frac_part,
    seconds_whole_part, seconds_well_formed, check_digits, NANOS_PER_SEC};
use crate::scan::find_in;

verus! {

/// `e` or `E`, which opens an exponent.
pub open spec fn is_exp_mark(b: u8) -> bool {
    b == 101 || b == 69
}

pub open spec fn is_first_exp_mark(s: Seq<u8>, i: int) -> bool {
    0 <= i < s.len() && is_exp_mark(s[i]) && forall|k: int| 0 <= k < i ==> !is_exp_mark(s[k])
}

/// The leftmost exponent mark in `s`, or `-1`.
pub open spec fn first_exp_mark(s: Seq<u8>) -> int {
    if exists|i: int| is_first_exp_mark(s, i) {
        choose|i: int| is_first_exp_mark(s, i)
    } else {
        -1
    }
}

/// One when `s` opens with `+` or `-`, else zero.
pub open spec fn sign_width(s: Seq<u8>) -> int {
    if s.len() > 0 && (s[0] == 43 || s[0] == 45) {
        1
    } else {
        0
    }
}

pub open spec fn opens_with_minus(s: Seq<u8>) -> bool {
    s.len() > 0 && s[0] == 45
}

/// `s` without its sign.
pub open spec fn unsigned_part(s: Seq<u8>) -> Seq<u8> {
    s.subrange(sign_width(s), s.len() as int)
}

/// The number before the exponent mark, sign left out.
pub open spec fn mantissa(s: Seq<u8>) -> Seq<u8> {
    let b = unsigned_part(s);
    let e = first_exp_mark(b);
    if e < 0 {
        b
    } else {
        b.subrange(0, e)
    }
}

/// The text after the exponent mark, when there is one.
pub open spec fn exponent_text(s: Seq<u8>) -> Option<Seq<u8>> {
    let b = unsigned_part(s);
    let e = first_exp_mark(b);
    if e < 0 {
        None
    } else {
        Some(b.subrange(e + 1, b.len() as int))
    }
}

/// An exponent: an optional sign, then at least one digit.
pub open spec fn exponent_well_formed(t: Seq<u8>) -> bool {
    unsigned_part(t).len() > 0 && all_digits(unsigned_part(t))
}

pub open spec fn exponent_value(t: Seq<u8>) -> int {
    if opens_with_minus(t) {
        -digits_value(unsigned_part(t))
    } else {
        digits_value(unsigned_part(t)) as int
    }
}

/// The digits of a mantissa, its point left out.
pub open spec fn mantissa_digits(m: Seq<u8>) -> Seq<u8> {
    seconds_whole_part(m) + seconds_frac_part(m)
}

/// The digit at position `k` of `d`, zero outside it (on either side).
pub open spec fn digit_at(d: Seq<u8>, k: int) -> nat {
    if 0 <= k < d.len() {
        (d[k] - 48) as nat
    } else {
        0
    }
}

/// The `k` digits of `d` from position `off` on, read as an integer.
pub open spec fn scaled(d: Seq<u8>, off: int, k: nat) -> nat
    decreases k,
{
    if k == 0 {
        0
    } else {
        scaled(d, off, (k - 1) as nat) * 10 + digit_at(d, off + k - 1)
    }
}

pub open spec fn all_zero(d: Seq<u8>) -> bool {
    forall|i: int| 0 <= i < d.len() ==> #[trigger] d[i] == 48
}

/// Where the point stands in the mantissa digits once the exponent is applied.
pub open spec fn point_shift(s: Seq<u8>) -> int {
    let e = match exponent_text(s) {
        Some(t) => exponent_value(t),
        None => 0,
    };
    seconds_whole_part(mantissa(s)).len() + e
}

/// The whole part and the first nine fraction digits of the number whose
/// digits are `d` and whose point stands after `shift` of them.
pub open spec fn value_at(d: Seq<u8>, shift: int) -> (nat, nat) {
    (
        if shift > 0 {
            scaled(d, 0, shift as nat)
        } else {
            0
        },
        scaled(d, shift, 9),
    )
}

/// What a seconds field holds, as `f64::from_str` reads it but kept exact:
/// whole seconds, and nanoseconds cut after nine digits toward zero. `None`
/// for text of another shape (including infinities and NaN) and for a
/// negative value; minus zero is zero.
pub open spec fn spec_seconds(s: Seq<u8>) -> Option<(nat, nat)> {
    let m = mantissa(s);
    let d = mantissa_digits(m);
    let shift = point_shift(s);
    if !seconds_well_formed(m) || (exponent_text(s) matches Some(t) && !exponent_well_formed(t))
        || (opens_with_minus(s) && !all_zero(d)) {
        None
    } else {
        Some(value_at(d, shift))
    }
}

proof fn lemma_scaled_bound(d: Seq<u8>, off: int, k: nat)
    requires
        all_digits(d),
    ensures
        scaled(d, off, k) < pow10(k),
    decreases k,
{
    if k > 0 {
        lemma_scaled_bound(d, off, (k - 1) as nat);
        if 0 <= off + k - 1 < d.len() {
            assert(is_digit(d[off + k - 1]));
        }
    }
}

proof fn lemma_scaled_zero(d: Seq<u8>, off: int, k: nat)
    requires
        all_zero(d) || off + k <= 0,
    ensures
        scaled(d, off, k) == 0,
    decreases k,
{
    if k > 0 {
        lemma_scaled_zero(d, off, (k - 1) as nat);
        if 0 <= off + k - 1 < d.len() {
            assert(d[off + k - 1] == 48);
        }
    }
}

proof fn lemma_scaled_grows(d: Seq<u8>, q: int, n: nat)
    requires
        0 <= q < d.len(),
        d[q] != 48,
        all_digits(d),
        n >= q + 1,
    ensures
        scaled(d, 0, n) >= pow10((n - q - 1) as nat),
    decreases n,
{
    assert(is_digit(d[q]));
    if n > q + 1 {
        lemma_scaled_grows(d, q, (n - 1) as nat);
    } else {
        assert(digit_at(d, q) >= 1);
    }
}

proof fn lemma_pow10_large(k: nat)
    requires
        k >= 20,
    ensures
        pow10(k) > u64::MAX,
    decreases k,
{
    if k > 20 {
        lemma_pow10_large((k - 1) as nat);
    } else {
        reveal_with_fuel(pow10, 21);
    }
}

/// The digit at position `k` of `s[wlo..whi] + s[flo..fhi]`.
fn digit_in(s: &[u8], wlo: usize, whi: usize, flo: usize, fhi: usize, k: i128) -> (r: u64)
    requires
        wlo <= whi <= s@.len(),
        flo <= fhi <= s@.len(),
        all_digits(s@.subrange(wlo as int, whi as int)),
        all_digits(s@.subrange(flo as int, fhi as int)),
    ensures
        r == digit_at(s@.subrange(wlo as int, whi as int) + s@.subrange(flo as int, fhi as int), k as int),
        r <= 9,
{
    let ghost d = s@.subrange(wlo as int, whi as int) + s@.subrange(flo as int, fhi as int);
    let lw = (whi - wlo) as i128;
    let lf = (fhi - flo) as i128;
    if k < 0 || k >= lw + lf {
        0
    } else if k < lw {
        let i = wlo + k as usize;
        assert(d[k as int] == s@.subrange(wlo as int, whi as int)[k as int]);
        assert(is_digit(s@.subrange(wlo as int, whi as int)[k as int]));
        (s[i] - 48) as u64
    } else {
        let i = flo + (k - lw) as usize;
        assert(d[k as int] == s@.subrange(flo as int, fhi as int)[k - lw]);
        assert(is_digit(s@.subrange(flo as int, fhi as int)[k - lw]));
        (s[i] - 48) as u64
    }
}

/// The leftmost exponent mark within `s[lo..hi]`, counted from the start of `s`.
fn find_exp_mark_in(s: &[u8], lo: usize, hi: usize) -> (r: Option<usize>)
    requires
        lo <= hi <= s@.len(),
    ensures
        match r {
            Some(i) => lo <= i && i - lo == first_exp_mark(s@.subrange(lo as int, hi as int)),
            None => first_exp_mark(s@.subrange(lo as int, hi as int)) == -1,
        },
{
    let ghost sub = s@.subrange(lo as int, hi as int);
    let mut i: usize = lo;
    while i < hi
        invariant
            lo <= i <= hi <= s@.len(),
            sub == s@.subrange(lo as int, hi as int),
            forall|k: int| 0 <= k < i - lo ==> !is_exp_mark(sub[k]),
        decreases hi - i,
    {
        assert(sub[i - lo] == s@[i as int]);
        if s[i] == 101 || s[i] == 69 {
            let ghost j = i - lo;
            assert(is_first_exp_mark(sub, j));
            let ghost w = choose|w: int| is_first_exp_mark(sub, w);
            assert(w == j) by {
                if w < j {
                    assert(!is_exp_mark(sub[w]));
                } else if w > j {
                    assert(!is_exp_mark(sub[j]));
                }
            }
            return Some(i);
        }
        i = i + 1;
    }
    assert(!exists|w: int| is_first_exp_mark(sub, w));
    None
}

/// The value of the digits `s[lo..hi]` when it is at most `2^100`.
fn parse_exponent_digits(s: &[u8], lo: usize, hi: usize) -> (r: Option<u128>)
    requires
        lo <= hi <= s@.len(),
        all_digits(s@.subrange(lo as int, hi as int)),
    ensures
        match r {
            Some(v) => v == digits_value(s@.subrange(lo as int, hi as int)) && v <= 0x10_0000_0000_0000_0000_0000_0000u128,
            None => digits_value(s@.subrange(lo as int, hi as int)) > 0x10_0000_0000_0000_0000_0000_0000u128,
        },
{
    let ghost full = s@.subrange(lo as int, hi as int);
    let mut v: u128 = 0;
    let mut big = false;
    let mut i: usize = lo;
    while i < hi
        invariant
            lo <= i <= hi <= s@.len(),
            full == s@.subrange(lo as int, hi as int),
            all_digits(full),
            !big ==> v == digits_value(s@.subrange(lo as int, i as int)) && v <= 0x10_0000_0000_0000_0000_0000_0000u128,
            big ==> digits_value(s@.subrange(lo as int, i as int)) > 0x10_0000_0000_0000_0000_0000_0000u128,
        decreases hi - i,
    {
        assert(full[i - lo] == s@[i as int]);
        assert(is_digit(full[i - lo]));
        assert(s@.subrange(lo as int, i + 1).drop_last() =~= s@.subrange(lo as int, i as int));
        if !big {
            v = v * 10 + (s[i] - 48) as u128;
            if v > 0x10_0000_0000_0000_0000_0000_0000u128 {
                big = true;
            }
        }
        i = i + 1;
    }
    assert(s@.subrange(lo as int, i as int) =~= full);
    if big {
        None
    } else {
        Some(v)
    }
}

/// Whether every digit of `s[wlo..whi] + s[flo..fhi]` is zero.
fn digits_all_zero(s: &[u8], wlo: usize, whi: usize, flo: usize, fhi: usize) -> (r: bool)
    requires
        wlo <= whi <= s@.len(),
        flo <= fhi <= s@.len(),
        all_digits(s@.subrange(wlo as int, whi as int)),
        all_digits(s@.subrange(flo as int, fhi as int)),
    ensures
        r == all_zero(s@.subrange(wlo as int, whi as int) + s@.subrange(flo as int, fhi as int)),
{
    let ghost d = s@.subrange(wlo as int, whi as int) + s@.subrange(flo as int, fhi as int);
    let ld = (whi - wlo) as i128 + (fhi - flo) as i128;
    let mut k: i128 = 0;
    while k < ld
        invariant
            0 <= k <= ld,
            ld == d.len(),
            wlo <= whi <= s@.len(),
            flo <= fhi <= s@.len(),
            all_digits(s@.subrange(wlo as int, whi as int)),
            all_digits(s@.subrange(flo as int, fhi as int)),
            d == s@.subrange(wlo as int, whi as int) + s@.subrange(flo as int, fhi as int),
            forall|i: int| 0 <= i < k ==> d[i] == 48,
        decreases ld - k,
    {
        let g = digit_in(s, wlo, whi, flo, fhi, k);
        assert(digit_at(d, k as int) == g);
        if g != 0 {
            assert(d[k as int] != 48);
            return false;
        }
        k = k + 1;
    }
    true
}

/// The value of the digits `s[wlo..whi] + s[flo..fhi]`, not all zero, with
/// the point after `whi - wlo + e` of them; `e` is `±exp_val`, or beyond
/// `±2^100` when `exp_big`. `None` when the whole part passes a `u64`.
fn nonzero_value(
    s: &[u8],
    wlo: usize,
    whi: usize,
    flo: usize,
    fhi: usize,
    exp_neg: bool,
    exp_val: u128,
    exp_big: bool,
    Ghost(e): Ghost<int>,
) -> (r: Option<(u64, u32)>)
    requires
        wlo <= whi <= s@.len(),
        flo <= fhi <= s@.len(),
        all_digits(s@.subrange(wlo as int, whi as int)),
        all_digits(s@.subrange(flo as int, fhi as int)),
        !all_zero(s@.subrange(wlo as int, whi as int) + s@.subrange(flo as int, fhi as int)),
        exp_val <= 0x10_0000_0000_0000_0000_0000_0000u128,
        exp_big && exp_neg ==> e < -0x10_0000_0000_0000_0000_0000_0000,
        exp_big && !exp_neg ==> e > 0x10_0000_0000_0000_0000_0000_0000,
        !exp_big && exp_neg ==> e == -(exp_val as int),
        !exp_big && !exp_neg ==> e == exp_val as int,
    ensures
        ({
            let d = s@.subrange(wlo as int, whi as int) + s@.subrange(flo as int, fhi as int);
            let v = value_at(d, (whi - wlo) + e);
            match r {
                Some((w, n)) => v == (w as nat, n as nat) && n < NANOS_PER_SEC,
                None => v.0 > u64::MAX,
            }
        }),
{
    let ghost d = s@.subrange(wlo as int, whi as int) + s@.subrange(flo as int, fhi as int);
    let lw = (whi - wlo) as i128;
    let ld = lw + (fhi - flo) as i128;
    assert(all_digits(d)) by {
        assert forall|i: int| 0 <= i < d.len() implies is_digit(#[trigger] d[i]) by {
            if i < lw {
                assert(d[i] == s@.subrange(wlo as int, whi as int)[i]);
            } else {
                assert(d[i] == s@.subrange(flo as int, fhi as int)[i - lw]);
            }
        }
    }
    let ghost q = choose|q: int| 0 <= q < d.len() && d[q] != 48;
    let ghost shift_g = lw + e;
    if exp_big {
        if exp_neg {
            proof {
                lemma_scaled_zero(d, shift_g, 9);
            }
            return Some((0, 0));
        } else {
            proof {
                lemma_scaled_grows(d, q, shift_g as nat);
                lemma_pow10_large((shift_g - q - 1) as nat);
            }
            return None;
        }
    }
    let ev: i128 = if exp_neg {
        -(exp_val as i128)
    } else {
        exp_val as i128
    };
    let shift: i128 = lw + ev;
    if shift >= ld + 20 {
        proof {
            lemma_scaled_grows(d, q, shift as nat);
            lemma_pow10_large((shift - q - 1) as nat);
        }
        return None;
    }
    let mut whole: u64 = 0;
    let mut over = false;
    let mut j: i128 = 0;
    while j < shift
        invariant
            0 <= j,
            shift > 0 ==> j <= shift,
            shift <= 0 ==> j == 0,
            wlo <= whi <= s@.len(),
            flo <= fhi <= s@.len(),
            all_digits(s@.subrange(wlo as int, whi as int)),
            all_digits(s@.subrange(flo as int, fhi as int)),
            d == s@.subrange(wlo as int, whi as int) + s@.subrange(flo as int, fhi as int),
            !over ==> whole == scaled(d, 0, j as nat),
            over ==> scaled(d, 0, j as nat) > u64::MAX,
        decreases shift - j,
    {
        let g = digit_in(s, wlo, whi, flo, fhi, j);
        if !over {
            if whole > (u64::MAX - g) / 10 {
                over = true;
            } else {
                whole = whole * 10 + g;
            }
        }
        j = j + 1;
    }
    assert(shift as int == shift_g);
    assert(shift > 0 ==> j == shift);
    assert(shift <= 0 ==> j == 0);
    if over {
        return None;
    }
    let mut nanos: u32 = 0;
    let mut n: i128 = 0;
    while n < 9
        invariant
            0 <= n <= 9,
            -0x20_0000_0000_0000_0000_0000_0000i128 <= shift < ld + 20,
            ld <= 0x4_0000_0000_0000_0000i128,
            wlo <= whi <= s@.len(),
            flo <= fhi <= s@.len(),
            all_digits(s@.subrange(wlo as int, whi as int)),
            all_digits(s@.subrange(flo as int, fhi as int)),
            d == s@.subrange(wlo as int, whi as int) + s@.subrange(flo as int, fhi as int),
            all_digits(d),
            nanos == scaled(d, shift as int, n as nat),
        decreases 9 - n,
    {
        proof {
            lemma_scaled_bound(d, shift as int, n as nat);
            reveal_with_fuel(pow10, 9);
        }
        let g = digit_in(s, wlo, whi, flo, fhi, shift + n);
        nanos = nanos * 10 + g as u32;
        n = n + 1;
    }
    proof {
        lemma_scaled_bound(d, shift as int, 9);
        reveal_with_fuel(pow10, 10);
    }
    Some((whole, nanos))
}

/// What the seconds field `s[lo..hi]` holds, as `spec_seconds` says; `None`
/// also when its whole seconds do not fit in a `u64`.
pub fn parse_seconds_in(s: &[u8], lo: usize, hi: usize) -> (r: Option<(u64, u32)>)
    requires
        lo <= hi <= s@.len(),
    ensures
        match r {
            Some((w, n)) => spec_seconds(s@.subrange(lo as int, hi as int)) == Some(
                (w as nat, n as nat),
            ) && n < NANOS_PER_SEC,
            None => spec_seconds(s@.subrange(lo as int, hi as int)) matches None || spec_seconds(
                s@.subrange(lo as int, hi as int),
            )->Some_0.0 > u64::MAX,
        },
{
    let ghost t = s@.subrange(lo as int, hi as int);
    if lo < hi {
        assert(t[0] == s@[lo as int]);
    }
    let neg = lo < hi && s[lo] == 45;
    let signed = lo < hi && (s[lo] == 43 || s[lo] == 45);
    let blo = if signed {
        lo + 1
    } else {
        lo
    };
    assert(unsigned_part(t) =~= s@.subrange(blo as int, hi as int));
    let ghost b = s@.subrange(blo as int, hi as int);
    let ep = find_exp_mark_in(s, blo, hi);
    let mhi = match ep {
        Some(e) => {
            assert(b.subrange(0, e - blo) =~= s@.subrange(blo as int, e as int));
            assert(b.subrange(e - blo + 1, b.len() as int) =~= s@.subrange(e + 1, hi as int));
            e
        },
        None => hi,
    };
    assert(mantissa(t) == s@.subrange(blo as int, mhi as int));
    let (exp_neg, exp_val, exp_big) = match ep {
        Some(e) => match exponent_in(s, e + 1, hi) {
            Some(x) => x,
            None => return None,
        },
        None => (false, 0, false),
    };
    let ghost ev: int = match exponent_text(t) {
        Some(et) => exponent_value(et),
        None => 0,
    };
    let (whi, flo) = match mantissa_in(s, blo, mhi) {
        Some(x) => x,
        None => return None,
    };
    let ghost d = s@.subrange(blo as int, whi as int) + s@.subrange(flo as int, mhi as int);
    assert(mantissa_digits(mantissa(t)) == d);
    assert(point_shift(t) == (whi - blo) + ev);
    if digits_all_zero(s, blo, whi, flo, mhi) {
        proof {
            lemma_scaled_zero(d, point_shift(t), 9);
            if point_shift(t) > 0 {
                lemma_scaled_zero(d, 0, point_shift(t) as nat);
            }
        }
        return Some((0, 0));
    }
    if neg {
        return None;
    }
    nonzero_value(s, blo, whi, flo, mhi, exp_neg, exp_val, exp_big, Ghost(ev))
}

/// The exponent `s[x..hi]`: whether it is negative, its magnitude when at
/// most `2^100`, and whether it is larger. `None` when it is malformed.
fn exponent_in(s: &[u8], x: usize, hi: usize) -> (r: Option<(bool, u128, bool)>)
    requires
        x <= hi <= s@.len(),
    ensures
        ({
            let et = s@.subrange(x as int, hi as int);
            match r {
                Some((neg, v, big)) => {
                    &&& exponent_well_formed(et)
                    &&& v <= 0x10_0000_0000_0000_0000_0000_0000u128
                    &&& neg == opens_with_minus(et)
                    &&& big ==> digits_value(unsigned_part(et)) > 0x10_0000_0000_0000_0000_0000_0000u128
                    &&& !big ==> v == digits_value(unsigned_part(et))
                },
                None => !exponent_well_formed(et),
            }
        }),
{
    let ghost et = s@.subrange(x as int, hi as int);
    if x < hi {
        assert(et[0] == s@[x as int]);
    }
    let neg = x < hi && s[x] == 45;
    let signed = x < hi && (s[x] == 43 || s[x] == 45);
    let dlo = if signed {
        x + 1
    } else {
        x
    };
    assert(unsigned_part(et) =~= s@.subrange(dlo as int, hi as int));
    if dlo == hi || !check_digits(s, dlo, hi) {
        return None;
    }
    match parse_exponent_digits(s, dlo, hi) {
        Some(v) => Some((neg, v, false)),
        None => Some((neg, 0, true)),
    }
}

/// Splits the mantissa `s[blo..mhi]` at its point: the end of its whole part
/// and the start of its fraction. `None` when it is malformed.
fn mantissa_in(s: &[u8], blo: usize, mhi: usize) -> (r: Option<(usize, usize)>)
    requires
        blo <= mhi <= s@.len(),
    ensures
        ({
            let m = s@.subrange(blo as int, mhi as int);
            match r {
                Some((whi, flo)) => {
                    &&& seconds_well_formed(m)
                    &&& blo <= whi <= flo <= mhi
                    &&& seconds_whole_part(m) == s@.subrange(blo as int, whi as int)
                    &&& seconds_frac_part(m) == s@.subrange(flo as int, mhi as int)
                },
                None => !seconds_well_formed(m),
            }
        }),
{
    let dot_mark: [u8; 1] = [46u8];
    assert(dot_mark@ =~= dot());
    let ghost m = s@.subrange(blo as int, mhi as int);
    let (whi, flo) = match find_in(s, dot_mark.as_slice(), blo, mhi) {
        Some(p) => {
            assert(m.subrange(0, p - blo) =~= s@.subrange(blo as int, p as int));
            assert(m.subrange(p - blo + 1, m.len() as int) =~= s@.subrange(p + 1, mhi as int));
            (p, p + 1)
        },
        None => {
            assert(s@.subrange(mhi as int, mhi as int) =~= Seq::<u8>::empty());
            (mhi, mhi)
        },
    };
    assert(seconds_whole_part(m) == s@.subrange(blo as int, whi as int));
    assert(seconds_frac_part(m) == s@.subrange(flo as int, mhi as int));
    if whi == blo && flo == mhi {
        return None;
    }
    if !check_digits(s, blo, whi) || !check_digits(s, flo, mhi) {
        return None;
    }
    Some((whi, flo))
}

} // verus!
