//! Typed rendering and checking of field values: timestamps, integers,
//! fixed-precision decimals, single characters and plain strings.

use vstd::prelude::*;

use crate::error::FixError;
use crate::text::{
    dec_digits_of, digit_val, is_digit, is_digit_seq, padded_digits_of, parse_i32_str,
    parse_u32_range, pow10, pow10_u64, spec_find, spec_parse_i32, u64_to_padded_string,
    u64_to_string, val_of_digits,
};
use crate::timestamp;

verus! {

/// A value formatter: `format` renders a raw value into wire form, `parse`
/// checks that a wire value has the expected shape. Each implementation
/// fixes both outcomes by its two spec functions.
pub trait FieldFormatter {
    /// The rendered value, or nothing when the input is rejected.
    spec fn spec_format(&self, v: Seq<char>) -> Option<Seq<char>>;

    /// Whether a wire value has the shape this formatter checks for.
    spec fn spec_accepts(&self, v: Seq<char>) -> bool;

    fn format(&self, value: &str) -> (r: Result<String, FixError>)
        ensures
            match r {
                Ok(s) => self.spec_format(value@) == Some(s@),
                Err(e) => self.spec_format(value@) is None && e is ParseError,
            },
    ;

    fn parse(&self, value: &str) -> (r: Result<String, FixError>)
        ensures
            match r {
                Ok(s) => self.spec_accepts(value@) && s@ == value@,
                Err(e) => !self.spec_accepts(value@) && e is ParseError,
            },
    ;
}

/// Reformats RFC 3339 timestamps into wire timestamps; checks wire
/// timestamps for calendar validity.
pub struct DateTimeFormatter;

impl FieldFormatter for DateTimeFormatter {
    open spec fn spec_format(&self, v: Seq<char>) -> Option<Seq<char>> {
        timestamp::rfc3339_reformat(v)
    }

    open spec fn spec_accepts(&self, v: Seq<char>) -> bool {
        timestamp::is_wire_datetime(v)
    }

    fn format(&self, value: &str) -> (r: Result<String, FixError>) {
        match timestamp::format_rfc3339(value) {
            Some(s) => Ok(s),
            None => Err(FixError::ParseError(String::from_str("Invalid datetime format"))),
        }
    }

    fn parse(&self, value: &str) -> (r: Result<String, FixError>) {
        if timestamp::check_wire_datetime(value) {
            Ok(value.to_owned())
        } else {
            Err(FixError::ParseError(String::from_str("Invalid FIX datetime format")))
        }
    }
}

/// The canonical decimal rendering of a signed integer.
pub open spec fn int_digits(n: int) -> Seq<char> {
    if n < 0 {
        seq!['-'] + dec_digits_of((-n) as nat)
    } else {
        dec_digits_of(n as nat)
    }
}

/// Normalizes integers: accepts an optionally-signed decimal within `i32`
/// and renders it canonically.
pub struct IntegerFormatter;

impl FieldFormatter for IntegerFormatter {
    open spec fn spec_format(&self, v: Seq<char>) -> Option<Seq<char>> {
        match spec_parse_i32(v) {
            Some(n) => Some(int_digits(n)),
            None => None,
        }
    }

    open spec fn spec_accepts(&self, v: Seq<char>) -> bool {
        spec_parse_i32(v) is Some
    }

    fn format(&self, value: &str) -> (r: Result<String, FixError>) {
        match parse_i32_str(value) {
            Some(n) => {
                if n < 0 {
                    let mut s = String::from_str("-");
                    let mag: u64 = (-(n as i64)) as u64;
                    s.append(u64_to_string(mag).as_str());
                    proof {
                        reveal_strlit("-");
                        assert(s@ =~= seq!['-'] + dec_digits_of(mag as nat));
                    }
                    Ok(s)
                } else {
                    Ok(u64_to_string(n as u64))
                }
            },
            None => Err(FixError::ParseError(String::from_str("Invalid integer value"))),
        }
    }

    fn parse(&self, value: &str) -> (r: Result<String, FixError>) {
        match parse_i32_str(value) {
            Some(_) => Ok(value.to_owned()),
            None => Err(FixError::ParseError(String::from_str("Invalid integer format"))),
        }
    }
}

/// The sign and the integer- and fraction-digit runs of a decimal literal,
/// or nothing when `v` is not one.
pub open spec fn spec_decimal_parts(v: Seq<char>) -> Option<(bool, Seq<char>, Seq<char>)> {
    let neg = v.len() > 0 && v[0] == '-';
    let body = if v.len() > 0 && (v[0] == '-' || v[0] == '+') {
        v.drop_first()
    } else {
        v
    };
    let dot = spec_find(body, '.');
    if dot < 0 {
        if body.len() > 0 && is_digit_seq(body) {
            Some((neg, body, Seq::<char>::empty()))
        } else {
            None
        }
    } else {
        let ip = body.take(dot);
        let fp = body.skip(dot + 1);
        if ip.len() + fp.len() > 0 && is_digit_seq(ip) && is_digit_seq(fp) {
            Some((neg, ip, fp))
        } else {
            None
        }
    }
}

/// The magnitude scaled to `p` fraction digits, rounding the first dropped
/// digit half away from zero.
pub open spec fn spec_scaled(ip: Seq<char>, fp: Seq<char>, p: nat) -> int {
    let whole = val_of_digits(ip);
    let frac = if fp.len() <= p {
        val_of_digits(fp) * pow10((p - fp.len()) as nat)
    } else {
        val_of_digits(fp.take(p as int)) + if digit_val(fp[p as int]) >= 5 {
            1int
        } else {
            0int
        }
    };
    whole * pow10(p) + frac
}

/// The decimal rendered with exactly `p` fraction digits, or nothing when
/// `v` is not a decimal or its integer part exceeds nine digits or `p`
/// exceeds nine.
pub open spec fn spec_round_decimal(v: Seq<char>, p: nat) -> Option<Seq<char>> {
    match spec_decimal_parts(v) {
        None => None,
        Some((neg, ip, fp)) => if ip.len() <= 9 && p <= 9 {
            let sc = spec_scaled(ip, fp, p);
            let digits = dec_digits_of((sc / pow10(p)) as nat) + if p == 0 {
                Seq::<char>::empty()
            } else {
        seq!['.'] + padded_digits_of((sc % pow10(p)) as nat, p)
            };
            Some(
                if neg {
                    seq!['-'] + digits
                } else {
                    digits
                },
            )
        } else {
            None
        },
    }
}

/// The signed value a decimal denotes, scaled by ten to its fraction
/// length.
pub open spec fn spec_decimal_num(neg: bool, ip: Seq<char>, fp: Seq<char>) -> int {
    let mag = val_of_digits(ip) * pow10(fp.len()) + val_of_digits(fp);
    if neg {
        -mag
    } else {
        mag
    }
}

/// A decimal whose integer and fraction runs each fit nine digits.
pub open spec fn spec_decimal_in_bounds(v: Seq<char>) -> bool {
    match spec_decimal_parts(v) {
        Some((n, ip, fp)) => ip.len() <= 9 && fp.len() <= 9,
        None => false,
    }
}

/// Numeric order of two decimals, by cross-multiplying onto a common
/// denominator.
pub open spec fn spec_decimal_le(x: Seq<char>, y: Seq<char>) -> bool {
    match (spec_decimal_parts(x), spec_decimal_parts(y)) {
        (Some((nx, ix, fx)), Some((ny, iy, fy))) => spec_decimal_num(nx, ix, fx) * pow10(fy.len())
            <= spec_decimal_num(ny, iy, fy) * pow10(fx.len()),
        _ => false,
    }
}

/// The sign and the two digit runs of a bounded decimal, with their values.
fn decimal_parts_vals(s: &str) -> (r: Option<(bool, u64, usize, u64, usize)>)
    ensures
        match r {
            Some((neg, iv, il, fv, fl)) => (spec_decimal_parts(s@) matches Some((n2, ip, fp))
                && neg == n2 && ip.len() == il && fp.len() == fl && il <= 9 && fl <= 9
                && val_of_digits(ip) == iv as int && val_of_digits(fp) == fv as int),
            None => !spec_decimal_in_bounds(s@),
        },
{
    let len: usize = s.unicode_len();
    let start: usize = if len > 0 && (s.get_char(0) == '-' || s.get_char(0) == '+') {
        1
    } else {
        0
    };
    let neg = len > 0 && s.get_char(0) == '-';
    let ghost body = if start == 1 {
        s@.drop_first()
    } else {
        s@
    };
    proof {
        assert(forall|j: int| 0 <= j < body.len() ==> #[trigger] body[j] == s@[j + start]);
    }
    let dot = crate::text::find_char_from(s, '.', start);
    let (ip_from, ip_to, fp_from, fp_to): (usize, usize, usize, usize) = match dot {
        None => {
            proof {
                crate::text::lemma_spec_find_none(body, '.');
            }
            (start, len, len, len)
        },
        Some(d) => {
            proof {
                crate::text::lemma_spec_find_is_first(body, '.', d - start as int);
            }
            (start, d, d + 1, len)
        },
    };
    let ghost ip = body.take(ip_to - start as int);
    let ghost fp = body.skip(ip_to - start + 1).take(fp_to - fp_from as int);
    proof {
        if dot is None {
            assert(ip =~= body);
            assert(fp =~= Seq::<char>::empty());
        } else {
            assert(fp =~= body.skip(ip_to - start + 1));
        }
        assert(s@.subrange(ip_from as int, ip_to as int) =~= ip);
        assert(s@.subrange(fp_from as int, fp_to as int) =~= fp);
    }
    if ip_to == ip_from && fp_to == fp_from {
        return None;
    }
    if !digits_in_range(s, ip_from, ip_to) {
        return None;
    }
    if !digits_in_range(s, fp_from, fp_to) {
        return None;
    }
    if ip_to - ip_from > 9 || fp_to - fp_from > 9 {
        return None;
    }
    proof {
        crate::text::lemma_val_of_digits_bound(ip);
        crate::text::lemma_val_of_digits_bound(fp);
        crate::text::lemma_pow10_le_19();
        crate::text::lemma_pow10_9();
    }
    let iv: u64 = if ip_to == ip_from {
        proof {
            assert(ip =~= Seq::<char>::empty());
        }
        0
    } else {
        match parse_u32_range(s, ip_from, ip_to) {
            Some(v) => v as u64,
            None => {
                proof {
                    assert(false);
                }
                0
            },
        }
    };
    let fv: u64 = if fp_to == fp_from {
        proof {
            assert(fp =~= Seq::<char>::empty());
        }
        0
    } else {
        match parse_u32_range(s, fp_from, fp_to) {
            Some(v) => v as u64,
            None => {
                proof {
                    assert(false);
                }
                0
            },
        }
    };
    Some((neg, iv, ip_to - ip_from, fv, fp_to - fp_from))
}

/// Numeric comparison of two decimal literals; nothing when either is not
/// a decimal within nine digits on each side of the point.
pub fn decimal_le(x: &str, y: &str) -> (r: Option<bool>)
    ensures
        match r {
            Some(b) => spec_decimal_in_bounds(x@) && spec_decimal_in_bounds(y@) && b
                == spec_decimal_le(x@, y@),
            None => !(spec_decimal_in_bounds(x@) && spec_decimal_in_bounds(y@)),
        },
{
    let px = match decimal_parts_vals(x) {
        Some(p) => p,
        None => {
            return None;
        },
    };
    let py = match decimal_parts_vals(y) {
        Some(p) => p,
        None => {
            return None;
        },
    };
    let (nx, ixv, _ixl, fxv, fxl) = px;
    let (ny, iyv, _iyl, fyv, fyl) = py;
    proof {
        crate::text::lemma_pow10_le_19();
        crate::text::lemma_pow10_9();
        lemma_pow10_add(9, 9);
        lemma_pow10_add(18, 9);
        assert(pow10(fxl as nat) <= pow10(9));
        assert(pow10(fyl as nat) <= pow10(9));
        crate::text::lemma_pow10_pos(fxl as nat);
        crate::text::lemma_pow10_pos(fyl as nat);
        let partsx = spec_decimal_parts(x@)->0;
        let partsy = spec_decimal_parts(y@)->0;
        assert(is_digit_seq(partsx.1) && is_digit_seq(partsx.2));
        assert(is_digit_seq(partsy.1) && is_digit_seq(partsy.2));
        crate::text::lemma_val_of_digits_bound(partsx.1);
        crate::text::lemma_val_of_digits_bound(partsx.2);
        crate::text::lemma_val_of_digits_bound(partsy.1);
        crate::text::lemma_val_of_digits_bound(partsy.2);
        assert(pow10(partsx.1.len()) <= pow10(9));
        assert(pow10(partsx.2.len()) <= pow10(9));
        assert(pow10(partsy.1.len()) <= pow10(9));
        assert(pow10(partsy.2.len()) <= pow10(9));
        assert(ixv as int <= pow10(9) - 1);
        assert(fxv as int <= pow10(9) - 1);
        assert(iyv as int <= pow10(9) - 1);
        assert(fyv as int <= pow10(9) - 1);
        assert((ixv as int) * pow10(fxl as nat) <= (pow10(9) - 1) * pow10(9)) by (nonlinear_arith)
            requires
                0 <= ixv as int <= pow10(9) - 1,
                1 <= pow10(fxl as nat) <= pow10(9),
        ;
        assert((ixv as int) * pow10(fxl as nat) >= 0) by (nonlinear_arith)
            requires
                0 <= ixv as int,
                1 <= pow10(fxl as nat),
        ;
        assert((iyv as int) * pow10(fyl as nat) <= (pow10(9) - 1) * pow10(9)) by (nonlinear_arith)
            requires
                0 <= iyv as int <= pow10(9) - 1,
                1 <= pow10(fyl as nat) <= pow10(9),
        ;
        assert((iyv as int) * pow10(fyl as nat) >= 0) by (nonlinear_arith)
            requires
                0 <= iyv as int,
                1 <= pow10(fyl as nat),
        ;
        assert((pow10(9) - 1) * pow10(9) + pow10(9) == pow10(9) * pow10(9)) by (nonlinear_arith);
        assert(pow10(9) * pow10(9) == pow10(18));
    }
    let magx: u128 = (ixv as u128) * (pow10_u64(fxl) as u128) + (fxv as u128);
    let magy: u128 = (iyv as u128) * (pow10_u64(fyl) as u128) + (fyv as u128);
    let sx: i128 = if nx {
        -(magx as i128)
    } else {
        magx as i128
    };
    let sy: i128 = if ny {
        -(magy as i128)
    } else {
        magy as i128
    };
    proof {
        let bound: int = pow10(18);
        assert(-bound <= sx as int <= bound);
        assert(-bound <= sy as int <= bound);
        assert(sx as int * pow10(fyl as nat) <= bound * pow10(9)) by (nonlinear_arith)
            requires
                sx as int <= bound,
                1 <= pow10(fyl as nat) <= pow10(9),
                bound >= 0,
        ;
        assert(sx as int * pow10(fyl as nat) >= -(bound * pow10(9))) by (nonlinear_arith)
            requires
                sx as int >= -bound,
                1 <= pow10(fyl as nat) <= pow10(9),
                bound >= 0,
        ;
        assert(sy as int * pow10(fxl as nat) <= bound * pow10(9)) by (nonlinear_arith)
            requires
                sy as int <= bound,
                1 <= pow10(fxl as nat) <= pow10(9),
                bound >= 0,
        ;
        assert(sy as int * pow10(fxl as nat) >= -(bound * pow10(9))) by (nonlinear_arith)
            requires
                sy as int >= -bound,
                1 <= pow10(fxl as nat) <= pow10(9),
                bound >= 0,
        ;
        assert(bound * pow10(9) == pow10(27));
        assert(pow10(27) < 0x80000000000000000000000000000000) by {
            reveal_with_fuel(pow10, 29);
        }
    }
    let lhs: i128 = sx * (pow10_u64(fyl) as i128);
    let rhs: i128 = sy * (pow10_u64(fxl) as i128);
    Some(lhs <= rhs)
}

/// Renders decimals with a fixed number of fraction digits.
pub struct DecimalFormatter {
    precision: usize,
}

impl DecimalFormatter {
    pub closed spec fn spec_precision(&self) -> nat {
        self.precision as nat
    }

    pub fn new(precision: usize) -> (r: DecimalFormatter)
        ensures
            r.spec_precision() == precision as nat,
    {
        DecimalFormatter { precision }
    }

    /// A copy with the same precision.
    pub fn clone_of(&self) -> (r: DecimalFormatter)
        ensures
            r == *self,
    {
        DecimalFormatter { precision: self.precision }
    }
}

impl FieldFormatter for DecimalFormatter {
    open spec fn spec_format(&self, v: Seq<char>) -> Option<Seq<char>> {
        spec_round_decimal(v, self.spec_precision())
    }

    open spec fn spec_accepts(&self, v: Seq<char>) -> bool {
        spec_decimal_parts(v) is Some
    }

    fn format(&self, value: &str) -> (r: Result<String, FixError>) {
        match round_decimal_str(value, self.precision) {
            Some(s) => Ok(s),
            None => Err(FixError::ParseError(String::from_str("Invalid decimal value"))),
        }
    }

    fn parse(&self, value: &str) -> (r: Result<String, FixError>) {
        if check_decimal_str(value) {
            Ok(value.to_owned())
        } else {
            Err(FixError::ParseError(String::from_str("Invalid decimal format")))
        }
    }
}

/// Whether `value` is a decimal literal, matching `spec_decimal_parts`.
pub fn check_decimal_str(value: &str) -> (r: bool)
    ensures
        r == (spec_decimal_parts(value@) is Some),
{
    let len: usize = value.unicode_len();
    let start: usize = if len > 0 && (value.get_char(0) == '-' || value.get_char(0) == '+') {
        1
    } else {
        0
    };
    let ghost body = if start == 1 {
        value@.drop_first()
    } else {
        value@
    };
    proof {
        assert(forall|j: int| 0 <= j < body.len() ==> #[trigger] body[j] == value@[j + start]);
    }
    let dot = crate::text::find_char_from(value, '.', start);
    match dot {
        None => {
            proof {
                crate::text::lemma_spec_find_none(body, '.');
            }
            let r = digits_in_range(value, start, len);
            proof {
                assert(value@.subrange(start as int, len as int) =~= body);
            }
            r && len > start
        },
        Some(d) => {
            proof {
                crate::text::lemma_spec_find_is_first(body, '.', d - start as int);
            }
            let ip_ok = digits_in_range(value, start, d);
            let fp_ok = digits_in_range(value, d + 1, len);
            proof {
                assert(value@.subrange(start as int, d as int) =~= body.take(d - start as int));
                assert(value@.subrange(d + 1 as int, len as int) =~= body.skip(d - start + 1));
            }
            ip_ok && fp_ok && (d > start || len > d + 1)
        },
    }
}

/// Every character in `[from, to)` is a digit.
fn digits_in_range(s: &str, from: usize, to: usize) -> (r: bool)
    requires
        from <= to <= s@.len(),
    ensures
        r == is_digit_seq(s@.subrange(from as int, to as int)),
{
    let mut i: usize = from;
    while i < to
        invariant
            from <= i <= to <= s@.len(),
            forall|j: int| from <= j < i ==> is_digit(#[trigger] s@[j]),
        decreases to - i,
    {
        let c = s.get_char(i);
        if !('0' <= c && c <= '9') {
            proof {
                let sub = s@.subrange(from as int, to as int);
                assert(sub[i - from] == c);
                assert(!is_digit(sub[i - from]));
            }
            return false;
        }
        i = i + 1;
    }
    proof {
        let sub = s@.subrange(from as int, to as int);
        assert(forall|j: int| 0 <= j < sub.len() ==> sub[j] == s@[j + from]);
    }
    true
}

/// Renders `value` with exactly `p` fraction digits, matching
/// `spec_round_decimal`.
#[verifier::rlimit(100)]
#[verifier::spinoff_prover]
fn round_decimal_str(value: &str, p: usize) -> (r: Option<String>)
    ensures
        match r {
            Some(s) => spec_round_decimal(value@, p as nat) == Some(s@),
            None => spec_round_decimal(value@, p as nat) is None,
        },
{
    let len: usize = value.unicode_len();
    let start: usize = if len > 0 && (value.get_char(0) == '-' || value.get_char(0) == '+') {
        1
    } else {
        0
    };
    let neg = len > 0 && value.get_char(0) == '-';
    let ghost body = if start == 1 {
        value@.drop_first()
    } else {
        value@
    };
    proof {
        assert(forall|j: int| 0 <= j < body.len() ==> #[trigger] body[j] == value@[j + start]);
    }
    if p > 9 {
        return None;
    }
    // Locate the integer- and fraction-digit runs.
    let dot = crate::text::find_char_from(value, '.', start);
    let (ip_from, ip_to, fp_from, fp_to): (usize, usize, usize, usize) = match dot {
        None => {
            proof {
                crate::text::lemma_spec_find_none(body, '.');
            }
            (start, len, len, len)
        },
        Some(d) => {
            proof {
                crate::text::lemma_spec_find_is_first(body, '.', d - start as int);
            }
            (start, d, d + 1, len)
        },
    };
    let ghost ip = body.take(ip_to - start as int);
    let ghost fp = body.skip(ip_to - start + 1).take(fp_to - fp_from as int);
    proof {
        if dot is None {
            assert(ip =~= body);
            assert(fp =~= Seq::<char>::empty());
        } else {
            assert(fp =~= body.skip(ip_to - start + 1));
        }
        assert(value@.subrange(ip_from as int, ip_to as int) =~= ip);
        assert(value@.subrange(fp_from as int, fp_to as int) =~= fp);
    }
    if ip_to == ip_from && fp_to == fp_from {
        return None;
    }
    if !digits_in_range(value, ip_from, ip_to) {
        return None;
    }
    if !digits_in_range(value, fp_from, fp_to) {
        return None;
    }
    if ip_to - ip_from > 9 {
        return None;
    }
    // The integer part.
    let whole: u64 = if ip_to == ip_from {
        proof {
            assert(ip =~= Seq::<char>::empty());
        }
        0
    } else {
        let w = parse_u32_range(value, ip_from, ip_to);
        proof {
            crate::text::lemma_val_of_digits_bound(ip);
            crate::text::lemma_pow10_le_19();
            crate::text::lemma_pow10_9();
        }
        match w {
            Some(v) => v as u64,
            None => {
                proof {
                    assert(false);
                }
                0
            },
        }
    };
    // The fraction scaled to `p` digits, rounding half away from zero.
    let fplen: usize = fp_to - fp_from;
    let frac: u64 = if fplen <= p {
        let f: u64 = if fplen == 0 {
            proof {
                assert(fp =~= Seq::<char>::empty());
            }
            0
        } else {
            let f0 = parse_u32_range(value, fp_from, fp_to);
            proof {
                crate::text::lemma_val_of_digits_bound(fp);
                crate::text::lemma_pow10_le_19();
                crate::text::lemma_pow10_9();
            }
            match f0 {
                Some(v) => v as u64,
                None => {
                    proof {
                        assert(false);
                    }
                    0
                },
            }
        };
        proof {
            crate::text::lemma_val_of_digits_bound(fp);
            crate::text::lemma_pow10_le_19();
            crate::text::lemma_pow10_pos((p - fplen) as nat);
            let q = pow10((p - fplen) as nat);
            assert(val_of_digits(fp) * q <= (pow10(fplen as nat) - 1) * q) by (nonlinear_arith)
                requires
                    val_of_digits(fp) <= pow10(fplen as nat) - 1,
                    q >= 1,
            ;
            assert((pow10(fplen as nat) - 1) * q + q == pow10(fplen as nat) * q) by (nonlinear_arith);
            lemma_pow10_add(fplen as nat, (p - fplen) as nat);
        }
        f * pow10_u64(p - fplen)
    } else {
        let base: u64 = if p == 0 {
            proof {
                assert(fp.take(0) =~= Seq::<char>::empty());
            }
            0
        } else {
            let f0 = parse_u32_range(value, fp_from, fp_from + p);
            proof {
                assert(value@.subrange(fp_from as int, fp_from + p as int) =~= fp.take(p as int));
                assert(is_digit_seq(fp.take(p as int))) by {
                    assert(forall|j: int|
                        0 <= j < p ==> #[trigger] fp.take(p as int)[j] == fp[j]);
                }
                crate::text::lemma_val_of_digits_bound(fp.take(p as int));
                crate::text::lemma_pow10_le_19();
                crate::text::lemma_pow10_9();
            }
            match f0 {
                Some(v) => v as u64,
                None => {
                    proof {
                        assert(false);
                    }
                    0
                },
            }
        };
        let next = value.get_char(fp_from + p);
        proof {
            assert(fp[p as int] == value@[fp_from + p]);
        }
        if '5' <= next && next <= '9' {
            base + 1
        } else {
            base
        }
    };
    proof {
        crate::text::lemma_pow10_le_19();
        crate::text::lemma_val_of_digits_bound(ip);
        let pw = pow10(p as nat);
        assert((whole as int) * pw <= (pow10(9) - 1) * pw) by (nonlinear_arith)
            requires whole as int <= pow10(9) - 1, pw >= 1;
        assert((pow10(9) - 1) * pw <= (pow10(9) - 1) * pow10(9)) by (nonlinear_arith)
            requires 1 <= pw <= pow10(9);
        assert((pow10(9) - 1) * pow10(9) < pow10(19)) by {
            reveal_with_fuel(pow10, 21);
        }
        if fp.len() <= p {
            lemma_pow10_add(fp.len(), (p - fp.len()) as nat);
            crate::text::lemma_val_of_digits_bound(fp);
            let q = pow10((p - fp.len()) as nat);
            assert(val_of_digits(fp) * q <= (pow10(fp.len()) - 1) * q) by (nonlinear_arith)
                requires val_of_digits(fp) <= pow10(fp.len()) - 1, q >= 1;
            assert((pow10(fp.len()) - 1) * q < pow10(p as nat)) by (nonlinear_arith)
                requires q >= 1, (pow10(fp.len())) * q == pow10(p as nat);
        } else {
            crate::text::lemma_val_of_digits_bound(fp.take(p as int));
        }
        assert(frac as int <= pow10(p as nat));
        assert(pow10(p as nat) <= pow10(9));
        crate::text::lemma_pow10_9();
        assert((whole as int) * pw <= (pow10(9) - 1) * pow10(9));
        assert((pow10(9) - 1) * pow10(9) == 999999999000000000);
        assert((whole as int) * pw + (frac as int) <= 999999999000000000 + 1000000000);
        assert((whole as int) * pw + (frac as int) < pow10(19));
    }
    let scaled: u64 = whole * pow10_u64(p) + frac;
    proof {
        assert(scaled as int == spec_scaled(ip, fp, p as nat));
    }
    // Render.
    let p10: u64 = pow10_u64(p);
    let int_part: u64 = scaled / p10;
    let frac_part: u64 = scaled % p10;
    let mut out = String::new();
    if neg {
        proof {
            reveal_strlit("-");
        }
        out.append("-");
    }
    out.append(u64_to_string(int_part).as_str());
    if p > 0 {
        proof {
            reveal_strlit(".");
        }
        out.append(".");
        out.append(u64_to_padded_string(frac_part, p).as_str());
    }
    proof {
        let sc = spec_scaled(ip, fp, p as nat);
        let digits = dec_digits_of((sc / pow10(p as nat)) as nat) + if p == 0 {
            Seq::<char>::empty()
        } else {
            seq!['.'] + padded_digits_of((sc % pow10(p as nat)) as nat, p as nat)
        };
        assert(out@ =~= if neg {
            seq!['-'] + digits
        } else {
            digits
        });
    }
    Some(out)
}

proof fn lemma_pow10_add(a: nat, b: nat)
    ensures
        pow10(a) * pow10(b) == pow10((a + b) as nat),
    decreases a,
{
    if a == 0 {
        assert(pow10(0) == 1);
    } else {
        lemma_pow10_add((a - 1) as nat, b);
        assert(pow10(a) == 10 * pow10((a - 1) as nat));
        assert((10 * pow10((a - 1) as nat)) * pow10(b) == 10 * (pow10((a - 1) as nat) * pow10(b)))
            by (nonlinear_arith);
    }
}

/// Checks that a value is a single character.
pub struct CharFormatter;

impl FieldFormatter for CharFormatter {
    open spec fn spec_format(&self, v: Seq<char>) -> Option<Seq<char>> {
        if v.len() == 1 {
            Some(v)
        } else {
            None
        }
    }

    open spec fn spec_accepts(&self, v: Seq<char>) -> bool {
        v.len() == 1
    }

    fn format(&self, value: &str) -> (r: Result<String, FixError>) {
        if value.unicode_len() == 1 {
            Ok(value.to_owned())
        } else {
            Err(
                FixError::ParseError(
                    String::from_str("Character field must be exactly one character"),
                ),
            )
        }
    }

    fn parse(&self, value: &str) -> (r: Result<String, FixError>) {
        if value.unicode_len() == 1 {
            Ok(value.to_owned())
        } else {
            Err(
                FixError::ParseError(
                    String::from_str("Character field must be exactly one character"),
                ),
            )
        }
    }
}

/// Strips the visual separator `|` on rendering; accepts anything on parse.
pub struct StringFormatter;

impl FieldFormatter for StringFormatter {
    open spec fn spec_format(&self, v: Seq<char>) -> Option<Seq<char>> {
        Some(v.filter(|c: char| c != '|'))
    }

    open spec fn spec_accepts(&self, v: Seq<char>) -> bool {
        true
    }

    fn format(&self, value: &str) -> (r: Result<String, FixError>) {
        let len: usize = value.unicode_len();
        let mut out = String::new();
        let mut i: usize = 0;
        proof {
            reveal(Seq::filter);
            assert(value@.take(0).filter(|c: char| c != '|') =~= Seq::<char>::empty());
        }
        while i < len
            invariant
                0 <= i <= len,
                len == value@.len(),
                out@ == value@.take(i as int).filter(|c: char| c != '|'),
            decreases len - i,
        {
            let c = value.get_char(i);
            proof {
                reveal(Seq::filter);
                let pre = value@.take(i as int);
                let nxt = value@.take(i + 1 as int);
                assert(nxt.drop_last() =~= pre);
                assert(nxt.last() == c);
            }
            if c != '|' {
                crate::text::push_char(&mut out, c);
            }
            i = i + 1;
        }
        proof {
            assert(value@.take(len as int) =~= value@);
        }
        Ok(out)
    }

    fn parse(&self, value: &str) -> (r: Result<String, FixError>) {
        Ok(value.to_owned())
    }
}

/// The formatter a message can attach to a tag: one of the five above.
pub enum ValueFormat {
    DateTime(DateTimeFormatter),
    Integer(IntegerFormatter),
    Decimal(DecimalFormatter),
    Char(CharFormatter),
    Plain(StringFormatter),
}

impl FieldFormatter for ValueFormat {
    open spec fn spec_format(&self, v: Seq<char>) -> Option<Seq<char>> {
        match self {
            ValueFormat::DateTime(f) => f.spec_format(v),
            ValueFormat::Integer(f) => f.spec_format(v),
            ValueFormat::Decimal(f) => f.spec_format(v),
            ValueFormat::Char(f) => f.spec_format(v),
            ValueFormat::Plain(f) => f.spec_format(v),
        }
    }

    open spec fn spec_accepts(&self, v: Seq<char>) -> bool {
        match self {
            ValueFormat::DateTime(f) => f.spec_accepts(v),
            ValueFormat::Integer(f) => f.spec_accepts(v),
            ValueFormat::Decimal(f) => f.spec_accepts(v),
            ValueFormat::Char(f) => f.spec_accepts(v),
            ValueFormat::Plain(f) => f.spec_accepts(v),
        }
    }

    fn format(&self, value: &str) -> (r: Result<String, FixError>) {
        match self {
            ValueFormat::DateTime(f) => f.format(value),
            ValueFormat::Integer(f) => f.format(value),
            ValueFormat::Decimal(f) => f.format(value),
            ValueFormat::Char(f) => f.format(value),
            ValueFormat::Plain(f) => f.format(value),
        }
    }

    fn parse(&self, value: &str) -> (r: Result<String, FixError>) {
        match self {
            ValueFormat::DateTime(f) => f.parse(value),
            ValueFormat::Integer(f) => f.parse(value),
            ValueFormat::Decimal(f) => f.parse(value),
            ValueFormat::Char(f) => f.parse(value),
            ValueFormat::Plain(f) => f.parse(value),
        }
    }
}

} // verus!
