//! Character and decimal-digit utilities shared by the wire codec, the
//! validator and the store: digit sequences, bounded integer parsing, and
//! plain string comparison.

use vstd::prelude::*;

verus! {

/// `c` is an ASCII decimal digit.
pub open spec fn is_digit(c: char) -> bool {
    48 <= c as int && c as int <= 57
}

/// The digit character for a value in `0 ..= 9`.
pub open spec fn digit_char(d: int) -> char {
    if d == 0 {
        '0'
    } else if d == 1 {
        '1'
    } else if d == 2 {
        '2'
    } else if d == 3 {
        '3'
    } else if d == 4 {
        '4'
    } else if d == 5 {
        '5'
    } else if d == 6 {
        '6'
    } else if d == 7 {
        '7'
    } else if d == 8 {
        '8'
    } else {
        '9'
    }
}

/// The numeric value of a digit character.
pub open spec fn digit_val(c: char) -> int {
    c as int - 48
}

/// Every character of `s` is a decimal digit.
pub open spec fn is_digit_seq(s: Seq<char>) -> bool {
    forall|i: int| 0 <= i < s.len() ==> is_digit(#[trigger] s[i])
}

/// The decimal rendering of `n`, most significant digit first, with no
/// leading zero except for `n == 0` itself.
pub open spec fn dec_digits_of(n: nat) -> Seq<char>
    decreases n,
{
    if n < 10 {
        seq![digit_char(n as int)]
    } else {
        dec_digits_of(n / 10).push(digit_char((n % 10) as int))
    }
}

/// The value of a digit sequence read in base ten.
pub open spec fn val_of_digits(s: Seq<char>) -> int
    decreases s.len(),
{
    if s.len() == 0 {
        0
    } else {
        val_of_digits(s.drop_last()) * 10 + digit_val(s.last())
    }
}

pub open spec fn pow10(k: nat) -> int
    decreases k,
{
    if k == 0 {
        1
    } else {
        10 * pow10((k - 1) as nat)
    }
}

/// `k` zero characters.
pub open spec fn zero_chars(k: nat) -> Seq<char> {
    Seq::new(k, |i: int| '0')
}

/// The decimal rendering of `n` left-padded with zeros to at least `w`
/// characters.
pub open spec fn padded_digits_of(n: nat, w: nat) -> Seq<char> {
    let d = dec_digits_of(n);
    if d.len() >= w {
        d
    } else {
        zero_chars((w - d.len()) as nat) + d
    }
}

pub proof fn lemma_pow10_pos(k: nat)
    ensures
        pow10(k) >= 1,
    decreases k,
{
    if k > 0 {
        lemma_pow10_pos((k - 1) as nat);
    }
}

pub proof fn lemma_dec_digits_wf(n: nat)
    ensures
        dec_digits_of(n).len() >= 1,
        is_digit_seq(dec_digits_of(n)),
    decreases n,
{
    if n >= 10 {
        lemma_dec_digits_wf(n / 10);
        assert forall|i: int| 0 <= i < dec_digits_of(n).len() implies is_digit(
            #[trigger] dec_digits_of(n)[i],
        ) by {
            if i < dec_digits_of(n / 10).len() {
                assert(dec_digits_of(n)[i] == dec_digits_of(n / 10)[i]);
            }
        }
    }
}

/// Reading back the decimal rendering of `n` yields `n`.
pub proof fn lemma_val_of_dec_digits(n: nat)
    ensures
        val_of_digits(dec_digits_of(n)) == n,
    decreases n,
{
    if n < 10 {
        let d = dec_digits_of(n);
        assert(d.len() == 1);
        assert(d.drop_last() =~= Seq::<char>::empty());
        assert(d.last() == digit_char(n as int));
        assert('0' as int == 48);
        assert(digit_val(digit_char(n as int)) == n);
        assert(val_of_digits(d.drop_last()) == 0);
        assert(val_of_digits(d) == 0 * 10 + digit_val(d.last()));
    } else {
        lemma_val_of_dec_digits(n / 10);
        let d = dec_digits_of(n);
        assert(d.drop_last() =~= dec_digits_of(n / 10));
        assert(digit_val(digit_char((n % 10) as int)) == n % 10);
        assert((n / 10) * 10 + n % 10 == n) by {
            vstd::arithmetic::div_mod::lemma_fundamental_div_mod(n as int, 10);
        }
    }
}

/// The value of a concatenation of digit strings.
pub proof fn lemma_val_of_digits_append(s: Seq<char>, t: Seq<char>)
    ensures
        val_of_digits(s + t) == val_of_digits(s) * pow10(t.len()) + val_of_digits(t),
    decreases t.len(),
{
    if t.len() == 0 {
        assert(s + t =~= s);
    } else {
        lemma_val_of_digits_append(s, t.drop_last());
        assert((s + t).drop_last() =~= s + t.drop_last());
        assert((s + t).last() == t.last());
        assert(val_of_digits(s + t) == (val_of_digits(s) * pow10((t.len() - 1) as nat)
            + val_of_digits(t.drop_last())) * 10 + digit_val(t.last()));
        assert((val_of_digits(s) * pow10((t.len() - 1) as nat)) * 10 == val_of_digits(s) * (pow10(
            (t.len() - 1) as nat,
        ) * 10)) by (nonlinear_arith);
        assert(pow10((t.len() - 1) as nat) * 10 == pow10(t.len()));
    }
}

pub proof fn lemma_val_of_digits_nonneg(s: Seq<char>)
    requires
        is_digit_seq(s),
    ensures
        val_of_digits(s) >= 0,
    decreases s.len(),
{
    if s.len() > 0 {
        assert(is_digit_seq(s.drop_last())) by {
            assert(forall|i: int|
                0 <= i < s.len() - 1 ==> #[trigger] s.drop_last()[i] == s[i]);
        }
        lemma_val_of_digits_nonneg(s.drop_last());
        assert(is_digit(s.last()));
        assert(val_of_digits(s.drop_last()) * 10 >= 0) by (nonlinear_arith)
            requires val_of_digits(s.drop_last()) >= 0;
    }
}

pub proof fn lemma_val_of_zero_chars(k: nat)
    ensures
        val_of_digits(zero_chars(k)) == 0,
    decreases k,
{
    if k > 0 {
        assert(zero_chars(k).drop_last() =~= zero_chars((k - 1) as nat));
        lemma_val_of_zero_chars((k - 1) as nat);
        assert(digit_val(zero_chars(k).last()) == 0);
    }
}

/// Left-padding with zeros does not change the value read back.
pub proof fn lemma_val_of_padded_digits(n: nat, w: nat)
    ensures
        val_of_digits(padded_digits_of(n, w)) == n,
        is_digit_seq(padded_digits_of(n, w)),
        padded_digits_of(n, w).len() >= w,
        padded_digits_of(n, w).len() >= 1,
{
    lemma_dec_digits_wf(n);
    lemma_val_of_dec_digits(n);
    let d = dec_digits_of(n);
    if d.len() < w {
        let k = (w - d.len()) as nat;
        lemma_val_of_digits_append(zero_chars(k), d);
        lemma_val_of_zero_chars(k);
        lemma_pow10_pos(d.len());
        assert(val_of_digits(zero_chars(k)) * pow10(d.len()) == 0) by (nonlinear_arith)
            requires val_of_digits(zero_chars(k)) == 0;
        assert forall|i: int| 0 <= i < padded_digits_of(n, w).len() implies is_digit(
            #[trigger] padded_digits_of(n, w)[i],
        ) by {
            if i < k {
                assert(padded_digits_of(n, w)[i] == '0');
            } else {
                assert(padded_digits_of(n, w)[i] == d[i - k]);
            }
        }
    }
}

/// A digit string's value is below `pow10` of its length.
pub proof fn lemma_val_of_digits_bound(s: Seq<char>)
    requires
        is_digit_seq(s),
    ensures
        val_of_digits(s) < pow10(s.len()),
    decreases s.len(),
{
    if s.len() == 0 {
    } else {
        assert(is_digit_seq(s.drop_last())) by {
            assert(forall|i: int|
                0 <= i < s.len() - 1 ==> #[trigger] s.drop_last()[i] == s[i]);
        }
        lemma_val_of_digits_bound(s.drop_last());
        assert(is_digit(s.last()));
        let v = val_of_digits(s.drop_last());
        assert(v * 10 <= (pow10((s.len() - 1) as nat) - 1) * 10) by (nonlinear_arith)
            requires v <= pow10((s.len() - 1) as nat) - 1;
        assert(pow10(s.len()) == 10 * pow10((s.len() - 1) as nat));
    }
}

/// Ten to the `k`.
pub fn pow10_u64(k: usize) -> (r: u64)
    requires
        k <= 19,
    ensures
        r as int == pow10(k as nat),
        r >= 1,
{
    let mut r: u64 = 1;
    let mut i: usize = 0;
    proof {
        lemma_pow10_le_19();
    }
    while i < k
        invariant
            0 <= i <= k <= 19,
            r as int == pow10(i as nat),
            pow10(19) < 0x10000000000000000,
            forall|a: nat, b: nat| a <= b ==> #[trigger] pow10(a) <= #[trigger] pow10(b),
        decreases k - i,
    {
        proof {
            assert(pow10((i + 1) as nat) == 10 * pow10(i as nat));
            assert(pow10((i + 1) as nat) <= pow10(19));
        }
        r = r * 10;
        i = i + 1;
    }
    r
}

proof fn lemma_pow10_monotone(a: nat, b: nat)
    requires
        a <= b,
    ensures
        pow10(a) <= pow10(b),
    decreases b,
{
    if a < b {
        lemma_pow10_monotone(a, (b - 1) as nat);
        lemma_pow10_pos((b - 1) as nat);
    }
}

pub proof fn lemma_pow10_9()
    ensures
        pow10(9) == 1000000000,
{
    assert(pow10(9) == 1000000000) by {
        reveal_with_fuel(pow10, 11);
    }
}

pub proof fn lemma_pow10_le_19()
    ensures
        pow10(19) == 10000000000000000000,
        pow10(19) < 0x10000000000000000,
        forall|a: nat, b: nat| a <= b ==> #[trigger] pow10(a) <= #[trigger] pow10(b),
{
    assert(pow10(19) == 10000000000000000000) by {
        reveal_with_fuel(pow10, 21);
    }
    assert forall|a: nat, b: nat| a <= b implies #[trigger] pow10(a) <= #[trigger] pow10(b) by {
        lemma_pow10_monotone(a, b);
    }
}

/// The index of the first occurrence of `c` in `s`, or `-1` if none.
pub open spec fn spec_find(s: Seq<char>, c: char) -> int
    decreases s.len(),
{
    if s.len() == 0 {
        -1
    } else if s[0] == c {
        0
    } else {
        let r = spec_find(s.drop_first(), c);
        if r < 0 {
            -1
        } else {
            r + 1
        }
    }
}

/// The converse direction: a first occurrence pins `spec_find`.
pub proof fn lemma_spec_find_is_first(s: Seq<char>, c: char, i: int)
    requires
        0 <= i < s.len(),
        s[i] == c,
        forall|j: int| 0 <= j < i ==> s[j] != c,
    ensures
        spec_find(s, c) == i,
    decreases s.len(),
{
    if i > 0 {
        assert(forall|j: int|
            0 <= j < s.len() - 1 ==> #[trigger] s.drop_first()[j] == s[j + 1]);
        lemma_spec_find_is_first(s.drop_first(), c, i - 1);
    }
}

pub proof fn lemma_spec_find_none(s: Seq<char>, c: char)
    requires
        forall|j: int| 0 <= j < s.len() ==> s[j] != c,
    ensures
        spec_find(s, c) < 0,
    decreases s.len(),
{
    if s.len() > 0 {
        assert(forall|j: int|
            0 <= j < s.len() - 1 ==> #[trigger] s.drop_first()[j] == s[j + 1]);
        lemma_spec_find_none(s.drop_first(), c);
    }
}

/// First occurrence of `c` in `s` at an index at or after `from`.
pub fn find_char_from(s: &str, c: char, from: usize) -> (r: Option<usize>)
    requires
        from <= s@.len(),
    ensures
        match r {
            Some(i) => {
                &&& from <= i < s@.len()
                &&& s@[i as int] == c
                &&& forall|j: int| from <= j < i ==> s@[j] != c
            },
            None => forall|j: int| from <= j < s@.len() ==> s@[j] != c,
        },
{
    let len: usize = s.unicode_len();
    let mut i: usize = from;
    while i < len
        invariant
            from <= i <= len,
            len == s@.len(),
            forall|j: int| from <= j < i ==> s@[j] != c,
        decreases len - i,
    {
        if s.get_char(i) == c {
            return Some(i);
        }
        i = i + 1;
    }
    None
}

/// Plain string comparison with an exact contract.
pub fn str_eq(a: &str, b: &str) -> (r: bool)
    ensures
        r == (a@ == b@),
{
    let alen: usize = a.unicode_len();
    let blen: usize = b.unicode_len();
    if alen != blen {
        proof {
            assert(a@.len() != b@.len());
        }
        return false;
    }
    let mut i: usize = 0;
    while i < alen
        invariant
            0 <= i <= alen,
            alen == a@.len(),
            alen == b@.len(),
            forall|j: int| 0 <= j < i ==> a@[j] == b@[j],
        decreases alen - i,
    {
        if a.get_char(i) != b.get_char(i) {
            proof {
                assert(a@[i as int] != b@[i as int]);
            }
            return false;
        }
        i = i + 1;
    }
    proof {
        assert(a@ =~= b@);
    }
    true
}

/// The outcome of reading `s` as an optionally-signed decimal integer that
/// fits an `i32`.
pub open spec fn spec_parse_i32(s: Seq<char>) -> Option<int> {
    if s.len() > 0 && s[0] == '-' {
        let d = s.drop_first();
        if d.len() > 0 && is_digit_seq(d) && val_of_digits(d) <= i32::MAX as int {
            Some(-val_of_digits(d))
        } else {
            None
        }
    } else {
        if s.len() > 0 && is_digit_seq(s) && val_of_digits(s) <= i32::MAX as int {
            Some(val_of_digits(s))
        } else {
            None
        }
    }
}

/// Reads an unsigned digit string bounded by `u32::MAX`, scanning the
/// character range `[from, to)` of `s`.
pub fn parse_u32_range(s: &str, from: usize, to: usize) -> (r: Option<u32>)
    requires
        from <= to <= s@.len(),
    ensures
        match r {
            Some(v) => {
                &&& is_digit_seq(s@.subrange(from as int, to as int))
                &&& to > from
                &&& val_of_digits(s@.subrange(from as int, to as int)) == v as int
            },
            None => !{
                &&& is_digit_seq(s@.subrange(from as int, to as int))
                &&& to > from
                &&& val_of_digits(s@.subrange(from as int, to as int)) <= u32::MAX as int
            },
        },
{
    let ghost whole = s@.subrange(from as int, to as int);
    if from == to {
        return None;
    }
    let mut acc: u64 = 0;
    let mut i: usize = from;
    while i < to
        invariant
            from <= i <= to <= s@.len(),
            whole == s@.subrange(from as int, to as int),
            is_digit_seq(s@.subrange(from as int, i as int)),
            acc as int == val_of_digits(s@.subrange(from as int, i as int)),
            acc <= u32::MAX as u64,
        decreases to - i,
    {
        let c = s.get_char(i);
        if !('0' <= c && c <= '9') {
            proof {
                assert(whole[i - from] == c);
                assert(!is_digit(whole[i - from]));
            }
            return None;
        }
        let d: u64 = (c as u64) - 48;
        proof {
            let pre = s@.subrange(from as int, i as int);
            let nxt = s@.subrange(from as int, i + 1 as int);
            assert(nxt.drop_last() =~= pre);
            assert(nxt.last() == c);
            assert(forall|j: int| 0 <= j < nxt.len() ==> nxt[j] == whole[j]);
        }
        let new_acc: u64 = acc * 10 + d;
        if new_acc > u32::MAX as u64 {
            proof {
                let pre2 = s@.subrange(from as int, i + 1 as int);
                let rest = s@.subrange(i + 1 as int, to as int);
                assert(whole =~= pre2 + rest);
                if is_digit_seq(whole) {
                    assert(is_digit_seq(rest)) by {
                        assert(forall|j: int|
                            0 <= j < rest.len() ==> rest[j] == whole[j + (i + 1 - from)]);
                    }
                    lemma_val_of_digits_append(pre2, rest);
                    lemma_val_of_digits_nonneg(rest);
                    lemma_pow10_pos(rest.len());
                    assert(val_of_digits(pre2) * pow10(rest.len()) >= val_of_digits(pre2))
                        by (nonlinear_arith)
                        requires
                            val_of_digits(pre2) >= 0,
                            pow10(rest.len()) >= 1,
                    ;
                    assert(val_of_digits(whole) > u32::MAX as int);
                }
            }
            return None;
        }
        acc = new_acc;
        i = i + 1;
    }
    proof {
        assert(s@.subrange(from as int, i as int) =~= whole);
    }
    Some(acc as u32)
}

/// Reads an unsigned digit string bounded by `u64::MAX`, scanning the
/// character range `[from, to)` of `s`.
pub fn parse_u64_range(s: &str, from: usize, to: usize) -> (r: Option<u64>)
    requires
        from <= to <= s@.len(),
    ensures
        match r {
            Some(v) => {
                &&& is_digit_seq(s@.subrange(from as int, to as int))
                &&& to > from
                &&& val_of_digits(s@.subrange(from as int, to as int)) == v as int
            },
            None => !{
                &&& is_digit_seq(s@.subrange(from as int, to as int))
                &&& to > from
                &&& val_of_digits(s@.subrange(from as int, to as int)) <= u64::MAX as int
            },
        },
{
    let ghost whole = s@.subrange(from as int, to as int);
    if from == to {
        return None;
    }
    let mut acc: u128 = 0;
    let mut i: usize = from;
    while i < to
        invariant
            from <= i <= to <= s@.len(),
            whole == s@.subrange(from as int, to as int),
            is_digit_seq(s@.subrange(from as int, i as int)),
            acc as int == val_of_digits(s@.subrange(from as int, i as int)),
            acc <= u64::MAX as u128,
        decreases to - i,
    {
        let c = s.get_char(i);
        if !('0' <= c && c <= '9') {
            proof {
                assert(whole[i - from] == c);
                assert(!is_digit(whole[i - from]));
            }
            return None;
        }
        let d: u128 = (c as u128) - 48;
        proof {
            let pre = s@.subrange(from as int, i as int);
            let nxt = s@.subrange(from as int, i + 1 as int);
            assert(nxt.drop_last() =~= pre);
            assert(nxt.last() == c);
            assert(forall|j: int| 0 <= j < nxt.len() ==> nxt[j] == whole[j]);
        }
        let new_acc: u128 = acc * 10 + d;
        if new_acc > u64::MAX as u128 {
            proof {
                let pre2 = s@.subrange(from as int, i + 1 as int);
                let rest = s@.subrange(i + 1 as int, to as int);
                assert(whole =~= pre2 + rest);
                if is_digit_seq(whole) {
                    assert(is_digit_seq(rest)) by {
                        assert(forall|j: int|
                            0 <= j < rest.len() ==> rest[j] == whole[j + (i + 1 - from)]);
                    }
                    lemma_val_of_digits_append(pre2, rest);
                    lemma_val_of_digits_nonneg(rest);
                    lemma_pow10_pos(rest.len());
                    assert(val_of_digits(pre2) * pow10(rest.len()) >= val_of_digits(pre2))
                        by (nonlinear_arith)
                        requires
                            val_of_digits(pre2) >= 0,
                            pow10(rest.len()) >= 1,
                    ;
                    assert(val_of_digits(whole) > u64::MAX as int);
                }
            }
            return None;
        }
        acc = new_acc;
        i = i + 1;
    }
    proof {
        assert(s@.subrange(from as int, i as int) =~= whole);
    }
    Some(acc as u64)
}

/// Reads a whole string as an unsigned decimal bounded by `u32::MAX`.
pub fn parse_u32_str(s: &str) -> (r: Option<u32>)
    ensures
        match r {
            Some(v) => {
                &&& is_digit_seq(s@)
                &&& s@.len() > 0
                &&& val_of_digits(s@) == v as int
            },
            None => !{
                &&& is_digit_seq(s@)
                &&& s@.len() > 0
                &&& val_of_digits(s@) <= u32::MAX as int
            },
        },
{
    let len: usize = s.unicode_len();
    let r = parse_u32_range(s, 0, len);
    proof {
        assert(s@.subrange(0, len as int) =~= s@);
    }
    r
}

/// Reads a whole string as an optionally-signed decimal `i32`, with
/// `spec_parse_i32` as the exact account of the outcome.
pub fn parse_i32_str(s: &str) -> (r: Option<i32>)
    ensures
        match r {
            Some(v) => spec_parse_i32(s@) == Some(v as int),
            None => spec_parse_i32(s@) is None,
        },
{
    let len: usize = s.unicode_len();
    if len == 0 {
        return None;
    }
    if s.get_char(0) == '-' {
        let m = parse_u32_range(s, 1, len);
        proof {
            assert(s@.subrange(1, len as int) =~= s@.drop_first());
        }
        match m {
            Some(v) => {
                if v <= i32::MAX as u32 {
                    Some(-(v as i32))
                } else {
                    None
                }
            },
            None => None,
        }
    } else {
        let m = parse_u32_range(s, 0, len);
        proof {
            assert(s@.subrange(0, len as int) =~= s@);
        }
        match m {
            Some(v) => {
                if v <= i32::MAX as u32 {
                    Some(v as i32)
                } else {
                    None
                }
            },
            None => None,
        }
    }
}

/// Writes `n` in decimal.
fn digit_str(d: u64) -> (r: &'static str)
    requires
        d < 10,
    ensures
        r@ =~= seq![digit_char(d as int)],
{
    proof {
        reveal_strlit("0");
        reveal_strlit("1");
        reveal_strlit("2");
        reveal_strlit("3");
        reveal_strlit("4");
        reveal_strlit("5");
        reveal_strlit("6");
        reveal_strlit("7");
        reveal_strlit("8");
        reveal_strlit("9");
    }
    if d == 0 {
        "0"
    } else if d == 1 {
        "1"
    } else if d == 2 {
        "2"
    } else if d == 3 {
        "3"
    } else if d == 4 {
        "4"
    } else if d == 5 {
        "5"
    } else if d == 6 {
        "6"
    } else if d == 7 {
        "7"
    } else if d == 8 {
        "8"
    } else {
        "9"
    }
}

/// The decimal rendering of `n`, matching `dec_digits_of`.
pub fn u64_to_string(n: u64) -> (s: String)
    ensures
        s@ == dec_digits_of(n as nat),
    decreases n,
{
    if n < 10 {
        String::from_str(digit_str(n))
    } else {
        let mut s = u64_to_string(n / 10);
        s.append(digit_str(n % 10));
        proof {
            assert(s@ =~= dec_digits_of((n / 10) as nat).push(digit_char((n as nat % 10) as int)));
        }
        s
    }
}

/// Relies on `String::push`: appends exactly the given character.
#[verifier::external_body]
pub fn push_char(s: &mut String, c: char)
    ensures
        final(s)@ == old(s)@.push(c),
{
    s.push(c)
}

/// The zero-padded decimal rendering of `n`, matching `padded_digits_of`.
pub fn u64_to_padded_string(n: u64, w: usize) -> (s: String)
    ensures
        s@ == padded_digits_of(n as nat, w as nat),
{
    let digits = u64_to_string(n);
    let dlen: usize = digits.as_str().unicode_len();
    if dlen >= w {
        digits
    } else {
        let k: usize = w - dlen;
        let mut out = String::new();
        let mut i: usize = 0;
        while i < k
            invariant
                0 <= i <= k,
                out@ =~= zero_chars(i as nat),
            decreases k - i,
        {
            proof {
                reveal_strlit("0");
            }
            out.append("0");
            proof {
                assert(out@ =~= zero_chars((i + 1) as nat));
            }
            i = i + 1;
        }
        out.append(digits.as_str());
        proof {
            assert(out@ =~= zero_chars(k as nat) + digits@);
        }
        out
    }
}

} // verus!
