//! Characters, decimal numbers and whitespace-separated fields: the pieces of
//! the `.mel` text format.

use vstd::prelude::*;

verus! {

/// `char::is_whitespace`: the Unicode `White_Space` property.
pub open spec fn is_space(c: char) -> bool {
    let u = c as u32;
    ||| 0x09 <= u <= 0x0D
    ||| u == 0x20
    ||| u == 0x85
    ||| u == 0xA0
    ||| u == 0x1680
    ||| 0x2000 <= u <= 0x200A
    ||| u == 0x2028
    ||| u == 0x2029
    ||| u == 0x202F
    ||| u == 0x205F
    ||| u == 0x3000
}

pub open spec fn is_digit(c: char) -> bool {
    '0' <= c <= '9'
}

pub open spec fn digit_val(c: char) -> nat {
    (c as int - '0' as int) as nat
}

pub open spec fn digit_char(d: nat) -> char
    recommends
        d < 10,
{
    (d + '0' as nat) as char
}

pub open spec fn all_digits(s: Seq<char>) -> bool {
    forall|i: int| 0 <= i < s.len() ==> is_digit(#[trigger] s[i])
}

/// The value of a string of decimal digits, most significant first.
pub open spec fn digits_value(s: Seq<char>) -> nat
    decreases s.len(),
{
    if s.len() == 0 {
        0
    } else {
        digits_value(s.drop_last()) * 10 + digit_val(s.last())
    }
}

/// The shortest decimal spelling of `n`.
pub open spec fn decimal(n: nat) -> Seq<char>
    decreases n,
{
    if n < 10 {
        seq![digit_char(n)]
    } else {
        decimal(n / 10).push(digit_char(n % 10))
    }
}

/// `s` without one leading `+`, as integer parsing accepts it.
pub open spec fn strip_plus(s: Seq<char>) -> Seq<char> {
    if s.len() > 0 && s[0] == '+' {
        s.drop_first()
    } else {
        s
    }
}

/// What `str::parse` of an unsigned integer type whose largest value is `max`
/// gives: an optional `+`, then one or more ASCII digits, of value at most `max`.
pub open spec fn parse_uint(s: Seq<char>, max: nat) -> Option<nat> {
    let body = strip_plus(s);
    if body.len() > 0 && all_digits(body) && digits_value(body) <= max {
        Some(digits_value(body))
    } else {
        None
    }
}

/// Where a decimal point splits `body`: at its first `.`, or at its end where
/// it has none.
pub open spec fn point_at(body: Seq<char>) -> int
    decreases body.len(),
{
    if body.len() == 0 {
        0
    } else if body[0] == '.' {
        0
    } else {
        1 + point_at(body.drop_first())
    }
}

/// Where the exponent of a float literal starts: at its first `e` or `E`, or
/// at its end where it has none.
pub open spec fn exp_at(body: Seq<char>) -> int
    decreases body.len(),
{
    if body.len() == 0 {
        0
    } else if body[0] == 'e' || body[0] == 'E' {
        0
    } else {
        1 + exp_at(body.drop_first())
    }
}

/// The length of a leading sign, `+` or `-`.
pub open spec fn sign_len(s: Seq<char>) -> int {
    if s.len() > 0 && (s[0] == '+' || s[0] == '-') {
        1
    } else {
        0
    }
}

/// Whether the text after an exponent marker is a sign and one or more digits.
pub open spec fn exp_valid(ex: Seq<char>) -> bool {
    ex.skip(sign_len(ex)).len() > 0 && all_digits(ex.skip(sign_len(ex)))
}

/// The value of the text after an exponent marker.
pub open spec fn exp_value(ex: Seq<char>) -> int {
    if ex.len() > 0 && ex[0] == '-' {
        -digits_value(ex.skip(sign_len(ex)))
    } else {
        digits_value(ex.skip(sign_len(ex))) as int
    }
}

/// A finite decimal number as `str::parse::<f32>` reads one: its sign, the
/// digits before and after the point, and the power of ten it is scaled by.
pub struct FloatText {
    pub negative: bool,
    pub int_digits: Seq<char>,
    pub frac_digits: Seq<char>,
    pub exp: int,
}

/// The parts of a float literal: an optional sign, digits with at most one
/// point (at least one digit), and optionally `e` or `E`, a sign and one or
/// more digits. `None` for anything else, the words `inf`, `infinity` and
/// `nan` among them.
pub open spec fn scan_float(s: Seq<char>) -> Option<FloatText> {
    let body = s.skip(sign_len(s));
    let k = exp_at(body);
    let mant = body.take(k);
    let p = point_at(mant);
    let ip = mant.take(p);
    let fp = if p < mant.len() { mant.skip(p + 1) } else { Seq::<char>::empty() };
    let ex = if k < body.len() { body.skip(k + 1) } else { Seq::<char>::empty() };
    if ip.len() + fp.len() > 0 && all_digits(ip) && all_digits(fp) && (k < body.len()
        ==> exp_valid(ex)) {
        Some(
            FloatText {
                negative: sign_len(s) == 1 && s[0] == '-',
                int_digits: ip,
                frac_digits: fp,
                exp: exp_value(ex),
            },
        )
    } else {
        None
    }
}

pub open spec fn pow10(k: nat) -> nat
    decreases k,
{
    if k == 0 {
        1
    } else {
        10 * pow10((k - 1) as nat)
    }
}

/// The whole part of the number whose digits are `d`, with the point after
/// the first `q` of them.
pub open spec fn whole_at(d: Seq<char>, q: int) -> nat {
    if q <= 0 {
        0
    } else if q <= d.len() {
        digits_value(d.take(q))
    } else {
        digits_value(d) * pow10((q - d.len()) as nat)
    }
}

/// The number whose digits are `d`, with the point after the first `q` of
/// them, rounded half up to a whole number: the digits before the point (with
/// zeros after the last digit where `q` is past it), plus one where the first
/// digit after the point is 5 or more.
pub open spec fn rounded_at(d: Seq<char>, q: int) -> nat {
    whole_at(d, q) + if 0 <= q < d.len() && '5' <= d[q] {
        1nat
    } else {
        0nat
    }
}

/// A strength read in hundredths: the text as `str::parse::<f32>` reads a
/// finite number, times 100, rounded half up. A negative strength that does
/// not round to 0, an infinite or NaN one, one above `u32::MAX` hundredths,
/// and text that is no float literal give `None`.
pub closed spec fn parse_hundredths(s: Seq<char>) -> Option<nat> {
    match scan_float(s) {
        Some(x) => {
            let h = rounded_at(x.int_digits + x.frac_digits, x.int_digits.len() + x.exp + 2);
            if x.negative && h > 0 {
                None
            } else if h <= u32::MAX {
                Some(h)
            } else {
                None
            }
        },
        None => None,
    }
}

/// Two digits, tens first.
pub open spec fn two_digits(n: nat) -> Seq<char> {
    seq![digit_char((n / 10) % 10), digit_char(n % 10)]
}

/// `v` hundredths written with two decimals, as `{:.2}` writes `v / 100`.
pub open spec fn hundredths_text(v: nat) -> Seq<char> {
    decimal(v / 100) + seq!['.'] + two_digits(v % 100)
}

pub open spec fn no_space(s: Seq<char>) -> bool {
    forall|i: int| 0 <= i < s.len() ==> !is_space(#[trigger] s[i])
}

pub proof fn lemma_digit_char(d: nat)
    requires
        d < 10,
    ensures
        is_digit(digit_char(d)),
        digit_val(digit_char(d)) == d,
        !is_space(digit_char(d)),
        digit_char(d) != '+',
        digit_char(d) != '.',
{
}

/// A decimal spelling is a non-empty run of digits that reads back as the number.
pub proof fn lemma_decimal(n: nat)
    ensures
        decimal(n).len() > 0,
        all_digits(decimal(n)),
        no_space(decimal(n)),
        decimal(n)[0] != '+',
        digits_value(decimal(n)) == n,
    decreases n,
{
    lemma_digit_char(n % 10);
    if n < 10 {
        assert(decimal(n).drop_last() =~= Seq::<char>::empty());
        assert(digits_value(Seq::<char>::empty()) == 0);
    } else {
        lemma_decimal(n / 10);
        assert(decimal(n).drop_last() =~= decimal(n / 10));
        assert(decimal(n).last() == digit_char(n % 10));
        assert(digits_value(decimal(n)) == digits_value(decimal(n / 10)) * 10 + n % 10);
        assert(n == (n / 10) * 10 + n % 10);
    }
}

/// Reading a number's decimal spelling gives the number back.
pub proof fn lemma_parse_decimal(n: nat, max: nat)
    requires
        n <= max,
    ensures
        parse_uint(decimal(n), max) == Some(n),
{
    lemma_decimal(n);
}

/// The value of a run of digits is at least that of any of its prefixes.
pub proof fn lemma_digits_value_prefix(s: Seq<char>, k: int)
    requires
        0 <= k <= s.len(),
    ensures
        digits_value(s.take(k)) <= digits_value(s),
    decreases s.len(),
{
    if k < s.len() {
        lemma_digits_value_prefix(s.drop_last(), k);
        assert(s.drop_last().take(k) =~= s.take(k));
    } else {
        assert(s.take(k) =~= s);
    }
}

/// Appends the decimal spelling of `n`.
pub fn push_decimal(out: &mut Vec<char>, n: u64)
    ensures
        final(out)@ == old(out)@ + decimal(n as nat),
    decreases n,
{
    if n >= 10 {
        push_decimal(out, n / 10);
    }
    let d: u32 = (n % 10) as u32;
    let c: char = match d {
        0 => '0',
        1 => '1',
        2 => '2',
        3 => '3',
        4 => '4',
        5 => '5',
        6 => '6',
        7 => '7',
        8 => '8',
        _ => '9',
    };
    out.push(c);
    proof {
        assert(c == digit_char((n % 10) as nat));
    }
}


/// Two more digits on a run of digits: its value times 100 plus theirs.
proof fn lemma_digits_value_two(d: Seq<char>, c1: char, c2: char)
    ensures
        digits_value(d + seq![c1, c2]) == digits_value(d) * 100 + digit_val(c1) * 10 + digit_val(
            c2,
        ),
{
    let t = d + seq![c1, c2];
    assert(t.drop_last() =~= d.push(c1));
    assert(d.push(c1).drop_last() =~= d);
    assert(t.last() == c2);
    assert(d.push(c1).last() == c1);
    let a = digits_value(d);
    assert(digits_value(d.push(c1)) == a * 10 + digit_val(c1));
    assert(digits_value(t) == digits_value(d.push(c1)) * 10 + digit_val(c2));
    assert((a * 10 + digit_val(c1)) * 10 == a * 100 + digit_val(c1) * 10) by (nonlinear_arith);
}

/// Two-decimal text reads back as the same number of hundredths.
pub proof fn lemma_parse_hundredths_text(v: nat)
    requires
        v <= u32::MAX,
    ensures
        parse_hundredths(hundredths_text(v)) == Some(v),
        no_space(hundredths_text(v)),
        hundredths_text(v).len() > 0,
{
    let t = hundredths_text(v);
    let d = decimal(v / 100);
    let tw = two_digits(v % 100);
    lemma_decimal(v / 100);
    lemma_digit_char((v % 100) / 10 % 10);
    lemma_digit_char(v % 100 % 10);
    let k = d.len() as int;
    assert(t[k] == '.');
    assert(sign_len(t) == 0);
    assert(t.skip(0) =~= t);
    assert forall|q: int| 0 <= q < t.len() implies #[trigger] t[q] != 'e' && t[q] != 'E' by {
        if q < k {
            assert(t[q] == d[q]);
        } else if q > k {
            assert(t[q] == tw[q - k - 1]);
        }
    }
    lemma_exp_at(t, t.len() as int);
    assert(exp_at(t) == t.len());
    assert(t.take(t.len() as int) =~= t);
    assert forall|q: int| 0 <= q < k implies #[trigger] t[q] != '.' by {
        assert(t[q] == d[q]);
    }
    lemma_point_at(t, k);
    assert(point_at(t) == k);
    assert(t.take(k) =~= d);
    assert(t.skip(k + 1) =~= tw);
    let x = scan_float(t)->0;
    assert(scan_float(t) is Some);
    assert(x.int_digits == d);
    assert(x.frac_digits == tw);
    assert(x.exp == 0);
    let all = d + tw;
    assert(all.take(all.len() as int) =~= all);
    lemma_digits_value_two(d, tw[0], tw[1]);
    assert(tw =~= seq![tw[0], tw[1]]);
    assert(rounded_at(all, d.len() + 2int) == digits_value(all));
    assert(v == (v / 100) * 100 + v % 100);
    assert((v % 100) / 10 % 10 == (v % 100) / 10);
    assert(v % 100 == ((v % 100) / 10) * 10 + v % 100 % 10);
    assert forall|i: int| 0 <= i < t.len() implies !is_space(#[trigger] t[i]) by {
        if i < k {
            assert(t[i] == d[i]);
        } else if i > k {
            assert(t[i] == tw[i - k - 1]);
        }
    }
}

/// The digit a char stands for, as a `u32`.
fn digit_of(c: char) -> (r: Option<u32>)
    ensures
        is_digit(c) ==> r == Some(digit_val(c) as u32),
        !is_digit(c) ==> r is None,
{
    let u = c as u32;
    if 48 <= u && u <= 57 {
        Some(u - 48)
    } else {
        None
    }
}

/// Reads an unsigned number no larger than `max`, as `str::parse` does.
pub fn parse_uint_chars(s: &Vec<char>, max: u64) -> (r: Option<u64>)
    requires
        max <= u32::MAX,
    ensures
        match parse_uint(s@, max as nat) {
            Some(v) => r == Some(v as u64),
            None => r is None,
        },
{
    let n = s.len();
    let start: usize = if n > 0 && s[0] == '+' {
        1
    } else {
        0
    };
    let ghost body = strip_plus(s@);
    assert(body =~= s@.subrange(start as int, n as int));
    if start >= n {
        return None;
    }
    let mut acc: u64 = 0;
    let mut i = start;
    assert(body.take(0) =~= Seq::<char>::empty());
    while i < n
        invariant
            start <= i <= n,
            n == s@.len(),
            body == s@.subrange(start as int, n as int),
            body == strip_plus(s@),
            max <= u32::MAX,
            acc == digits_value(body.take(i - start)),
            all_digits(body.take(i - start)),
            acc <= max,
        decreases n - i,
    {
        let c = s[i];
        let dig = digit_of(c);
        if dig.is_none() {
            assert(body[i - start] == c);
            assert(!is_digit(body[i - start]));
            assert(!all_digits(body));
            return None;
        }
        let d = dig.unwrap();
        let next = acc * 10 + d as u64;
        proof {
            assert(body.take(i + 1 - start).drop_last() =~= body.take(i - start));
            assert(body.take(i + 1 - start).last() == c);
        }
        if next > max {
            proof {
                lemma_digits_value_prefix(body, i + 1 - start);
                assert(next == digits_value(body.take(i + 1 - start)));
                assert(digits_value(body) > max);
            }
            return None;
        }
        acc = next;
        i = i + 1;
    }
    assert(body.take(n - start) =~= body);
    Some(acc)
}

pub proof fn lemma_exp_at(s: Seq<char>, m: int)
    requires
        0 <= m <= s.len(),
        forall|q: int| 0 <= q < m ==> #[trigger] s[q] != 'e' && s[q] != 'E',
    ensures
        m <= exp_at(s) <= s.len(),
        m < s.len() && (s[m] == 'e' || s[m] == 'E') ==> exp_at(s) == m,
    decreases s.len(),
{
    if s.len() > 0 && s[0] != 'e' && s[0] != 'E' {
        let t = s.drop_first();
        let m2 = if m > 0 { m - 1 } else { 0 };
        assert forall|q: int| 0 <= q < m2 implies #[trigger] t[q] != 'e' && t[q] != 'E' by {
            assert(t[q] == s[q + 1]);
        }
        lemma_exp_at(t, m2);
    }
}

pub proof fn lemma_point_at(s: Seq<char>, m: int)
    requires
        0 <= m <= s.len(),
        forall|q: int| 0 <= q < m ==> #[trigger] s[q] != '.',
    ensures
        m <= point_at(s) <= s.len(),
        point_at(s) < s.len() ==> s[point_at(s)] == '.',
        m < s.len() && s[m] == '.' ==> point_at(s) == m,
        forall|q: int| 0 <= q < point_at(s) ==> #[trigger] s[q] != '.',
    decreases s.len(),
{
    if s.len() > 0 && s[0] != '.' {
        let t = s.drop_first();
        let m2 = if m > 0 { m - 1 } else { 0 };
        assert forall|q: int| 0 <= q < m2 implies #[trigger] t[q] != '.' by {
            assert(t[q] == s[q + 1]);
        }
        lemma_point_at(t, m2);
        assert forall|q: int| 0 <= q < point_at(s) implies #[trigger] s[q] != '.' by {
            if q > 0 {
                assert(s[q] == t[q - 1]);
            }
        }
    }
}

proof fn lemma_pow10_ge(k: nat)
    ensures
        pow10(k) >= 1,
        k >= 10 ==> pow10(k) >= 10000000000,
    decreases k,
{
    if k > 0 {
        lemma_pow10_ge((k - 1) as nat);
        if k == 10 {
            reveal_with_fuel(pow10, 11);
        }
    }
}

/// Far from the digits, where the point stands no longer matters: far to the
/// right the number is 0 or too large, far to the left it rounds to 0.
proof fn lemma_rounded_far(d: Seq<char>, q1: int, q2: int)
    requires
        (q1 >= d.len() + 10 && q2 >= d.len() + 10) || (q1 < 0 && q2 < 0),
    ensures
        rounded_at(d, q1) <= u32::MAX <==> rounded_at(d, q2) <= u32::MAX,
        rounded_at(d, q1) <= u32::MAX ==> rounded_at(d, q1) == rounded_at(d, q2),
{
    if q1 >= 0 {
        let k1 = (q1 - d.len()) as nat;
        let k2 = (q2 - d.len()) as nat;
        lemma_pow10_ge(k1);
        lemma_pow10_ge(k2);
        let v = digits_value(d);
        assert(rounded_at(d, q1) == v * pow10(k1));
        assert(rounded_at(d, q2) == v * pow10(k2));
        if v == 0 {
            assert(v * pow10(k1) == 0) by (nonlinear_arith)
                requires
                    v == 0,
            ;
            assert(v * pow10(k2) == 0) by (nonlinear_arith)
                requires
                    v == 0,
            ;
        } else {
            assert(v * pow10(k1) >= pow10(k1)) by (nonlinear_arith)
                requires
                    v >= 1,
            ;
            assert(v * pow10(k2) >= pow10(k2)) by (nonlinear_arith)
                requires
                    v >= 1,
            ;
        }
    }
}

/// The number with digits `d` and the point after the first `q`, rounded
/// half up (see `rounded_at`); `None` where that exceeds `u32::MAX`.
#[verifier::loop_isolation(false)]
fn rounded(d: &Vec<char>, q: i128) -> (r: Option<u64>)
    requires
        all_digits(d@),
    ensures
        rounded_at(d@, q as int) <= u32::MAX ==> r == Some(rounded_at(d@, q as int) as u64),
        rounded_at(d@, q as int) > u32::MAX ==> r is None,
{
    let n = d.len();
    let mut acc: u64 = 0;
    if q > 0 {
        let m: usize = if q < n as i128 {
            q as usize
        } else {
            n
        };
        let mut i: usize = 0;
        assert(d@.take(0) =~= Seq::<char>::empty());
        while i < m
            invariant
                m <= n == d@.len(),
                i <= m,
                all_digits(d@),
                acc == digits_value(d@.take(i as int)),
                acc <= u32::MAX,
            decreases m - i,
        {
            let c = d[i];
            let dig = digit_of(c);
            assert(is_digit(d@[i as int]));
            let next = acc * 10 + dig.unwrap() as u64;
            proof {
                assert(d@.take(i + 1).drop_last() =~= d@.take(i as int));
                assert(d@.take(i + 1).last() == c);
            }
            if next > 4294967295 {
                proof {
                    let whole_digits = d@.take(m as int);
                    assert(whole_digits.take(i + 1) =~= d@.take(i + 1));
                    lemma_digits_value_prefix(whole_digits, i + 1);
                    if q > n as i128 {
                        assert(whole_digits =~= d@);
                        lemma_pow10_ge((q - n) as nat);
                        assert(digits_value(d@) * pow10((q - n) as nat) >= digits_value(d@))
                            by (nonlinear_arith)
                            requires
                                pow10((q - n) as nat) >= 1,
                        ;
                    }
                }
                return None;
            }
            acc = next;
            i = i + 1;
        }
        if q > n as i128 {
            assert(d@.take(n as int) =~= d@);
            let mut k: i128 = q - n as i128;
            while k > 0 && acc != 0
                invariant
                    0 <= k <= q - n,
                    q > n,
                    acc <= u32::MAX,
                    acc * pow10(k as nat) == digits_value(d@) * pow10((q - n) as nat),
                decreases k,
            {
                let next = acc * 10;
                proof {
                    assert(pow10(k as nat) == 10 * pow10((k - 1) as nat));
                    assert(acc * pow10(k as nat) == next * pow10((k - 1) as nat)) by (nonlinear_arith)
                        requires
                            pow10(k as nat) == 10 * pow10((k - 1) as nat),
                            next == acc * 10,
                    ;
                }
                if next > 4294967295 {
                    proof {
                        lemma_pow10_ge((k - 1) as nat);
                        assert(next * pow10((k - 1) as nat) >= next) by (nonlinear_arith)
                            requires
                                pow10((k - 1) as nat) >= 1,
                        ;
                    }
                    return None;
                }
                acc = next;
                k = k - 1;
            }
            proof {
                if acc == 0 {
                    assert(acc * pow10(k as nat) == 0) by (nonlinear_arith)
                        requires
                            acc == 0,
                    ;
                } else {
                    assert(k == 0);
                    assert(pow10(0) == 1);
                    assert(acc * pow10(k as nat) == acc) by (nonlinear_arith)
                        requires
                            pow10(k as nat) == 1,
                    ;
                }
                assert(acc == whole_at(d@, q as int));
            }
        } else {
            assert(d@.take(q as int) == d@.take(m as int));
            assert(acc == whole_at(d@, q as int));
        }
    }
    assert(acc == whole_at(d@, q as int));
    if 0 <= q && q < n as i128 {
        let qi = q as usize;
        if d[qi] >= '5' {
            if acc == 4294967295 {
                return None;
            }
            acc = acc + 1;
        }
    }
    Some(acc)
}

/// The value of a run of digits, or a number above `cap` where it exceeds
/// `cap`.
fn capped_digits(s: &Vec<char>, from: usize, cap: u128) -> (r: u128)
    requires
        from <= s@.len(),
        all_digits(s@.skip(from as int)),
        cap <= 0x1_0000_0000_0000_0000_0000,
    ensures
        r <= digits_value(s@.skip(from as int)),
        r <= cap ==> r == digits_value(s@.skip(from as int)),
        r <= cap * 10 + 9,
{
    let ghost t = s@.skip(from as int);
    let mut acc: u128 = 0;
    let mut i = from;
    assert(t.take(0) =~= Seq::<char>::empty());
    while i < s.len()
        invariant
            from <= i <= s@.len(),
            t == s@.skip(from as int),
            all_digits(t),
            cap <= 0x1_0000_0000_0000_0000_0000,
            acc <= digits_value(t.take(i - from)),
            acc <= cap ==> acc == digits_value(t.take(i - from)),
            acc <= cap * 10 + 9,
        decreases s@.len() - i,
    {
        let c = s[i];
        assert(t[i - from] == c);
        let dig = digit_of(c);
        proof {
            assert(t.take(i + 1 - from).drop_last() =~= t.take(i - from));
            assert(t.take(i + 1 - from).last() == c);
        }
        if acc <= cap {
            acc = acc * 10 + dig.unwrap() as u128;
        }
        i = i + 1;
    }
    assert(t.take(s@.len() - from) =~= t);
    acc
}

/// Beyond this many powers of ten a strength is 0 or too large, however
/// long its digits.
pub const EXP_CAP: u128 = 0x4_0000_0000_0000_0000;

/// Reads the exponent after its marker, from `from` to the end: its value, or
/// one beyond `EXP_CAP` in size with the same sign where it is larger.
#[verifier::loop_isolation(false)]
fn exponent_of(s: &Vec<char>, from: usize) -> (r: Option<i128>)
    requires
        from <= s@.len(),
    ensures
        r is Some <==> exp_valid(s@.skip(from as int)),
        r matches Some(e) ==> {
            ||| e == exp_value(s@.skip(from as int)) && -EXP_CAP <= e <= EXP_CAP
            ||| e == EXP_CAP + 1 && exp_value(s@.skip(from as int)) > EXP_CAP
            ||| e == -(EXP_CAP + 1) && exp_value(s@.skip(from as int)) < -EXP_CAP
        },
{
    let n = s.len();
    let ghost ex = s@.skip(from as int);
    let mut j = from;
    let mut eneg = false;
    if j < n && (s[j] == '+' || s[j] == '-') {
        eneg = s[j] == '-';
        j = j + 1;
    }
    let ghost ex_digits = ex.skip(sign_len(ex));
    assert(ex_digits =~= s@.skip(j as int));
    if j >= n {
        return None;
    }
    let mut q = j;
    while q < n
        invariant
            j <= q <= n == s@.len(),
            forall|t: int| j <= t < q ==> is_digit(#[trigger] s@[t]),
        decreases n - q,
    {
        if digit_of(s[q]).is_none() {
            assert(ex_digits[q - j] == s@[q as int]);
            return None;
        }
        q = q + 1;
    }
    assert(all_digits(ex_digits)) by {
        assert forall|t: int| 0 <= t < ex_digits.len() implies is_digit(#[trigger] ex_digits[t]) by {
            assert(ex_digits[t] == s@[j + t]);
        }
    }
    let mag = capped_digits(s, j, EXP_CAP);
    let m: i128 = if mag > EXP_CAP {
        (EXP_CAP + 1) as i128
    } else {
        mag as i128
    };
    assert(eneg <==> (ex.len() > 0 && ex[0] == '-'));
    if eneg {
        Some(-m)
    } else {
        Some(m)
    }
}

/// The parts of a float literal, told by where its sign ends (`start`), its
/// point is (`p`, or `k` where it has none) and its exponent marker is (`k`,
/// or the end where it has none).
proof fn lemma_scan_float(s: Seq<char>, start: int, p: int, k: int)
    requires
        start == sign_len(s),
        start <= p <= k <= s.len(),
        forall|q: int| start <= q < k ==> #[trigger] s[q] != 'e' && s[q] != 'E',
        k < s.len() ==> s[k] == 'e' || s[k] == 'E',
        forall|q: int| start <= q < p ==> #[trigger] s[q] != '.',
        p < k ==> s[p] == '.',
    ensures
        scan_float(s) == (if s.subrange(start, p).len() + (if p < k {
            s.subrange(p + 1, k)
        } else {
            Seq::<char>::empty()
        }).len() > 0 && all_digits(s.subrange(start, p)) && all_digits(
            if p < k {
                s.subrange(p + 1, k)
            } else {
                Seq::<char>::empty()
            },
        ) && (k < s.len() ==> exp_valid(s.skip(k + 1))) {
            Some(
                FloatText {
                    negative: start == 1 && s[0] == '-',
                    int_digits: s.subrange(start, p),
                    frac_digits: if p < k {
                        s.subrange(p + 1, k)
                    } else {
                        Seq::<char>::empty()
                    },
                    exp: if k < s.len() {
                        exp_value(s.skip(k + 1))
                    } else {
                        0
                    },
                },
            )
        } else {
            None
        }),
{
    let body = s.skip(start);
    assert(body =~= s.subrange(start, s.len() as int));
    assert forall|q: int| 0 <= q < k - start implies #[trigger] body[q] != 'e' && body[q]
        != 'E' by {
        assert(body[q] == s[start + q]);
    }
    lemma_exp_at(body, k - start);
    assert(exp_at(body) == k - start);
    let mant = body.take(k - start);
    assert forall|q: int| 0 <= q < p - start implies #[trigger] mant[q] != '.' by {
        assert(mant[q] == s[start + q]);
    }
    lemma_point_at(mant, p - start);
    assert(point_at(mant) == p - start);
    assert(mant.take(p - start) =~= s.subrange(start, p));
    if p < k {
        assert(mant.skip(p - start + 1) =~= s.subrange(p + 1, k));
    }
    if k < s.len() {
        assert(body.skip(k - start + 1) =~= s.skip(k + 1));
    } else {
        assert(digits_value(Seq::<char>::empty().skip(0)) == 0);
    }
}

/// The digits of a mantissa from `start` to `k`, leaving out the point at `p`
/// (`p == k` where there is none), or `None` where one is no digit.
fn mantissa_digits(s: &Vec<char>, start: usize, p: usize, k: usize) -> (r: Option<Vec<char>>)
    requires
        start <= p <= k <= s@.len(),
    ensures
        r is Some <==> all_digits(s@.subrange(start as int, p as int)) && all_digits(
            if p < k {
                s@.subrange(p + 1, k as int)
            } else {
                Seq::<char>::empty()
            },
        ),
        r matches Some(d) ==> d@ == s@.subrange(start as int, p as int) + (if p < k {
            s@.subrange(p + 1, k as int)
        } else {
            Seq::<char>::empty()
        }),
{
    let ghost ip = s@.subrange(start as int, p as int);
    let ghost fp = if p < k {
        s@.subrange(p + 1, k as int)
    } else {
        Seq::<char>::empty()
    };
    let mut d: Vec<char> = Vec::new();
    let mut i = start;
    while i < p
        invariant
            start <= i <= p <= k <= s@.len(),
            ip == s@.subrange(start as int, p as int),
            d@ == s@.subrange(start as int, i as int),
            all_digits(d@),
        decreases p - i,
    {
        if digit_of(s[i]).is_none() {
            assert(ip[i - start] == s@[i as int]);
            return None;
        }
        d.push(s[i]);
        assert(d@ =~= s@.subrange(start as int, i + 1));
        i = i + 1;
    }
    assert(d@ =~= ip);
    if p < k {
        let mut j = p + 1;
        assert(d@ =~= ip + s@.subrange(p + 1, j as int));
        while j < k
            invariant
                p < j <= k <= s@.len(),
                ip == s@.subrange(start as int, p as int),
                fp == s@.subrange(p + 1, k as int),
                all_digits(ip),
                d@ == ip + s@.subrange(p + 1, j as int),
                all_digits(d@),
            decreases k - j,
        {
            if digit_of(s[j]).is_none() {
                assert(fp[j - p - 1] == s@[j as int]);
                return None;
            }
            d.push(s[j]);
            assert(d@ =~= ip + s@.subrange(p + 1, j + 1));
            j = j + 1;
        }
        assert(d@ =~= ip + fp);
        assert forall|q: int| 0 <= q < fp.len() implies is_digit(#[trigger] fp[q]) by {
            assert(fp[q] == d@[ip.len() + q]);
        }
    } else {
        assert(d@ =~= ip + fp);
    }
    Some(d)
}

/// Reads a strength in hundredths (see `parse_hundredths`).
#[verifier::spinoff_prover]
#[verifier::rlimit(40)]
pub fn parse_hundredths_chars(s: &Vec<char>) -> (r: Option<u32>)
    ensures
        match parse_hundredths(s@) {
            Some(v) => r == Some(v as u32),
            None => r is None,
        },
{
    let n = s.len();
    let signed = n > 0 && (s[0] == '+' || s[0] == '-');
    let negative = n > 0 && s[0] == '-';
    let start: usize = if signed {
        1
    } else {
        0
    };
    // the exponent marker
    let mut k = start;
    while k < n && s[k] != 'e' && s[k] != 'E'
        invariant
            start <= k <= n == s@.len(),
            forall|q: int| start <= q < k ==> #[trigger] s@[q] != 'e' && s@[q] != 'E',
        decreases n - k,
    {
        k = k + 1;
    }
    // the point
    let mut p = start;
    while p < k && s[p] != '.'
        invariant
            start <= p <= k <= n == s@.len(),
            forall|q: int| start <= q < p ==> #[trigger] s@[q] != '.',
        decreases k - p,
    {
        p = p + 1;
    }
    proof {
        lemma_scan_float(s@, start as int, p as int, k as int);
    }
    let d = match mantissa_digits(s, start, p, k) {
        Some(d) => d,
        None => {
            return None;
        },
    };
    if d.len() == 0 {
        return None;
    }
    let ilen = p - start;
    // the exponent
    let mut e: i128 = 0;
    if k < n {
        match exponent_of(s, k + 1) {
            Some(v) => {
                e = v;
            },
            None => {
                return None;
            },
        }
    }
    let x = ilen as i128 + e + 2;
    proof {
        let e_true: int = if k < n {
            exp_value(s@.skip(k + 1))
        } else {
            0
        };
        let q_true = ilen + e_true + 2;
        if x != q_true {
            lemma_rounded_far(d@, x as int, q_true);
        }
    }
    match rounded(&d, x) {
        Some(h) => {
            if negative && h > 0 {
                None
            } else {
                Some(h as u32)
            }
        },
        None => None,
    }
}

/// Whether `c` is whitespace, as `char::is_whitespace` says.
pub fn is_space_char(c: char) -> (r: bool)
    ensures
        r == is_space(c),
{
    let u = c as u32;
    (0x09 <= u && u <= 0x0D) || u == 0x20 || u == 0x85 || u == 0xA0 || u == 0x1680 || (0x2000
        <= u && u <= 0x200A) || u == 0x2028 || u == 0x2029 || u == 0x202F || u == 0x205F || u
        == 0x3000
}

/// The chars of `s`, in order.
pub fn chars_of(s: &str) -> (r: Vec<char>)
    ensures
        r@ == s@,
{
    let mut v: Vec<char> = Vec::new();
    for c in it: s.chars()
        invariant
            v@ == it.seq().take(it.index() as int),
    {
        v.push(c);
    }
    v
}

/// Appends the chars of `s`.
pub fn push_str(out: &mut Vec<char>, s: &str)
    ensures
        final(out)@ == old(out)@ + s@,
{
    let ghost start = out@;
    for c in it: s.chars()
        invariant
            out@ == start + it.seq().take(it.index() as int),
    {
        out.push(c);
        proof {
            assert(it.seq().take(it.index() as int + 1) =~= it.seq().take(it.index() as int).push(c));
        }
    }
}

/// Whether the chars of `a` spell `s`.
pub fn chars_eq(a: &Vec<char>, s: &str) -> (r: bool)
    ensures
        r == (a@ == s@),
{
    let b = chars_of(s);
    if a.len() != b.len() {
        return false;
    }
    let mut i: usize = 0;
    while i < a.len()
        invariant
            a@.len() == b@.len(),
            b@ == s@,
            i <= a@.len(),
            forall|q: int| 0 <= q < i ==> a@[q] == b@[q],
        decreases a@.len() - i,
    {
        if a[i] != b[i] {
            return false;
        }
        i = i + 1;
    }
    assert(a@ =~= b@);
    true
}

/// `String::push`: appends one char.
#[verifier::external_body]
fn string_push(s: &mut String, c: char)
    ensures
        final(s)@ == old(s)@.push(c),
{
    s.push(c);
}

/// The string spelled by `v`.
pub fn string_of(v: &Vec<char>) -> (r: String)
    ensures
        r@ == v@,
{
    let mut s = String::new();
    let mut i: usize = 0;
    while i < v.len()
        invariant
            i <= v@.len(),
            s@ == v@.take(i as int),
        decreases v@.len() - i,
    {
        string_push(&mut s, v[i]);
        proof {
            assert(v@.take(i + 1) =~= v@.take(i as int).push(v@[i as int]));
        }
        i = i + 1;
    }
    assert(v@.take(v@.len() as int) =~= v@);
    s
}

/// Appends `v` hundredths written with two decimals.
pub fn push_hundredths(out: &mut Vec<char>, v: u32)
    ensures
        final(out)@ == old(out)@ + hundredths_text(v as nat),
{
    let ghost start = out@;
    push_decimal(out, (v / 100) as u64);
    out.push('.');
    let h = v % 100;
    let ghost mid = out@;
    push_decimal(out, (h / 10) as u64);
    push_decimal(out, (h % 10) as u64);
    proof {
        assert(decimal((h / 10) as nat) =~= seq![digit_char((h / 10) as nat)]);
        assert(decimal((h % 10) as nat) =~= seq![digit_char((h % 10) as nat)]);
        assert((h as nat / 10) % 10 == h as nat / 10);
        assert(out@ =~= start + hundredths_text(v as nat));
    }
}

} // verus!
