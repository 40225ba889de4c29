//! Calculator prefix (`=` / `＝`): expression extraction, result formatting and
//! the list row shown for a calculator query.
//!
//! Evaluation goes through `meval`; its value is handled here by its IEEE-754 bits,
//! so the rounding rule for near-integers is decided with exact integer arithmetic.
//! The `bc` fallback and `gnome-calculator` are processes run by the application,
//! which hands their answers in.
use vstd::prelude::*;
use vstd::string::*;

use crate::text::{
    back_ws_from, is_whitespace, chars_of, contains, has_prefix, has_substring, is_ws, lemma_back_ws_bounds,
    lemma_skip_ws_bounds, lines, lowercase, skip_ws_from, split_lines, starts_with, string_of,
    string_of_range, to_lower, trim, trim_bounds, trim_range, trim_start, trim_start_index, views,
};

verus! {

/// One calculator list row.
#[derive(Clone, Debug, PartialEq, Eq)]
pub struct CalcRow {
    /// Expression (or hint) shown as the bold title.
    pub title: String,
    /// Result / error / install note shown as dim subtitle.
    pub subtitle: String,
    /// Value to copy on Enter, if any.
    pub result: Option<String>,
}

/// Which live backend produced a calculator value.
#[derive(PartialEq, Eq, Structural, Clone, Copy, Debug)]
pub enum Backend {
    Meval,
    Bc,
}

// ---------------------------------------------------------------- prefix
/// Whether `c` opens a calculator query (`=` or the fullwidth `＝`).
pub open spec fn is_calc_mark(c: char) -> bool {
    c == '=' || c == '\u{ff1d}'
}

/// The expression of a calculator query: the trimmed query without its leading
/// `=` / `＝`, trimmed again; `None` when the trimmed query has no such mark.
pub open spec fn calc_expr(q: Seq<char>) -> Option<Seq<char>> {
    let t = trim(q);
    if t.len() > 0 && is_calc_mark(t[0]) {
        Some(trim(t.drop_first()))
    } else {
        None
    }
}

/// Whether the query is (or is becoming) a calculator expression.
pub open spec fn calc_query(q: Seq<char>) -> bool {
    let t = trim_start(q);
    t.len() > 0 && is_calc_mark(t[0])
}

/// Strip `=` / `＝` prefix (space optional). Returns `None` if not a calc query.
pub fn strip_calc_prefix(query: &str) -> (r: Option<&str>)
    ensures
        r matches Some(e) ==> calc_expr(query@) == Some(e@) && trim(e@) == e@,
        r is None ==> calc_expr(query@) is None,
{
    let v = chars_of(query);
    let (a, b) = trim_bounds(v.as_slice());
    if a < b && (v[a] == '=' || v[a] == '\u{ff1d}') {
        let (c, d) = trim_range(v.as_slice(), a + 1, b);
        proof {
            let t = v@.subrange(a as int, b as int);
            assert(t.drop_first() =~= v@.subrange(a + 1, b as int));
            crate::text::lemma_trim_idempotent(t.drop_first());
        }
        Some(query.substring_char(c, d))
    } else {
        None
    }
}

/// True when the query is (or is becoming) a calculator expression.
pub fn is_calc_query(query: &str) -> (r: bool)
    ensures
        r == calc_query(query@),
{
    let v = chars_of(query);
    let a = trim_start_index(v.as_slice());
    a < v.len() && (v[a] == '=' || v[a] == '\u{ff1d}')
}

/// A query is a calculator query exactly when a calculator expression can be
/// stripped from it.
pub proof fn law_calc_query_iff_expr(q: Seq<char>)
    ensures
        calc_query(q) <==> calc_expr(q) is Some,
{
    let t = trim_start(q);
    lemma_skip_ws_bounds(q, 0);
    lemma_back_ws_bounds(t, t.len() as int);
    if t.len() > 0 {
        assert(t[0] == q[skip_ws_from(q, 0)]);
        if !is_ws(t[0]) {
            assert(back_ws_from(t, t.len() as int) >= 1);
            assert(trim(q)[0] == t[0]);
        }
    } else {
        assert(trim(q).len() == 0);
    }
}

// ---------------------------------------------------------------- numbers
/// `2^k`.
pub open spec fn two_pow(k: nat) -> nat
    decreases k,
{
    if k == 0 {
        1
    } else {
        2 * two_pow((k - 1) as nat)
    }
}

pub proof fn lemma_two_pow_adds(a: nat, b: nat)
    ensures
        two_pow(a + b) == two_pow(a) * two_pow(b),
    decreases b,
{
    if b > 0 {
        let b1 = (b - 1) as nat;
        let s1 = (a + b1) as nat;
        lemma_two_pow_adds(a, b1);
        assert(two_pow(s1) == two_pow(a) * two_pow(b1));
        assert(two_pow(b) == 2 * two_pow(b1));
        assert(two_pow(a + b) == 2 * two_pow(s1));
        let x = two_pow(a);
        let y = two_pow(b1);
        assert(x * (2 * y) == 2 * (x * y)) by (nonlinear_arith);
        assert(two_pow(a) * two_pow(b) == x * (2 * y));
    } else {
        assert(two_pow(b) == 1);
        assert(a + b == a);
    }
}

pub proof fn lemma_two_pow_pos(k: nat)
    ensures
        two_pow(k) >= 1,
    decreases k,
{
    if k > 0 {
        lemma_two_pow_pos((k - 1) as nat);
    }
}

pub proof fn lemma_two_pow_mono(a: nat, b: nat)
    requires
        a <= b,
    ensures
        two_pow(a) <= two_pow(b),
    decreases b,
{
    if a < b {
        lemma_two_pow_mono(a, (b - 1) as nat);
        lemma_two_pow_pos((b - 1) as nat);
    }
}

proof fn lemma_two_pow_values()
    ensures
        two_pow(1) == 2,
        two_pow(54) == 18014398509481984,
        two_pow(63) == 9223372036854775808,
        two_pow(64) == 18446744073709551616,
        two_pow(86) == 77371252455336267181195264,
        two_pow(120) == 1329227995784915872903807060280344576,
{
    reveal_with_fuel(two_pow, 11);
    assert(two_pow(10) == 1024);
    lemma_two_pow_adds(10, 10);
    lemma_two_pow_adds(20, 10);
    lemma_two_pow_adds(30, 10);
    lemma_two_pow_adds(40, 10);
    lemma_two_pow_adds(50, 4);
    lemma_two_pow_adds(50, 10);
    lemma_two_pow_adds(60, 3);
    lemma_two_pow_adds(60, 4);
    lemma_two_pow_adds(60, 10);
    lemma_two_pow_adds(70, 10);
    lemma_two_pow_adds(80, 6);
    lemma_two_pow_adds(80, 10);
    lemma_two_pow_adds(90, 10);
    lemma_two_pow_adds(100, 10);
    lemma_two_pow_adds(110, 10);
}

/// `2^52`, the weight of the hidden significand bit of a double.
pub open spec fn hidden_bit() -> int {
    4503599627370496
}

/// Biased exponent field of the double with these bits.
pub open spec fn exponent_field(bits: u64) -> int {
    (bits as int / hidden_bit()) % 2048
}

/// Significand of the double with these bits (hidden bit included).
pub open spec fn significand(bits: u64) -> int {
    let f = bits as int % hidden_bit();
    if exponent_field(bits) == 0 {
        f
    } else {
        f + hidden_bit()
    }
}

/// Sign bit of the double with these bits.
pub open spec fn sign_bit(bits: u64) -> bool {
    bits as int >= 9223372036854775808
}

/// For a finite double below 2^52 in magnitude, `k` with `|value| = significand / 2^k`.
pub open spec fn frac_bits(bits: u64) -> nat {
    if exponent_field(bits) == 0 {
        1074
    } else {
        (1075 - exponent_field(bits)) as nat
    }
}

/// Significand of the double nearest to `1e-10`; that double is this over `2^86`.
pub open spec fn tolerance_significand() -> int {
    7737125245533627
}

/// Distance (over `2^frac_bits`) from `|value|` to the nearest integer.
pub open spec fn distance_num(bits: u64) -> int {
    let p = two_pow(frac_bits(bits)) as int;
    let r = significand(bits) % p;
    if 2 * r >= p {
        p - r
    } else {
        r
    }
}

/// `|value|` rounded half away from zero (`f64::round`).
pub open spec fn rounded_magnitude(bits: u64) -> nat {
    let p = two_pow(frac_bits(bits)) as int;
    let q = significand(bits) / p;
    let r = significand(bits) % p;
    (if 2 * r >= p {
        q + 1
    } else {
        q
    }) as nat
}

/// The float test `(v - v.round()).abs() < 1e-10 && v.abs() < 1e15`, decided
/// on the bits: NaN, infinities and magnitudes from 2^52 up never pass; otherwise
/// the distance to the nearest integer is compared exactly with the double `1e-10`.
pub open spec fn near_integer(bits: u64) -> bool {
    let e = exponent_field(bits);
    let k = frac_bits(bits);
    &&& e < 1075
    &&& significand(bits) < 1000000000000000 * two_pow(k)
    &&& distance_num(bits) * two_pow(86) < tolerance_significand() * two_pow(k)
}

/// ASCII digit for `d < 10`.
pub open spec fn digit_char(d: nat) -> char {
    (48 + d) as char
}

/// Decimal digits of `n` (`Display` for integers).
pub open spec fn decimal(n: nat) -> Seq<char>
    decreases n,
{
    if n < 10 {
        seq![digit_char(n)]
    } else {
        decimal(n / 10).push(digit_char(n % 10))
    }
}

/// Decimal text of the integer `v.round() as i64`.
pub open spec fn rounded_text(bits: u64) -> Seq<char> {
    let n = rounded_magnitude(bits);
    if sign_bit(bits) && n != 0 {
        seq!['-'] + decimal(n)
    } else {
        decimal(n)
    }
}

/// `format_meval`: near-integers below 1e15 print as that integer; anything else
/// prints as the float's own text `shown`.
pub open spec fn meval_text(bits: u64, shown: Seq<char>) -> Seq<char> {
    if near_integer(bits) {
        rounded_text(bits)
    } else {
        shown
    }
}

/// Appends the decimal digits of `n`.
fn push_decimal(s: &mut String, n: u64)
    ensures
        final(s)@ == old(s)@ + decimal(n as nat),
    decreases n,
{
    if n >= 10 {
        push_decimal(s, n / 10);
    }
    let d = (n % 10) as u32;
    let c = digit(d);
    s.push(c);
    proof {
        if n >= 10 {
            assert(decimal(n as nat) == decimal((n / 10) as nat).push(digit_char((n % 10) as nat)));
        } else {
            assert(decimal(n as nat) == seq![digit_char(n as nat)]);
        }
    }
}

fn digit(d: u32) -> (c: char)
    requires
        d < 10,
    ensures
        c == digit_char(d as nat),
{
    let b = (48 + d) as u8;
    b as char
}

/// `2^k` for `k <= 120`.
fn pow2_u128(k: u32) -> (p: u128)
    requires
        k <= 120,
    ensures
        p == two_pow(k as nat),
{
    let mut p: u128 = 1;
    let mut i: u32 = 0;
    while i < k
        invariant
            i <= k <= 120,
            p == two_pow(i as nat),
        decreases k - i,
    {
        proof {
            lemma_two_pow_mono(i as nat, 120);
            lemma_two_pow_values();
        }
        p = p * 2;
        i += 1;
    }
    p
}

proof fn lemma_big_k_near(m: int, k: nat)
    requires
        0 <= m < hidden_bit() * 2,
        k > 86,
    ensures
        m % (two_pow(k) as int) == m,
        2 * m < two_pow(k),
        m * two_pow(86) < tolerance_significand() * two_pow(k),
        m < 1000000000000000 * two_pow(k),
{
    lemma_two_pow_adds(86, (k - 86) as nat);
    lemma_two_pow_mono(54, (k - 86) as nat + 86);
    lemma_two_pow_mono(1, (k - 86) as nat);
    lemma_two_pow_pos(86);
    lemma_two_pow_values();
    let p86 = two_pow(86) as int;
    let rest = two_pow((k - 86) as nat) as int;
    assert(m * p86 < tolerance_significand() * 2 * p86) by (nonlinear_arith)
        requires
            m < hidden_bit() * 2,
            p86 >= 1,
            tolerance_significand() >= hidden_bit(),
    ;
    assert(tolerance_significand() * 2 * p86 <= tolerance_significand() * (p86 * rest))
        by (nonlinear_arith)
        requires
            rest >= 2,
            p86 >= 1,
            tolerance_significand() >= 0,
    ;
    assert(m < 1000000000000000 * (p86 * rest)) by (nonlinear_arith)
        requires
            m < hidden_bit() * 2,
            p86 * rest >= 18014398509481984,
    ;
    vstd::arithmetic::div_mod::lemma_small_mod(m as nat, two_pow(k));
}

/// `format_meval` on a double given by its bits, with `shown` the double's own
/// `Display` text: near-integers below 1e15 print as that integer.
pub fn format_meval(bits: u64, shown: &str) -> (r: String)
    ensures
        r@ == meval_text(bits, shown@),
{
    let e = (bits / 4503599627370496) % 2048;
    let f = bits % 4503599627370496;
    let negative = bits >= 9223372036854775808;
    let m: u64 = if e == 0 {
        f
    } else {
        f + 4503599627370496
    };
    assert(e as int == exponent_field(bits));
    assert(m as int == significand(bits));
    if e >= 1075 {
        return String::from_str(shown);
    }
    let k: u32 = if e == 0 {
        1074
    } else {
        (1075 - e) as u32
    };
    assert(k as nat == frac_bits(bits));
    let n: u64;
    if k > 86 {
        proof {
            lemma_big_k_near(m as int, k as nat);
            assert(distance_num(bits) == m);
            assert(near_integer(bits));
            vstd::arithmetic::div_mod::lemma_basic_div(m as int, two_pow(k as nat) as int);
            assert(rounded_magnitude(bits) == 0);
        }
        n = 0;
    } else {
        let p = pow2_u128(k);
        proof {
            lemma_two_pow_pos(k as nat);
        }
        let mm = m as u128;
        let q = mm / p;
        let r = mm % p;
        proof {
            lemma_two_pow_mono(k as nat, 86);
            lemma_two_pow_values();
            assert(r < p);
        }
        let dist = if 2 * r >= p {
            p - r
        } else {
            r
        };
        assert(dist as int == distance_num(bits));
        let scale = pow2_u128(86 - k);
        proof {
            lemma_two_pow_adds(k as nat, (86 - k) as nat);
            assert(two_pow(86) == two_pow(k as nat) * two_pow((86 - k) as nat));
            assert(dist <= p);
            assert(dist * scale <= p * scale) by (nonlinear_arith)
                requires
                    dist <= p,
            ;
            lemma_two_pow_values();
        }
        let close = dist * scale < 7737125245533627;
        proof {
            let pk = two_pow(k as nat) as int;
            let ps = two_pow((86 - k) as nat) as int;
            assert(close == (distance_num(bits) * two_pow(86) < tolerance_significand()
                * two_pow(k as nat))) by (nonlinear_arith)
                requires
                    close == (dist * ps < tolerance_significand()),
                    dist == distance_num(bits),
                    two_pow(86) == pk * ps,
                    pk == two_pow(k as nat),
                    pk >= 1,
            ;
        }
        if !close {
            return String::from_str(shown);
        }
        let small = if k >= 64 {
            proof {
                lemma_two_pow_mono(64, k as nat);
                lemma_two_pow_values();
            }
            true
        } else {
            proof {
                lemma_two_pow_mono(k as nat, 63);
                lemma_two_pow_values();
                assert(1000000000000000 * p <= 1000000000000000 * 9223372036854775808)
                    by (nonlinear_arith)
                    requires
                        p <= 9223372036854775808,
                ;
            }
            mm < 1000000000000000 * p
        };
        if !small {
            return String::from_str(shown);
        }
        assert(near_integer(bits));
        let rounded = if 2 * r >= p {
            q + 1
        } else {
            q
        };
        assert(rounded as int == rounded_magnitude(bits));
        proof {
            assert(q <= mm) by (nonlinear_arith)
                requires
                    q == mm / p,
                    p >= 1,
            ;
        }
        n = rounded as u64;
    }
    let mut out = String::new();
    if negative && n != 0 {
        out.push('-');
    }
    push_decimal(&mut out, n);
    proof {
        if negative && n != 0 {
            assert(out@ == seq!['-'] + decimal(n as nat));
        }
    }
    out
}

// ---------------------------------------------------------------- evaluation
/// Name for the text that `f64`'s `Display` writes for the double with these bits.
pub uninterp spec fn float_text(bits: u64) -> Seq<char>;

/// Name for whether `meval::eval_str` accepts an expression: it parses, and every
/// variable and function it names is a built-in one, called with an accepted number
/// of arguments. This depends on the text alone, not on any value computed.
pub uninterp spec fn meval_accepts(expr: Seq<char>) -> bool;

/// Whether `s` has a character outside Unicode `White_Space`.
pub open spec fn has_visible(s: Seq<char>) -> bool {
    exists|i: int| 0 <= i < s.len() && !is_ws(#[trigger] s[i])
}

/// What holds of every answer meval gives: a value comes as the bits of a double
/// together with that double's `Display` text.
pub open spec fn meval_outcome_ok(o: Option<(u64, String)>) -> bool {
    o matches Some(p) ==> p.1@ == float_text(p.0)
}

/// Calls `meval::eval_str` with its built-in constants and functions. The
/// expression must have a character outside whitespace: on input made only of
/// spaces, tabs and line breaks meval's tokenizer panics. Claims that it gives a
/// value exactly when it accepts the expression (`meval_accepts`), and that the value
/// comes with its own `Display` text; which double it computes is not stated (its
/// float functions vary by platform).
#[verifier::external_body]
fn meval_eval(expr: &str) -> (r: Option<(u64, String)>)
    requires
        has_visible(expr@),
    ensures
        r is Some <==> meval_accepts(expr@),
        r matches Some(p) ==> p.1@ == float_text(p.0),
{
    match meval::eval_str(expr) {
        Ok(v) => Some((v.to_bits(), v.to_string())),
        Err(_) => None,
    }
}

/// Whether the characters have one outside whitespace.
fn visible(v: &[char]) -> (b: bool)
    ensures
        b == has_visible(v@),
{
    let mut i: usize = 0;
    while i < v.len()
        invariant
            i <= v.len(),
            forall|j: int| 0 <= j < i ==> is_ws(#[trigger] v@[j]),
        decreases v.len() - i,
    {
        if !is_whitespace(v[i]) {
            assert(!is_ws(v@[i as int]));
            return true;
        }
        i += 1;
    }
    false
}

/// Evaluate an expression once with meval: `None` when it has no character outside
/// whitespace or meval rejects it, else the value's bits and `Display` text.
pub fn meval_outcome(expr: &str) -> (r: Option<(u64, String)>)
    ensures
        !has_visible(expr@) ==> r is None,
        has_visible(expr@) ==> (r is Some <==> meval_accepts(expr@)),
        meval_outcome_ok(r),
{
    let v = chars_of(expr);
    if visible(v.as_slice()) {
        meval_eval(expr)
    } else {
        None
    }
}

/// What the live meval backend shows for an answer of meval.
pub open spec fn meval_shown(o: Option<(u64, String)>) -> Option<Seq<char>> {
    match o {
        Some(p) => Some(meval_text(p.0, p.1@)),
        None => None,
    }
}

/// Format an answer of meval for display.
pub fn shown_value(o: Option<(u64, String)>) -> (r: Result<String, ()>)
    ensures
        r is Ok <==> meval_shown(o) is Some,
        r matches Ok(s) ==> meval_shown(o) == Some(s@),
{
    match o {
        Some((bits, shown)) => Ok(format_meval(bits, shown.as_str())),
        None => Err(()),
    }
}

/// Evaluate with meval and format the value. An expression without a character
/// outside whitespace is rejected; a value shown is a double formatted by
/// [`format_meval`] with its own `Display` text.
pub fn eval_meval(expr: &str) -> (r: Result<String, ()>)
    ensures
        !has_visible(expr@) ==> r is Err,
        has_visible(expr@) ==> (r is Ok <==> meval_accepts(expr@)),
        r matches Ok(s) ==> exists|b: u64| s@ == #[trigger] meval_text(b, float_text(b)),
{
    let o = meval_outcome(expr);
    let r = shown_value(o);
    proof {
        if r is Ok {
            let pair = o->0;
            let b = pair.0;
            assert(r->Ok_0@ == meval_text(b, float_text(b)));
        }
    }
    r
}

/// What `bc` answered, if the application ran it: its value when it succeeded.
pub open spec fn bc_value(bc: Option<Result<String, String>>) -> Option<Seq<char>> {
    match bc {
        Some(Ok(v)) => Some(v@),
        _ => None,
    }
}

/// Live value from meval's answer, else from the `bc` answer handed in.
pub open spec fn live_value(meval: Option<(u64, String)>, bc: Option<Result<String, String>>) -> Option<
    (Seq<char>, Backend),
> {
    match meval_shown(meval) {
        Some(v) => Some((v, Backend::Meval)),
        None => match bc_value(bc) {
            Some(v) => Some((v, Backend::Bc)),
            None => None,
        },
    }
}

/// The live value for the answers meval and `bc` gave: meval's, else `bc`'s,
/// else the error `invalid expression`.
pub fn live_result(meval: Option<(u64, String)>, bc: Option<Result<String, String>>) -> (r: Result<
    (String, Backend),
    String,
>)
    ensures
        r is Ok <==> live_value(meval, bc) is Some,
        r matches Ok(p) ==> live_value(meval, bc) == Some((p.0@, p.1)),
        r matches Err(e) ==> e@ == "invalid expression"@,
{
    if let Ok(v) = shown_value(meval) {
        return Ok((v, Backend::Meval));
    }
    match bc {
        Some(Ok(v)) => Ok((v, Backend::Bc)),
        _ => Err(String::from_str("invalid expression")),
    }
}

/// Fast live-preview backends only: meval, then what `bc` answered (`bc` is
/// `None` when `bc` is not installed or was not run). An expression without a
/// character outside whitespace is `invalid expression`.
pub fn eval_live(expr: &str, bc: Option<Result<String, String>>) -> (r: Result<
    (String, Backend),
    String,
>)
    ensures
        !has_visible(expr@) ==> r is Err,
        r matches Err(e) ==> e@ == "invalid expression"@,
        r matches Ok(p) ==> (p.1 == Backend::Meval ==> exists|b: u64| p.0@ == #[trigger] meval_text(b, float_text(b))),
        r matches Ok(p) ==> (p.1 == Backend::Bc ==> bc_value(bc) == Some(p.0@)),
        has_visible(expr@) && meval_accepts(expr@) ==> (r matches Ok(p) && p.1 == Backend::Meval),
        has_visible(expr@) && !meval_accepts(expr@) ==> match bc_value(bc) {
            Some(v) => r matches Ok(p) && p.1 == Backend::Bc && p.0@ == v,
            None => r is Err,
        },
{
    let v = chars_of(expr);
    if !visible(v.as_slice()) {
        return Err(String::from_str("invalid expression"));
    }
    let o = meval_outcome(expr);
    let r = live_result(o, bc);
    proof {
        if r is Ok && r->Ok_0.1 == Backend::Meval {
            let pair = o->0;
            let b = pair.0;
            assert(r->Ok_0.0@ == meval_text(b, float_text(b)));
        }
    }
    r
}

/// Whether `o` is an answer meval can give for the expression of `query`: a value
/// exactly when the query has a non-empty expression that meval accepts.
pub open spec fn meval_answer_for(query: Seq<char>, o: Option<(u64, String)>) -> bool {
    &&& meval_outcome_ok(o)
    &&& (o is Some <==> (calc_expr(query) matches Some(e) && e.len() > 0 && meval_accepts(e)))
}

proof fn lemma_trimmed_visible(s: Seq<char>)
    ensures
        trim(s).len() > 0 ==> has_visible(trim(s)),
{
    lemma_skip_ws_bounds(s, 0);
    let t = trim_start(s);
    lemma_back_ws_bounds(t, t.len() as int);
    if trim(s).len() > 0 {
        assert(t[0] == s[skip_ws_from(s, 0)]);
        assert(trim(s)[0] == t[0]);
        assert(!is_ws(trim(s)[0]));
    }
}

/// Evaluate the expression of a calculator query once with meval: `None` when the
/// query is not a calculator query, its expression is empty, or meval rejects it.
pub fn calc_outcome(query: &str) -> (r: Option<(u64, String)>)
    ensures
        meval_answer_for(query@, r),
{
    match strip_calc_prefix(query) {
        None => None,
        Some(expr) => {
            if expr.unicode_len() == 0 {
                None
            } else {
                proof {
                    let t = trim(query@);
                    lemma_trimmed_visible(t.drop_first());
                }
                meval_outcome(expr)
            }
        },
    }
}

/// The expression the application should hand to `bc`, given meval's answer for
/// the query: set exactly when the query is a calculator query with an expression
/// that meval rejected.
pub fn fallback_expr(query: &str, meval: &Option<(u64, String)>) -> (r: Option<String>)
    ensures
        r matches Some(e) ==> calc_expr(query@) == Some(e@) && e@.len() > 0 && meval is None,
        r is None ==> !(calc_expr(query@) matches Some(e) && e.len() > 0 && meval is None),
{
    match strip_calc_prefix(query) {
        None => None,
        Some(expr) => {
            if expr.unicode_len() == 0 || meval.is_some() {
                None
            } else {
                Some(String::from_str(expr))
            }
        },
    }
}

// ---------------------------------------------------------------- rows
/// Row for a bare `=` (no expression yet).
pub open spec fn hint_subtitle(gnome_calculator: bool) -> Seq<char> {
    if gnome_calculator {
        "e.g. 2+2 · Enter copies result"@
    } else {
        "e.g. 2+2 · install gnome-calculator for GNOME solve"@
    }
}

/// Subtitle for a live value.
pub open spec fn value_subtitle(v: Seq<char>, gnome_calculator: bool) -> Seq<char> {
    if gnome_calculator {
        v
    } else {
        v + "  ·  uses built-in (apt install gnome-calculator)"@
    }
}

/// The row for a query, given meval's and `bc`'s answers for its expression:
/// `(title, subtitle, result)`.
pub open spec fn calc_row(
    q: Seq<char>,
    gnome_calculator: bool,
    meval: Option<(u64, String)>,
    bc: Option<Result<String, String>>,
) -> Option<(Seq<char>, Seq<char>, Option<Seq<char>>)> {
    match calc_expr(q) {
        None => None,
        Some(e) => if e.len() == 0 {
            Some(("= type expression"@, hint_subtitle(gnome_calculator), None))
        } else {
            match live_value(meval, bc) {
                Some((v, _)) => Some((e, value_subtitle(v, gnome_calculator), Some(v))),
                None => Some((e, "invalid · invalid expression"@, None)),
            }
        },
    }
}

/// The view of an optional string.
pub open spec fn opt_view(o: Option<String>) -> Option<Seq<char>> {
    match o {
        Some(s) => Some(s@),
        None => None,
    }
}

/// The `(title, subtitle, result)` view of an optional row.
pub open spec fn row_view(r: Option<CalcRow>) -> Option<(Seq<char>, Seq<char>, Option<Seq<char>>)> {
    match r {
        Some(row) => Some((row.title@, row.subtitle@, opt_view(row.result))),
        None => None,
    }
}

/// The calculator row for a query, given meval's answer for its expression and
/// the answer `bc` gave (`None` when it is not installed or was not run);
/// `gnome_calculator` says whether `gnome-calculator` is installed.
pub fn calc_row_from(
    query: &str,
    gnome_calculator: bool,
    meval: Option<(u64, String)>,
    bc: Option<Result<String, String>>,
) -> (r: Option<CalcRow>)
    ensures
        row_view(r) == calc_row(query@, gnome_calculator, meval, bc),
{
    let expr = match strip_calc_prefix(query) {
        Some(e) => e,
        None => return None,
    };
    if expr.unicode_len() == 0 {
        let subtitle = if gnome_calculator {
            String::from_str("e.g. 2+2 · Enter copies result")
        } else {
            String::from_str("e.g. 2+2 · install gnome-calculator for GNOME solve")
        };
        return Some(CalcRow { title: String::from_str("= type expression"), subtitle, result: None });
    }
    match live_result(meval, bc) {
        Ok((result, _backend)) => {
            let subtitle = if gnome_calculator {
                result.clone()
            } else {
                result.clone().concat("  ·  uses built-in (apt install gnome-calculator)")
            };
            Some(CalcRow { title: String::from_str(expr), subtitle, result: Some(result) })
        },
        Err(err) => {
            let subtitle = String::from_str("invalid · ").concat(err.as_str());
            proof {
                reveal_strlit("invalid · ");
                reveal_strlit("invalid expression");
                reveal_strlit("invalid · invalid expression");
                assert(subtitle@ =~= "invalid · invalid expression"@);
            }
            Some(CalcRow { title: String::from_str(expr), subtitle, result: None })
        },
    }
}

/// Parse `=` / `＝` calculator prefix into a list row (live / rebuild path).
///
/// Evaluates the expression once with meval, then uses the answer `bc` gave (`bc`:
/// `None` when it is not installed or was not run); `gnome_calculator` says whether
/// `gnome-calculator` is installed. Returns `None` if the query is not a calc prefix.
pub fn parse_calc(query: &str, gnome_calculator: bool, bc: Option<Result<String, String>>) -> (r:
    Option<CalcRow>)
    ensures
        exists|o: Option<(u64, String)>|
            meval_answer_for(query@, o) && row_view(r) == #[trigger] calc_row(query@, gnome_calculator, o, bc),
{
    let o = calc_outcome(query);
    let r = calc_row_from(query, gnome_calculator, o, bc);
    assert(row_view(r) == calc_row(query@, gnome_calculator, o, bc));
    r
}

/// A query gets a calculator row exactly when it is a calculator query, whatever
/// meval and `bc` answered.
pub proof fn law_calc_row_iff_calc_query(
    q: Seq<char>,
    gnome_calculator: bool,
    meval: Option<(u64, String)>,
    bc: Option<Result<String, String>>,
)
    ensures
        calc_row(q, gnome_calculator, meval, bc) is Some <==> calc_query(q),
{
    law_calc_query_iff_expr(q);
}

/// The result part of an optional calculator row.
pub open spec fn calc_row_result(row: Option<(Seq<char>, Seq<char>, Option<Seq<char>>)>) -> Option<Seq<char>> {
    match row {
        Some((_, _, r)) => r,
        None => None,
    }
}

/// A calculator row offers a result to copy exactly when the expression has a
/// live value, and then the result is that value.
pub proof fn law_calc_result_is_live_value(
    q: Seq<char>,
    gnome_calculator: bool,
    meval: Option<(u64, String)>,
    bc: Option<Result<String, String>>,
)
    requires
        calc_expr(q) matches Some(e) && e.len() > 0,
    ensures
        calc_row_result(calc_row(q, gnome_calculator, meval, bc)) == match live_value(meval, bc) {
            Some(p) => Some(p.0),
            None => None::<Seq<char>>,
        },
{
}

// ---------------------------------------------------------------- gnome-calculator
/// First line that mentions an error (in lowercase) or does not start with `**`.
pub open spec fn first_hint_line(ls: Seq<Seq<char>>) -> Option<Seq<char>>
    decreases ls.len(),
{
    if ls.len() == 0 {
        None
    } else if contains(lowercase(ls[0]), "error"@) || !starts_with(ls[0], "**"@) {
        Some(ls[0])
    } else {
        first_hint_line(ls.drop_first())
    }
}

/// What `gnome-calculator -s` answered, from its exit status and its outputs.
pub open spec fn calculator_answer(success: bool, stdout: Seq<char>, stderr: Seq<char>) -> Result<
    Seq<char>,
    Seq<char>,
> {
    let out = trim(stdout);
    let err = trim(stderr);
    if success && out.len() > 0 && !starts_with(lowercase(out), "error"@) {
        Ok(out)
    } else if out.len() > 0 {
        Err(out)
    } else if err.len() > 0 {
        match first_hint_line(lines(err)) {
            Some(l) => Err(l),
            None => Err("invalid expression"@),
        }
    } else {
        Err("invalid expression"@)
    }
}

/// The view of a string result.
pub open spec fn result_view(r: Result<String, String>) -> Result<Seq<char>, Seq<char>> {
    match r {
        Ok(s) => Ok(s@),
        Err(s) => Err(s@),
    }
}

/// Interpret a finished `gnome-calculator -s` run: its answer on success, else a
/// one-line hint for the user.
pub fn calculator_result(success: bool, stdout: &str, stderr: &str) -> (r: Result<String, String>)
    ensures
        result_view(r) == calculator_answer(success, stdout@, stderr@),
{
    let ov = chars_of(stdout);
    let (a, b) = trim_bounds(ov.as_slice());
    let out = string_of_range(ov.as_slice(), a, b);
    let ev = chars_of(stderr);
    let (c, d) = trim_bounds(ev.as_slice());
    let err = string_of_range(ev.as_slice(), c, d);
    if success && a < b {
        let low = to_lower(out.as_str());
        let lv = chars_of(low.as_str());
        let pat = chars_of("error");
        if !has_prefix(lv.as_slice(), pat.as_slice()) {
            return Ok(out);
        }
    }
    if a < b {
        return Err(out);
    }
    if c < d {
        assert(trim(stdout@).len() == 0);
        assert(trim(stderr@).len() > 0);
        let errv = chars_of(err.as_str());
        let ls = split_lines(errv.as_slice());
        let pat_err = chars_of("error");
        let pat_star = chars_of("**");
        let mut i: usize = 0;
        assert(views(ls@).skip(0) == views(ls@));
        while i < ls.len()
            invariant
                i <= ls.len(),
                views(ls@) == lines(err@),
                first_hint_line(views(ls@).skip(i as int)) == first_hint_line(lines(err@)),
                pat_err@ == "error"@,
                pat_star@ == "**"@,
                err@ == trim(stderr@),
                trim(stdout@).len() == 0,
                err@.len() > 0,
            decreases ls.len() - i,
        {
            let line = string_of(ls[i].as_slice());
            let low = to_lower(line.as_str());
            let lowv = chars_of(low.as_str());
            assert(views(ls@).skip(i as int)[0] == ls@[i as int]@);
            if has_substring(lowv.as_slice(), pat_err.as_slice()) || !has_prefix(
                ls[i].as_slice(),
                pat_star.as_slice(),
            ) {
                assert(first_hint_line(views(ls@).skip(i as int)) == Some(line@));
                assert(err@ == trim(stderr@));
                assert(first_hint_line(lines(trim(stderr@))) == Some(line@));
                assert(calculator_answer(success, stdout@, stderr@) == Err::<Seq<char>, Seq<char>>(line@));
                return Err(line);
            }
            assert(views(ls@).skip(i as int).drop_first() =~= views(ls@).skip(i + 1));
            i += 1;
        }
        return Err(String::from_str("invalid expression"));
    }
    Err(String::from_str("invalid expression"))
}

// ---------------------------------------------------------------- bc
/// What a finished `bc -l` run answered, from its exit status and outputs;
/// `parsed` is the double read from the trimmed output (its bits and `Display`
/// text), when that output reads as one.
pub open spec fn bc_reply(
    success: bool,
    stdout: Seq<char>,
    stderr: Seq<char>,
    parsed: Option<(u64, String)>,
) -> Result<Seq<char>, Seq<char>> {
    let out = trim(stdout);
    let err = trim(stderr);
    if success && out.len() > 0 && err.len() == 0 {
        match parsed {
            Some(p) => Ok(meval_text(p.0, p.1@)),
            None => Ok(out),
        }
    } else if err.len() > 0 {
        Err(err)
    } else {
        Err("invalid expression"@)
    }
}

/// Interpret a finished `bc -l` run: on success with no error output, its value
/// formatted like meval's (or its text when it does not read as a number); else
/// its error output, or `invalid expression`.
pub fn bc_result(success: bool, stdout: &str, stderr: &str, parsed: Option<(u64, String)>) -> (r:
    Result<String, String>)
    ensures
        result_view(r) == bc_reply(success, stdout@, stderr@, parsed),
{
    let ov = chars_of(stdout);
    let (a, b) = trim_bounds(ov.as_slice());
    let ev = chars_of(stderr);
    let (c, d) = trim_bounds(ev.as_slice());
    if success && a < b && c == d {
        return match parsed {
            Some((bits, shown)) => Ok(format_meval(bits, shown.as_str())),
            None => Ok(string_of_range(ov.as_slice(), a, b)),
        };
    }
    if c < d {
        Err(string_of_range(ev.as_slice(), c, d))
    } else {
        Err(String::from_str("invalid expression"))
    }
}

} // verus!
