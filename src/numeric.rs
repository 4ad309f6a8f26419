//! Decimal numbers read from text, and their exact comparison.
use vstd::prelude::*;
use vstd::string::*;
use crate::text::{ascii_lower, equals_ignoring_ascii_case};
use crate::value::{PropValue, str_repr, to_string_representation};

verus! {

pub open spec fn pow10(k: nat) -> int
    decreases k,
{
    if k == 0 {
        1
    } else {
        10 * pow10((k - 1) as nat)
    }
}

pub open spec fn is_digit(c: char) -> bool {
    '0' <= c && c <= '9'
}

pub open spec fn all_digits(s: Seq<char>) -> bool {
    forall|i: int| 0 <= i < s.len() ==> #[trigger] is_digit(s[i])
}

/// The value of a string of decimal digits.
pub open spec fn digits_value(s: Seq<char>) -> int
    decreases s.len(),
{
    if s.len() == 0 {
        0
    } else {
        digits_value(s.drop_last()) * 10 + (s.last() as int - '0' as int)
    }
}

/// The text after a leading `+` or `-`.
pub open spec fn unsigned_body(s: Seq<char>) -> Seq<char> {
    if s.len() > 0 && (s[0] == '+' || s[0] == '-') {
        s.drop_first()
    } else {
        s
    }
}

/// The index of the first `.` in `b`, or its length where there is none.
pub open spec fn first_dot(b: Seq<char>) -> nat
    decreases b.len(),
{
    if b.len() == 0 {
        0
    } else if b[0] == '.' {
        0
    } else {
        1 + first_dot(b.drop_first())
    }
}

/// The digits after the first `.` of `b`.
pub open spec fn fraction_part(b: Seq<char>) -> Seq<char> {
    if first_dot(b) < b.len() {
        b.subrange(first_dot(b) as int + 1, b.len() as int)
    } else {
        Seq::empty()
    }
}

/// All digits of `b`, the `.` left out.
pub open spec fn all_decimal_digits(b: Seq<char>) -> Seq<char> {
    b.subrange(0, first_dot(b) as int) + fraction_part(b)
}

/// A decimal number without exponent: an optional sign, digits, and
/// optionally a `.` with more digits (`"23"`, `"-1.5"`, `"+.5"`, `"7."`), at
/// least one digit in all. Its value is `n / 10^k` for the pair `(n, k)`.
pub open spec fn parse_plain_decimal(s: Seq<char>) -> Option<(int, nat)> {
    let b = unsigned_body(s);
    let d = all_decimal_digits(b);
    if all_digits(d) && 1 <= d.len() {
        let m = digits_value(d);
        Some((if s.len() > 0 && s[0] == '-' { -m } else { m }, fraction_part(b).len()))
    } else {
        None
    }
}

/// The index of the first `e` or `E` in `s`, or its length where there is none.
pub open spec fn exponent_mark(s: Seq<char>) -> nat
    decreases s.len(),
{
    if s.len() == 0 {
        0
    } else if s[0] == 'e' || s[0] == 'E' {
        0
    } else {
        1 + exponent_mark(s.drop_first())
    }
}

/// An exponent: an optional sign and at least one digit.
pub open spec fn parse_exponent(t: Seq<char>) -> Option<int> {
    let b = unsigned_body(t);
    if all_digits(b) && 1 <= b.len() {
        Some(if t[0] == '-' { -digits_value(b) } else { digits_value(b) })
    } else {
        None
    }
}

/// A decimal number (see `parse_plain_decimal`), optionally followed by `e` or
/// `E` and an exponent (`"1e21"`, `"1.5E-7"`). Its value is `n * 10^e` for the
/// pair `(n, e)`.
pub open spec fn parse_decimal(s: Seq<char>) -> Option<(int, int)> {
    let x = exponent_mark(s);
    if x == s.len() {
        match parse_plain_decimal(s) {
            Some(m) => Some((m.0, -m.1)),
            None => None,
        }
    } else {
        match parse_plain_decimal(s.subrange(0, x as int)) {
            Some(m) => match parse_exponent(s.subrange(x as int + 1, s.len() as int)) {
                Some(e) => Some((m.0, e - m.1)),
                None => None,
            },
            None => None,
        }
    }
}

/// Beyond this power of ten a number is taken as floating point takes it:
/// infinite above, zero below.
pub const EXPONENT_LIMIT: i128 = 100_000_000_000_000_000_000;

/// A decimal number, `±digits * 10^exponent`. The digits have no leading
/// zero; none at all stands for zero.
#[derive(Debug)]
pub struct Decimal {
    pub negative: bool,
    pub digits: Vec<char>,
    pub exponent: i128,
}

impl Decimal {
    pub open spec fn view(self) -> (int, int) {
        let m = digits_value(self.digits@);
        (if self.negative { -m } else { m }, self.exponent as int)
    }

    pub open spec fn wf(self) -> bool {
        all_digits(self.digits@) && (self.digits@.len() > 0 ==> self.digits@[0] != '0')
            && -EXPONENT_LIMIT <= self.exponent <= EXPONENT_LIMIT
    }
}

/// What a number read from text is: a decimal `(n, e)` standing for
/// `n * 10^e`, an infinity (`true`: the negative one), or not a number.
pub enum NumericView {
    Finite((int, int)),
    Infinite(bool),
    NotANumber,
}

/// A number read from text: a decimal, an infinity (`true`: the negative
/// one), or not a number.
#[derive(Debug)]
pub enum Numeric {
    Finite(Decimal),
    Infinite(bool),
    NotANumber,
}

impl Numeric {
    pub open spec fn view(self) -> NumericView {
        match self {
            Numeric::Finite(d) => NumericView::Finite(d@),
            Numeric::Infinite(negative) => NumericView::Infinite(negative),
            Numeric::NotANumber => NumericView::NotANumber,
        }
    }

    pub open spec fn wf(self) -> bool {
        match self {
            Numeric::Finite(d) => d.wf(),
            _ => true,
        }
    }
}

/// A decimal as floating point holds it: exactly, but for a power of ten
/// beyond `EXPONENT_LIMIT` either way, which makes it infinite or zero.
pub open spec fn bounded_decimal(d: (int, int)) -> NumericView {
    if d.0 == 0 || d.1 < -EXPONENT_LIMIT {
        NumericView::Finite((0, 0))
    } else if d.1 > EXPONENT_LIMIT {
        NumericView::Infinite(d.0 < 0)
    } else {
        NumericView::Finite(d)
    }
}

/// A number as floating-point text writes it: a decimal (see
/// `parse_decimal` and `bounded_decimal`), or, with an optional sign and in
/// any case of ASCII letters, `inf`, `infinity` or `nan`.
pub open spec fn parse_number(s: Seq<char>) -> Option<NumericView> {
    match parse_decimal(s) {
        Some(d) => Some(bounded_decimal(d)),
        None => {
            let w = ascii_lower(unsigned_body(s));
            if w == "inf"@ || w == "infinity"@ {
                Some(NumericView::Infinite(s.len() > 0 && s[0] == '-'))
            } else if w == "nan"@ {
                Some(NumericView::NotANumber)
            } else {
                None
            }
        },
    }
}

/// The number a value stands for: its text read as a number.
pub open spec fn numeric_of(v: PropValue) -> Option<NumericView> {
    parse_number(str_repr(v))
}

pub proof fn lemma_digits_value_push(s: Seq<char>, c: char)
    ensures
        digits_value(s.push(c)) == digits_value(s) * 10 + (c as int - '0' as int),
{
    assert(s.push(c).drop_last() =~= s);
}

proof fn lemma_first_dot(b: Seq<char>, i: int)
    requires
        0 <= i <= b.len(),
        forall|j: int| 0 <= j < i ==> b[j] != '.',
        i == b.len() || b[i] == '.',
    ensures
        first_dot(b) == i,
    decreases i,
{
    if i > 0 {
        assert forall|j: int| 0 <= j < i - 1 implies b.drop_first()[j] != '.' by {
            assert(b[j + 1] != '.');
        }
        lemma_first_dot(b.drop_first(), i - 1);
    }
}

proof fn lemma_exponent_mark(s: Seq<char>, i: int)
    requires
        0 <= i <= s.len(),
        forall|j: int| 0 <= j < i ==> s[j] != 'e' && s[j] != 'E',
        i == s.len() || s[i] == 'e' || s[i] == 'E',
    ensures
        exponent_mark(s) == i,
    decreases i,
{
    if i > 0 {
        assert forall|j: int| 0 <= j < i - 1 implies s.drop_first()[j] != 'e' && s.drop_first()[j]
            != 'E' by {
            assert(s[j + 1] != 'e');
        }
        lemma_exponent_mark(s.drop_first(), i - 1);
    }
}

/// The digits of a plain decimal without leading zeros, its sign, and the
/// number of digits after the `.`.
struct Mantissa {
    negative: bool,
    digits: Vec<char>,
    scale: usize,
}

fn parse_plain_decimal_text(s: &str) -> (r: Option<Mantissa>)
    ensures
        r is Some <==> parse_plain_decimal(s@) is Some,
        r is Some ==> ({
            let m = r->0;
            let v = digits_value(m.digits@);
            &&& all_digits(m.digits@)
            &&& (m.digits@.len() > 0 ==> m.digits@[0] != '0')
            &&& parse_plain_decimal(s@)->0 == (if m.negative { -v } else { v }, m.scale as nat)
        }),
{
    let len = s.unicode_len();
    let mut start: usize = 0;
    let mut negative = false;
    if len > 0 {
        let c = s.get_char(0);
        if c == '+' || c == '-' {
            start = 1;
            negative = c == '-';
        }
    }
    let ghost b = unsigned_body(s@);
    assert(b =~= s@.subrange(start as int, len as int));
    let mut p: usize = start;
    while p < len && s.get_char(p) != '.'
        invariant
            start <= p <= len,
            len == s@.len(),
            b =~= s@.subrange(start as int, len as int),
            forall|j: int| 0 <= j < p - start ==> b[j] != '.',
        decreases len - p,
    {
        p = p + 1;
    }
    proof {
        lemma_first_dot(b, p - start);
    }
    let frac_start: usize = if p < len { p + 1 } else { len };
    let ghost d = all_decimal_digits(b);
    assert(d =~= s@.subrange(start as int, p as int) + s@.subrange(frac_start as int, len as int));
    let count: usize = (p - start) + (len - frac_start);
    if count == 0 {
        return None;
    }
    let int_len: usize = p - start;
    let mut digits: Vec<char> = Vec::new();
    let mut k: usize = 0;
    while k < count
        invariant
            start <= p <= len,
            len == s@.len(),
            b == unsigned_body(s@),
            d == all_decimal_digits(b),
            int_len == p - start,
            frac_start <= len,
            frac_start == (if p < len { p + 1 } else { len as int }),
            d =~= s@.subrange(start as int, p as int) + s@.subrange(frac_start as int, len as int),
            count == d.len(),
            1 <= count,
            k <= count,
            all_digits(d.subrange(0, k as int)),
            all_digits(digits@),
            digits@.len() > 0 ==> digits@[0] != '0',
            digits_value(digits@) == digits_value(d.subrange(0, k as int)),
        decreases count - k,
    {
        let idx: usize = if k < int_len { start + k } else { frac_start + (k - int_len) };
        let c = s.get_char(idx);
        assert(d[k as int] == c);
        if c < '0' || c > '9' {
            assert(!is_digit(d[k as int]));
            assert(!all_digits(d));
            assert(parse_plain_decimal(s@) is None);
            return None;
        }
        proof {
            lemma_digits_value_push(d.subrange(0, k as int), c);
            assert(d.subrange(0, k as int).push(c) =~= d.subrange(0, k + 1));
            lemma_digits_value_push(digits@, c);
        }
        if digits.len() > 0 || c != '0' {
            digits.push(c);
        } else {
            assert(digits@ =~= Seq::<char>::empty());
        }
        k = k + 1;
    }
    assert(d.subrange(0, k as int) =~= d);
    Some(Mantissa { negative, digits, scale: len - frac_start })
}

/// Above this an exponent is only known to be large.
const EXPONENT_CAP: i128 = 1_000_000_000_000_000_000_000;

/// Reads an exponent (see `parse_exponent`); one larger than `EXPONENT_CAP`
/// in size is given as just above it.
fn parse_exponent_text(t: &str) -> (r: Option<i128>)
    ensures
        r is Some <==> parse_exponent(t@) is Some,
        r is Some ==> {
            let e = parse_exponent(t@)->0;
            if -EXPONENT_CAP <= e <= EXPONENT_CAP {
                r->0 == e
            } else {
                (e > 0 ==> r->0 == EXPONENT_CAP + 1) && (e < 0 ==> r->0 == -EXPONENT_CAP - 1)
            }
        },
{
    let len = t.unicode_len();
    if len == 0 {
        return None;
    }
    let c0 = t.get_char(0);
    let start: usize = if c0 == '+' || c0 == '-' { 1 } else { 0 };
    let ghost b = unsigned_body(t@);
    assert(b =~= t@.subrange(start as int, len as int));
    if len - start < 1 {
        return None;
    }
    let mut acc: i128 = 0;
    let mut i: usize = start;
    while i < len
        invariant
            len == t@.len(),
            start <= i <= len,
            b == unsigned_body(t@),
            b =~= t@.subrange(start as int, len as int),
            all_digits(b.subrange(0, i - start)),
            0 <= digits_value(b.subrange(0, i - start)),
            acc == (if digits_value(b.subrange(0, i - start)) <= EXPONENT_CAP {
                digits_value(b.subrange(0, i - start))
            } else {
                EXPONENT_CAP + 1
            }),
        decreases len - i,
    {
        let c = t.get_char(i);
        assert(b[i - start] == c);
        if c < '0' || c > '9' {
            assert(!is_digit(b[i - start]));
            assert(!all_digits(b));
            assert(parse_exponent(t@) is None);
            return None;
        }
        proof {
            lemma_digits_value_push(b.subrange(0, i - start), c);
            assert(b.subrange(0, i - start).push(c) =~= b.subrange(0, i - start + 1));
        }
        if acc <= EXPONENT_CAP {
            let next = acc * 10 + (c as u32 - '0' as u32) as i128;
            acc = if next <= EXPONENT_CAP { next } else { EXPONENT_CAP + 1 };
        }
        i = i + 1;
    }
    assert(b.subrange(0, len - start) =~= b);
    Some(if c0 == '-' { -acc } else { acc })
}

pub proof fn lemma_pow10_positive(k: nat)
    ensures
        pow10(k) >= 1,
    decreases k,
{
    if k > 0 {
        lemma_pow10_positive((k - 1) as nat);
    }
}

pub proof fn lemma_pow10_add(a: nat, b: nat)
    ensures
        pow10(a + b) == pow10(a) * pow10(b),
    decreases b,
{
    if b > 0 {
        lemma_pow10_add(a, (b - 1) as nat);
        let (x, y) = (pow10(a), pow10((b - 1) as nat));
        assert(pow10(a + b) == 10 * pow10((a + b - 1) as nat));
        assert(10 * (x * y) == x * (10 * y)) by (nonlinear_arith);
    }
}

pub proof fn lemma_pow10_mono(a: nat, b: nat)
    requires
        a <= b,
    ensures
        1 <= pow10(a) <= pow10(b),
    decreases b,
{
    lemma_pow10_positive(a);
    if b > a {
        lemma_pow10_mono(a, (b - 1) as nat);
    }
}

/// The value of digits stays below the next power of ten.
pub proof fn lemma_digits_value_bound(d: Seq<char>)
    requires
        all_digits(d),
    ensures
        0 <= digits_value(d) < pow10(d.len()),
    decreases d.len(),
{
    if d.len() > 0 {
        let p = d.drop_last();
        assert(all_digits(p)) by {
            assert forall|i: int| 0 <= i < p.len() implies #[trigger] is_digit(p[i]) by {
                assert(is_digit(d[i]));
            }
        }
        lemma_digits_value_bound(p);
        assert(is_digit(d[d.len() - 1]));
        let (v, q) = (digits_value(p), pow10(p.len()));
        let l = d.last() as int - '0' as int;
        assert(v * 10 + l < q * 10) by (nonlinear_arith)
            requires
                v < q,
                0 <= l <= 9,
        ;
    }
}

/// Digits written one after the other.
pub proof fn lemma_digits_value_append(x: Seq<char>, y: Seq<char>)
    ensures
        digits_value(x + y) == digits_value(x) * pow10(y.len()) + digits_value(y),
    decreases y.len(),
{
    if y.len() == 0 {
        assert(x + y =~= x);
    } else {
        let y1 = y.drop_last();
        lemma_digits_value_append(x, y1);
        assert((x + y).drop_last() =~= x + y1);
        assert((x + y).last() == y.last());
        let (v, p, w) = (digits_value(x), pow10(y1.len()), digits_value(y1));
        let l = y.last() as int - '0' as int;
        assert((v * p + w) * 10 + l == v * (10 * p) + (w * 10 + l)) by (nonlinear_arith);
    }
}

/// Digits that start with a non-zero one reach the power of ten below their length.
pub proof fn lemma_leading_digit(d: Seq<char>)
    requires
        all_digits(d),
        d.len() > 0,
        d[0] != '0',
    ensures
        digits_value(d) >= pow10((d.len() - 1) as nat),
        digits_value(d) > 0,
{
    let head = d.subrange(0, 1);
    let rest = d.subrange(1, d.len() as int);
    assert(d =~= head + rest);
    lemma_digits_value_append(head, rest);
    assert(head.drop_last() =~= Seq::<char>::empty());
    assert(is_digit(d[0]));
    assert(all_digits(rest)) by {
        assert forall|i: int| 0 <= i < rest.len() implies #[trigger] is_digit(rest[i]) by {
            assert(is_digit(d[i + 1]));
        }
    }
    lemma_digits_value_bound(rest);
    lemma_pow10_positive(rest.len());
    assert(head.last() == d[0]);
    assert(digits_value(head.drop_last()) == 0);
    assert(digits_value(head) == d[0] as int - '0' as int);
    let (h, p, r) = (digits_value(head), pow10(rest.len()), digits_value(rest));
    assert(h * p + r >= p) by (nonlinear_arith)
        requires
            h >= 1,
            r >= 0,
            p >= 1,
    ;
}

/// Digits are worth zero exactly when all of them are `0`.
pub proof fn lemma_digits_value_zero(d: Seq<char>)
    requires
        all_digits(d),
    ensures
        digits_value(d) == 0 <==> (forall|i: int| 0 <= i < d.len() ==> d[i] == '0'),
    decreases d.len(),
{
    if d.len() > 0 {
        let p = d.drop_last();
        assert(all_digits(p)) by {
            assert forall|i: int| 0 <= i < p.len() implies #[trigger] is_digit(p[i]) by {
                assert(is_digit(d[i]));
            }
        }
        lemma_digits_value_zero(p);
        lemma_digits_value_bound(p);
        assert(is_digit(d[d.len() - 1]));
        if digits_value(d) == 0 {
            assert forall|i: int| 0 <= i < d.len() implies d[i] == '0' by {
                if i < d.len() - 1 {
                    assert(d[i] == p[i]);
                }
            }
        }
        if forall|i: int| 0 <= i < d.len() ==> d[i] == '0' {
            assert forall|i: int| 0 <= i < p.len() implies p[i] == '0' by {
                assert(d[i] == '0');
            }
            assert(d[d.len() - 1] == '0');
        }
    }
}

/// Digit strings of one length are ordered by their first difference.
pub proof fn lemma_first_difference(x: Seq<char>, y: Seq<char>, i: int)
    requires
        x.len() == y.len(),
        all_digits(x),
        all_digits(y),
        0 <= i < x.len(),
        x.subrange(0, i) == y.subrange(0, i),
        x[i] < y[i],
    ensures
        digits_value(x) < digits_value(y),
{
    let xp = x.subrange(0, i + 1);
    let xs = x.subrange(i + 1, x.len() as int);
    let yp = y.subrange(0, i + 1);
    let ys = y.subrange(i + 1, y.len() as int);
    assert(x =~= xp + xs);
    assert(y =~= yp + ys);
    lemma_digits_value_append(xp, xs);
    lemma_digits_value_append(yp, ys);
    assert(x.subrange(0, i).push(x[i]) =~= xp);
    assert(y.subrange(0, i).push(y[i]) =~= yp);
    lemma_digits_value_push(x.subrange(0, i), x[i]);
    lemma_digits_value_push(y.subrange(0, i), y[i]);
    assert(all_digits(xs)) by {
        assert forall|j: int| 0 <= j < xs.len() implies #[trigger] is_digit(xs[j]) by {
            assert(is_digit(x[j + i + 1]));
        }
    }
    assert(all_digits(ys)) by {
        assert forall|j: int| 0 <= j < ys.len() implies #[trigger] is_digit(ys[j]) by {
            assert(is_digit(y[j + i + 1]));
        }
    }
    lemma_digits_value_bound(xs);
    lemma_digits_value_bound(ys);
    let (a, b, p) = (digits_value(xp), digits_value(yp), pow10(xs.len()));
    let (u, w) = (digits_value(xs), digits_value(ys));
    assert(a + 1 <= b);
    assert(a * p + u < b * p + w) by (nonlinear_arith)
        requires
            a + 1 <= b,
            0 <= u < p,
            0 <= w,
    ;
}

pub open spec fn zeros(k: nat) -> Seq<char> {
    Seq::new(k, |i: int| '0')
}

/// Sign of an integer: -1, 0 or 1.
pub open spec fn sign_of(x: int) -> int {
    if x < 0 {
        -1
    } else if x > 0 {
        1
    } else {
        0
    }
}

/// Two decimals `(n, e)` (worth `n * 10^e`) brought to the smaller of their
/// powers of ten: the first is less than the second exactly when the first
/// decimal is less than the second, and so on.
pub open spec fn scaled_pair(a: (int, int), b: (int, int)) -> (int, int) {
    let m = if a.1 <= b.1 { a.1 } else { b.1 };
    (a.0 * pow10((a.1 - m) as nat), b.0 * pow10((b.1 - m) as nat))
}

/// `A * 10^ea` against `B * 10^eb` for non-empty digit strings without
/// leading zeros: -1, 0 or 1 as the first is less, equal or greater.
fn compare_magnitudes(a: &Vec<char>, ea: i128, b: &Vec<char>, eb: i128) -> (r: i8)
    requires
        all_digits(a@),
        all_digits(b@),
        a@.len() > 0,
        b@.len() > 0,
        a@[0] != '0',
        b@[0] != '0',
        -EXPONENT_LIMIT <= ea <= EXPONENT_LIMIT,
        -EXPONENT_LIMIT <= eb <= EXPONENT_LIMIT,
    ensures
        r == sign_of(
            scaled_pair((digits_value(a@), ea as int), (digits_value(b@), eb as int)).0
                - scaled_pair((digits_value(a@), ea as int), (digits_value(b@), eb as int)).1,
        ),
{
    let la = a.len();
    let lb = b.len();
    let pa: i128 = la as i128 + ea;
    let pb: i128 = lb as i128 + eb;
    let ghost m = if ea <= eb { ea as int } else { eb as int };
    let ghost sp = scaled_pair((digits_value(a@), ea as int), (digits_value(b@), eb as int));
    proof {
        lemma_leading_digit(a@);
        lemma_leading_digit(b@);
        lemma_digits_value_bound(a@);
        lemma_digits_value_bound(b@);
        lemma_pow10_positive((ea - m) as nat);
        lemma_pow10_positive((eb - m) as nat);
    }
    if pa != pb {
        proof {
            // the longer one reaches a power of ten the shorter stays below
            let (x, xe, y, ye, lx, ly) = if pa > pb {
                (a@, ea as int, b@, eb as int, la as int, lb as int)
            } else {
                (b@, eb as int, a@, ea as int, lb as int, la as int)
            };
            let big = digits_value(x) * pow10((xe - m) as nat);
            let small = digits_value(y) * pow10((ye - m) as nat);
            lemma_pow10_add((lx - 1) as nat, (xe - m) as nat);
            lemma_pow10_add(ly as nat, (ye - m) as nat);
            lemma_pow10_mono((ly + ye - m) as nat, (lx - 1 + xe - m) as nat);
            let (dx, px, lowx) = (digits_value(x), pow10((xe - m) as nat), pow10((lx - 1) as nat));
            let (dy, py, highy) = (digits_value(y), pow10((ye - m) as nat), pow10(ly as nat));
            assert(dx * px >= lowx * px) by (nonlinear_arith)
                requires
                    dx >= lowx,
                    px >= 1,
            ;
            assert(dy * py < highy * py) by (nonlinear_arith)
                requires
                    dy < highy,
                    py >= 1,
            ;
            assert(big > small);
        }
        return if pa > pb { 1 } else { -1 };
    }
    let len: usize = if la >= lb { la } else { lb };
    let ghost xa = a@ + zeros((len - la) as nat);
    let ghost xb = b@ + zeros((len - lb) as nat);
    proof {
        lemma_digits_value_append(a@, zeros((len - la) as nat));
        lemma_digits_value_append(b@, zeros((len - lb) as nat));
        lemma_digits_value_zero(zeros((len - la) as nat));
        lemma_digits_value_zero(zeros((len - lb) as nat));
        assert(ea - m == len - la);
        assert(eb - m == len - lb);
        assert(digits_value(xa) == sp.0);
        assert(digits_value(xb) == sp.1);
        assert(all_digits(xa)) by {
            assert forall|i: int| 0 <= i < xa.len() implies #[trigger] is_digit(xa[i]) by {
                if i < la {
                    assert(is_digit(a@[i]));
                }
            }
        }
        assert(all_digits(xb)) by {
            assert forall|i: int| 0 <= i < xb.len() implies #[trigger] is_digit(xb[i]) by {
                if i < lb {
                    assert(is_digit(b@[i]));
                }
            }
        }
    }
    let mut i: usize = 0;
    while i < len
        invariant
            sp == scaled_pair((digits_value(a@), ea as int), (digits_value(b@), eb as int)),
            la == a@.len(),
            lb == b@.len(),
            len == xa.len(),
            len == xb.len(),
            xa == a@ + zeros((len - la) as nat),
            xb == b@ + zeros((len - lb) as nat),
            all_digits(xa),
            all_digits(xb),
            digits_value(xa) == sp.0,
            digits_value(xb) == sp.1,
            i <= len,
            xa.subrange(0, i as int) == xb.subrange(0, i as int),
        decreases len - i,
    {
        let ca = if i < la { a[i] } else { '0' };
        let cb = if i < lb { b[i] } else { '0' };
        assert(ca == xa[i as int]);
        assert(cb == xb[i as int]);
        if ca < cb {
            proof {
                lemma_first_difference(xa, xb, i as int);
                assert(sp.0 < sp.1);
            }
            return -1;
        }
        if ca > cb {
            proof {
                assert(xb.subrange(0, i as int) == xa.subrange(0, i as int));
                lemma_first_difference(xb, xa, i as int);
                assert(sp.0 > sp.1);
            }
            return 1;
        }
        assert(xa.subrange(0, i + 1) =~= xa.subrange(0, i as int).push(ca));
        assert(xb.subrange(0, i + 1) =~= xb.subrange(0, i as int).push(cb));
        i = i + 1;
    }
    assert(xa =~= xa.subrange(0, len as int));
    assert(xb =~= xb.subrange(0, len as int));
    0
}

/// Two decimals compared exactly: -1, 0 or 1 as `a` is less than, equal to or
/// greater than `b`.
pub fn compare_decimals(a: &Decimal, b: &Decimal) -> (r: i8)
    requires
        a.wf(),
        b.wf(),
    ensures
        r == sign_of(scaled_pair(a@, b@).0 - scaled_pair(a@, b@).1),
{
    let ghost m = if a.exponent <= b.exponent { a.exponent as int } else { b.exponent as int };
    let ghost (pa, pb) = (pow10((a.exponent - m) as nat), pow10((b.exponent - m) as nat));
    let ghost (va, vb) = (digits_value(a.digits@), digits_value(b.digits@));
    proof {
        lemma_pow10_positive((a.exponent - m) as nat);
        lemma_pow10_positive((b.exponent - m) as nat);
        if a.digits@.len() > 0 {
            lemma_leading_digit(a.digits@);
        } else {
            assert(va == 0);
        }
        if b.digits@.len() > 0 {
            lemma_leading_digit(b.digits@);
        } else {
            assert(vb == 0);
        }
        assert(va * pa >= 0 && vb * pb >= 0) by (nonlinear_arith)
            requires
                va >= 0,
                vb >= 0,
                pa >= 1,
                pb >= 1,
        ;
        assert(va > 0 ==> va * pa > 0) by (nonlinear_arith)
            requires
                pa >= 1,
        ;
        assert(vb > 0 ==> vb * pb > 0) by (nonlinear_arith)
            requires
                pb >= 1,
        ;
        assert((-va) * pa == -(va * pa)) by (nonlinear_arith);
        assert((-vb) * pb == -(vb * pb)) by (nonlinear_arith);
    }
    let a_zero = a.digits.len() == 0;
    let b_zero = b.digits.len() == 0;
    if a_zero && b_zero {
        0
    } else if a_zero {
        if b.negative { 1 } else { -1 }
    } else if b_zero {
        if a.negative { -1 } else { 1 }
    } else if a.negative != b.negative {
        if a.negative { -1 } else { 1 }
    } else {
        let c = compare_magnitudes(&a.digits, a.exponent, &b.digits, b.exponent);
        if a.negative { -c } else { c }
    }
}

/// The mantissa of a decimal and its exponent (see `parse_decimal`); an
/// exponent beyond `EXPONENT_CAP` in size is given as just beyond it.
fn decimal_parts(s: &str) -> (r: Option<(Mantissa, i128)>)
    ensures
        r is Some <==> parse_decimal(s@) is Some,
        r is Some ==> ({
            let (m, e) = r->0;
            let v = digits_value(m.digits@);
            let pd = parse_decimal(s@)->0;
            let re = pd.1 + m.scale;
            &&& all_digits(m.digits@)
            &&& (m.digits@.len() > 0 ==> m.digits@[0] != '0')
            &&& pd.0 == (if m.negative { -v } else { v })
            &&& (-EXPONENT_CAP <= re <= EXPONENT_CAP ==> e == re)
            &&& (re > EXPONENT_CAP ==> e == EXPONENT_CAP + 1)
            &&& (re < -EXPONENT_CAP ==> e == -EXPONENT_CAP - 1)
        }),
{
    let len = s.unicode_len();
    let mut x: usize = 0;
    while x < len && s.get_char(x) != 'e' && s.get_char(x) != 'E'
        invariant
            x <= len,
            len == s@.len(),
            forall|j: int| 0 <= j < x ==> s@[j] != 'e' && s@[j] != 'E',
        decreases len - x,
    {
        x = x + 1;
    }
    proof {
        lemma_exponent_mark(s@, x as int);
    }
    if x == len {
        match parse_plain_decimal_text(s) {
            Some(m) => Some((m, 0)),
            None => None,
        }
    } else {
        match parse_plain_decimal_text(s.substring_char(0, x)) {
            Some(m) => match parse_exponent_text(s.substring_char(x + 1, len)) {
                Some(e) => Some((m, e)),
                None => None,
            },
            None => None,
        }
    }
}

/// Reads `s` as a number (see `parse_number`).
pub fn parse_number_text(s: &str) -> (r: Option<Numeric>)
    ensures
        r is Some <==> parse_number(s@) is Some,
        r is Some ==> r->0@ == parse_number(s@)->0 && r->0.wf(),
{
    let parts = decimal_parts(s);
    match parts {
        Some((m, e)) => {
            let exponent = e - m.scale as i128;
            let ghost pd = parse_decimal(s@)->0;
            proof {
                if m.digits@.len() > 0 {
                    lemma_leading_digit(m.digits@);
                }
            }
            if m.digits.len() == 0 || exponent < -EXPONENT_LIMIT {
                proof {
                    if m.digits@.len() == 0 {
                        assert(m.digits@ =~= Seq::<char>::empty());
                    }
                }
                Some(Numeric::Finite(Decimal { negative: false, digits: Vec::new(), exponent: 0 }))
            } else if exponent > EXPONENT_LIMIT {
                proof {
                    lemma_leading_digit(m.digits@);
                }
                Some(Numeric::Infinite(m.negative))
            } else {
                Some(Numeric::Finite(Decimal { negative: m.negative, digits: m.digits, exponent }))
            }
        },
        None => {
            let len = s.unicode_len();
            let mut start: usize = 0;
            let mut negative = false;
            if len > 0 {
                let c = s.get_char(0);
                if c == '+' || c == '-' {
                    start = 1;
                    negative = c == '-';
                }
            }
            let body = s.substring_char(start, len);
            assert(body@ =~= unsigned_body(s@));
            proof {
                reveal_strlit("inf");
                reveal_strlit("infinity");
                reveal_strlit("nan");
            }
            if equals_ignoring_ascii_case(body, "inf") || equals_ignoring_ascii_case(
                body,
                "infinity",
            ) {
                Some(Numeric::Infinite(negative))
            } else if equals_ignoring_ascii_case(body, "nan") {
                Some(Numeric::NotANumber)
            } else {
                None
            }
        },
    }
}

/// The number a value stands for (see `numeric_of`).
pub fn to_numeric_representation(value: &PropValue) -> (r: Option<Numeric>)
    ensures
        r is Some <==> numeric_of(*value) is Some,
        r is Some ==> r->0@ == numeric_of(*value)->0 && r->0.wf(),
{
    let t = to_string_representation(value);
    parse_number_text(t.as_str())
}

} // verus!
