//! Moments in time read from date texts and from epoch milliseconds.
use vstd::prelude::*;
use vstd::arithmetic::div_mod::*;
use crate::numeric::{
    Decimal, Numeric, NumericView, all_digits, digits_value, is_digit, lemma_digits_value_append,
    lemma_digits_value_bound, lemma_digits_value_push, lemma_digits_value_zero, lemma_leading_digit,
    lemma_pow10_add, lemma_pow10_mono, lemma_pow10_positive, parse_number, parse_number_text, pow10,
};
use crate::outside::{
    naive_date_parse, naive_datetime_parse, parse_date_with, parse_datetime_with,
    timestamp_in_range, timestamp_moment,
};
use crate::value::PropValue;

verus! {

/// A moment: seconds since the Unix epoch and the nanoseconds past them
/// (a leap second is held as nanoseconds from one second up).
#[derive(Debug, Clone, Copy, PartialEq, Eq, Structural)]
pub struct Instant {
    pub secs: i64,
    pub nanos: u32,
}

impl Instant {
    pub open spec fn view(self) -> (i64, u32) {
        (self.secs, self.nanos)
    }
}

/// Whether moment `a` comes before moment `b`.
pub open spec fn earlier(a: (i64, u32), b: (i64, u32)) -> bool {
    a.0 < b.0 || (a.0 == b.0 && a.1 < b.1)
}

/// The date-and-time formats tried, in order.
pub open spec fn datetime_format(i: int) -> Seq<char> {
    if i == 0 {
        "%Y-%m-%d"@
    } else if i == 1 {
        "%Y-%m-%dT%H:%M:%S"@
    } else if i == 2 {
        "%Y-%m-%dT%H:%M:%S%.3f"@
    } else if i == 3 {
        "%Y-%m-%dT%H:%M:%S%.3fZ"@
    } else {
        "%Y-%m-%dT%H:%M:%SZ"@
    }
}

pub const N_DATETIME_FORMATS: usize = 5;

/// The first of the formats from `i` on that reads `s` as a date and time.
pub open spec fn parse_with_formats(s: Seq<char>, i: int) -> Option<(i64, u32)>
    decreases N_DATETIME_FORMATS - i,
{
    if i < 0 || i >= N_DATETIME_FORMATS {
        None
    } else {
        match naive_datetime_parse(s, datetime_format(i)) {
            Some(m) => Some(m),
            None => parse_with_formats(s, i + 1),
        }
    }
}

/// A date text read as a moment: by the first date-and-time format that fits,
/// else as a bare date at midnight UTC.
pub open spec fn parse_date(s: Seq<char>) -> Option<(i64, u32)> {
    match parse_with_formats(s, 0) {
        Some(m) => Some(m),
        None => match naive_date_parse(s, "%Y-%m-%d"@) {
            Some(secs) => Some((secs, 0u32)),
            None => None,
        },
    }
}

fn format_at(i: usize) -> (r: &'static str)
    requires
        i < N_DATETIME_FORMATS,
    ensures
        r@ == datetime_format(i as int),
{
    if i == 0 {
        "%Y-%m-%d"
    } else if i == 1 {
        "%Y-%m-%dT%H:%M:%S"
    } else if i == 2 {
        "%Y-%m-%dT%H:%M:%S%.3f"
    } else if i == 3 {
        "%Y-%m-%dT%H:%M:%S%.3fZ"
    } else {
        "%Y-%m-%dT%H:%M:%SZ"
    }
}

/// Reads a date text as a moment (see `parse_date`).
pub fn parse_date_string(date_str: &str) -> (r: Option<Instant>)
    ensures
        r is Some <==> parse_date(date_str@) is Some,
        r is Some ==> r->0@ == parse_date(date_str@)->0,
{
    let mut i: usize = 0;
    while i < N_DATETIME_FORMATS
        invariant
            i <= N_DATETIME_FORMATS,
            parse_with_formats(date_str@, 0) == parse_with_formats(date_str@, i as int),
        decreases N_DATETIME_FORMATS - i,
    {
        if let Some(m) = parse_datetime_with(date_str, format_at(i)) {
            return Some(Instant { secs: m.0, nanos: m.1 });
        }
        i = i + 1;
    }
    match parse_date_with(date_str, "%Y-%m-%d") {
        Some(secs) => Some(Instant { secs, nanos: 0 }),
        None => None,
    }
}

/// Epoch milliseconds `ms.0 * 10^ms.1` as whole nanoseconds, rounded down.
pub open spec fn total_nanos(ms: (int, int)) -> int {
    let k = ms.1 + 6;
    if k >= 0 {
        ms.0 * pow10(k as nat)
    } else {
        ms.0 / pow10((-k) as nat)
    }
}

/// Epoch milliseconds as whole seconds (rounded down) and the nanoseconds
/// past them, whatever the sign; anything below a nanosecond is dropped.
pub open spec fn millis_to_timestamp(ms: (int, int)) -> (int, int) {
    let t = total_nanos(ms);
    (t / 1_000_000_000, t % 1_000_000_000)
}

/// The moment an observed value stands for: a date text, or a number of
/// milliseconds since the Unix epoch.
pub open spec fn observed_moment(v: Option<PropValue>) -> Option<(i64, u32)> {
    match v {
        Some(PropValue::Str(s)) => parse_date(s@),
        Some(PropValue::Number(t)) => match parse_number(t@) {
            Some(NumericView::Finite(ms)) => {
                let ts = millis_to_timestamp(ms);
                if timestamp_in_range(ts.0) {
                    Some((ts.0 as i64, ts.1 as u32))
                } else {
                    None
                }
            },
            _ => None,
        },
        _ => None,
    }
}

const NANOS_LIMIT: i128 = 1_000_000_000_000_000_000_000_000_000_000;

proof fn lemma_pow10_30()
    ensures
        pow10(30) == NANOS_LIMIT,
{
    reveal_with_fuel(pow10, 31);
}

/// The value of the first `n` digits, with `n` at most 30.
fn leading_value(d: &Vec<char>, n: usize) -> (r: i128)
    requires
        all_digits(d@),
        n <= d@.len(),
        n <= 30,
    ensures
        r == digits_value(d@.subrange(0, n as int)),
        0 <= r < pow10(n as nat),
{
    let mut acc: i128 = 0;
    let mut i: usize = 0;
    while i < n
        invariant
            all_digits(d@),
            n <= d@.len(),
            n <= 30,
            i <= n,
            acc == digits_value(d@.subrange(0, i as int)),
            0 <= acc < pow10(i as nat),
        decreases n - i,
    {
        let c = d[i];
        proof {
            assert(is_digit(d@[i as int]));
            lemma_digits_value_push(d@.subrange(0, i as int), c);
            assert(d@.subrange(0, i as int).push(c) =~= d@.subrange(0, i + 1));
            lemma_pow10_mono((i + 1) as nat, 30);
            lemma_pow10_30();
            assert(acc * 10 + 9 < pow10(i as nat) * 10) by (nonlinear_arith)
                requires
                    acc < pow10(i as nat),
            ;
        }
        acc = acc * 10 + (c as u32 - '0' as u32) as i128;
        i = i + 1;
    }
    acc
}

/// Epoch milliseconds as whole nanoseconds (see `total_nanos`), where these
/// stay below `10^30` in size; `None` where they do not.
fn nanos_of_millis(ms: &Decimal) -> (r: Option<i128>)
    requires
        ms.wf(),
    ensures
        r is Some ==> r->0 == total_nanos(ms@) && -NANOS_LIMIT <= r->0 <= NANOS_LIMIT,
        r is None ==> total_nanos(ms@) >= NANOS_LIMIT || total_nanos(ms@) <= -NANOS_LIMIT,
{
    let la = ms.digits.len();
    let ghost d = ms.digits@;
    let ghost a = digits_value(d);
    proof {
        lemma_pow10_30();
        lemma_digits_value_bound(d);
    }
    if la == 0 {
        proof {
            assert(d =~= Seq::<char>::empty());
            assert(a == 0);
            assert(ms@.0 == 0);
            if ms.exponent + 6 < 0 {
                lemma_pow10_positive((-(ms.exponent + 6)) as nat);
                lemma_fundamental_div_mod_converse(0, pow10((-(ms.exponent + 6)) as nat), 0, 0);
            }
        }
        return Some(0);
    }
    proof {
        lemma_leading_digit(d);
    }
    let k: i128 = ms.exponent + 6;
    let p: i128 = la as i128 + k;
    if k >= 0 {
        let ghost scale = pow10(k as nat);
        proof {
            lemma_pow10_add((la - 1) as nat, k as nat);
            lemma_pow10_add(la as nat, k as nat);
            lemma_pow10_positive(k as nat);
            let low = pow10((la - 1) as nat);
            let high = pow10(la as nat);
            assert(a * scale >= low * scale && a * scale < high * scale) by (nonlinear_arith)
                requires
                    low <= a < high,
                    scale >= 1,
            ;
            assert((-a) * scale == -(a * scale)) by (nonlinear_arith);
        }
        if p > 30 {
            proof {
                lemma_pow10_mono(30, (p - 1) as nat);
            }
            return None;
        }
        let mut acc = leading_value(&ms.digits, la);
        assert(d.subrange(0, la as int) =~= d);
        let mut j: i128 = 0;
        while j < k
            invariant
                0 <= j <= k,
                la as int + k <= 30,
                acc == a * pow10(j as nat),
                0 <= acc < pow10((la + j) as nat),
            decreases k - j,
        {
            proof {
                lemma_pow10_mono((la + j + 1) as nat, 30);
                lemma_pow10_30();
                let (x, y) = (a, pow10(j as nat));
                assert(x * (10 * y) == (x * y) * 10) by (nonlinear_arith);
            }
            acc = acc * 10;
            j = j + 1;
        }
        proof {
            lemma_pow10_mono((la + k) as nat, 30);
        }
        return Some(if ms.negative { -acc } else { acc });
    }
    let m: i128 = -k;
    let ghost big = pow10(m as nat);
    proof {
        lemma_pow10_positive(m as nat);
    }
    if p <= 0 {
        // below one nanosecond in size
        proof {
            lemma_pow10_mono(la as nat, m as nat);
            lemma_fundamental_div_mod_converse(a, big, 0, a);
            if ms.negative {
                lemma_fundamental_div_mod_converse(-a, big, -1, big - a);
            }
        }
        return Some(if ms.negative { -1 } else { 0 });
    }
    let n: usize = p as usize;
    let ghost head = d.subrange(0, n as int);
    let ghost tail = d.subrange(n as int, la as int);
    proof {
        assert(d =~= head + tail);
        lemma_digits_value_append(head, tail);
        assert(all_digits(head)) by {
            assert forall|i: int| 0 <= i < head.len() implies #[trigger] is_digit(head[i]) by {
                assert(is_digit(d[i]));
            }
        }
        assert(all_digits(tail)) by {
            assert forall|i: int| 0 <= i < tail.len() implies #[trigger] is_digit(tail[i]) by {
                assert(is_digit(d[i + n]));
            }
        }
        lemma_digits_value_bound(tail);
        lemma_digits_value_bound(head);
        lemma_leading_digit(head);
        assert(tail.len() == m);
        assert(a == digits_value(head) * big + digits_value(tail));
        lemma_fundamental_div_mod_converse(a, big, digits_value(head), digits_value(tail));
    }
    if p > 30 {
        proof {
            lemma_pow10_mono(30, (n - 1) as nat);
            let (q, r) = (digits_value(head), digits_value(tail));
            if ms.negative {
                if r == 0 {
                    assert(-a == (-q) * big + 0) by (nonlinear_arith)
                        requires
                            a == q * big + r,
                            r == 0,
                    ;
                    lemma_fundamental_div_mod_converse(-a, big, -q, 0);
                } else {
                    assert(-a == (-q - 1) * big + (big - r)) by (nonlinear_arith)
                        requires
                            a == q * big + r,
                    ;
                    lemma_fundamental_div_mod_converse(-a, big, -q - 1, big - r);
                }
            }
        }
        return None;
    }
    let q = leading_value(&ms.digits, n);
    assert(q == digits_value(head));
    // whether any digit past the first `n` is not zero
    let mut rest_zero = true;
    let mut i: usize = n;
    while i < la
        invariant
            n <= i <= la,
            la == d.len(),
            d == ms.digits@,
            tail == d.subrange(n as int, la as int),
            rest_zero == (forall|j: int| n <= j < i ==> d[j] == '0'),
        decreases la - i,
    {
        if ms.digits[i] != '0' {
            rest_zero = false;
        }
        i = i + 1;
    }
    proof {
        lemma_digits_value_zero(tail);
        if rest_zero {
            assert forall|j: int| 0 <= j < tail.len() implies tail[j] == '0' by {
                assert(d[j + n] == '0');
            }
        } else {
            let j = choose|j: int| n <= j < la && d[j] != '0';
            assert(tail[j - n] != '0');
        }
        let r = digits_value(tail);
        lemma_pow10_mono(n as nat, 30);
        let qi = q as int;
        if ms.negative {
            if r == 0 {
                assert(-a == (-qi) * big + 0) by (nonlinear_arith)
                    requires
                        a == qi * big + r,
                        r == 0,
                ;
                lemma_fundamental_div_mod_converse(-a, big, -qi, 0);
            } else {
                assert(-a == (-qi - 1) * big + (big - r)) by (nonlinear_arith)
                    requires
                        a == qi * big + r,
                ;
                lemma_fundamental_div_mod_converse(-a, big, -qi - 1, big - r);
            }
        }
    }
    Some(
        if !ms.negative {
            q
        } else if rest_zero {
            -q
        } else {
            -q - 1
        },
    )
}

/// Whole nanoseconds as whole seconds (rounded down) and the nanoseconds past them.
fn split_nanos(t: i128) -> (r: (i128, i128))
    requires
        -NANOS_LIMIT <= t <= NANOS_LIMIT,
    ensures
        r.0 == t / 1_000_000_000,
        r.1 == t % 1_000_000_000,
        0 <= r.1 < 1_000_000_000,
        -NANOS_LIMIT <= r.0 <= NANOS_LIMIT,
{
    let unit: i128 = 1_000_000_000;
    if t >= 0 {
        proof {
            lemma_fundamental_div_mod(t as int, 1_000_000_000);
            lemma_mod_pos_bound(t as int, 1_000_000_000);
        }
        (t / unit, t % unit)
    } else {
        let m = -t;
        let q = m / unit;
        let r = m % unit;
        proof {
            lemma_fundamental_div_mod(m as int, 1_000_000_000);
            lemma_mod_pos_bound(m as int, 1_000_000_000);
            if r == 0 {
                lemma_fundamental_div_mod_converse(t as int, 1_000_000_000, -(q as int), 0);
            } else {
                lemma_fundamental_div_mod_converse(
                    t as int,
                    1_000_000_000,
                    -(q as int) - 1,
                    1_000_000_000 - r,
                );
            }
        }
        if r == 0 {
            (-q, 0)
        } else {
            (-q - 1, unit - r)
        }
    }
}

pub open spec fn copied(o: Option<&PropValue>) -> Option<PropValue> {
    match o {
        Some(v) => Some(*v),
        None => None,
    }
}

/// The moment an observed value stands for (see `observed_moment`).
pub fn determine_parsed_date_for_property_matching(value: Option<&PropValue>) -> (r: Option<Instant>)
    ensures
        r is Some <==> observed_moment(copied(value)) is Some,
        r is Some ==> r->0@ == observed_moment(copied(value))->0,
{
    match value {
        Some(PropValue::Str(s)) => parse_date_string(s.as_str()),
        Some(PropValue::Number(t)) => match parse_number_text(t.as_str()) {
            Some(Numeric::Finite(ms)) => match nanos_of_millis(&ms) {
                Some(total) => {
                    let (secs, nanos) = split_nanos(total);
                    if secs < i64::MIN as i128 || secs > i64::MAX as i128 {
                        return None;
                    }
                    match timestamp_moment(secs as i64, nanos as u32) {
                        Some(m) => Some(Instant { secs: m.0, nanos: m.1 }),
                        None => None,
                    }
                },
                None => {
                    proof {
                        let t = total_nanos(ms@);
                        lemma_fundamental_div_mod(t, 1_000_000_000);
                        lemma_mod_bound(t, 1_000_000_000);
                    }
                    None
                },
            },
            _ => None,
        },
        _ => None,
    }
}

} // verus!
