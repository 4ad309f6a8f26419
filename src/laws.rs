//! Laws that relate the outcomes of matching under different operators and modes.
use vstd::prelude::*;
use crate::filter::{OperatorType, Properties, PropertyFilter, effective_operator};
use crate::matching::{Outcome, cohort_only, match_outcome, missing_message};
use crate::outside::{lower_of, regex_compiles};
use crate::value::{PropValue, is_boolean_like, str_repr};
use crate::dates::{millis_to_timestamp, total_nanos};
use crate::numeric::{lemma_pow10_add, lemma_pow10_positive, pow10, scaled_pair};
use vstd::arithmetic::div_mod::*;
use vstd::arithmetic::mul::*;

verus! {

/// Whether `v` is a single value rather than an array.
pub open spec fn is_scalar(v: PropValue) -> bool {
    !(v is Array)
}

/// With `Exact` (or no operator), a scalar filter value matches an observed
/// value equal to it; and, where the filter value does not read as a boolean,
/// it fails on any observed value whose lowercased text differs.
pub proof fn exact_matches_own_value(filter: PropertyFilter, props: Properties, partial: bool, other: PropValue)
    requires
        effective_operator(filter.operator) == OperatorType::Exact,
        is_scalar(filter.value),
    ensures
        props.lookup(filter.key@) == Some(filter.value) ==> match_outcome(
            filter,
            props.lookup(filter.key@),
            partial,
        ) == Outcome::Decided(true),
        props.lookup(filter.key@) == Some(other) && !is_boolean_like(filter.value) && lower_of(
            str_repr(other),
        ) != lower_of(str_repr(filter.value)) ==> match_outcome(
            filter,
            props.lookup(filter.key@),
            partial,
        ) == Outcome::Decided(false),
{
}

/// An array filter value that does not read as a boolean matches under
/// `Exact` exactly when some item's lowercased text equals the observed one's.
pub proof fn exact_array_is_membership(filter: PropertyFilter, props: Properties, partial: bool, observed: PropValue)
    requires
        effective_operator(filter.operator) == OperatorType::Exact,
        filter.value is Array,
        !is_boolean_like(filter.value),
        props.lookup(filter.key@) == Some(observed),
    ensures
        match_outcome(filter, props.lookup(filter.key@), partial) == Outcome::Decided(
            exists|i: int|
                0 <= i < filter.value->Array_0.len() && #[trigger] lower_of(
                    str_repr(filter.value->Array_0@[i]),
                ) == lower_of(str_repr(observed)),
        ),
{
}

/// Two filters alike but for their operator.
pub open spec fn same_but_operator(a: PropertyFilter, b: PropertyFilter) -> bool {
    a.key@ == b.key@ && a.value == b.value
}

/// `IsNot` is the negation of `Exact` where the key has a value; where it has
/// none (full mode) `Exact` gives false and `IsNot` true.
pub proof fn is_not_negates_exact(exact: PropertyFilter, is_not: PropertyFilter, props: Properties, partial: bool)
    requires
        same_but_operator(exact, is_not),
        effective_operator(exact.operator) == OperatorType::Exact,
        is_not.operator == Some(OperatorType::IsNot),
    ensures
        props.lookup(exact.key@) is Some ==> match_outcome(exact, props.lookup(exact.key@), partial)
            is Decided && match_outcome(is_not, props.lookup(is_not.key@), partial) is Decided
            && match_outcome(exact, props.lookup(exact.key@), partial)->Decided_0 != match_outcome(
            is_not,
            props.lookup(is_not.key@),
            partial,
        )->Decided_0,
        props.lookup(exact.key@) is None && !partial ==> match_outcome(
            exact,
            props.lookup(exact.key@),
            partial,
        ) == Outcome::Decided(false) && match_outcome(is_not, props.lookup(is_not.key@), partial)
            == Outcome::Decided(true),
{
}

/// `NotIcontains` is the negation of `Icontains` where the key has a value;
/// where it has none (full mode) `Icontains` gives false and `NotIcontains` true.
pub proof fn not_icontains_negates_icontains(
    icontains: PropertyFilter,
    not_icontains: PropertyFilter,
    props: Properties,
    partial: bool,
)
    requires
        same_but_operator(icontains, not_icontains),
        icontains.operator == Some(OperatorType::Icontains),
        not_icontains.operator == Some(OperatorType::NotIcontains),
    ensures
        props.lookup(icontains.key@) is Some ==> match_outcome(
            icontains,
            props.lookup(icontains.key@),
            partial,
        ) is Decided && match_outcome(not_icontains, props.lookup(not_icontains.key@), partial)
            is Decided && match_outcome(icontains, props.lookup(icontains.key@), partial)->Decided_0
            != match_outcome(not_icontains, props.lookup(not_icontains.key@), partial)->Decided_0,
        props.lookup(icontains.key@) is None && !partial ==> match_outcome(
            icontains,
            props.lookup(icontains.key@),
            partial,
        ) == Outcome::Decided(false) && match_outcome(
            not_icontains,
            props.lookup(not_icontains.key@),
            partial,
        ) == Outcome::Decided(true),
{
}

/// A pattern that the regex engine refuses gives false under both `Regex`
/// and `NotRegex`, whatever the observed value.
pub proof fn invalid_pattern_never_matches(filter: PropertyFilter, props: Properties, partial: bool)
    requires
        filter.operator == Some(OperatorType::Regex) || filter.operator == Some(OperatorType::NotRegex),
        !regex_compiles(str_repr(filter.value)),
        props.lookup(filter.key@) is Some,
    ensures
        match_outcome(filter, props.lookup(filter.key@), partial) == Outcome::Decided(false),
{
}

/// In partial mode a key without a value gives `MissingProperty`, whatever
/// the operator (`IsNotSet` included).
pub proof fn partial_mode_missing_key(filter: PropertyFilter, props: Properties)
    requires
        props.lookup(filter.key@) is None,
    ensures
        match_outcome(filter, props.lookup(filter.key@), true) == Outcome::MissingProperty(
            missing_message(filter.key@),
        ),
{
}

/// `In` and `NotIn` give a `ValidationError` wherever the key check lets
/// them run.
pub proof fn cohort_operators_rejected(filter: PropertyFilter, props: Properties, partial: bool)
    requires
        filter.operator == Some(OperatorType::In) || filter.operator == Some(OperatorType::NotIn),
        !(partial && props.lookup(filter.key@) is None),
    ensures
        match_outcome(filter, props.lookup(filter.key@), partial) == Outcome::ValidationError(
            cohort_only(),
        ),
{
}

/// `n * 10^k` rounded down, for a power `k` of either sign.
pub open spec fn floor_scaled(n: int, k: int) -> int {
    if k >= 0 {
        n * pow10(k as nat)
    } else {
        n / pow10((-k) as nat)
    }
}

proof fn lemma_div_twice(x: int, c: int, d: int)
    requires
        c > 0,
        d > 0,
    ensures
        (x / c) / d == x / (c * d),
{
    let cd = c * d;
    lemma_mul_strictly_positive(c, d);
    lemma_fundamental_div_mod(x, cd);
    let (q, r) = (x / cd, x % cd);
    lemma_mod_pos_bound(r, c);
    lemma_fundamental_div_mod(r, c);
    let (rq, rr) = (r / c, r % c);
    lemma_div_pos_is_pos(r, c);
    assert(rq < d) by (nonlinear_arith)
        requires
            r == c * rq + rr,
            0 <= rr,
            r < c * d,
            c > 0,
    ;
    assert(x == (d * q + rq) * c + rr) by (nonlinear_arith)
        requires
            x == cd * q + r,
            cd == c * d,
            r == c * rq + rr,
    ;
    lemma_fundamental_div_mod_converse(x, c, d * q + rq, rr);
    assert(d * q + rq == q * d + rq) by (nonlinear_arith);
    lemma_fundamental_div_mod_converse(d * q + rq, d, q, rq);
}

/// Rounding `x.0 * 10^(x.1 + 6)` down can go through any smaller power `m`.
proof fn lemma_total_nanos_at(x: (int, int), m: int)
    requires
        m <= x.1,
    ensures
        total_nanos(x) == floor_scaled(x.0 * pow10((x.1 - m) as nat), m + 6),
{
    let j = x.1 - m;
    let k = m + 6;
    let pj = pow10(j as nat);
    lemma_pow10_positive(j as nat);
    if k >= 0 {
        lemma_pow10_add(j as nat, k as nat);
        assert(x.0 * (pj * pow10(k as nat)) == (x.0 * pj) * pow10(k as nat)) by (nonlinear_arith);
    } else if j + k >= 0 {
        lemma_pow10_add((j + k) as nat, (-k) as nat);
        let (a, b) = (pow10((j + k) as nat), pow10((-k) as nat));
        lemma_pow10_positive((-k) as nat);
        assert(x.0 * (a * b) == b * (x.0 * a)) by (nonlinear_arith);
        lemma_div_multiples_vanish(x.0 * a, b);
    } else {
        lemma_pow10_add(j as nat, (-(j + k)) as nat);
        let (a, b) = (pj, pow10((-(j + k)) as nat));
        lemma_pow10_positive((-(j + k)) as nat);
        lemma_div_twice(x.0 * a, a, b);
        assert(x.0 * a == a * x.0) by (nonlinear_arith);
        lemma_div_multiples_vanish(x.0, a);
    }
}

/// Epoch milliseconds in order give moments in order: where decimal `a`
/// (worth `a.0 * 10^a.1`) is at most decimal `b`, the whole seconds and
/// nanoseconds read from `a` come no later than those read from `b`.
pub proof fn millis_order_is_kept(a: (int, int), b: (int, int))
    requires
        scaled_pair(a, b).0 <= scaled_pair(a, b).1,
    ensures
        millis_to_timestamp(a).0 < millis_to_timestamp(b).0 || (millis_to_timestamp(a).0
            == millis_to_timestamp(b).0 && millis_to_timestamp(a).1 <= millis_to_timestamp(b).1),
{
    let m = if a.1 <= b.1 { a.1 } else { b.1 };
    let (x, y) = scaled_pair(a, b);
    lemma_total_nanos_at(a, m);
    lemma_total_nanos_at(b, m);
    let k = m + 6;
    if k >= 0 {
        lemma_pow10_positive(k as nat);
        lemma_mul_inequality(x, y, pow10(k as nat));
    } else {
        lemma_pow10_positive((-k) as nat);
        lemma_div_is_ordered(x, y, pow10((-k) as nat));
    }
    let (ta, tb) = (total_nanos(a), total_nanos(b));
    assert(ta <= tb);
    lemma_div_is_ordered(ta, tb, 1_000_000_000);
    lemma_fundamental_div_mod(ta, 1_000_000_000);
    lemma_fundamental_div_mod(tb, 1_000_000_000);
}

} // verus!
