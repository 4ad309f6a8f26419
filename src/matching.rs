//! Deciding whether one property filter holds of a subject's properties.
use vstd::prelude::*;
use vstd::string::*;
use crate::FlagMatchingError;
use crate::dates::{
    Instant, determine_parsed_date_for_property_matching, earlier, observed_moment,
    parse_date, parse_date_string,
};
use crate::filter::{OperatorType, Properties, PropertyFilter, effective_operator};
use crate::numeric::{
    Numeric, NumericView, compare_decimals, numeric_of, scaled_pair, sign_of,
    to_numeric_representation,
};
use crate::outside::{lower_of, lowercase, regex_compiles, regex_finds, regex_search};
use crate::text::{ascii_lower, contains_ignoring_ascii_case, occurs_in};
use crate::value::{
    PropValue, is_boolean_like, is_truthy_or_falsy_property_value, is_truthy_property_value,
    str_repr, to_string_representation, truthiness,
};

verus! {

/// What a match comes to, with the text an error carries.
pub enum Outcome {
    Decided(bool),
    ValidationError(Seq<char>),
    MissingProperty(Seq<char>),
    InconclusiveOperatorMatch,
    InvalidRegexPattern,
}

/// The outcome a result stands for.
pub open spec fn outcome_of(r: Result<bool, FlagMatchingError>) -> Outcome {
    match r {
        Ok(b) => Outcome::Decided(b),
        Err(FlagMatchingError::ValidationError(m)) => Outcome::ValidationError(m@),
        Err(FlagMatchingError::MissingProperty(m)) => Outcome::MissingProperty(m@),
        Err(FlagMatchingError::InconclusiveOperatorMatch) => Outcome::InconclusiveOperatorMatch,
        Err(FlagMatchingError::InvalidRegexPattern) => Outcome::InvalidRegexPattern,
    }
}

pub open spec fn missing_message(key: Seq<char>) -> Seq<char> {
    "can't match properties without a value. Missing property: "@ + key
}

pub open spec fn value_not_a_number() -> Seq<char> {
    "value is not a number"@
}

pub open spec fn override_not_a_number() -> Seq<char> {
    "override value is not a number"@
}

pub open spec fn cohort_only() -> Seq<char> {
    "In/NotIn operators should be handled by cohort matching"@
}

/// `Exact` of filter value `v` against observed value `o`: as booleans where
/// `v` reads as one; as membership, case-insensitive, where `v` is an array;
/// else as texts equal after lowercasing.
pub open spec fn exact_match(v: PropValue, o: PropValue) -> bool {
    if is_boolean_like(v) {
        truthiness(v) == truthiness(o)
    } else {
        match v {
            PropValue::Array(a) => exists|i: int|
                0 <= i < a.len() && #[trigger] lower_of(str_repr(a@[i])) == lower_of(str_repr(o)),
            _ => lower_of(str_repr(v)) == lower_of(str_repr(o)),
        }
    }
}

/// Whether the observed text holds the filter's, ASCII case aside.
pub open spec fn icontains(v: PropValue, o: PropValue) -> bool {
    occurs_in(ascii_lower(str_repr(o)), ascii_lower(str_repr(v)))
}

/// `a` against `b` under a numeric operator.
pub open spec fn ordered(op: OperatorType, a: int, b: int) -> bool {
    match op {
        OperatorType::Gt => a > b,
        OperatorType::Gte => a >= b,
        OperatorType::Lt => a < b,
        _ => a <= b,
    }
}

/// Where a number stands among the infinities: -1 below every decimal, 1
/// above, 0 for a decimal.
pub open spec fn infinity_rank(n: NumericView) -> int {
    match n {
        NumericView::Infinite(negative) => if negative { -1 } else { 1 },
        _ => 0,
    }
}

/// Observed number `l` against filter number `r` under a numeric operator:
/// decimals by value, infinities beyond them, and nothing holds of a value
/// that is not a number.
pub open spec fn numeric_holds(op: OperatorType, l: NumericView, r: NumericView) -> bool {
    match (l, r) {
        (NumericView::Finite(a), NumericView::Finite(b)) => ordered(
            op,
            scaled_pair(a, b).0,
            scaled_pair(a, b).1,
        ),
        _ => !(l is NotANumber) && !(r is NotANumber) && ordered(op, infinity_rank(l), infinity_rank(r)),
    }
}

/// Observed moment `m` against filter moment `d` under a date operator.
pub open spec fn date_holds(op: OperatorType, m: (i64, u32), d: (i64, u32)) -> bool {
    match op {
        OperatorType::IsDateBefore => earlier(m, d),
        OperatorType::IsDateAfter => earlier(d, m),
        _ => m == d,
    }
}

/// What matching `filter` comes to where its key has the value `observed`
/// (`None`: the key is absent), in partial mode or not.
pub open spec fn match_outcome(filter: PropertyFilter, observed: Option<PropValue>, partial: bool) -> Outcome {
    let v = filter.value;
    let op = effective_operator(filter.operator);
    if partial && observed is None {
        Outcome::MissingProperty(missing_message(filter.key@))
    } else {
        match op {
            OperatorType::Exact | OperatorType::IsNot => match observed {
                Some(o) => Outcome::Decided(exact_match(v, o) == (op == OperatorType::Exact)),
                None => Outcome::Decided(op == OperatorType::IsNot),
            },
            OperatorType::IsSet => Outcome::Decided(observed is Some),
            OperatorType::IsNotSet => if partial {
                if observed is Some {
                    Outcome::Decided(false)
                } else {
                    Outcome::InconclusiveOperatorMatch
                }
            } else {
                Outcome::Decided(observed is None)
            },
            OperatorType::Icontains | OperatorType::NotIcontains => match observed {
                Some(o) => Outcome::Decided(icontains(v, o) == (op == OperatorType::Icontains)),
                None => Outcome::Decided(op == OperatorType::NotIcontains),
            },
            OperatorType::Regex | OperatorType::NotRegex => match observed {
                Some(o) => if regex_compiles(str_repr(v)) {
                    Outcome::Decided(
                        regex_finds(str_repr(v), str_repr(o)) == (op == OperatorType::Regex),
                    )
                } else {
                    Outcome::Decided(false)
                },
                None => Outcome::Decided(op == OperatorType::NotRegex),
            },
            OperatorType::Gt | OperatorType::Gte | OperatorType::Lt | OperatorType::Lte => match observed {
                Some(o) => match numeric_of(o) {
                    Some(l) => match numeric_of(v) {
                        Some(r) => Outcome::Decided(numeric_holds(op, l, r)),
                        None => Outcome::ValidationError(override_not_a_number()),
                    },
                    None => Outcome::ValidationError(value_not_a_number()),
                },
                None => Outcome::Decided(false),
            },
            OperatorType::IsDateExact | OperatorType::IsDateAfter | OperatorType::IsDateBefore => {
                match observed_moment(observed) {
                    Some(m) => match v {
                        PropValue::Str(s) => match parse_date(s@) {
                            Some(d) => Outcome::Decided(date_holds(op, m, d)),
                            None => Outcome::Decided(false),
                        },
                        _ => Outcome::Decided(false),
                    },
                    None => Outcome::Decided(false),
                }
            },
            OperatorType::In | OperatorType::NotIn => Outcome::ValidationError(cohort_only()),
        }
    }
}

fn lowered_text(v: &PropValue) -> (r: String)
    ensures
        r@ == lower_of(str_repr(*v)),
{
    let t = to_string_representation(v);
    lowercase(t.as_str())
}

/// `Exact` of filter value `value` against observed `override_value` (see `exact_match`).
pub fn compute_exact_match(value: &PropValue, override_value: &PropValue) -> (r: bool)
    ensures
        r == exact_match(*value, *override_value),
{
    if is_truthy_or_falsy_property_value(value) {
        let truthy_value = is_truthy_property_value(value);
        let truthy_override_value = is_truthy_property_value(override_value);
        return truthy_value == truthy_override_value;
    }
    let observed = lowered_text(override_value);
    let mut candidates: Vec<String> = Vec::new();
    match value {
        PropValue::Array(a) => {
            let mut i: usize = 0;
            while i < a.len()
                invariant
                    i <= a.len(),
                    !is_boolean_like(*value),
                    *value == PropValue::Array(*a),
                    observed@ == lower_of(str_repr(*override_value)),
                    candidates@.len() == i,
                    forall|j: int| 0 <= j < i ==> #[trigger] candidates@[j]@ == lower_of(str_repr(a@[j])),
                decreases a.len() - i,
            {
                candidates.push(lowered_text(&a[i]));
                i = i + 1;
            }
            let r = any_text_equals(&candidates, &observed);
            proof {
                if r {
                    let j = choose|j: int| 0 <= j < candidates@.len() && candidates@[j]@ == observed@;
                    assert(lower_of(str_repr(a@[j])) == lower_of(str_repr(*override_value)));
                } else {
                    assert forall|j: int| 0 <= j < a.len() implies #[trigger] lower_of(
                        str_repr(a@[j]),
                    ) != lower_of(str_repr(*override_value)) by {
                        assert(candidates@[j]@ != observed@);
                    }
                }
            }
            r
        },
        _ => {
            candidates.push(lowered_text(value));
            let r = any_text_equals(&candidates, &observed);
            proof {
                assert(candidates@.len() == 1);
                if r {
                    assert(candidates@[0]@ == observed@);
                } else {
                    assert(candidates@[0]@ != observed@);
                }
            }
            r
        },
    }
}

/// Whether one of the `candidates` holds the same text as `target`.
pub fn any_text_equals(candidates: &Vec<String>, target: &String) -> (r: bool)
    ensures
        r == (exists|i: int| 0 <= i < candidates@.len() && #[trigger] candidates@[i]@ == target@),
{
    let mut i: usize = 0;
    while i < candidates.len()
        invariant
            i <= candidates@.len(),
            forall|j: int| 0 <= j < i ==> #[trigger] candidates@[j]@ != target@,
        decreases candidates@.len() - i,
    {
        if candidates[i] == *target {
            return true;
        }
        i = i + 1;
    }
    false
}

fn error_text(t: &str) -> (r: String)
    ensures
        r@ == t@,
{
    <String as StringExecFns>::from_str(t)
}

/// Decides `property` against the observed values. In partial mode
/// (`partial_props`) a key without a value cannot be decided and gives
/// `MissingProperty`; otherwise an absent key is judged by the operator.
pub fn match_property(
    property: &PropertyFilter,
    matching_property_values: &Properties,
    partial_props: bool,
) -> (r: Result<bool, FlagMatchingError>)
    ensures
        outcome_of(r) == match_outcome(
            *property,
            matching_property_values.lookup(property.key@),
            partial_props,
        ),
{
    let key = &property.key;
    let match_value = matching_property_values.get(key);
    let ghost observed = matching_property_values.lookup(key@);
    if partial_props && match_value.is_none() {
        let mut message = error_text("can't match properties without a value. Missing property: ");
        message.append(key.as_str());
        return Err(FlagMatchingError::MissingProperty(message));
    }
    let operator = match property.operator {
        Some(o) => o,
        None => OperatorType::Exact,
    };
    let value = &property.value;
    match operator {
        OperatorType::Exact | OperatorType::IsNot => match match_value {
            Some(o) => {
                let m = compute_exact_match(value, o);
                Ok(m == (operator == OperatorType::Exact))
            },
            None => Ok(operator == OperatorType::IsNot),
        },
        OperatorType::IsSet => Ok(match_value.is_some()),
        OperatorType::IsNotSet => {
            if partial_props {
                if match_value.is_some() {
                    Ok(false)
                } else {
                    Err(FlagMatchingError::InconclusiveOperatorMatch)
                }
            } else {
                Ok(match_value.is_none())
            }
        },
        OperatorType::Icontains | OperatorType::NotIcontains => match match_value {
            Some(o) => {
                let hay = to_string_representation(o);
                let needle = to_string_representation(value);
                let is_contained = contains_ignoring_ascii_case(hay.as_str(), needle.as_str());
                Ok(is_contained == (operator == OperatorType::Icontains))
            },
            None => Ok(operator == OperatorType::NotIcontains),
        },
        OperatorType::Regex | OperatorType::NotRegex => match match_value {
            Some(o) => {
                let pattern = to_string_representation(value);
                let haystack = to_string_representation(o);
                match regex_search(pattern.as_str(), haystack.as_str()) {
                    Some(found) => Ok(found == (operator == OperatorType::Regex)),
                    None => Ok(false),
                }
            },
            None => Ok(operator == OperatorType::NotRegex),
        },
        OperatorType::Gt | OperatorType::Gte | OperatorType::Lt | OperatorType::Lte => {
            match match_value {
                Some(o) => {
                    let parsed_value = match to_numeric_representation(o) {
                        Some(n) => n,
                        None => {
                            return Err(
                                FlagMatchingError::ValidationError(
                                    error_text("value is not a number"),
                                ),
                            );
                        },
                    };
                    let override_value = match to_numeric_representation(value) {
                        Some(n) => n,
                        None => {
                            return Err(
                                FlagMatchingError::ValidationError(
                                    error_text("override value is not a number"),
                                ),
                            );
                        },
                    };
                    Ok(compare_numbers(operator, parsed_value, override_value))
                },
                None => Ok(false),
            }
        },
        OperatorType::IsDateExact | OperatorType::IsDateAfter | OperatorType::IsDateBefore => {
            let parsed_date = match determine_parsed_date_for_property_matching(match_value) {
                Some(d) => d,
                None => {
                    return Ok(false);
                },
            };
            match value {
                PropValue::Str(s) => match parse_date_string(s.as_str()) {
                    Some(override_date) => Ok(
                        match operator {
                            OperatorType::IsDateBefore => before(parsed_date, override_date),
                            OperatorType::IsDateAfter => before(override_date, parsed_date),
                            _ => parsed_date == override_date,
                        },
                    ),
                    None => Ok(false),
                },
                _ => Ok(false),
            }
        },
        OperatorType::In | OperatorType::NotIn => Err(
            FlagMatchingError::ValidationError(
                error_text("In/NotIn operators should be handled by cohort matching"),
            ),
        ),
    }
}

fn compare_ordered(op: OperatorType, a: i128, b: i128) -> (r: bool)
    ensures
        r == ordered(op, a as int, b as int),
{
    match op {
        OperatorType::Gt => a > b,
        OperatorType::Gte => a >= b,
        OperatorType::Lt => a < b,
        _ => a <= b,
    }
}

fn rank(n: &Numeric) -> (r: i128)
    ensures
        r == infinity_rank(n@),
{
    match n {
        Numeric::Infinite(negative) => if *negative { -1 } else { 1 },
        _ => 0,
    }
}

/// Observed number `l` against filter number `r` (see `numeric_holds`).
fn compare_numbers(op: OperatorType, l: Numeric, r: Numeric) -> (res: bool)
    requires
        l.wf(),
        r.wf(),
    ensures
        res == numeric_holds(op, l@, r@),
{
    match (&l, &r) {
        (Numeric::Finite(a), Numeric::Finite(b)) => {
            let c = compare_decimals(a, b);
            let ghost sp = scaled_pair(a@, b@);
            assert(ordered(op, sp.0, sp.1) == ordered(op, sign_of(sp.0 - sp.1), 0));
            compare_ordered(op, c as i128, 0)
        },
        (Numeric::NotANumber, _) | (_, Numeric::NotANumber) => false,
        _ => compare_ordered(op, rank(&l), rank(&r)),
    }
}

fn before(a: Instant, b: Instant) -> (r: bool)
    ensures
        r == earlier(a@, b@),
{
    a.secs < b.secs || (a.secs == b.secs && a.nanos < b.nanos)
}

} // verus!
