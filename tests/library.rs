use feature_flags::dates::determine_parsed_date_for_property_matching as moment_of;
use feature_flags::matching::any_text_equals;
use feature_flags::value::{boolean_word, is_truthy_or_falsy_property_value, is_truthy_property_value};
use feature_flags::{
    FlagMatchingError, Numeric, OperatorType, PropValue, Properties, PropertyFilter, match_property,
    parse_date_string, to_numeric_representation, to_string_representation,
};

fn st(s: &str) -> PropValue {
    PropValue::Str(s.to_string())
}

fn num(text: &str) -> PropValue {
    PropValue::Number(text.to_string())
}

fn finite(v: &PropValue) -> (bool, String, i128) {
    match to_numeric_representation(v) {
        Some(Numeric::Finite(d)) => (d.negative, d.digits.iter().collect(), d.exponent),
        other => panic!("not a decimal: {:?}", other),
    }
}

fn filter(key: &str, value: PropValue, operator: Option<OperatorType>) -> PropertyFilter {
    PropertyFilter {
        key: key.to_string(),
        value,
        operator,
        prop_type: "person".to_string(),
        group_type_index: None,
        negation: None,
    }
}

fn one(key: &str, value: PropValue) -> Properties {
    let mut props = Properties::new();
    props.insert(key.to_string(), value);
    props
}

#[test]
fn exact_matches_scalar_against_itself() {
    for v in [num("42"), num("-1.5"), st("Hello"), PropValue::Null, PropValue::Bool(false)] {
        let text = to_string_representation(&v);
        let observed = match &v {
            PropValue::Number(t) => num(t),
            PropValue::Str(s) => st(s),
            PropValue::Bool(b) => PropValue::Bool(*b),
            _ => PropValue::Null,
        };
        let f = filter("key", v, None);
        assert_eq!(match_property(&f, &one("key", observed), true), Ok(true), "{}", text);
    }
}

#[test]
fn exact_fails_on_other_text() {
    let f = filter("key", st("Hello"), Some(OperatorType::Exact));
    assert_eq!(match_property(&f, &one("key", st("hello!")), false), Ok(false));
    assert_eq!(match_property(&f, &one("key", st("HELLO")), false), Ok(true));
}

#[test]
fn exact_boolean_like_compares_truth() {
    let f = filter("key", st("false"), None);
    assert_eq!(match_property(&f, &one("key", st("no")), false), Ok(true));
    let t = filter("key", st("True"), None);
    assert_eq!(match_property(&t, &one("key", PropValue::Bool(true)), false), Ok(true));
    assert_eq!(match_property(&t, &one("key", st("TRUE")), false), Ok(true));
}

#[test]
fn exact_array_truth_is_conjunction() {
    let f = filter("key", PropValue::Array(vec![PropValue::Bool(true), st("true")]), None);
    let mixed = PropValue::Array(vec![PropValue::Bool(true), st("false")]);
    assert_eq!(match_property(&f, &one("key", mixed), false), Ok(false));
    assert_eq!(match_property(&f, &one("key", PropValue::Bool(true)), false), Ok(true));
    let empty = filter("key", PropValue::Array(vec![]), None);
    assert_eq!(match_property(&empty, &one("key", st("anything")), false), Ok(false));
}

#[test]
fn exact_array_is_set_membership() {
    let items = vec![st("value1"), st("Value2"), st("value3")];
    let f = filter("key", PropValue::Array(items), Some(OperatorType::Exact));
    assert_eq!(match_property(&f, &one("key", st("value2")), true), Ok(true));
    assert_eq!(match_property(&f, &one("key", st("value4")), true), Ok(false));
}

#[test]
fn is_not_complements_exact_when_present() {
    let exact = filter("key", st("value"), Some(OperatorType::Exact));
    let is_not = filter("key", st("value"), Some(OperatorType::IsNot));
    for observed in ["value", "other"] {
        let a = match_property(&exact, &one("key", st(observed)), false).unwrap();
        let b = match_property(&is_not, &one("key", st(observed)), false).unwrap();
        assert_ne!(a, b);
    }
    assert_eq!(match_property(&exact, &Properties::new(), false), Ok(false));
    assert_eq!(match_property(&is_not, &Properties::new(), false), Ok(true));
}

#[test]
fn icontains_complements_when_present() {
    let yes = filter("key", st("LUE"), Some(OperatorType::Icontains));
    let no = filter("key", st("LUE"), Some(OperatorType::NotIcontains));
    assert_eq!(match_property(&yes, &one("key", st("value")), false), Ok(true));
    assert_eq!(match_property(&no, &one("key", st("value")), false), Ok(false));
    assert_eq!(match_property(&yes, &one("key", st("vaxue")), false), Ok(false));
    assert_eq!(match_property(&no, &one("key", st("vaxue")), false), Ok(true));
    assert_eq!(match_property(&yes, &Properties::new(), false), Ok(false));
    assert_eq!(match_property(&no, &Properties::new(), false), Ok(true));
}

#[test]
fn icontains_folds_ascii_only() {
    let f = filter("key", st("Ä"), Some(OperatorType::Icontains));
    assert_eq!(match_property(&f, &one("key", st("xäx")), false), Ok(false));
    assert_eq!(match_property(&f, &one("key", st("xÄx")), false), Ok(true));
}

#[test]
fn exact_lowercases_unicode() {
    let f = filter("key", st("ÄB"), None);
    assert_eq!(match_property(&f, &one("key", st("äb")), false), Ok(true));
}

#[test]
fn invalid_regex_is_false_both_ways() {
    let re = filter("key", st("?*"), Some(OperatorType::Regex));
    let not_re = filter("key", st("?*"), Some(OperatorType::NotRegex));
    for observed in ["", "value", "?*"] {
        assert_eq!(match_property(&re, &one("key", st(observed)), false), Ok(false));
        assert_eq!(match_property(&not_re, &one("key", st(observed)), false), Ok(false));
    }
}

#[test]
fn regex_searches_inside_text() {
    let f = filter("key", st("^a"), Some(OperatorType::Regex));
    assert_eq!(match_property(&f, &one("key", st("ba")), false), Ok(false));
    assert_eq!(match_property(&f, &one("key", st("ab")), false), Ok(true));
    let n = filter("key", st("b"), Some(OperatorType::NotRegex));
    assert_eq!(match_property(&n, &one("key", st("abc")), false), Ok(false));
}

#[test]
fn date_exact_from_epoch_millis() {
    let f = filter("date", st("2024-03-21"), Some(OperatorType::IsDateExact));
    assert_eq!(match_property(&f, &one("date", num("1710979200000.0")), false), Ok(true));
    assert_eq!(match_property(&f, &one("date", num("1710979200000")), false), Ok(true));
    assert_eq!(match_property(&f, &one("date", num("1710979200000.5")), false), Ok(false));
    let after = filter("date", st("2024-03-21"), Some(OperatorType::IsDateAfter));
    assert_eq!(match_property(&after, &one("date", num("1710979200000.5")), false), Ok(true));
}

#[test]
fn date_filter_value_must_be_text() {
    let f = filter("date", num("1710979200000"), Some(OperatorType::IsDateExact));
    assert_eq!(match_property(&f, &one("date", st("2024-03-21")), false), Ok(false));
    let g = filter("date", st("not a date"), Some(OperatorType::IsDateBefore));
    assert_eq!(match_property(&g, &one("date", st("2024-03-21")), false), Ok(false));
}

#[test]
fn date_formats_are_read() {
    let day = parse_date_string("2024-03-21").unwrap();
    assert_eq!((day.secs, day.nanos), (1710979200, 0));
    let t = parse_date_string("2024-03-21T13:45:30").unwrap();
    assert_eq!((t.secs, t.nanos), (1710979200 + 13 * 3600 + 45 * 60 + 30, 0));
    let ms = parse_date_string("2024-03-21T13:45:30.123Z").unwrap();
    assert_eq!((ms.secs, ms.nanos), (1710979200 + 13 * 3600 + 45 * 60 + 30, 123_000_000));
    let z = parse_date_string("2024-03-21T13:45:30Z").unwrap();
    assert_eq!(z.secs, t.secs);
    assert!(parse_date_string("21/03/2024").is_none());
}

#[test]
fn partial_mode_missing_key_for_every_operator() {
    let ops = [
        OperatorType::Exact,
        OperatorType::IsNot,
        OperatorType::IsSet,
        OperatorType::IsNotSet,
        OperatorType::Icontains,
        OperatorType::Regex,
        OperatorType::Gt,
        OperatorType::IsDateExact,
        OperatorType::In,
    ];
    for op in ops {
        let f = filter("key", st("value"), Some(op));
        assert_eq!(
            match_property(&f, &one("key2", st("value")), true),
            Err(FlagMatchingError::MissingProperty(
                "can't match properties without a value. Missing property: key".to_string()
            ))
        );
    }
    let not_set = filter("key", st("value"), Some(OperatorType::IsNotSet));
    assert_eq!(match_property(&not_set, &one("key2", st("value")), false), Ok(true));
}

#[test]
fn numeric_operators_coerce_text() {
    let gt = filter("key", num("1"), Some(OperatorType::Gt));
    assert_eq!(match_property(&gt, &one("key", st("23")), false), Ok(true));
    assert_eq!(
        match_property(&gt, &one("key", st("abc")), false),
        Err(FlagMatchingError::ValidationError("value is not a number".to_string()))
    );
    let bad = filter("key", st("1x"), Some(OperatorType::Gt));
    assert_eq!(
        match_property(&bad, &one("key", num("3")), false),
        Err(FlagMatchingError::ValidationError("override value is not a number".to_string()))
    );
    assert_eq!(match_property(&gt, &Properties::new(), false), Ok(false));
}

#[test]
fn numeric_operators_compare_decimals() {
    let lt = filter("key", st("1.25"), Some(OperatorType::Lt));
    assert_eq!(match_property(&lt, &one("key", num("1.2")), false), Ok(true));
    assert_eq!(match_property(&lt, &one("key", st("1.3")), false), Ok(false));
    let gte = filter("key", num("1"), Some(OperatorType::Gte));
    assert_eq!(match_property(&gte, &one("key", st("1.0")), false), Ok(true));
    let lte = filter("key", num("-2"), Some(OperatorType::Lte));
    assert_eq!(match_property(&lte, &one("key", st("-2.5")), false), Ok(true));
    assert_eq!(match_property(&lte, &one("key", st("+.5")), false), Ok(false));
}

#[test]
fn cohort_operators_are_rejected() {
    for op in [OperatorType::In, OperatorType::NotIn] {
        let f = filter("key", st("value"), Some(op));
        let expected = Err(FlagMatchingError::ValidationError(
            "In/NotIn operators should be handled by cohort matching".to_string(),
        ));
        assert_eq!(match_property(&f, &one("key", st("value")), true), expected);
        assert_eq!(match_property(&f, &Properties::new(), false), expected);
    }
}

#[test]
fn scenario_default_operator() {
    let f = filter("key", st("value"), None);
    assert_eq!(match_property(&f, &one("key", st("value")), true), Ok(true));
    assert_eq!(
        match_property(&f, &Properties::new(), true),
        Err(FlagMatchingError::MissingProperty(
            "can't match properties without a value. Missing property: key".to_string()
        ))
    );
}

#[test]
fn scenario_date_before() {
    let f = filter("key", st("2024-03-21"), Some(OperatorType::IsDateBefore));
    assert_eq!(match_property(&f, &one("key", st("2024-03-20")), true), Ok(true));
    assert_eq!(match_property(&f, &one("key", st("2024-03-22")), true), Ok(false));
}

#[test]
fn scenario_regex_suffix() {
    let f = filter("key", st(r"\.com$"), Some(OperatorType::Regex));
    assert_eq!(match_property(&f, &one("key", st("value.com")), true), Ok(true));
    assert_eq!(match_property(&f, &one("key", st("Alakazam")), true), Ok(false));
}

#[test]
fn text_forms_of_values() {
    assert_eq!(to_string_representation(&st("a\"b")), "a\"b");
    assert_eq!(to_string_representation(&num("1.5")), "1.5");
    assert_eq!(to_string_representation(&PropValue::Null), "null");
    let nested = PropValue::Array(vec![
        num("1"),
        st("a\"b"),
        PropValue::Bool(true),
        PropValue::Null,
        PropValue::Array(vec![]),
        PropValue::Object("{\"k\":1}".to_string()),
    ]);
    assert_eq!(to_string_representation(&nested), "[1,\"a\\\"b\",true,null,[],{\"k\":1}]");
    let controls = PropValue::Array(vec![st("\u{1}\t/")]);
    assert_eq!(to_string_representation(&controls), "[\"\\u0001\\t/\"]");
}

#[test]
fn numbers_read_from_text() {
    assert_eq!(finite(&st("-12.50")), (true, "1250".to_string(), -2));
    assert_eq!(finite(&st("007")), (false, "7".to_string(), 0));
    assert_eq!(finite(&st("-0.0")), (false, "".to_string(), 0));
    assert!(to_numeric_representation(&st(".")).is_none());
    assert!(to_numeric_representation(&st("1.2.3")).is_none());
    assert_eq!(finite(&st("1234567890123456789")), (false, "1234567890123456789".to_string(), 0));
    assert!(to_numeric_representation(&PropValue::Bool(true)).is_none());
}

#[test]
fn later_insert_replaces_value() {
    let mut props = Properties::new();
    props.insert("key".to_string(), st("old"));
    props.insert("key".to_string(), st("new"));
    let f = filter("key", st("new"), None);
    assert_eq!(match_property(&f, &props, true), Ok(true));
    assert!(props.contains_key(&"key".to_string()));
    assert!(!props.contains_key(&"other".to_string()));
}

#[test]
fn boolean_reading_of_nested_arrays() {
    let mut v = PropValue::Array(vec![st("TRUE"), PropValue::Bool(true)]);
    for _ in 0..1000 {
        v = PropValue::Array(vec![v, st("true")]);
    }
    assert!(is_truthy_or_falsy_property_value(&v));
    assert!(is_truthy_property_value(&v));
    let f = PropValue::Array(vec![st("true"), PropValue::Array(vec![st("False")])]);
    assert!(is_truthy_or_falsy_property_value(&f));
    assert!(!is_truthy_property_value(&f));
    let n = PropValue::Array(vec![st("true"), num("1")]);
    assert!(!is_truthy_or_falsy_property_value(&n));
    assert!(is_truthy_or_falsy_property_value(&PropValue::Array(vec![])));
    assert!(is_truthy_property_value(&PropValue::Array(vec![])));
    assert!(!is_truthy_or_falsy_property_value(&PropValue::Null));
}

#[test]
fn numbers_with_exponents() {
    assert_eq!(finite(&num("1.5E-7")), (false, "15".to_string(), -8));
    assert_eq!(finite(&st("2e3")), (false, "2".to_string(), 3));
    assert!(to_numeric_representation(&st("2e")).is_none());
    assert!(to_numeric_representation(&st("e5")).is_none());
    let gt = filter("key", num("999"), Some(OperatorType::Gt));
    assert_eq!(match_property(&gt, &one("key", st("1e3")), false), Ok(true));
    let f = filter("date", st("2024-03-21"), Some(OperatorType::IsDateExact));
    assert_eq!(match_property(&f, &one("date", num("1.7109792e12")), false), Ok(true));
}

#[test]
fn infinities_and_not_a_number() {
    assert!(matches!(to_numeric_representation(&st("-Infinity")), Some(Numeric::Infinite(true))));
    assert!(matches!(to_numeric_representation(&st("inf")), Some(Numeric::Infinite(false))));
    assert!(matches!(to_numeric_representation(&st("NaN")), Some(Numeric::NotANumber)));
    assert!(to_numeric_representation(&st("infinit")).is_none());
    let gt = filter("key", num("1"), Some(OperatorType::Gt));
    assert_eq!(match_property(&gt, &one("key", st("inf")), false), Ok(true));
    assert_eq!(match_property(&gt, &one("key", st("-inf")), false), Ok(false));
    assert_eq!(match_property(&gt, &one("key", st("NaN")), false), Ok(false));
    let lte = filter("key", st("nan"), Some(OperatorType::Lte));
    assert_eq!(match_property(&lte, &one("key", num("1")), false), Ok(false));
    let gte = filter("key", st("INF"), Some(OperatorType::Gte));
    assert_eq!(match_property(&gte, &one("key", st("+infinity")), false), Ok(true));
}

#[test]
fn lowered_texts_compared() {
    let items = vec!["value1".to_string(), "value2".to_string()];
    assert!(any_text_equals(&items, &"value2".to_string()));
    assert!(!any_text_equals(&items, &"Value2".to_string()));
    assert!(!any_text_equals(&vec![], &"".to_string()));
    assert!(boolean_word(&"true".to_string(), true));
    assert!(boolean_word(&"false".to_string(), false));
    assert!(!boolean_word(&"false".to_string(), true));
    assert!(!boolean_word(&"True".to_string(), false));
}

#[test]
fn negative_millis_keep_their_remainder() {
    let m = moment_of(Some(&num("-1"))).unwrap();
    assert_eq!((m.secs, m.nanos), (-1, 999_000_000));
    let h = moment_of(Some(&num("-1500.25"))).unwrap();
    assert_eq!((h.secs, h.nanos), (-2, 499_750_000));
    let w = moment_of(Some(&num("-2000"))).unwrap();
    assert_eq!((w.secs, w.nanos), (-2, 0));
    let p = moment_of(Some(&num("1500.5"))).unwrap();
    assert_eq!((p.secs, p.nanos), (1, 500_500_000));
}

#[test]
fn numbers_of_any_length() {
    let gt = filter("key", num("1"), Some(OperatorType::Gt));
    assert_eq!(match_property(&gt, &one("key", num("1e19")), false), Ok(true));
    let max = filter("key", num("18446744073709551614"), Some(OperatorType::Gt));
    assert_eq!(match_property(&max, &one("key", num("18446744073709551615")), false), Ok(true));
    assert_eq!(match_property(&max, &one("key", num("18446744073709551614.0")), false), Ok(false));
    let lt = filter("key", st("0.123456789012345679"), Some(OperatorType::Lt));
    assert_eq!(match_property(&lt, &one("key", st("0.1234567890123456789")), false), Ok(true));
    let big = filter("key", num("1e399"), Some(OperatorType::Gt));
    assert_eq!(match_property(&big, &one("key", num("1e400")), false), Ok(true));
    assert_eq!(match_property(&big, &one("key", st("-1e400")), false), Ok(false));
    let eq = filter("key", st("2.50e1"), Some(OperatorType::Gte));
    assert_eq!(match_property(&eq, &one("key", num("25")), false), Ok(true));
    let lte = filter("key", st("25"), Some(OperatorType::Lte));
    assert_eq!(match_property(&lte, &one("key", st("250e-1")), false), Ok(true));
    assert!(matches!(
        to_numeric_representation(&st("1e999999999999999999999999")),
        Some(Numeric::Infinite(false))
    ));
    assert_eq!(finite(&st("1e-999999999999999999999999")), (false, "".to_string(), 0));
}

#[test]
fn tiny_and_huge_millis() {
    let z = moment_of(Some(&num("1e-20"))).unwrap();
    assert_eq!((z.secs, z.nanos), (0, 0));
    let n = moment_of(Some(&num("-1e-20"))).unwrap();
    assert_eq!((n.secs, n.nanos), (-1, 999_999_999));
    let f = moment_of(Some(&num("1.5e-3"))).unwrap();
    assert_eq!((f.secs, f.nanos), (0, 1_500));
    assert!(moment_of(Some(&num("1e40"))).is_none());
    assert!(moment_of(Some(&num("-1e40"))).is_none());
    assert!(moment_of(Some(&num("1e400"))).is_none());
    let before = filter("date", st("2024-03-21"), Some(OperatorType::IsDateBefore));
    assert_eq!(match_property(&before, &one("date", num("1e-20")), false), Ok(true));
}

#[test]
fn millis_at_the_ends_of_chrono_range() {
    let lo = moment_of(Some(&num("-8334601228800000"))).unwrap();
    assert_eq!((lo.secs, lo.nanos), (-8334601228800, 0));
    assert!(moment_of(Some(&num("-8334601228800000.5"))).is_none());
    assert!(moment_of(Some(&num("-8334601228800001"))).is_none());
    let hi = moment_of(Some(&num("8210266876799999.9999"))).unwrap();
    assert_eq!((hi.secs, hi.nanos), (8210266876799, 999_999_900));
    assert!(moment_of(Some(&num("8210266876800000"))).is_none());
}
