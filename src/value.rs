//! The JSON-like values that filters compare, and their text forms.
use vstd::prelude::*;
use vstd::string::*;
use crate::outside::{json_quoted, lower_of, lowercase, quote_json};

verus! {

broadcast use vstd::std_specs::vec::group_vec_axioms;

/// A property value: a JSON scalar or an array of them. A number is held as
/// its JSON text (`"23"`, `"1.5"`, `"1710979200000.0"`); so is an object,
/// which no filter compares by its parts.
#[derive(Debug)]
pub enum PropValue {
    Null,
    Bool(bool),
    Number(String),
    Str(String),
    Array(Vec<PropValue>),
    Object(String),
}

/// Compact JSON text of `v`, where `v` is an array, of its first `n` items.
pub open spec fn render(v: PropValue, n: nat) -> Seq<char>
    decreases v, n,
{
    match v {
        PropValue::Null => "null"@,
        PropValue::Bool(b) => if b { "true"@ } else { "false"@ },
        PropValue::Number(t) => t@,
        PropValue::Object(t) => t@,
        PropValue::Str(s) => json_quoted(s@),
        PropValue::Array(a) => {
            if n == 0 || n > a.len() {
                Seq::empty()
            } else {
                let e = a[n - 1];
                let et = match e {
                    PropValue::Array(b) => seq!['['] + render(e, b.len() as nat) + seq![']'],
                    _ => render(e, 0),
                };
                render(v, (n - 1) as nat) + (if n > 1 { seq![','] } else { Seq::empty() }) + et
            }
        },
    }
}

/// Compact JSON text of a value, as serde_json writes it.
pub open spec fn json_text(v: PropValue) -> Seq<char> {
    match v {
        PropValue::Array(a) => seq!['['] + render(v, a.len() as nat) + seq![']'],
        _ => render(v, 0),
    }
}

/// The text a value is compared by: a string as it stands, anything else as JSON.
pub open spec fn str_repr(v: PropValue) -> Seq<char> {
    match v {
        PropValue::Str(s) => s@,
        _ => json_text(v),
    }
}

fn push_json(v: &PropValue, out: &mut String)
    ensures
        final(out)@ == old(out)@ + json_text(*v),
    decreases v,
{
    match v {
        PropValue::Null => {
            out.append("null");
            proof { reveal_strlit("null"); }
        },
        PropValue::Bool(b) => {
            if *b {
                out.append("true");
                proof { reveal_strlit("true"); }
            } else {
                out.append("false");
                proof { reveal_strlit("false"); }
            }
        },
        PropValue::Number(t) => {
            out.append(t.as_str());
        },
        PropValue::Object(t) => {
            out.append(t.as_str());
        },
        PropValue::Str(s) => {
            let q = quote_json(s.as_str());
            out.append(q.as_str());
        },
        PropValue::Array(a) => {
            let ghost start = out@;
            out.append("[");
            proof { reveal_strlit("["); }
            let mut i: usize = 0;
            while i < a.len()
                invariant
                    i <= a.len(),
                    *v == PropValue::Array(*a),
                    out@ == start + seq!['['] + render(*v, i as nat),
                decreases a.len() - i,
            {
                let ghost before = out@;
                if i > 0 {
                    out.append(",");
                    proof { reveal_strlit(","); }
                }
                let ghost mid = out@;
                assert(mid == before + (if i > 0 { seq![','] } else { Seq::<char>::empty() }));
                proof {
                    assert(decreases_to!(*v => (*v)->Array_0));
                    assert(decreases_to!(*a => a[i as int]));
                }
                push_json(&a[i], out);
                let ghost e = a@[i as int];
                assert(json_text(e) == match e {
                    PropValue::Array(b) => seq!['['] + render(e, b.len() as nat) + seq![']'],
                    _ => render(e, 0),
                });
                assert(render(*v, (i + 1) as nat) == render(*v, i as nat) + (if i > 0 {
                    seq![',']
                } else {
                    Seq::<char>::empty()
                }) + json_text(a@[i as int]));
                assert(out@ == start + seq!['['] + render(*v, (i + 1) as nat));
                i = i + 1;
            }
            out.append("]");
            proof { reveal_strlit("]"); }
        },
    }
}

/// The text form of a value: a string verbatim, anything else as compact JSON.
pub fn to_string_representation(value: &PropValue) -> (r: String)
    ensures
        r@ == str_repr(*value),
{
    match value {
        PropValue::Str(s) => s.clone(),
        _ => {
            let mut out = String::new();
            push_json(value, &mut out);
            out
        },
    }
}

/// The number of items of an array, 0 for any other value.
pub open spec fn items_len(v: PropValue) -> nat {
    match v {
        PropValue::Array(a) => a.len() as nat,
        _ => 0,
    }
}

/// Whether a value that is no array reads as a boolean (`truth` false), or
/// reads as true (`truth` true).
pub open spec fn leaf_holds(v: PropValue, truth: bool) -> bool {
    match v {
        PropValue::Bool(b) => !truth || b,
        PropValue::Str(s) => lower_of(s@) == "true"@ || (!truth && lower_of(s@) == "false"@),
        _ => false,
    }
}

/// Whether `leaf_holds` of every value within `v`, looking at the first `n`
/// items where `v` is an array.
pub open spec fn holds_upto(v: PropValue, n: nat, truth: bool) -> bool
    decreases v, n,
{
    match v {
        PropValue::Array(a) => {
            if n == 0 || n > a.len() {
                true
            } else {
                let e = a[n - 1];
                holds_upto(v, (n - 1) as nat, truth) && holds_upto(e, items_len(e), truth)
            }
        },
        _ => leaf_holds(v, truth),
    }
}

pub open spec fn holds_throughout(v: PropValue, truth: bool) -> bool {
    holds_upto(v, items_len(v), truth)
}

/// A boolean, a string that lowercases to `true` or `false`, or an array all
/// of whose items are such values (at any depth; the empty array included).
pub open spec fn is_boolean_like(v: PropValue) -> bool {
    holds_throughout(v, false)
}

/// The truth of a value: `true`, a string that lowercases to `true`, or an
/// array all of whose items are true (the empty array included).
pub open spec fn truthiness(v: PropValue) -> bool {
    holds_throughout(v, true)
}

/// The number of values within `v`, itself included, counting the first `n`
/// items where `v` is an array.
pub open spec fn count_upto(v: PropValue, n: nat) -> nat
    decreases v, n,
{
    match v {
        PropValue::Array(a) => {
            if n == 0 || n > a.len() {
                1
            } else {
                let e = a[n - 1];
                count_upto(v, (n - 1) as nat) + count_upto(e, items_len(e))
            }
        },
        _ => 1,
    }
}

pub open spec fn node_count(v: PropValue) -> nat {
    count_upto(v, items_len(v))
}

pub open spec fn stack_count(s: Seq<&PropValue>) -> nat
    decreases s.len(),
{
    if s.len() == 0 {
        0
    } else {
        stack_count(s.drop_last()) + node_count(*s.last())
    }
}

pub open spec fn all_hold(s: Seq<&PropValue>, truth: bool) -> bool {
    forall|i: int| 0 <= i < s.len() ==> #[trigger] holds_throughout(*s[i], truth)
}

proof fn lemma_holds_items(v: PropValue, n: nat, truth: bool)
    requires
        v is Array,
        n <= items_len(v),
    ensures
        holds_upto(v, n, truth) == (forall|j: int|
            0 <= j < n ==> #[trigger] holds_throughout(v->Array_0@[j], truth)),
    decreases n,
{
    if n > 0 {
        lemma_holds_items(v, (n - 1) as nat, truth);
        let a = v->Array_0;
        assert(v == PropValue::Array(a));
        assert(holds_upto(v, n, truth) == (holds_upto(v, (n - 1) as nat, truth) && holds_throughout(
            a@[n - 1],
            truth,
        )));
        if holds_upto(v, n, truth) {
            assert forall|j: int| 0 <= j < n implies #[trigger] holds_throughout(a@[j], truth) by {
                if j < n - 1 {
                    assert(holds_throughout(a@[j], truth));
                }
            }
        }
    }
}

/// Whether an already lowercased text reads as a boolean (`truth` false:
/// `true` or `false`), or as true (`truth` true: `true` only).
pub fn boolean_word(lowered: &String, truth: bool) -> (r: bool)
    ensures
        r == (lowered@ == "true"@ || (!truth && lowered@ == "false"@)),
{
    proof {
        reveal_strlit("true");
        reveal_strlit("false");
    }
    same_text(lowered, "true") || (!truth && same_text(lowered, "false"))
}

/// Whether `leaf_holds` of every value within `value`. The walk keeps its own
/// stack of values still to visit, so deep nesting costs heap, not call stack.
fn leaves_hold(value: &PropValue, truth: bool) -> (r: bool)
    ensures
        r == holds_throughout(*value, truth),
{
    let mut stack: Vec<&PropValue> = Vec::new();
    stack.push(value);
    assert(stack@.drop_last() =~= Seq::<&PropValue>::empty());
    assert(stack@[0] == value);
    assert(all_hold(stack@, truth) == holds_throughout(*value, truth)) by {
        if holds_throughout(*value, truth) {
            assert forall|i: int| 0 <= i < stack@.len() implies #[trigger] holds_throughout(
                *stack@[i],
                truth,
            ) by {
                assert(i == 0);
            }
        }
        if all_hold(stack@, truth) {
            assert(holds_throughout(*stack@[0], truth));
        }
    }
    while stack.len() > 0
        invariant
            holds_throughout(*value, truth) == all_hold(stack@, truth),
        decreases stack_count(stack@),
    {
        let ghost before = stack@;
        let top = stack.pop().unwrap();
        let ghost base = stack@;
        assert(base == before.drop_last());
        assert(all_hold(before, truth) == (all_hold(base, truth) && holds_throughout(*top, truth)))
            by {
            if all_hold(base, truth) && holds_throughout(*top, truth) {
                assert forall|i: int| 0 <= i < before.len() implies #[trigger] holds_throughout(
                    *before[i],
                    truth,
                ) by {
                    if i < base.len() {
                        assert(before[i] == base[i]);
                    }
                }
            }
            if all_hold(before, truth) {
                assert(holds_throughout(*before[before.len() - 1], truth));
                assert forall|i: int| 0 <= i < base.len() implies #[trigger] holds_throughout(
                    *base[i],
                    truth,
                ) by {
                    assert(before[i] == base[i]);
                }
            }
        }
        match top {
            PropValue::Array(a) => {
                let mut j: usize = 0;
                assert(stack@ == base);
                while j < a.len()
                    invariant
                        *top == PropValue::Array(*a),
                        j <= a.len(),
                        stack@.len() == base.len() + j,
                        forall|i: int| 0 <= i < base.len() ==> stack@[i] == base[i],
                        forall|k: int| 0 <= k < j ==> *stack@[base.len() + k] == a@[k],
                        stack_count(stack@) + 1 == stack_count(base) + count_upto(*top, j as nat),
                        all_hold(stack@, truth) == (all_hold(base, truth) && forall|k: int|
                            0 <= k < j ==> #[trigger] holds_throughout(a@[k], truth)),
                    decreases a.len() - j,
                {
                    let ghost prev = stack@;
                    stack.push(&a[j]);
                    proof {
                        assert(stack@.drop_last() =~= prev);
                        let t = truth;
                        if all_hold(stack@, t) {
                            assert forall|k: int| 0 <= k < j + 1 implies #[trigger] holds_throughout(
                                a@[k],
                                t,
                            ) by {
                                assert(*stack@[base.len() + k] == a@[k]);
                            }
                            assert forall|i: int| 0 <= i < base.len() implies #[trigger] holds_throughout(
                                *base[i],
                                t,
                            ) by {
                                assert(stack@[i] == base[i]);
                            }
                        }
                        if all_hold(base, t) && forall|k: int|
                            0 <= k < j + 1 ==> #[trigger] holds_throughout(a@[k], t) {
                            assert forall|i: int| 0 <= i < stack@.len() implies #[trigger] holds_throughout(
                                *stack@[i],
                                t,
                            ) by {
                                if i < base.len() {
                                    assert(stack@[i] == base[i]);
                                } else {
                                    assert(*stack@[i] == a@[i - base.len()]);
                                }
                            }
                        }
                    }
                    j = j + 1;
                }
                proof {
                    lemma_holds_items(*top, a.len() as nat, truth);
                }
            },
            PropValue::Bool(b) => {
                if truth && !*b {
                    return false;
                }
            },
            PropValue::Str(s) => {
                let l = lowercase(s.as_str());
                if !boolean_word(&l, truth) {
                    return false;
                }
            },
            _ => {
                return false;
            },
        }
    }
    true
}

/// Whether `s` holds exactly the characters of `t`.
pub(crate) fn same_text(s: &String, t: &str) -> (r: bool)
    ensures
        r == (s@ == t@),
{
    let t_owned = <String as StringExecFns>::from_str(t);
    *s == t_owned
}

/// Whether a value reads as a boolean (see `is_boolean_like`).
pub fn is_truthy_or_falsy_property_value(value: &PropValue) -> (r: bool)
    ensures
        r == is_boolean_like(*value),
{
    leaves_hold(value, false)
}

/// The truth of a value (see `truthiness`).
pub fn is_truthy_property_value(value: &PropValue) -> (r: bool)
    ensures
        r == truthiness(*value),
{
    leaves_hold(value, true)
}

} // verus!
