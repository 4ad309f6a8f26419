//! Property filters and the observed property values they are matched against.
use vstd::prelude::*;
use crate::value::PropValue;

verus! {

/// How a filter compares its value with the observed one.
#[derive(Debug, Clone, Copy, PartialEq, Eq, Structural)]
pub enum OperatorType {
    Exact,
    IsNot,
    Icontains,
    NotIcontains,
    Regex,
    NotRegex,
    Gt,
    Lt,
    Gte,
    Lte,
    IsSet,
    IsNotSet,
    IsDateExact,
    IsDateAfter,
    IsDateBefore,
    In,
    NotIn,
}

/// One targeting condition: the property `key`, compared by `operator`
/// (`Exact` where absent) with `value`. The other fields are carried for the
/// callers that combine filters.
#[derive(Debug)]
pub struct PropertyFilter {
    pub key: String,
    pub value: PropValue,
    pub operator: Option<OperatorType>,
    pub prop_type: String,
    pub group_type_index: Option<i32>,
    pub negation: Option<bool>,
}

/// The operator a filter applies: its own, or `Exact` where it names none.
pub open spec fn effective_operator(op: Option<OperatorType>) -> OperatorType {
    match op {
        Some(o) => o,
        None => OperatorType::Exact,
    }
}

/// The value of the last of `pairs` whose key is `k`.
pub open spec fn last_value_of(pairs: Seq<(Seq<char>, PropValue)>, k: Seq<char>) -> Option<PropValue>
    decreases pairs.len(),
{
    if pairs.len() == 0 {
        None
    } else if pairs.last().0 == k {
        Some(pairs.last().1)
    } else {
        last_value_of(pairs.drop_last(), k)
    }
}

/// The observed values of a subject, by property key. A key given again
/// replaces the earlier value.
#[derive(Debug)]
pub struct Properties {
    entries: Vec<(String, PropValue)>,
}

impl Properties {
    /// The pairs in the order they were given.
    pub closed spec fn pairs(&self) -> Seq<(Seq<char>, PropValue)> {
        self.entries@.map_values(|e: (String, PropValue)| (e.0@, e.1))
    }

    /// The value held for `k`, if any.
    pub open spec fn lookup(&self, k: Seq<char>) -> Option<PropValue> {
        last_value_of(self.pairs(), k)
    }

    /// No properties.
    pub fn new() -> (r: Properties)
        ensures
            forall|k: Seq<char>| r.lookup(k) is None,
    {
        let r = Properties { entries: Vec::new() };
        assert(r.pairs() =~= Seq::empty());
        r
    }

    /// Sets the value of `key`, replacing any earlier one.
    pub fn insert(&mut self, key: String, value: PropValue)
        ensures
            final(self).lookup(key@) == Some(value),
            forall|k: Seq<char>| k != key@ ==> final(self).lookup(k) == old(self).lookup(k),
    {
        let ghost before = self.pairs();
        let ghost kv = key@;
        self.entries.push((key, value));
        assert(self.pairs().drop_last() =~= before);
        assert(self.pairs().last() == (kv, value));
    }

    /// Whether `key` has a value.
    pub fn contains_key(&self, key: &String) -> (r: bool)
        ensures
            r == self.lookup(key@) is Some,
    {
        self.get(key).is_some()
    }

    /// The value of `key`, if any.
    pub fn get(&self, key: &String) -> (r: Option<&PropValue>)
        ensures
            r is Some <==> self.lookup(key@) is Some,
            r is Some ==> *r->0 == self.lookup(key@)->0,
    {
        let mut i: usize = self.entries.len();
        assert(self.pairs().subrange(0, i as int) =~= self.pairs());
        while i > 0
            invariant
                i <= self.entries@.len(),
                last_value_of(self.pairs(), key@) == last_value_of(self.pairs().subrange(0, i as int), key@),
            decreases i,
        {
            let ghost pre = self.pairs().subrange(0, i as int);
            assert(pre.drop_last() =~= self.pairs().subrange(0, i - 1));
            if self.entries[i - 1].0 == *key {
                return Some(&self.entries[i - 1].1);
            }
            i = i - 1;
        }
        None
    }
}

} // verus!
