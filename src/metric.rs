use vstd::prelude::*;
use crate::event::{get, lookup, put};

verus! {

/// A metric number. A float is held as its IEEE-754 bit pattern.
#[derive(Clone, Copy, Debug, PartialEq, Eq, Structural)]
pub enum Number {
    Int(i64),
    Float(u64),
}

/// A metric value.
#[derive(Clone, Debug, PartialEq)]
pub enum MetricValue {
    Gauge(Number),
    Counter(Number),
    Text(String),
}

/// Named metric values.
pub struct Metrics {
    values: Vec<(String, MetricValue)>,
}

/// `n + d`, held at `i64::MAX` when it would exceed it.
pub open spec fn bumped(n: i64, d: i64) -> i64 {
    if n + d > i64::MAX { i64::MAX } else { (n + d) as i64 }
}

impl Metrics {
    pub closed spec fn value_spec(&self, name: Seq<char>) -> Option<MetricValue> {
        lookup(self.values@, name)
    }

    pub fn new() -> (r: Metrics)
        ensures
            forall|k: Seq<char>| r.value_spec(k) is None,
    {
        Metrics { values: Vec::new() }
    }

    pub fn get(&self, name: &str) -> (r: Option<&MetricValue>)
        ensures
            match r {
                Some(v) => self.value_spec(name@) == Some(*v),
                None => self.value_spec(name@) is None,
            },
    {
        get(&self.values, name)
    }

    pub fn set(&mut self, name: &str, value: MetricValue)
        ensures
            forall|k: Seq<char>| #[trigger] final(self).value_spec(k) == (if k == name@ { Some(value) } else { old(self).value_spec(k) }),
    {
        put(&mut self.values, name, value);
    }

    /// Adds `delta` to the integer counter `name`; tells whether `name` is
    /// such a counter. Other metrics are left as they are.
    pub fn inc(&mut self, name: &str, delta: i64) -> (r: bool)
        requires
            delta >= 0,
        ensures
            r == (old(self).value_spec(name@) matches Some(MetricValue::Counter(Number::Int(_)))),
            forall|k: Seq<char>| #[trigger] final(self).value_spec(k) == if k == name@ && r {
                match old(self).value_spec(name@) {
                    Some(MetricValue::Counter(Number::Int(n))) => Some(MetricValue::Counter(Number::Int(bumped(n, delta)))),
                    _ => old(self).value_spec(k),
                }
            } else {
                old(self).value_spec(k)
            },
    {
        let n = match get(&self.values, name) {
            Some(MetricValue::Counter(Number::Int(n))) => *n,
            _ => {
                return false;
            },
        };
        let next: i64 = if n > i64::MAX - delta { i64::MAX } else { n + delta };
        put(&mut self.values, name, MetricValue::Counter(Number::Int(next)));
        true
    }
}

} // verus!
