use vstd::prelude::*;
use crate::error::{Error, ErrorDetails, ErrorId, Span};
use crate::text::str_eq;

verus! {

/// A value with the source range it was parsed from.
#[derive(Clone, Debug, PartialEq)]
pub struct Spanned<T> {
    pub value: T,
    pub span: Span,
}

/// A scalar dynamic value. A float is held as its IEEE-754 bit pattern.
#[derive(Clone, Debug, PartialEq)]
pub enum Value {
    Bool(bool),
    Int(i64),
    Float(u64),
    String(String),
}

/// The variant of a [`Value`].
#[derive(Clone, Copy, Debug, PartialEq, Eq, Structural)]
pub enum ValueKind {
    Bool,
    Int,
    Float,
    String,
}

pub open spec fn kind_of(v: Value) -> ValueKind {
    match v {
        Value::Bool(_) => ValueKind::Bool,
        Value::Int(_) => ValueKind::Int,
        Value::Float(_) => ValueKind::Float,
        Value::String(_) => ValueKind::String,
    }
}

/// A keyed entry of a [`Table`].
#[derive(Clone, Debug, PartialEq)]
pub struct Entry {
    pub key: String,
    pub value: Spanned<Value>,
}

/// One level of configuration: entries by key, in source order.
#[derive(Clone, Debug, PartialEq)]
pub struct Table {
    pub entries: Vec<Entry>,
}

/// Index of the first entry of `m` under `key`, if any.
pub open spec fn entry_index(m: Seq<Entry>, key: Seq<char>) -> Option<int>
    decreases m.len(),
{
    if m.len() == 0 {
        None
    } else if m[0].key@ == key {
        Some(0)
    } else {
        match entry_index(m.subrange(1, m.len() as int), key) {
            Some(i) => Some(i + 1),
            None => None,
        }
    }
}

/// Index of the first value in `p` that fails `ok`.
pub open spec fn first_failing(p: Seq<Spanned<Value>>, ok: spec_fn(Spanned<Value>) -> bool) -> Option<int>
    decreases p.len(),
{
    if p.len() == 0 {
        None
    } else if !ok(p[0]) {
        Some(0)
    } else {
        match first_failing(p.subrange(1, p.len() as int), ok) {
            Some(i) => Some(i + 1),
            None => None,
        }
    }
}

/// `first_failing` over `p`, found from position `i` on, when all before
/// `i` pass.
pub proof fn lemma_first_failing_step(p: Seq<Spanned<Value>>, ok: spec_fn(Spanned<Value>) -> bool, i: int)
    requires
        0 <= i < p.len(),
        first_failing(p, ok) == (match first_failing(p.subrange(i, p.len() as int), ok) {
            Some(j) => Some(j + i),
            None => None,
        }),
    ensures
        !ok(p[i]) ==> first_failing(p, ok) == Some(i),
        ok(p[i]) ==> first_failing(p, ok) == (match first_failing(p.subrange(i + 1, p.len() as int), ok) {
            Some(j) => Some(j + i + 1),
            None => None,
        }),
{
    let rest = p.subrange(i, p.len() as int);
    assert(rest[0] == p[i]);
    assert(rest.subrange(1, rest.len() as int) =~= p.subrange(i + 1, p.len() as int));
}

impl Value {
    pub fn kind(&self) -> (r: ValueKind)
        ensures
            r == kind_of(*self),
    {
        match self {
            Value::Bool(_) => ValueKind::Bool,
            Value::Int(_) => ValueKind::Int,
            Value::Float(_) => ValueKind::Float,
            Value::String(_) => ValueKind::String,
        }
    }

    pub fn from_str(s: &str) -> (r: Value)
        ensures
            r matches Value::String(t) && t@ == s@,
    {
        Value::String(s.to_string())
    }
}

fn type_error(expected: &str, span: Span) -> (r: Error)
    ensures
        r.spec_id() == ErrorId::Parse,
        r.spec_details() is Some,
        r.spec_details().unwrap().1 == span,
{
    Error::new(ErrorId::Parse, ErrorDetails::new(expected.to_string(), span))
}

impl<T> Spanned<T> {
    /// A value created in code, with an empty span.
    pub fn unspanned(value: T) -> (r: Spanned<T>)
        ensures
            r.value == value,
            r.span == (Span { start: 0, end: 0 }),
    {
        Spanned { value, span: Span::none() }
    }
}

impl Spanned<Value> {
    /// The string held, or a parse error at this value's span.
    pub fn as_str(&self) -> (r: Result<&str, Error>)
        ensures
            match self.value {
                Value::String(s) => r matches Ok(t) && t@ == s@,
                _ => r matches Err(e) && e.spec_id() == ErrorId::Parse && e.spec_details() is Some
                    && e.spec_details().unwrap().1 == self.span,
            },
    {
        match &self.value {
            Value::String(s) => Ok(s.as_str()),
            _ => Err(type_error("String value expected", self.span)),
        }
    }
}

impl Spanned<Table> {
    /// The entry under `key`, if any.
    pub fn get_opt(&self, key: &str) -> (r: Option<&Spanned<Value>>)
        ensures
            match entry_index(self.value.entries@, key@) {
                Some(i) => r == Some(&self.value.entries@[i].value),
                None => r is None,
            },
    {
        let m = &self.value.entries;
        let mut i: usize = 0;
        proof {
            assert(m@.subrange(0, m@.len() as int) =~= m@);
        }
        while i < m.len()
            invariant
                m == &self.value.entries,
                i <= m@.len(),
                entry_index(m@, key@) == (match entry_index(m@.subrange(i as int, m@.len() as int), key@) {
                    Some(j) => Some(j + i),
                    None => None,
                }),
            decreases m@.len() - i,
        {
            let ghost rest = m@.subrange(i as int, m@.len() as int);
            proof {
                assert(rest.subrange(1, rest.len() as int) =~= m@.subrange(i + 1, m@.len() as int));
            }
            if str_eq(m[i].key.as_str(), key) {
                return Some(&m[i].value);
            }
            i = i + 1;
        }
        proof {
            assert(m@.subrange(i as int, m@.len() as int).len() == 0);
        }
        None
    }

    /// The entry under `key`; a parse error at this table's span when it is
    /// missing.
    pub fn get(&self, key: &str) -> (r: Result<&Spanned<Value>, Error>)
        ensures
            match entry_index(self.value.entries@, key@) {
                Some(i) => r matches Ok(v) && v == &self.value.entries@[i].value,
                None => r matches Err(e) && e.spec_id() == ErrorId::Parse && e.spec_details() is Some
                    && e.spec_details().unwrap().1 == self.span,
            },
    {
        match self.get_opt(key) {
            Some(v) => Ok(v),
            None => Err(type_error("Map must specify a required key", self.span)),
        }
    }

    /// The string under `key`, if present; a parse error at the entry's
    /// span when it holds no string.
    pub fn get_opt_str(&self, key: &str) -> (r: Result<Option<&str>, Error>)
        ensures
            match entry_index(self.value.entries@, key@) {
                Some(i) => match self.value.entries@[i].value.value {
                    Value::String(s) => r matches Ok(Some(t)) && t@ == s@,
                    _ => r matches Err(e) && e.spec_id() == ErrorId::Parse,
                },
                None => r matches Ok(None),
            },
    {
        match self.get_opt(key) {
            Some(v) => match v.as_str() {
                Ok(s) => Ok(Some(s)),
                Err(e) => Err(e),
            },
            None => Ok(None),
        }
    }

    /// Takes the entry under `key` out of the table.
    pub fn remove_opt(&mut self, key: &str) -> (r: Option<Spanned<Value>>)
        ensures
            final(self).span == old(self).span,
            match entry_index(old(self).value.entries@, key@) {
                Some(i) => r == Some(old(self).value.entries@[i].value)
                    && final(self).value.entries@ == old(self).value.entries@.remove(i),
                None => r is None && final(self).value.entries@ == old(self).value.entries@,
            },
    {
        let ghost m = self.value.entries@;
        let mut i: usize = 0;
        proof {
            assert(m.subrange(0, m.len() as int) =~= m);
        }
        while i < self.value.entries.len()
            invariant
                self.value.entries@ == m,
                self.span == old(self).span,
                m == old(self).value.entries@,
                i <= m.len(),
                entry_index(m, key@) == (match entry_index(m.subrange(i as int, m.len() as int), key@) {
                    Some(j) => Some(j + i),
                    None => None,
                }),
            decreases m.len() - i,
        {
            let ghost rest = m.subrange(i as int, m.len() as int);
            proof {
                assert(rest.subrange(1, rest.len() as int) =~= m.subrange(i + 1, m.len() as int));
            }
            if str_eq(self.value.entries[i].key.as_str(), key) {
                let e = self.value.entries.remove(i);
                return Some(e.value);
            }
            i = i + 1;
        }
        proof {
            assert(m.subrange(i as int, m.len() as int).len() == 0);
        }
        None
    }

    /// Takes the entry under `key` out of the table; a parse error at this
    /// table's span when it is missing.
    pub fn remove(&mut self, key: &str) -> (r: Result<Spanned<Value>, Error>)
        ensures
            final(self).span == old(self).span,
            match entry_index(old(self).value.entries@, key@) {
                Some(i) => r matches Ok(v) && v == old(self).value.entries@[i].value
                    && final(self).value.entries@ == old(self).value.entries@.remove(i),
                None => r matches Err(e) && e.spec_id() == ErrorId::Parse
                    && final(self).value.entries@ == old(self).value.entries@,
            },
    {
        match self.remove_opt(key) {
            Some(v) => Ok(v),
            None => Err(type_error("Map must specify a required key", self.span)),
        }
    }
}

} // verus!
