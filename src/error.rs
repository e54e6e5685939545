use vstd::prelude::*;

verus! {

/// The kind of an error.
#[derive(Clone, Copy, Debug, PartialEq, Eq, Structural)]
pub enum ErrorId {
    Io,
    Parse,
    Unknown,
}

/// A source range `[start, end)` used for diagnostics.
#[derive(Clone, Copy, Debug, PartialEq, Eq, Structural)]
pub struct Span {
    pub start: u32,
    pub end: u32,
}

impl Span {
    pub fn new(start: u32, end: u32) -> (r: Span)
        ensures
            r.start == start,
            r.end == end,
    {
        Span { start, end }
    }

    /// The empty span at offset 0, used for values created in code.
    pub fn none() -> (r: Span)
        ensures
            r.start == 0,
            r.end == 0,
    {
        Span { start: 0, end: 0 }
    }
}

/// A message pinned to a source span.
#[derive(Debug)]
pub struct ErrorDetails {
    pub msg: String,
    pub span: Span,
}

impl ErrorDetails {
    pub fn new(msg: String, span: Span) -> (r: ErrorDetails)
        ensures
            r.msg@ == msg@,
            r.span == span,
    {
        ErrorDetails { msg, span }
    }

    /// The same message at another span.
    pub fn at(self, span: Span) -> (r: ErrorDetails)
        ensures
            r.msg@ == self.msg@,
            r.span == span,
    {
        ErrorDetails { msg: self.msg, span }
    }
}

/// A chained error: a kind, optional details, an optional cause and a stack
/// of context messages pushed while it propagates.
#[derive(Debug)]
pub struct Error {
    id: ErrorId,
    details: Option<ErrorDetails>,
    cause: Option<Box<Error>>,
    context: Vec<String>,
}

impl Error {
    pub closed spec fn spec_id(&self) -> ErrorId {
        self.id
    }

    pub closed spec fn spec_details(&self) -> Option<(Seq<char>, Span)> {
        match self.details {
            Some(d) => Some((d.msg@, d.span)),
            None => None,
        }
    }

    pub closed spec fn spec_has_cause(&self) -> bool {
        self.cause.is_some()
    }

    pub closed spec fn spec_context(&self) -> Seq<Seq<char>> {
        self.context@.map_values(|m: String| m@)
    }

    pub fn new(id: ErrorId, details: ErrorDetails) -> (r: Error)
        ensures
            r.spec_id() == id,
            r.spec_details() == Some((details.msg@, details.span)),
            !r.spec_has_cause(),
            r.spec_context().len() == 0,
    {
        let r = Error { id, details: Some(details), cause: None, context: Vec::new() };
        proof {
            assert(r.spec_context() =~= Seq::<Seq<char>>::empty());
        }
        r
    }

    pub fn without_details(id: ErrorId) -> (r: Error)
        ensures
            r.spec_id() == id,
            r.spec_details().is_none(),
            !r.spec_has_cause(),
            r.spec_context().len() == 0,
    {
        let r = Error { id, details: None, cause: None, context: Vec::new() };
        proof {
            assert(r.spec_context() =~= Seq::<Seq<char>>::empty());
        }
        r
    }

    /// Records `cause` as the logical cause of this error.
    pub fn with_cause(self, cause: Error) -> (r: Error)
        ensures
            r.spec_id() == self.spec_id(),
            r.spec_details() == self.spec_details(),
            r.spec_has_cause(),
            r.spec_context() == self.spec_context(),
    {
        Error { id: self.id, details: self.details, cause: Some(Box::new(cause)), context: self.context }
    }

    /// Pushes a context message onto the context stack.
    pub fn with_context(self, message: String) -> (r: Error)
        ensures
            r.spec_id() == self.spec_id(),
            r.spec_details() == self.spec_details(),
            r.spec_has_cause() == self.spec_has_cause(),
            r.spec_context() == self.spec_context().push(message@),
    {
        let mut context = self.context;
        let ghost m = message@;
        context.push(message);
        let r = Error { id: self.id, details: self.details, cause: self.cause, context };
        proof {
            assert(r.spec_context() =~= self.spec_context().push(m));
        }
        r
    }

    pub fn id(&self) -> (r: ErrorId)
        ensures
            r == self.spec_id(),
    {
        self.id
    }

    pub fn details(&self) -> (r: Option<&ErrorDetails>)
        ensures
            match r {
                Some(d) => self.spec_details() == Some((d.msg@, d.span)),
                None => self.spec_details().is_none(),
            },
    {
        match &self.details {
            Some(d) => Some(d),
            None => None,
        }
    }

    pub fn cause(&self) -> (r: Option<&Error>)
        ensures
            r.is_some() == self.spec_has_cause(),
    {
        match &self.cause {
            Some(c) => Some(&**c),
            None => None,
        }
    }

    /// Number of context messages pushed so far.
    pub fn context_len(&self) -> (r: usize)
        ensures
            r == self.spec_context().len(),
    {
        self.context.len()
    }
}

} // verus!
