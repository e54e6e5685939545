use vstd::prelude::*;

verus! {

/// The role a component plays in the pipeline.
#[derive(Clone, Copy, Debug, PartialEq, Eq, Hash, Structural)]
pub enum ComponentKind {
    Encoder,
    EventDecoder,
    FrameDecoder,
    Filter,
    Input,
    Output,
    StreamDecoder,
}

/// The name and kind of a component provider.
#[derive(Clone, Debug)]
pub struct Metadata {
    pub name: String,
    pub kind: ComponentKind,
}

impl Metadata {
    pub fn new(name: &str, kind: ComponentKind) -> (r: Metadata)
        ensures
            r.name@ == name@,
            r.kind == kind,
    {
        Metadata { name: name.to_string(), kind }
    }
}

/// A running component reports the metadata of its provider.
pub trait Component {
    fn provider_metadata(&self) -> Metadata;
}

} // verus!
