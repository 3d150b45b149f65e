//! The progress-reporting sink the orchestrator hands in: a key, a value,
//! and a severity. The library never prints; callers implement the trait.

use vstd::prelude::*;

verus! {

/// How severe a reported message is.
#[derive(Clone, Copy, PartialEq, Eq, Structural, Debug)]
pub enum MessageKind {
    Warning,
    Error,
}

/// A key/value progress sink; implementations decide where the text goes.
pub trait KeyValPrint {
    fn print(&self, kind: Option<MessageKind>, key: &str, val: &str);
}

/// The sink that swallows everything.
pub struct DontPrint;

impl KeyValPrint for DontPrint {
    fn print(&self, _kind: Option<MessageKind>, _key: &str, _val: &str) {
    }
}

} // verus!
