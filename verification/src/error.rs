//! Errors of the field.
use vstd::prelude::*;

verus! {

#[derive(Debug)]
pub enum FieldError {
    /// The operating system refused an operation; the text says which and why.
    Io(String),
    /// The store's files do not fit together.
    Manifest(String),
    Other(String),
}

} // verus!
