use vstd::prelude::*;

verus! {

/// A fatal conversion failure.
///
/// `TruncatedInput` reports a pointer table or record that runs past the end
/// of the input. `MalformedDirective` reports a numeric directive sub-field
/// that is not parseable as the expected integer type; `at` is the byte
/// position where the offending value began.
#[derive(Clone, Copy, Debug, PartialEq, Eq, Structural)]
pub enum DtError {
    TruncatedInput,
    MalformedDirective { at: usize },
}

} // verus!
