//! Error reported when a fast-field reader is requested for a field that
//! the schema does not define as a fast field.

use vstd::prelude::*;
use vstd::string::StringExecFns;

verus! {

/// The requested field is not available as a fast field; carries the
/// field's name for diagnosis.
#[derive(Debug)]
pub struct FastFieldNotAvailableError {
    pub(crate) field_name: String,
}

impl FastFieldNotAvailableError {
    /// The name of the field that was not available, for contracts.
    pub closed spec fn spec_field_name(self) -> Seq<char> {
        self.field_name@
    }

    /// Creates the error for the field of the given name.
    pub fn new(field_name: &str) -> (r: Self)
        ensures
            r.spec_field_name() == field_name@,
    {
        FastFieldNotAvailableError { field_name: String::from_str(field_name) }
    }

    /// The name of the field that was not available.
    pub fn field_name(&self) -> (r: &str)
        ensures
            r@ == self.spec_field_name(),
    {
        self.field_name.as_str()
    }

    /// A human-readable description of the error.
    pub fn message(&self) -> (r: String)
        ensures
            r@ == "fast field not available: '"@ + self.spec_field_name() + "'"@,
    {
        let mut text = String::from_str("fast field not available: '");
        text.append(self.field_name.as_str());
        text.append("'");
        proof {
            assert(text@ =~= "fast field not available: '"@ + self.spec_field_name() + "'"@);
        }
        text
    }
}

/// Result of trying to access a fast-field reader.
pub type FastFieldResult<R> = Result<R, FastFieldNotAvailableError>;

} // verus!
