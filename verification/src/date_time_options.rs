//! Options of a date/time field: whether it is stored, indexed, carries
//! fieldnorms, is a fast field, and with what precision its fast-field
//! values are kept.

use vstd::prelude::*;

verus! {

/// The precision with which a date/time value is kept on a fast field.
#[derive(Clone, Copy, Debug, PartialEq, Eq, Hash, Structural)]
pub enum DateTimePrecision {
    /// Seconds.
    Seconds,
    /// Milliseconds.
    Milliseconds,
    /// Microseconds.
    Microseconds,
    /// Nanoseconds.
    Nanoseconds,
}

impl Default for DateTimePrecision {
    /// The default precision: seconds.
    fn default() -> (r: Self)
        ensures
            r == DateTimePrecision::Seconds,
    {
        DateTimePrecision::Seconds
    }
}

/// The precision used for the indexed form of date/time values.
pub const DATE_TIME_PRECISION_INDEXED: DateTimePrecision = DateTimePrecision::Seconds;

/// Defines how a date/time field is handled by the index.
#[derive(Clone, Copy, Debug, PartialEq, Eq, Structural)]
pub struct DateOptions {
    indexed: bool,
    // This boolean has no effect if the field is not marked as indexed.
    fieldnorms: bool,
    fast: bool,
    stored: bool,
    // Internal storage precision, used to optimize storage compression on
    // fast fields.
    precision: DateTimePrecision,
}

impl Default for DateOptions {
    /// Options with nothing enabled and second precision.
    fn default() -> (r: Self)
        ensures
            !r.spec_stored(),
            !r.spec_indexed(),
            !r.spec_fieldnorms_flag(),
            !r.spec_fast(),
            r.spec_precision() == DateTimePrecision::Seconds,
    {
        DateOptions {
            indexed: false,
            fieldnorms: false,
            fast: false,
            stored: false,
            precision: DateTimePrecision::Seconds,
        }
    }
}

impl DateOptions {
    /// Whether values are stored, for contracts.
    pub closed spec fn spec_stored(self) -> bool {
        self.stored
    }

    /// Whether values are indexed, for contracts.
    pub closed spec fn spec_indexed(self) -> bool {
        self.indexed
    }

    /// The raw fieldnorms flag, for contracts.
    pub closed spec fn spec_fieldnorms_flag(self) -> bool {
        self.fieldnorms
    }

    /// Whether values live on a fast field, for contracts.
    pub closed spec fn spec_fast(self) -> bool {
        self.fast
    }

    /// The fast-field storage precision, for contracts.
    pub closed spec fn spec_precision(self) -> DateTimePrecision {
        self.precision
    }

    /// Returns true iff the value is stored.
    pub fn is_stored(&self) -> (r: bool)
        ensures
            r == self.spec_stored(),
    {
        self.stored
    }

    /// Returns true iff the value is indexed and therefore searchable.
    pub fn is_indexed(&self) -> (r: bool)
        ensures
            r == self.spec_indexed(),
    {
        self.indexed
    }

    /// Returns true iff the field carries fieldnorms: the flag only counts
    /// on an indexed field.
    pub fn fieldnorms(&self) -> (r: bool)
        ensures
            r == (self.spec_fieldnorms_flag() && self.spec_indexed()),
    {
        self.fieldnorms && self.indexed
    }

    /// Returns true iff the value is a fast field.
    pub fn is_fast(&self) -> (r: bool)
        ensures
            r == self.spec_fast(),
    {
        self.fast
    }

    /// Sets the field as stored.
    pub fn set_stored(self) -> (r: Self)
        ensures
            r.spec_stored(),
            r.spec_indexed() == self.spec_indexed(),
            r.spec_fieldnorms_flag() == self.spec_fieldnorms_flag(),
            r.spec_fast() == self.spec_fast(),
            r.spec_precision() == self.spec_precision(),
    {
        let mut r = self;
        r.stored = true;
        r
    }

    /// Sets the field as indexed, which is required for it to be
    /// searchable.
    pub fn set_indexed(self) -> (r: Self)
        ensures
            r.spec_indexed(),
            r.spec_stored() == self.spec_stored(),
            r.spec_fieldnorms_flag() == self.spec_fieldnorms_flag(),
            r.spec_fast() == self.spec_fast(),
            r.spec_precision() == self.spec_precision(),
    {
        let mut r = self;
        r.indexed = true;
        r
    }

    /// Sets the fieldnorms flag.
    pub fn set_fieldnorm(self) -> (r: Self)
        ensures
            r.spec_fieldnorms_flag(),
            r.spec_stored() == self.spec_stored(),
            r.spec_indexed() == self.spec_indexed(),
            r.spec_fast() == self.spec_fast(),
            r.spec_precision() == self.spec_precision(),
    {
        let mut r = self;
        r.fieldnorms = true;
        r
    }

    /// Sets the field as a fast field, designed for random access.
    pub fn set_fast(self) -> (r: Self)
        ensures
            r.spec_fast(),
            r.spec_stored() == self.spec_stored(),
            r.spec_indexed() == self.spec_indexed(),
            r.spec_fieldnorms_flag() == self.spec_fieldnorms_flag(),
            r.spec_precision() == self.spec_precision(),
    {
        let mut r = self;
        r.fast = true;
        r
    }

    /// Sets the fast-field storage precision. Indexed precision is always
    /// [`DateTimePrecision::Seconds`].
    pub fn set_precision(self, precision: DateTimePrecision) -> (r: Self)
        ensures
            r.spec_precision() == precision,
            r.spec_stored() == self.spec_stored(),
            r.spec_indexed() == self.spec_indexed(),
            r.spec_fieldnorms_flag() == self.spec_fieldnorms_flag(),
            r.spec_fast() == self.spec_fast(),
    {
        let mut r = self;
        r.precision = precision;
        r
    }

    /// Returns the fast-field storage precision.
    pub fn get_precision(&self) -> (r: DateTimePrecision)
        ensures
            r == self.spec_precision(),
    {
        self.precision
    }
}

} // verus!
