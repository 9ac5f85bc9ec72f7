//! The workspace-wide error type.
use vstd::prelude::*;
use vstd::string::StringExecFns;

verus! {

/// `std::io::Error`, carried opaquely by [`ApogeeError::Io`].
#[verifier::external_type_specification]
#[verifier::external_body]
pub struct ExIoError(std::io::Error);

/// NAIF-style body identifier (e.g. 10 = Sun, 399 = Earth).
pub type NaifId = i32;

/// Unified error type for the Apogee workspace.
#[derive(Debug)]
pub enum ApogeeError {
    Ephemeris(String),
    Frame(String),
    Gravity(String),
    Integrator(String),
    Network(String),
    Io(std::io::Error),
    Data(String),
}

/// Result of a fallible Apogee operation.
pub type ApogeeResult<T> = Result<T, ApogeeError>;

/// The text that `std::io::Error` displays (`ToString::to_string`); nothing
/// is stated of it.
#[verifier::external_body]
fn io_error_text(e: &std::io::Error) -> String {
    e.to_string()
}

impl From<std::io::Error> for ApogeeError {
    /// An I/O error becomes `ApogeeError::Io`.
    fn from(e: std::io::Error) -> (r: Self) {
        ApogeeError::Io(e)
    }
}

impl vstd::std_specs::convert::FromSpecImpl<std::io::Error> for ApogeeError {
    open spec fn obeys_from_spec() -> bool {
        true
    }

    open spec fn from_spec(v: std::io::Error) -> Self {
        ApogeeError::Io(v)
    }
}

impl ApogeeError {
    /// The message text of the error: a prefix naming the kind of error
    /// followed by the detail it carries.
    pub fn message(&self) -> (r: String)
        ensures
            match self {
                ApogeeError::Ephemeris(m) => r@ == "ephemeris error: "@ + m@,
                ApogeeError::Frame(m) => r@ == "frame transform error: "@ + m@,
                ApogeeError::Gravity(m) => r@ == "gravity model error: "@ + m@,
                ApogeeError::Integrator(m) => r@ == "integrator error: "@ + m@,
                ApogeeError::Network(m) => r@ == "network error: "@ + m@,
                ApogeeError::Io(_) => r@.take("I/O error: "@.len() as int) == "I/O error: "@,
                ApogeeError::Data(m) => r@ == "data error: "@ + m@,
            },
    {
        match self {
            ApogeeError::Ephemeris(m) => String::from_str("ephemeris error: ").concat(m.as_str()),
            ApogeeError::Frame(m) => String::from_str("frame transform error: ").concat(m.as_str()),
            ApogeeError::Gravity(m) => String::from_str("gravity model error: ").concat(m.as_str()),
            ApogeeError::Integrator(m) => String::from_str("integrator error: ").concat(m.as_str()),
            ApogeeError::Network(m) => String::from_str("network error: ").concat(m.as_str()),
            ApogeeError::Io(e) => {
                let detail = io_error_text(e);
                let r = String::from_str("I/O error: ").concat(detail.as_str());
                assert(r@.take("I/O error: "@.len() as int) == "I/O error: "@);
                r
            },
            ApogeeError::Data(m) => String::from_str("data error: ").concat(m.as_str()),
        }
    }
}

} // verus!
