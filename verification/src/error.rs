use vstd::string::StringExecFns;
use vstd::prelude::*;

verus! {

/// Everything that can go wrong in the vector database.
#[derive(Debug, Clone)]
pub enum VestoError {
    DimensionMismatch { expected: usize, received: usize },
    ZeroVector,
    ShapeError,
    SerializeError,
    IoError,
    BadHeader,
    BadVersion,
    DeserializeError,
    DuplicateIndex,
    KeyNotFound,
    DuplicateCollection,
    DuplicateVectorField,
    MetadataLengthMismatch,
    UnknownIndexType,
    RequiredParameterMissing { param: String },
    EmptyIndex,
}

/// Decimal digits of a natural number, most significant first.
pub open spec fn decimal_text(n: nat) -> Seq<char>
    decreases n,
{
    if n < 10 {
        seq![digit_char(n)]
    } else {
        decimal_text(n / 10).push(digit_char(n % 10))
    }
}

pub open spec fn digit_char(d: nat) -> char {
    if d == 0 { '0' }
    else if d == 1 { '1' }
    else if d == 2 { '2' }
    else if d == 3 { '3' }
    else if d == 4 { '4' }
    else if d == 5 { '5' }
    else if d == 6 { '6' }
    else if d == 7 { '7' }
    else if d == 8 { '8' }
    else { '9' }
}

/// What `{:?}` prints for a string: the text in double quotes, with
/// special characters escaped.
pub uninterp spec fn debug_quoted(s: Seq<char>) -> Seq<char>;

/// Decimal text of a `usize`, as `usize::to_string` gives it.
#[verifier::external_body]
fn usize_text(n: usize) -> (r: String)
    ensures
        r@ == decimal_text(n as nat),
{
    n.to_string()
}

/// The string in double quotes with escapes, as `format!("{:?}", s)` gives it.
#[verifier::external_body]
fn quoted_text(s: &String) -> (r: String)
    ensures
        r@ == debug_quoted(s@),
{
    format!("{:?}", s)
}

impl VestoError {
    /// The human readable text of the error.
    pub open spec fn spec_message(&self) -> Seq<char> {
        match self {
            VestoError::DimensionMismatch { expected, received } =>
                "Dimension mismatch: expected "@ + decimal_text(*expected as nat) + ", got "@
                    + decimal_text(*received as nat) + "."@,
            VestoError::ZeroVector => "Cannot compute with zero vector."@,
            VestoError::ShapeError => "Shape error."@,
            VestoError::SerializeError => "Serialization error"@,
            VestoError::DeserializeError => "Deserialization error"@,
            VestoError::IoError => "IO error."@,
            VestoError::BadHeader => "Bad Header."@,
            VestoError::BadVersion => "Bad Version."@,
            VestoError::DuplicateIndex => "Duplicated Index"@,
            VestoError::KeyNotFound => "Key Not Found"@,
            VestoError::DuplicateCollection => "Duplicate Collection"@,
            VestoError::DuplicateVectorField => "Duplicate Vector Field"@,
            VestoError::MetadataLengthMismatch => "Metadata length mismatch"@,
            VestoError::UnknownIndexType => "Unknown Index Type"@,
            VestoError::RequiredParameterMissing { param } =>
                "Required parameter "@ + debug_quoted(param@) + " is missing."@,
            VestoError::EmptyIndex => "Empty Index"@,
        }
    }

    /// The human readable text of the error (what the error displays as).
    pub fn message(&self) -> (r: String)
        ensures
            r@ == self.spec_message(),
    {
        match self {
            VestoError::DimensionMismatch { expected, received } => {
                let mut s = String::from_str("Dimension mismatch: expected ");
                let e = usize_text(*expected);
                s.append(e.as_str());
                s.append(", got ");
                let r = usize_text(*received);
                s.append(r.as_str());
                s.append(".");
                s
            },
            VestoError::ZeroVector => String::from_str("Cannot compute with zero vector."),
            VestoError::ShapeError => String::from_str("Shape error."),
            VestoError::SerializeError => String::from_str("Serialization error"),
            VestoError::DeserializeError => String::from_str("Deserialization error"),
            VestoError::IoError => String::from_str("IO error."),
            VestoError::BadHeader => String::from_str("Bad Header."),
            VestoError::BadVersion => String::from_str("Bad Version."),
            VestoError::DuplicateIndex => String::from_str("Duplicated Index"),
            VestoError::KeyNotFound => String::from_str("Key Not Found"),
            VestoError::DuplicateCollection => String::from_str("Duplicate Collection"),
            VestoError::DuplicateVectorField => String::from_str("Duplicate Vector Field"),
            VestoError::MetadataLengthMismatch => String::from_str("Metadata length mismatch"),
            VestoError::UnknownIndexType => String::from_str("Unknown Index Type"),
            VestoError::RequiredParameterMissing { param } => {
                let mut s = String::from_str("Required parameter ");
                let q = quoted_text(param);
                s.append(q.as_str());
                s.append(" is missing.");
                s
            },
            VestoError::EmptyIndex => String::from_str("Empty Index"),
        }
    }
}

} // verus!
