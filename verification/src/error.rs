//! The errors of the library.

use vstd::prelude::*;
use crate::text::{decimal, list_text, push_decimal, push_list};

verus! {

/// What the fallible functions of the library return.
pub type NseResult<T> = Result<T, NseError>;

/// Everything that can go wrong, by category.
#[allow(inconsistent_fields)]
#[derive(Debug, Clone)]
pub enum NseError {
    /// Reading or writing failed; holds the description given by the system.
    Io(String),
    /// The bytes are not a well-formed `.nse` file.
    InvalidFile(String),
    /// The file does not start with the expected magic.
    BadMagic { expected: [u8; 4], got: [u8; 4] },
    /// The file has a format version that is not supported.
    UnsupportedVersion(u32),
    /// A buffer does not have the size that its shape asks for.
    ShapeMismatch { expected: Vec<usize>, got: Vec<usize> },
    /// An index lies outside its collection.
    IndexOutOfBounds { index: usize, len: usize },
    /// Any other failure on tensors.
    Tensor(String),
    /// Any other failure on models.
    Model(String),
    /// Any other failure while transmuting.
    Transmutation(String),
    /// A configuration value is not acceptable.
    Config(String),
    /// Anything else.
    Other(String),
}

/// The bytes of an array as numbers.
pub open spec fn byte_nats(s: Seq<u8>) -> Seq<nat> {
    s.map_values(|x: u8| x as nat)
}

/// The sizes of a shape as numbers.
pub open spec fn size_nats(s: Seq<usize>) -> Seq<nat> {
    s.map_values(|x: usize| x as nat)
}

impl NseError {
    /// The text of the error, as it is shown to the user.
    pub open spec fn message_spec(&self) -> Seq<char> {
        match self {
            NseError::Io(s) => "I/O error: "@ + s@,
            NseError::InvalidFile(s) => "invalid NSE file: "@ + s@,
            NseError::BadMagic { expected, got } => "invalid magic: expected "@ + list_text(
                byte_nats(expected@),
            ) + ", got "@ + list_text(byte_nats(got@)),
            NseError::UnsupportedVersion(v) => "unsupported NSE version: "@ + decimal(*v as nat),
            NseError::ShapeMismatch { expected, got } => "shape mismatch: expected "@ + list_text(
                size_nats(expected@),
            ) + ", got "@ + list_text(size_nats(got@)),
            NseError::IndexOutOfBounds { index, len } => "index out of bounds: "@ + decimal(
                *index as nat,
            ) + " (len "@ + decimal(*len as nat) + ")"@,
            NseError::Tensor(s) => "tensor error: "@ + s@,
            NseError::Model(s) => "model error: "@ + s@,
            NseError::Transmutation(s) => "transmutation error: "@ + s@,
            NseError::Config(s) => "config error: "@ + s@,
            NseError::Other(s) => s@,
        }
    }

    /// The text of the error, as it is shown to the user.
    pub fn message(&self) -> (r: String)
        ensures
            r@ == self.message_spec(),
    {
        match self {
            NseError::Io(s) => prefixed("I/O error: ", s),
            NseError::InvalidFile(s) => prefixed("invalid NSE file: ", s),
            NseError::BadMagic { expected, got } => {
                let mut out = String::from_str("invalid magic: expected ");
                push_bytes(&mut out, expected);
                out.append(", got ");
                push_bytes(&mut out, got);
                out
            },
            NseError::UnsupportedVersion(v) => {
                let mut out = String::from_str("unsupported NSE version: ");
                push_decimal(&mut out, *v as u64);
                out
            },
            NseError::ShapeMismatch { expected, got } => {
                let mut out = String::from_str("shape mismatch: expected ");
                push_list(&mut out, expected);
                out.append(", got ");
                push_list(&mut out, got);
                out
            },
            NseError::IndexOutOfBounds { index, len } => {
                let mut out = String::from_str("index out of bounds: ");
                push_decimal(&mut out, *index as u64);
                out.append(" (len ");
                push_decimal(&mut out, *len as u64);
                out.append(")");
                out
            },
            NseError::Tensor(s) => prefixed("tensor error: ", s),
            NseError::Model(s) => prefixed("model error: ", s),
            NseError::Transmutation(s) => prefixed("transmutation error: ", s),
            NseError::Config(s) => prefixed("config error: ", s),
            NseError::Other(s) => s.clone(),
        }
    }

    /// The error for a JSON document that cannot be read or written, from the
    /// description that the JSON library gives.
    pub fn from_json(description: &str) -> (r: NseError)
        ensures
            r matches NseError::Other(s) && s@ == "serde_json: "@ + description@,
    {
        NseError::Other(prefixed("serde_json: ", description))
    }
}

fn prefixed(prefix: &str, s: &str) -> (r: String)
    ensures
        r@ == prefix@ + s@,
{
    let mut out = String::from_str(prefix);
    out.append(s);
    out
}

fn push_bytes(out: &mut String, bytes: &[u8; 4])
    ensures
        final(out)@ == old(out)@ + list_text(byte_nats(bytes@)),
{
    let items: [usize; 4] = [
        bytes[0] as usize,
        bytes[1] as usize,
        bytes[2] as usize,
        bytes[3] as usize,
    ];
    push_list(out, &items);
    assert(items@.map_values(|x: usize| x as nat) =~= byte_nats(bytes@));
}

} // verus!
