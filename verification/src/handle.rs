//! The Handle Generator: fixed-length random alphanumeric capability
//! strings.

use vstd::prelude::*;

verus! {

/// The length of every generated handle.
pub const HANDLE_LEN: usize = 20;

/// A character allowed in a generated handle: ASCII letters and digits.
pub open spec fn is_handle_char(c: char) -> bool {
    ('a' <= c && c <= 'z') || ('A' <= c && c <= 'Z') || ('0' <= c && c <= '9')
}

/// Draws a random alphanumeric string of the given length.
///
/// Relies on rand's Alphanumeric distribution through sample_string: the
/// result holds exactly `len` characters, each drawn uniformly from the
/// ASCII letters and digits. Nothing more is assumed of a random value.
#[verifier::external_body]
fn random_alphanumeric(len: usize) -> (r: String)
    ensures
        r@.len() == len as nat,
        forall|i: int| 0 <= i < r@.len() ==> is_handle_char(#[trigger] r@[i]),
{
    rand::distr::SampleString::sample_string(&rand::distr::Alphanumeric, &mut rand::rng(), len)
}

/// Generates a fresh handle: twenty random alphanumeric characters.
pub fn generate_handle() -> (r: String)
    ensures
        r@.len() == HANDLE_LEN as nat,
        forall|i: int| 0 <= i < r@.len() ==> is_handle_char(#[trigger] r@[i]),
{
    random_alphanumeric(HANDLE_LEN)
}

} // verus!
