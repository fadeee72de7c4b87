//! Item identities: the UUID text the bridge's callers pass, parsed into the
//! 128-bit value every op keys on.

use vstd::prelude::*;

verus! {

/// The 128-bit value of the UUID that `uuid::Uuid::parse_str` reads from the
/// text `s`, or `None` when it rejects the text.
pub uninterp spec fn uuid_parse(s: Seq<char>) -> Option<u128>;

/// Calls `uuid::Uuid::parse_str` and takes the parsed UUID's big-endian
/// 128-bit value (`Uuid::as_u128`). The contract only names the result: it
/// claims that the outcome depends on the text alone, and says nothing of
/// which texts the parser accepts.
#[verifier::external_body]
pub(crate) fn parse_uuid(s: &str) -> (r: Option<u128>)
    ensures
        r == uuid_parse(s@),
{
    match uuid::Uuid::parse_str(s) {
        Ok(u) => Some(u.as_u128()),
        Err(_) => None,
    }
}

/// Which of a `(composition, layer)` id pair failed to parse.
#[derive(Debug, Clone, Copy, PartialEq, Eq)]
pub enum IdError {
    /// The composition id is not a valid UUID.
    Comp,
    /// The layer id is not a valid UUID.
    Layer,
}

impl IdError {
    /// The refusal as the bridge words it, after the op's name.
    pub fn describe(&self) -> (r: &'static str)
        ensures
            r@ == match *self {
                IdError::Comp => "composition id is not a valid UUID"@,
                IdError::Layer => "layer id is not a valid UUID"@,
            },
    {
        match self {
            IdError::Comp => "composition id is not a valid UUID",
            IdError::Layer => "layer id is not a valid UUID",
        }
    }
}

/// Parse a composition id and a layer id, the composition first.
pub fn parse_comp_layer(comp_id: &str, layer_id: &str) -> (r: Result<(u128, u128), IdError>)
    ensures
        match uuid_parse(comp_id@) {
            None => r == Err::<(u128, u128), IdError>(IdError::Comp),
            Some(c) => match uuid_parse(layer_id@) {
                None => r == Err::<(u128, u128), IdError>(IdError::Layer),
                Some(l) => r == Ok::<(u128, u128), IdError>((c, l)),
            },
        },
{
    let comp = match parse_uuid(comp_id) {
        Some(c) => c,
        None => return Err(IdError::Comp),
    };
    match parse_uuid(layer_id) {
        Some(l) => Ok((comp, l)),
        None => Err(IdError::Layer),
    }
}

} // verus!
