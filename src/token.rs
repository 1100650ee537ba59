//! The join token: a signed bearer token whose claims carry the external
//! identity of the agent.

use vstd::prelude::*;
use crate::control::ChannelError;
use crate::frame::{entry_value, find_entry, json_string, string_item};
use crate::json::pair_views;

verus! {

/// The claims that a token carries, keys in ascending order and values
/// printed compactly by serde_json; they depend on the token alone.
pub uninterp spec fn jwt_claims(token: Seq<char>) -> Seq<(Seq<char>, Seq<char>)>;

/// Relies on jsonwebtoken's `decode` (with `DecodingKey::from_secret` and the
/// HS256 `Validation::default()`, which checks the signature and `exp`
/// against the clock): the claims' entries, decoded into a `serde_json::Map`
/// (a `BTreeMap` here) and values printed by `Value`'s `Display`, where the
/// token verifies. Whether it verifies depends on the clock; what it carries
/// is read from the token alone.
#[verifier::external_body]
fn decode_claims(token: &str, secret: &str) -> (r: Option<Vec<(String, String)>>)
    ensures
        r is Some ==> pair_views(r->Some_0@) == jwt_claims(token@),
{
    let key = jsonwebtoken::DecodingKey::from_secret(secret.as_bytes());
    let validation = jsonwebtoken::Validation::default();
    match jsonwebtoken::decode::<serde_json::Map<String, serde_json::Value>>(token, &key, &validation) {
        Ok(data) => Some(data.claims.into_iter().map(|(k, v)| (k, v.to_string())).collect()),
        Err(_) => None,
    }
}

/// The `id` claim, where the claims hold one that is a string.
pub open spec fn claims_id(claims: Option<Seq<(Seq<char>, Seq<char>)>>) -> Option<Seq<char>> {
    match claims {
        Some(entries) => match entry_value(entries, "id"@) {
            Some(v) => json_string(v),
            None => None,
        },
        None => None,
    }
}

/// The external identity that verified claims give: their `id`; a token that
/// did not verify (`None`) or has no string `id` is a bad token.
pub fn external_id_from_claims(claims: Option<Vec<(String, String)>>) -> (r: Result<String, ChannelError>)
    ensures
        match claims_id(
            match claims {
                Some(v) => Some(pair_views(v@)),
                None => None,
            },
        ) {
            Some(id) => r is Ok && r->Ok_0@ == id,
            None => r == Err::<String, ChannelError>(ChannelError::BadToken),
        },
{
    match claims {
        Some(entries) => match find_entry(&entries, "id") {
            Some(v) => match string_item(v.as_str()) {
                Some(id) => Ok(id),
                None => Err(ChannelError::BadToken),
            },
            None => Err(ChannelError::BadToken),
        },
        None => Err(ChannelError::BadToken),
    }
}

/// Verifies `token` against `secret` and returns the external identity it
/// carries; any failure is a bad token.
pub fn verify_token(token: &str, secret: &str) -> (r: Result<String, ChannelError>)
    ensures
        r is Err ==> r->Err_0 == ChannelError::BadToken,
        r is Ok ==> claims_id(Some(jwt_claims(token@))) == Some(r->Ok_0@),
{
    let claims = decode_claims(token, secret);
    external_id_from_claims(claims)
}

} // verus!
