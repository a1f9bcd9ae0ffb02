//! The geolocation resolver: a client address becomes a short location label.
//! The loopback address gets a fixed local label without any lookup; any other
//! address is resolved from the body of an IP-geolocation HTTP response, which
//! the caller fetches and hands in as plain text.

use vstd::prelude::*;
use vstd::string::StringExecFns;

use crate::errors::BoothError;
use crate::strutil::replace_char;
use crate::strutil::spaces_to_underscores;
use crate::strutil::str_eq;

verus! {

/// The loopback address literal that short-circuits the lookup.
pub open spec fn loopback() -> Seq<char> {
    "127.0.0.1"@
}

/// The fixed label given to loopback uploads.
pub open spec fn local_label() -> Seq<char> {
    "localhost_(LOCAL)"@
}

/// The label composed from a city and a country code: the city with spaces as
/// underscores, then the code in parentheses.
pub open spec fn geo_label(city: Seq<char>, cc: Seq<char>) -> Seq<char> {
    replace_char(city, ' ', '_') + "_("@ + cc + ")"@
}

/// The string value at a top-level key of a JSON document, if the document
/// parses and the key holds a string.
pub uninterp spec fn json_string_field(doc: Seq<char>, key: Seq<char>) -> Option<Seq<char>>;

/// Relies on serde_json::from_str::<Value>, serde_json::Value::get and
/// serde_json::Value::as_str: parsing is deterministic, so the string value at
/// a top-level key is a function of the document text and the key alone.
#[verifier::external_body]
fn json_str_field(doc: &str, key: &str) -> (r: Option<String>)
    ensures
        match r {
            Some(s) => json_string_field(doc@, key@) == Some(s@),
            None => json_string_field(doc@, key@) is None,
        },
{
    match serde_json::from_str::<serde_json::Value>(doc) {
        Ok(v) => match v.get(key) {
            Some(f) => f.as_str().map(|s| s.to_string()),
            None => None,
        },
        Err(_) => None,
    }
}

/// What resolving an address comes to, given the lookup body the caller got
/// (`None` when the network call itself failed or was not made).
pub open spec fn resolution(addr: Seq<char>, body: Option<Seq<char>>) -> Option<Seq<char>> {
    if addr == loopback() {
        Some(local_label())
    } else {
        match body {
            Some(b) => match (json_string_field(b, "city"@), json_string_field(
                b,
                "countryCode"@,
            )) {
                (Some(city), Some(cc)) => Some(geo_label(city, cc)),
                _ => None,
            },
            None => None,
        }
    }
}

/// The view of an optional borrowed string.
pub open spec fn opt_view(s: Option<&str>) -> Option<Seq<char>> {
    match s {
        Some(b) => Some(b@),
        None => None,
    }
}

/// The address is loopback.
pub fn is_loopback(addr: &str) -> (r: bool)
    ensures
        r == (addr@ == loopback()),
{
    str_eq(addr, "127.0.0.1")
}

/// An address needs a network lookup exactly when it is not loopback.
pub fn needs_lookup(addr: &str) -> (r: bool)
    ensures
        r == (addr@ != loopback()),
{
    !is_loopback(addr)
}

/// The fixed local label, as an owned string.
pub fn make_local_label() -> (r: String)
    ensures
        r@ == local_label(),
{
    "localhost_(LOCAL)".to_owned()
}

/// The lookup URL for an address: the geolocation service with the address as
/// the final path segment.
pub fn geo_url(ip: &str) -> (r: String)
    ensures
        r@ == "http://ip-api.com/json/"@ + ip@,
{
    let mut r = "http://ip-api.com/json/".to_owned();
    r.append(ip);
    r
}

/// Compose the location label from a lookup response body: succeeds exactly
/// when the body is JSON with string fields `city` and `countryCode`.
pub fn resolve_from_body(body: &str) -> (r: Result<String, BoothError>)
    ensures
        match r {
            Ok(l) => {
                &&& json_string_field(body@, "city"@) matches Some(city)
                &&& json_string_field(body@, "countryCode"@) matches Some(cc)
                &&& l@ == geo_label(city, cc)
            },
            Err(e) => {
                &&& e == BoothError::GeolocationUnavailable
                &&& (json_string_field(body@, "city"@) is None || json_string_field(
                    body@,
                    "countryCode"@,
                ) is None)
            },
        },
{
    let city = match json_str_field(body, "city") {
        Some(c) => c,
        None => {
            return Err(BoothError::GeolocationUnavailable);
        },
    };
    let cc = match json_str_field(body, "countryCode") {
        Some(c) => c,
        None => {
            return Err(BoothError::GeolocationUnavailable);
        },
    };
    let mut r = spaces_to_underscores(city.as_str());
    r.append("_(");
    r.append(cc.as_str());
    r.append(")");
    proof {
        assert(r@ =~= geo_label(city@, cc@));
    }
    Ok(r)
}

/// Resolve a client address to a label. The loopback address always gets the
/// fixed local label, whatever `lookup` holds; any other address is resolved
/// from the lookup body, and fails with `GeolocationUnavailable` exactly when
/// no usable body is at hand.
pub fn resolve(addr: &str, lookup: Option<&str>) -> (r: Result<String, BoothError>)
    ensures
        match r {
            Ok(l) => resolution(addr@, opt_view(lookup)) == Some(l@),
            Err(e) => {
                &&& e == BoothError::GeolocationUnavailable
                &&& resolution(addr@, opt_view(lookup)) is None
            },
        },
        addr@ == loopback() ==> (r matches Ok(l) && l@ == local_label()),
{
    if is_loopback(addr) {
        return Ok(make_local_label());
    }
    match lookup {
        Some(b) => resolve_from_body(b),
        None => Err(BoothError::GeolocationUnavailable),
    }
}

} // verus!
