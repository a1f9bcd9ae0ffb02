//! The failures the photo booth can report.

use vstd::prelude::*;

verus! {

/// Everything that can go wrong while handling an upload or a listing.
#[derive(Clone, Copy, Debug, PartialEq, Eq, Structural)]
pub enum BoothError {
    /// A stored filename does not have the `<label>@<timestamp>.<extension>` shape.
    MalformedName,
    /// The geolocation lookup failed or returned an unusable body.
    GeolocationUnavailable,
    /// The uploaded file's name carries no extension.
    MissingExtension,
    /// Reading or writing the storage directory failed.
    StorageIOFailure,
}

} // verus!
