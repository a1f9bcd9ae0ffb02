//! The upload handler: extension extraction, the undersized-payload filter,
//! and the orchestration that turns one upload into one stored file. Storage
//! is modelled as the sequence of files the booth holds; the surrounding
//! program mirrors it onto a directory.

use vstd::prelude::*;
use vstd::string::StrSliceExecFns;

use crate::codec::encode;
use crate::codec::encoded;
use crate::errors::BoothError;
use crate::geo::opt_view;
use crate::geo::resolution;
use crate::geo::resolve;
use crate::strutil::contains_char;
use crate::strutil::find_last;
use crate::strutil::last_at;

verus! {

/// Payloads shorter than this many bytes are silently discarded.
pub const MIN_UPLOAD_BYTES: usize = 1000;

/// The client filename carries an extension: a `.` with something after it.
pub open spec fn has_extension(s: Seq<char>) -> bool {
    contains_char(s, '.') && last_at(s, '.') + 1 < s.len()
}

/// The extension: everything after the last `.`.
pub open spec fn extension_spec(s: Seq<char>) -> Seq<char>
    recommends
        has_extension(s),
{
    s.skip(last_at(s, '.') + 1)
}

/// The final dot-delimited segment of the client-supplied filename. Fails with
/// `MissingExtension` exactly when there is no `.` or nothing follows the last one.
pub fn extension_of(client_filename: &str) -> (r: Result<String, BoothError>)
    ensures
        match r {
            Ok(e) => has_extension(client_filename@) && e@ == extension_spec(client_filename@),
            Err(err) => err == BoothError::MissingExtension && !has_extension(client_filename@),
        },
{
    let n = client_filename.unicode_len();
    match find_last(client_filename, '.') {
        Some(j) => {
            if j + 1 < n {
                Ok(client_filename.substring_char(j + 1, n).to_owned())
            } else {
                Err(BoothError::MissingExtension)
            }
        },
        None => Err(BoothError::MissingExtension),
    }
}

/// A payload is large enough to be kept.
pub fn accepts_payload(len: usize) -> (r: bool)
    ensures
        r == (len >= MIN_UPLOAD_BYTES),
{
    len >= MIN_UPLOAD_BYTES
}

/// One stored file: its encoded name and its bytes.
pub struct StoredFile {
    pub name: String,
    pub bytes: Vec<u8>,
}

/// The mathematical content of a stored file.
pub ghost struct FileView {
    pub name: Seq<char>,
    pub bytes: Seq<u8>,
}

impl View for StoredFile {
    type V = FileView;

    open spec fn view(&self) -> FileView {
        FileView { name: self.name@, bytes: self.bytes@ }
    }
}

/// The booth's storage, modelled as the sequence of files it holds.
pub struct Booth {
    pub files: Vec<StoredFile>,
}

impl Booth {
    /// The contents of storage.
    pub open spec fn view_files(&self) -> Seq<FileView> {
        self.files@.map_values(|f: StoredFile| f@)
    }

    /// The stored names, in storage order.
    pub open spec fn names(&self) -> Seq<Seq<char>> {
        self.files@.map_values(|f: StoredFile| f.name@)
    }

    /// An empty booth: the storage starts with no files.
    pub fn new() -> (r: Booth)
        ensures
            r.view_files() =~= Seq::<FileView>::empty(),
    {
        Booth { files: Vec::new() }
    }

    /// Handle one upload: reject a filename without an extension, silently
    /// discard a payload under `MIN_UPLOAD_BYTES`, otherwise resolve the
    /// address to a label (from `lookup` when it is not loopback) and store
    /// the payload under the encoded name. Returns whether a file was stored.
    pub fn handle_upload(
        &mut self,
        addr: &str,
        lookup: Option<&str>,
        client_filename: &str,
        payload: Vec<u8>,
        timestamp: i64,
    ) -> (r: Result<bool, BoothError>)
        requires
            0 <= timestamp,
        ensures
            !has_extension(client_filename@) ==> r == Err::<bool, BoothError>(
                BoothError::MissingExtension,
            ) && final(self).view_files() == old(self).view_files(),
            has_extension(client_filename@) && payload@.len() < MIN_UPLOAD_BYTES ==> r == Ok::<
                bool,
                BoothError,
            >(false) && final(self).view_files() == old(self).view_files(),
            has_extension(client_filename@) && payload@.len() >= MIN_UPLOAD_BYTES ==> match resolution(
                addr@,
                opt_view(lookup),
            ) {
                Some(label) => r == Ok::<bool, BoothError>(true) && final(self).view_files() =~= old(
                    self,
                ).view_files().push(
                    FileView {
                        name: encoded(label, timestamp as int, extension_spec(client_filename@)),
                        bytes: payload@,
                    },
                ),
                None => r == Err::<bool, BoothError>(BoothError::GeolocationUnavailable)
                    && final(self).view_files() == old(self).view_files(),
            },
    {
        let ext = match extension_of(client_filename) {
            Ok(e) => e,
            Err(e) => {
                return Err(e);
            },
        };
        if payload.len() < MIN_UPLOAD_BYTES {
            return Ok(false);
        }
        let label = match resolve(addr, lookup) {
            Ok(l) => l,
            Err(e) => {
                return Err(e);
            },
        };
        let name = encode(label.as_str(), timestamp, ext.as_str());
        self.files.push(StoredFile { name, bytes: payload });
        proof {
            assert(self.view_files() =~= old(self).view_files().push(self.files@.last()@));
        }
        Ok(true)
    }
}

} // verus!
