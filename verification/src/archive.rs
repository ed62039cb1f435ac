//! Result archives and payload extraction.
//!
//! Upstream attaches each result payload to a CI run as a zip archive. The
//! extractor follows the first-entry convention: the payload is the fully
//! decompressed contents of the first entry in the container's internal
//! ordering. (The artifact *name* filter, by contrast, is extension-based;
//! see `fetch`.)

use vstd::prelude::*;

use crate::error::Error;

verus! {

/// The raw bytes of one downloaded archive.
#[derive(Debug)]
pub struct Archive(pub Vec<u8>);

impl View for Archive {
    type V = Seq<u8>;

    open spec fn view(&self) -> Seq<u8> {
        self.0@
    }
}

/// The decompressed first entry of an archive, or `None` when the bytes are
/// not a readable archive. Extraction is a pure function of the bytes; this
/// name stands for its result.
pub uninterp spec fn zip_payload(archive: Seq<u8>) -> Option<Seq<u8>>;

/// Extract the payload entry of a result archive.
///
/// Relies on `zip::ZipArchive`: opening a byte buffer and fully reading its
/// first entry yields a result determined by the buffer alone; every failure
/// (unreadable container, missing entry, corrupt stream) surfaces as an
/// error.
#[verifier::external_body]
pub fn extract_json(artifact: &Archive) -> (r: Result<Vec<u8>, Error>)
    ensures
        match r {
            Ok(payload) => zip_payload(artifact@) == Some(payload@),
            Err(e) => zip_payload(artifact@) is None && e == Error::Archive,
        },
{
    let reader = std::io::Cursor::new(artifact.0.as_slice());
    let mut zip = zip::ZipArchive::new(reader).map_err(|_| Error::Archive)?;
    let mut file = zip.by_index(0).map_err(|_| Error::Archive)?;
    let mut bytes = vec![];
    std::io::copy(&mut file, &mut bytes).map_err(|_| Error::Archive)?;
    Ok(bytes)
}

} // verus!
