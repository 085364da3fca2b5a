//! Compression formats of archives, recognised from their leading bytes.
use crate::text::same_text;
use vstd::prelude::*;
use vstd::string::*;

verus! {

/// The MIME type that the leading bytes `data` show, if they show one.
pub uninterp spec fn sniffed_mime(data: Seq<u8>) -> Option<Seq<char>>;

/// Relies on `infer::get`: the kind of file that the leading bytes show,
/// given by its MIME type.
#[verifier::external_body]
fn sniff_mime(data: &[u8]) -> (r: Option<String>)
    ensures
        match r {
            Some(m) => sniffed_mime(data@) == Some(m@),
            None => sniffed_mime(data@) is None,
        },
{
    match infer::get(data) {
        Some(t) => Some(t.mime_type().to_string()),
        None => None,
    }
}

/// A compression format of archives.
#[derive(Clone, Copy, Debug, PartialEq, Eq)]
pub enum ArchiveFormat {
    Gzip,
    Xz,
    Bzip2,
}

/// The failures of archive handling.
#[derive(Clone, Copy, Debug, PartialEq, Eq)]
pub enum ArchiveError {
    /// The data is in none of the supported compression formats.
    UnsupportedFormat,
}

/// The format of the MIME type `mime`, if it is one of the supported ones.
pub open spec fn format_of_mime(mime: Option<Seq<char>>) -> Option<ArchiveFormat> {
    match mime {
        Some(m) => if m == "application/gzip"@ {
            Some(ArchiveFormat::Gzip)
        } else if m == "application/x-xz"@ {
            Some(ArchiveFormat::Xz)
        } else if m == "application/x-bzip2"@ {
            Some(ArchiveFormat::Bzip2)
        } else {
            None
        },
        None => None,
    }
}

pub open spec fn opt_str_view(mime: Option<&str>) -> Option<Seq<char>> {
    match mime {
        Some(m) => Some(m@),
        None => None,
    }
}

/// Returns the compression format of the MIME type `mime`: gzip, xz or
/// bzip2. Fails with `UnsupportedFormat` for any other type or none.
pub fn format_for_mime(mime: Option<&str>) -> (r: Result<ArchiveFormat, ArchiveError>)
    ensures
        match format_of_mime(opt_str_view(mime)) {
            Some(f) => r == Ok::<ArchiveFormat, ArchiveError>(f),
            None => r == Err::<ArchiveFormat, ArchiveError>(ArchiveError::UnsupportedFormat),
        },
{
    match mime {
        None => Err(ArchiveError::UnsupportedFormat),
        Some(m) => {
            if same_text(m, "application/gzip") {
                Ok(ArchiveFormat::Gzip)
            } else if same_text(m, "application/x-xz") {
                Ok(ArchiveFormat::Xz)
            } else if same_text(m, "application/x-bzip2") {
                Ok(ArchiveFormat::Bzip2)
            } else {
                Err(ArchiveError::UnsupportedFormat)
            }
        },
    }
}

/// Returns the compression format of an archive whose leading bytes are
/// `header`. Fails with `UnsupportedFormat` when they show none of gzip, xz
/// and bzip2.
pub fn detect_format(header: &[u8]) -> (r: Result<ArchiveFormat, ArchiveError>)
    ensures
        match format_of_mime(sniffed_mime(header@)) {
            Some(f) => r == Ok::<ArchiveFormat, ArchiveError>(f),
            None => r == Err::<ArchiveFormat, ArchiveError>(ArchiveError::UnsupportedFormat),
        },
{
    let mime = sniff_mime(header);
    match mime {
        Some(m) => format_for_mime(Some(m.as_str())),
        None => format_for_mime(None),
    }
}

} // verus!
