//! Selection of scan candidates by file extension.
//!
//! A scan walks a folder tree and keeps the files whose extension, compared
//! without regard to ASCII case, is one of the supported image formats.

use vstd::prelude::*;
use vstd::string::StrSliceExecFns;

verus! {

/// The code point a character counts as when ASCII letters are compared
/// without regard to case: upper-case ASCII folded onto lower-case.
pub open spec fn fold_ascii(c: char) -> int {
    if 65 <= c as u32 && c as u32 <= 90 {
        c as u32 + 32
    } else {
        c as u32 as int
    }
}

/// Equality of two character sequences up to ASCII case.
pub open spec fn eq_ascii_ci(a: Seq<char>, b: Seq<char>) -> bool {
    a.len() == b.len() && forall|i: int| 0 <= i < a.len() ==> fold_ascii(a[i]) == fold_ascii(b[i])
}

/// Whether an extension names a supported image format, up to ASCII case.
pub open spec fn supported_extension(ext: Seq<char>) -> bool {
    ||| eq_ascii_ci(ext, "jpg"@)
    ||| eq_ascii_ci(ext, "jpeg"@)
    ||| eq_ascii_ci(ext, "png"@)
    ||| eq_ascii_ci(ext, "gif"@)
    ||| eq_ascii_ci(ext, "bmp"@)
    ||| eq_ascii_ci(ext, "webp"@)
    ||| eq_ascii_ci(ext, "tiff"@)
    ||| eq_ascii_ci(ext, "tif"@)
    ||| eq_ascii_ci(ext, "ico"@)
    ||| eq_ascii_ci(ext, "heic"@)
    ||| eq_ascii_ci(ext, "heif"@)
}

/// Compares two strings for equality up to ASCII case.
fn str_eq_ignore_ascii_case(a: &str, b: &str) -> (r: bool)
    ensures
        r == eq_ascii_ci(a@, b@),
{
    let an: usize = a.unicode_len();
    let bn: usize = b.unicode_len();
    if an != bn {
        return false;
    }
    let mut i: usize = 0;
    while i < an
        invariant
            0 <= i <= an,
            an == a@.len(),
            an == b@.len(),
            forall|j: int| 0 <= j < i ==> fold_ascii(a@[j]) == fold_ascii(b@[j]),
        decreases an - i,
    {
        let ca: u32 = a.get_char(i) as u32;
        let cb: u32 = b.get_char(i) as u32;
        let fa: u32 = if 65 <= ca && ca <= 90 {
            ca + 32
        } else {
            ca
        };
        let fb: u32 = if 65 <= cb && cb <= 90 {
            cb + 32
        } else {
            cb
        };
        if fa != fb {
            return false;
        }
        i = i + 1;
    }
    true
}

/// Decides whether a file extension names a supported image format,
/// without regard to ASCII case.
pub fn is_supported_extension(ext: &str) -> (r: bool)
    ensures
        r == supported_extension(ext@),
{
    str_eq_ignore_ascii_case(ext, "jpg") || str_eq_ignore_ascii_case(ext, "jpeg")
        || str_eq_ignore_ascii_case(ext, "png") || str_eq_ignore_ascii_case(ext, "gif")
        || str_eq_ignore_ascii_case(ext, "bmp") || str_eq_ignore_ascii_case(ext, "webp")
        || str_eq_ignore_ascii_case(ext, "tiff") || str_eq_ignore_ascii_case(ext, "tif")
        || str_eq_ignore_ascii_case(ext, "ico") || str_eq_ignore_ascii_case(ext, "heic")
        || str_eq_ignore_ascii_case(ext, "heif")
}

/// An image found during a folder scan.
#[derive(Debug)]
pub struct ImageInfo {
    pub path: String,
    pub filename: String,
    pub extension: String,
    pub size_bytes: u64,
}

} // verus!
