//! The extension-to-MIME table used for static asset responses.

use vstd::prelude::*;

verus! {

use crate::text::str_eq;

/// MIME type served for `.html` files and directory indexes.
pub const HTML_UTF_8: &'static str = "text/html; charset=utf-8";

/// MIME type served for `.css` files.
pub const CSS_UTF_8: &'static str = "text/css; charset=utf-8";

/// MIME type served for every other extension.
pub const TEXT: &'static str = "text/plain";

/// The MIME type for a file extension: `html` and `css` map to their UTF-8
/// text types, everything else to plain text.
pub open spec fn spec_mime(ext: Seq<char>) -> Seq<char> {
    if ext == "html"@ {
        "text/html; charset=utf-8"@
    } else if ext == "css"@ {
        "text/css; charset=utf-8"@
    } else {
        "text/plain"@
    }
}

/// The MIME type for the given file extension.
pub fn read_mime(filename: &str) -> (r: &'static str)
    ensures
        r@ == spec_mime(filename@),
{
    if str_eq(filename, "html") {
        HTML_UTF_8
    } else if str_eq(filename, "css") {
        CSS_UTF_8
    } else {
        TEXT
    }
}

} // verus!
