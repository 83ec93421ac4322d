//! The bits of static serving that are rules: the init script injected
//! into the app and the cache policy of embedded files.

use vstd::prelude::*;
use vstd::string::StringSliceAdditionalSpecFns;

use crate::text::starts_with;

verus! {

/// Start of the init script, up to the PCRE2 version.
pub open spec fn init_head() -> Seq<char> {
    "\n\t\t/** Private deployment (regexr-rust) **/\n\t\t// first param false indicates a local init (no shared pattern).\n\t\tregexr.init(false, {\n\t\t\tuserId: 0,\n\t\t\tauthenticated: false,\n\t\t\tusername: null,\n\t\t\tauthor: null,\n\t\t\ttype: null\n\t\t}, {\n\t\t\t\"PCREVersion\": \""@
}

/// Rest of the init script, after the PCRE2 version.
pub open spec fn init_tail() -> Seq<char> {
    "\",\n\t\t\t\"PHPVersion\": \"private-rust-deploy\"\n\t\t});\n\t"@
}

/// The init script (`/server/init.js`): a logged-out private-deployment
/// init of the app carrying the PCRE2 version.
pub fn injected_init(pcre2_version: &str) -> (r: String)
    ensures
        r@ == init_head() + pcre2_version@ + init_tail(),
{
    let mut s = String::new();
    s.push_str(
        "\n\t\t/** Private deployment (regexr-rust) **/\n\t\t// first param false indicates a local init (no shared pattern).\n\t\tregexr.init(false, {\n\t\t\tuserId: 0,\n\t\t\tauthenticated: false,\n\t\t\tusername: null,\n\t\t\tauthor: null,\n\t\t\ttype: null\n\t\t}, {\n\t\t\t\"PCREVersion\": \"",
    );
    s.push_str(pcre2_version);
    s.push_str("\",\n\t\t\t\"PHPVersion\": \"private-rust-deploy\"\n\t\t});\n\t");
    assert(s@ =~= init_head() + pcre2_version@ + init_tail());
    s
}

pub open spec fn long_cache() -> Seq<char> {
    "public, max-age=86400"@
}

pub open spec fn no_cache() -> Seq<char> {
    "no-cache"@
}

/// Whether an embedded file's key lies under `assets/` (versioned files).
pub open spec fn is_versioned_key(key: &str) -> bool {
    let p = "assets/".spec_bytes();
    key.spec_bytes().len() >= p.len() && key.spec_bytes().take(p.len() as int) == p
}

/// `Cache-Control` value of the embedded file `key`.
pub open spec fn cache_control_spec(key: &str) -> Seq<char> {
    if is_versioned_key(key) {
        long_cache()
    } else {
        no_cache()
    }
}

/// `Cache-Control` of an embedded file: versioned files under `assets/`
/// are cached for a day, everything else is revalidated.
pub fn cache_control(key: &str) -> (r: &'static str)
    ensures
        r@ == cache_control_spec(key),
{
    if starts_with(key, "assets/") {
        "public, max-age=86400"
    } else {
        "no-cache"
    }
}

/// The MIME type `mime_guess` gives a path: the first type it knows for the
/// path's extension, `application/octet-stream` when it knows none. The
/// crate reads it from a static table, so it depends on the path alone.
pub uninterp spec fn guessed_mime(path: Seq<char>) -> Seq<char>;

/// `mime_guess::from_path(path).first_or_octet_stream()`, as text. What the
/// table holds is not written out here; the result is only named.
#[verifier::external_body]
fn guess_mime(path: &str) -> (r: String)
    ensures
        r@ == guessed_mime(path@),
{
    let mime = mime_guess::from_path(path).first_or_octet_stream();
    let text: &str = mime.as_ref();
    text.to_owned()
}

/// Response headers of an embedded file.
pub struct AssetHeaders {
    pub content_type: String,
    pub cache_control: &'static str,
}

/// Content type (guessed from the key's extension) and cache policy of the
/// embedded file `key`.
pub fn asset_headers(key: &str) -> (h: AssetHeaders)
    ensures
        h.content_type@ == guessed_mime(key@),
        h.cache_control@ == cache_control_spec(key),
{
    AssetHeaders { content_type: guess_mime(key), cache_control: cache_control(key) }
}

} // verus!
