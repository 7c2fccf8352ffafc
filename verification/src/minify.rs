//! The post-processing hook every written page body goes through:
//! either real HTML minification or the identity.

use vstd::prelude::*;

verus! {

/// Minification failed; the page cannot be written.
#[derive(PartialEq, Eq, Structural, Clone, Copy, Debug)]
pub struct MinifyError;

/// What the minifier returns for a given text; a function of the text
/// alone.
pub uninterp spec fn minified_of(s: Seq<char>) -> Seq<char>;

/// The texts the minifier accepts; whether it succeeds is a function
/// of the text alone.
pub uninterp spec fn minify_accepts(s: Seq<char>) -> bool;

/// Relies on html_minifier::minify: digests the text through
/// HTMLMinifierHelper and returns the minified markup. Both the
/// outcome and the markup are functions of the input text alone;
/// it errors on markup it cannot digest.
#[verifier::external_body]
fn minify_call(file: &str) -> (r: Result<String, MinifyError>)
    ensures
        (r is Ok) == minify_accepts(file@),
        r matches Ok(m) ==> m@ == minified_of(file@),
{
    match html_minifier::minify(file) {
        Ok(s) => Ok(s),
        Err(_) => Err(MinifyError),
    }
}

/// Minifies one page body: succeeds exactly on the texts the minifier
/// accepts.
pub fn minify_html(file: String) -> (r: Result<String, MinifyError>)
    ensures
        (r is Ok) == minify_accepts(file@),
        r matches Ok(m) ==> m@ == minified_of(file@),
{
    minify_call(file.as_str())
}

/// The identity hook, used when minification is off.
pub fn pass_html(file: String) -> (r: Result<String, MinifyError>)
    ensures
        r matches Ok(m) && m@ == file@,
{
    Ok(file)
}

} // verus!
