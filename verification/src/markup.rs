//! Rendering of Markdown information texts to HTML, by the `markdown` crate.

use vstd::prelude::*;

verus! {

/// The HTML that `markdown::to_html` renders from a Markdown text (CommonMark
/// with the crate's default options).
pub uninterp spec fn markdown_html(source: Seq<char>) -> Seq<char>;

/// Calls `markdown::to_html`. Claimed of it: the result is the rendering named
/// [`markdown_html`] of the argument, and the call returns (with default
/// options the crate's `to_html_with_options` never errors, so its `unwrap`
/// does not panic). What that rendering is, is left unsaid.
#[verifier::external_body]
pub(crate) fn markdown_to_html(source: &str) -> (r: String)
    ensures
        r@ == markdown_html(source@),
{
    markdown::to_html(source)
}

} // verus!
