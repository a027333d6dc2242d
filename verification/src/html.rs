//! HTML seen through the `soup` crate: a parsed document carried
//! opaquely, its visible text, and the `href` targets of its anchors.
//! The contracts speak of the HTML text a document was parsed from;
//! the parse result travels together with that text.
use soup::NodeExt;
use soup::QueryBuilderExt;
use vstd::prelude::*;

verus! {

#[verifier::external_type_specification]
#[verifier::external_body]
pub struct ExSoup(soup::Soup);

/// A parsed HTML document, remembering the text it was parsed from.
/// The fields travel only together: a document is built by
/// `parse_html` alone, so the contracts over the kept text cannot be
/// detached from the parse result.
pub struct HtmlDom {
    pub(crate) soup: soup::Soup,
    pub(crate) html: String,
}

impl HtmlDom {
    /// The HTML text the document was parsed from.
    pub closed spec fn spec_html(self) -> Seq<char> {
        self.html@
    }
}

/// The visible text of an HTML document: its text nodes concatenated
/// in document order, as a function of the HTML alone.
pub uninterp spec fn html_text(html: Seq<char>) -> Seq<char>;

/// The `href` attributes of the anchor elements of an HTML document,
/// in document order, as a function of the HTML alone.
pub uninterp spec fn html_links(html: Seq<char>) -> Seq<Seq<char>>;

/// Relies on `soup::Soup::new` to parse the document.
#[verifier::external_body]
pub(crate) fn parse_html(html: &str) -> (r: HtmlDom)
    ensures
        r.spec_html() == html@,
{
    HtmlDom { soup: soup::Soup::new(html), html: html.to_owned() }
}

/// Relies on `soup::Soup::text` for text extraction.
#[verifier::external_body]
pub(crate) fn dom_text(dom: &HtmlDom) -> (r: String)
    ensures
        r@ == html_text(dom.spec_html()),
{
    dom.soup.text()
}

/// Relies on soup's anchor query (`tag("a")`, `find_all`, `get`) for
/// the `href` attribute of every anchor.
#[verifier::external_body]
pub(crate) fn dom_links(dom: &HtmlDom) -> (r: Vec<String>)
    ensures
        r.deep_view() == html_links(dom.spec_html()),
{
    dom.soup.tag("a").find_all().filter_map(|node| node.get("href")).collect()
}

} // verus!
