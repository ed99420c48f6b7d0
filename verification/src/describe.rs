//! Node descriptions: a node's markdown `description` rendered to HTML for the documentation panel.

use vstd::prelude::*;

use crate::ast::NodeDecl;
use crate::graph::prop_str;
use crate::inspect::string_prop;

verus! {

/// The HTML that pulldown-cmark renders for a markdown text with every extension enabled.
pub uninterp spec fn markdown_html(text: Seq<char>) -> Seq<char>;

/// Renders markdown to HTML with pulldown-cmark: `pulldown_cmark::html::push_html` fed by
/// `pulldown_cmark::Parser::new_ext(text, Options::all())`, writing into a fresh string. The contract claims only that
/// the result is the HTML pulldown-cmark renders for `text` (the same text always renders the same way); what that HTML
/// is, is left to pulldown-cmark.
#[verifier::external_body]
fn render_markdown(text: &str) -> (r: String)
    ensures
        r@ == markdown_html(text@),
{
    let parser = pulldown_cmark::Parser::new_ext(text, pulldown_cmark::Options::all());
    let mut html = String::new();
    pulldown_cmark::html::push_html(&mut html, parser);
    html
}

/// The HTML of a node's description, if it has a `description` string property.
pub open spec fn description_of(decl: NodeDecl) -> Option<Seq<char>> {
    match prop_str(decl, "description"@) {
        Some(markdown) => Some(markdown_html(markdown)),
        None => None,
    }
}

/// Renders a node's markdown `description` (if any) to HTML.
pub fn description_html(decl: &NodeDecl) -> (r: Option<String>)
    ensures
        (match r {
            Some(html) => Some(html@),
            None => None,
        }) == description_of(*decl),
{
    match string_prop(decl, "description") {
        Some(markdown) => Some(render_markdown(markdown.as_str())),
        None => None,
    }
}

} // verus!
