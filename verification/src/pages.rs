//! The debug index page: the plain-text HTML the server shows when a
//! response has no body of its own.

use vstd::prelude::*;

verus! {

use vstd::string::StringExecFns;

/// The text of one link line: the href twice (once as target, once as label)
/// and a description beside it.
pub open spec fn anchor_text(href: Seq<char>, desc: Seq<char>) -> Seq<char> {
    "<a href="@ + href + ">"@ + href + "</a> <span>"@ + desc + "</span>"@
}

/// Renders one link line of the debug index.
pub fn anchor(href: &str, desc: &str) -> (r: String)
    ensures
        r@ == anchor_text(href@, desc@),
{
    let mut r = String::new();
    r.append("<a href=");
    r.append(href);
    r.append(">");
    r.append(href);
    r.append("</a> <span>");
    r.append(desc);
    r.append("</span>");
    proof {
        assert(r@ =~= anchor_text(href@, desc@));
    }
    r
}

/// The text of the debug index: one link per route, separated by line
/// breaks.
pub open spec fn debug_index_text() -> Seq<char> {
    anchor_text("get_articles"@, ""@) + "<br />"@ + anchor_text(
        "get_snaphot_metadatas_from_article"@,
        "url"@,
    ) + "<br />"@ + anchor_text("insert_article"@, "url"@) + "<br />"@ + anchor_text(
        "get_snapshot"@,
        "id"@,
    )
}

/// The debug index: a link for each route of the query surface, with the
/// query parameter each one expects.
pub fn debug_index() -> (r: String)
    ensures
        r@ == debug_index_text(),
{
    let mut r = anchor("get_articles", "");
    r.append("<br />");
    let a2 = anchor("get_snaphot_metadatas_from_article", "url");
    r.append(a2.as_str());
    r.append("<br />");
    let a3 = anchor("insert_article", "url");
    r.append(a3.as_str());
    r.append("<br />");
    let a4 = anchor("get_snapshot", "id");
    r.append(a4.as_str());
    proof {
        assert(r@ =~= debug_index_text());
    }
    r
}

/// The text of a whole debug page: the given message as a heading, the index
/// below it.
pub open spec fn debug_page_text(message: Seq<char>) -> Seq<char> {
    "<h4>"@ + message + "</h4>"@ + debug_index_text()
}

/// Renders the page an empty response is replaced with: the error or status
/// message as a heading, then the debug index.
pub fn debug_page(message: &str) -> (r: String)
    ensures
        r@ == debug_page_text(message@),
{
    let mut r = String::new();
    r.append("<h4>");
    r.append(message);
    r.append("</h4>");
    let idx = debug_index();
    r.append(idx.as_str());
    proof {
        assert(r@ =~= debug_page_text(message@));
    }
    r
}

} // verus!
