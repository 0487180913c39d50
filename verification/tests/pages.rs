use propaganda::pages::{anchor, debug_index, debug_page};

#[test]
fn anchor_renders_href_twice() {
    assert_eq!(
        anchor("get_articles", ""),
        "<a href=get_articles>get_articles</a> <span></span>"
    );
    assert_eq!(anchor("x", "id"), "<a href=x>x</a> <span>id</span>");
}

#[test]
fn debug_index_lists_the_routes() {
    let expected = vec![
        "<a href=get_articles>get_articles</a> <span></span>",
        "<a href=get_snaphot_metadatas_from_article>get_snaphot_metadatas_from_article</a> <span>url</span>",
        "<a href=insert_article>insert_article</a> <span>url</span>",
        "<a href=get_snapshot>get_snapshot</a> <span>id</span>",
    ]
    .join("<br />");
    assert_eq!(debug_index(), expected);
}

#[test]
fn debug_page_wraps_message_in_heading() {
    let page = debug_page("404 Not Found");
    assert!(page.starts_with("<h4>404 Not Found</h4>"));
    assert!(page.ends_with(&debug_index()));
}
