use propaganda::store::Store;

#[test]
fn insert_update_and_get_outdated_articles() {
    let mut db = Store::new();

    db.insert_article("article1");
    db.insert_article("article2");
    db.insert_article("article3");
    db.update_article("article1", 42);

    let outdated = db.get_outdated_articles(2);

    let outdated = outdated.into_iter().map(|a| a.url).collect::<Vec<_>>();
    assert_eq!(outdated, vec!["article2", "article3"]);
}

#[test]
fn insert_snapshots_and_get_snapshots() {
    let mut db = Store::new();

    let article1 = db.insert_article("article1");
    let article2 = db.insert_article("article2");

    let archived_at = 5;
    let html1 = "Will it work? Questions asked in a test.";
    db.insert_snapshot(&article1, archived_at, html1);

    let archived_at = 12;
    let html2 = "Will it work? Exclusive interview in a test.";
    db.insert_snapshot(&article1, archived_at, html2);

    let archived_at = 7;
    let html3 = "Think about a cat.";
    db.insert_snapshot(&article2, archived_at, html3);

    let snapshots = db.get_snaphot_metadatas_from_article(&article1);
    assert_eq!(snapshots.len(), 2);
    let snapshot1 = db.get_snaphot(snapshots[0].snapshot_id).unwrap();
    let snapshot2 = db.get_snaphot(snapshots[1].snapshot_id).unwrap();
    assert_eq!(snapshot1.html, html1);
    assert_eq!(snapshot2.html, html2);
}

#[test]
fn insert_article_is_idempotent() {
    let mut db = Store::new();
    let first = db.insert_article("article1");
    let again = db.insert_article("article1");
    assert_eq!(first.article_id, again.article_id);
    assert_eq!(db.get_articles(0, 100).len(), 1);
}

#[test]
fn get_article_finds_by_url() {
    let mut db = Store::new();
    db.insert_article("article1");
    db.insert_article("article2");
    let a = db.get_article("article2").unwrap();
    assert_eq!(a.article_id, 2);
    assert!(db.get_article("article3").is_none());
}

#[test]
fn get_articles_window() {
    let mut db = Store::new();
    db.insert_article("a");
    db.insert_article("b");
    db.insert_article("c");
    db.insert_article("d");
    // all stamps equal: order falls back to ascending article id
    let window = db.get_articles(1, 2);
    let urls = window.into_iter().map(|a| a.url).collect::<Vec<_>>();
    assert_eq!(urls, vec!["b", "c"]);
    // negative limit means no limit
    assert_eq!(db.get_articles(0, -1).len(), 4);
    assert_eq!(db.get_outdated_articles(-1).len(), 4);
}

#[test]
fn get_youngest_snaphot_prefers_latest() {
    let mut db = Store::new();
    let a = db.insert_article("article1");
    db.insert_snapshot(&a, 9, "first");
    db.insert_snapshot(&a, 12, "second");
    db.insert_snapshot(&a, 12, "third");
    db.insert_snapshot(&a, 3, "fourth");
    let young = db.get_youngest_snaphot(&a).unwrap();
    // greatest archived_at wins; among equals, the latest appended
    assert_eq!(young.archived_at, 12);
    assert_eq!(young.html, "third");
    let b = db.insert_article("article2");
    assert!(db.get_youngest_snaphot(&b).is_none());
}

#[test]
fn get_snaphot_unknown_id_is_none() {
    let mut db = Store::new();
    let a = db.insert_article("article1");
    db.insert_snapshot(&a, 1, "x");
    assert!(db.get_snaphot(0).is_none());
    assert!(db.get_snaphot(2).is_none());
    assert!(db.get_snaphot(1).is_some());
}
