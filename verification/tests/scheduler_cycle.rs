use propaganda::scheduler::{select_and_stamp, record_fetched, dump_article_urls};
use propaganda::store::Store;
use propaganda::canonical::canonicalize;

#[test]
fn empty_store_cycle_is_noop() {
    let mut db = Store::new();
    assert!(select_and_stamp(&mut db, 100).is_none());
    assert_eq!(db.get_articles(0, -1).len(), 0);
}

#[test]
fn first_fetch_always_records_a_snapshot() {
    let mut db = Store::new();
    db.insert_article("a.example/1");
    let picked = select_and_stamp(&mut db, 100).unwrap();
    assert_eq!(picked.url, "a.example/1");
    let appended = record_fetched(&mut db, &picked, 100, "");
    assert!(appended);
    assert_eq!(db.get_snaphot_metadatas_from_article(&picked).len(), 1);
}

#[test]
fn unchanged_content_appends_nothing_but_stamps() {
    let mut db = Store::new();
    db.insert_article("a.example/1");
    let body = "<div class=\"storywrapper\"> T </div>";

    let picked = select_and_stamp(&mut db, 100).unwrap();
    assert!(record_fetched(&mut db, &picked, 100, body));

    let picked = select_and_stamp(&mut db, 200).unwrap();
    let body_again = "<html><div class=\"storywrapper\">T</div></html>";
    let appended = record_fetched(&mut db, &picked, 200, body_again);
    assert!(!appended);
    assert_eq!(db.get_snaphot_metadatas_from_article(&picked).len(), 1);
    let a = db.get_article("a.example/1").unwrap();
    assert_eq!(a.updated_at, 200);
}

#[test]
fn failed_fetch_still_advances_the_stamp() {
    let mut db = Store::new();
    db.insert_article("a.example/1");
    let picked = select_and_stamp(&mut db, 300).unwrap();
    // the fetch fails here: the cycle is abandoned without recording
    let a = db.get_article("a.example/1").unwrap();
    assert_eq!(a.updated_at, 300);
    assert_eq!(db.get_snaphot_metadatas_from_article(&picked).len(), 0);
}

#[test]
fn staleness_round_robin_selects_each_article_once() {
    let mut db = Store::new();
    db.insert_article("u1");
    db.insert_article("u2");
    db.insert_article("u3");
    db.update_article("u1", 3);
    db.update_article("u2", 1);
    db.update_article("u3", 2);

    let mut selected = Vec::new();
    let mut now = 10;
    for _ in 0..3 {
        let picked = select_and_stamp(&mut db, now).unwrap();
        selected.push(picked.url);
        now += 1;
    }
    assert_eq!(selected, vec!["u2", "u3", "u1"]);
}

#[test]
fn concrete_two_article_scenario() {
    let mut db = Store::new();
    db.insert_article("a.example/1");
    db.insert_article("a.example/2");
    let body = "<body><div class=\"storywrapper\">Hello world</div></body>";

    // first cycle: both newly registered, tie broken towards the lower id
    let picked = select_and_stamp(&mut db, 1000).unwrap();
    assert_eq!(picked.url, "a.example/1");
    assert!(record_fetched(&mut db, &picked, 1000, body));
    let metas = db.get_snaphot_metadatas_from_article(&picked);
    assert_eq!(metas.len(), 1);
    let snap = db.get_snaphot(metas[0].snapshot_id).unwrap();
    assert_eq!(canonicalize(&snap.html), "Hello world");

    // second cycle selects the other article
    let picked2 = select_and_stamp(&mut db, 1001).unwrap();
    assert_eq!(picked2.url, "a.example/2");
    assert!(record_fetched(&mut db, &picked2, 1001, "second body"));

    // third cycle comes back to the first article; the identical body
    // appends nothing, but the attempt stamp advances
    let picked3 = select_and_stamp(&mut db, 1002).unwrap();
    assert_eq!(picked3.url, "a.example/1");
    let appended = record_fetched(&mut db, &picked3, 1002, body);
    assert!(!appended);
    assert_eq!(db.get_snaphot_metadatas_from_article(&picked3).len(), 1);
    let a = db.get_article("a.example/1").unwrap();
    assert_eq!(a.updated_at, 1002);
}

#[test]
fn erroring_article_keeps_its_turn_without_starving_others() {
    let mut db = Store::new();
    db.insert_article("works");
    db.insert_article("errors");
    db.update_article("works", 1);
    db.update_article("errors", 2);

    // "errors" fails its fetch every time; it is still re-attempted at the
    // same cadence as the other article
    let mut order = Vec::new();
    let mut now = 10;
    for _ in 0..4 {
        let picked = select_and_stamp(&mut db, now).unwrap();
        if picked.url == "works" {
            record_fetched(&mut db, &picked, now, "body");
        }
        order.push(picked.url);
        now += 1;
    }
    assert_eq!(order, vec!["works", "errors", "works", "errors"]);
}

#[test]
fn dump_article_urls_joins_with_newlines() {
    let mut db = Store::new();
    db.insert_article("one");
    db.insert_article("two");
    let urls = dump_article_urls(&db.get_articles(0, 100));
    assert_eq!(urls, "one\ntwo");
}
