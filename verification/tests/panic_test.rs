use propaganda::store::Store;

#[should_panic(expected = "Bye")]
#[test]
fn panic_test() {
    let db = Store::new();
    assert!(db.get_article("nowhere").is_none());
    panic!("Bye");
}
