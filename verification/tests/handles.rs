use blocklist::handles::HandleTable;

const WITH_HANDLES: &str = "table bridge filter {\n\tchain forward { # handle 1\n\t\ttype filter hook forward priority 0; policy accept;\n\t\tip saddr 10.0.0.5 drop # handle 5\n\t\tip saddr 10.0.0.6 drop # handle 6\n\t\tip saddr 10.0.0.5 drop # handle 9\n\t}\n}\n";

#[test]
fn an_empty_table_lists_no_handle() {
    let table = HandleTable::new();
    assert_eq!(table.get("10.0.0.5"), None);
    let table = HandleTable::from_listing("");
    assert_eq!(table.get("10.0.0.5"), None);
}

#[test]
fn the_last_row_for_an_address_wins() {
    let table = HandleTable::from_listing(WITH_HANDLES);
    assert_eq!(table.get("10.0.0.5"), Some("9".to_string()));
    assert_eq!(table.get("10.0.0.6"), Some("6".to_string()));
    assert_eq!(table.get("10.0.0.7"), None);
    assert_eq!(table.get("forward"), None);
}

#[test]
fn the_plain_listing_holds_no_handles() {
    let table = HandleTable::from_listing("ip saddr 10.0.0.5 drop\nip saddr 10.0.0.6 drop\n");
    assert_eq!(table.get("10.0.0.5"), None);
    assert_eq!(table.get("10.0.0.6"), None);
}

#[test]
fn a_row_that_is_not_a_drop_rule_gives_no_handle() {
    let table = HandleTable::from_listing("ip daddr 10.0.0.9 accept # handle 3\n");
    assert_eq!(table.get("10.0.0.9"), None);
    let table = HandleTable::from_listing(
        "ip saddr 10.0.0.9 drop # handle 4\nip daddr 10.0.0.9 accept # handle 7\n",
    );
    assert_eq!(table.get("10.0.0.9"), Some("4".to_string()));
}

#[test]
fn a_failed_listing_gives_no_handle() {
    let printed = "ip saddr 10.0.0.5 drop # handle 5\n";
    assert_eq!(HandleTable::from_outcome(true, printed).get("10.0.0.5"), Some("5".to_string()));
    assert_eq!(HandleTable::from_outcome(false, printed).get("10.0.0.5"), None);
    assert_eq!(HandleTable::from_outcome(true, "").get("10.0.0.5"), None);
}
