use rustlinks::golink::Golink;
use rustlinks::rustlink::Rustlink;
use rustlinks::state::LinkTable;

#[test]
fn get_on_empty_table_is_absent() {
    let table = LinkTable::new();
    assert!(table.get("anything").is_none());
}

#[test]
fn get_unknown_alias_is_absent() {
    let mut table = LinkTable::new();
    table.upsert(Rustlink::new("rust".to_string(), "https://rust-lang.org".to_string()));
    assert!(table.get("go").is_none());
    assert!(table.get("rus").is_none());
    assert!(table.get("rustc").is_none());
}

#[test]
fn upsert_then_get_returns_the_record() {
    let mut table = LinkTable::new();
    table.upsert(Rustlink::new("rust".to_string(), "https://rust-lang.org".to_string()));
    let got = table.get("rust").unwrap();
    assert_eq!(got.alias, "rust");
    assert_eq!(got.url, "https://rust-lang.org");
}

#[test]
fn upsert_same_alias_replaces_url() {
    let mut table = LinkTable::new();
    table.upsert(Rustlink::new("rust".to_string(), "https://old.example".to_string()));
    table.upsert(Rustlink::new("rust".to_string(), "https://new.example".to_string()));
    assert_eq!(table.len(), 1);
    assert_eq!(table.get("rust").unwrap().url, "https://new.example");
}

#[test]
fn remove_makes_alias_absent() {
    let mut table = LinkTable::new();
    table.upsert(Rustlink::new("a".to_string(), "https://a.example".to_string()));
    table.upsert(Rustlink::new("b".to_string(), "https://b.example".to_string()));
    table.remove("a");
    assert!(table.get("a").is_none());
    assert_eq!(table.get("b").unwrap().url, "https://b.example");
    assert_eq!(table.len(), 1);
}

#[test]
fn remove_of_absent_alias_is_a_no_op() {
    let mut table = LinkTable::new();
    table.upsert(Rustlink::new("a".to_string(), "https://a.example".to_string()));
    table.remove("missing");
    assert_eq!(table.len(), 1);
}

#[test]
fn snapshot_all_copies_every_entry() {
    let mut table = LinkTable::new();
    table.upsert(Rustlink::new("a".to_string(), "https://a.example".to_string()));
    table.upsert(Rustlink::new("b".to_string(), "https://b.example".to_string()));
    let all = table.snapshot_all();
    assert_eq!(all.len(), 2);
    assert_eq!(all[0].alias, "a");
    assert_eq!(all[1].alias, "b");
}

#[test]
fn records_compare_by_alias() {
    let x = Rustlink::new("a".to_string(), "https://one.example".to_string());
    let y = Rustlink::new("a".to_string(), "https://two.example".to_string());
    let z = Rustlink::new("b".to_string(), "https://one.example".to_string());
    assert!(x == y);
    assert!(x != z);
}

#[test]
fn golinks_compare_by_alias_too() {
    let x = Golink::new("a".to_string(), "https://one.example".to_string());
    let y = Golink::new("a".to_string(), "https://two.example".to_string());
    assert!(x == y);
}
