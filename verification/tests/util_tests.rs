use rustlinks::util::{alias_to_key, key_to_alias};

#[test]
fn alias_becomes_namespaced_key() {
    assert_eq!(alias_to_key("rust"), "rustlinks/rust");
    assert_eq!(alias_to_key(""), "rustlinks/");
}

#[test]
fn key_loses_its_namespace() {
    assert_eq!(key_to_alias("rustlinks/rust"), "rust");
    assert_eq!(key_to_alias("rustlinks/"), "");
}

#[test]
fn alias_with_slashes_survives_the_round_trip() {
    let alias = "a/b/c";
    assert_eq!(key_to_alias(&alias_to_key(alias)), alias);
}
