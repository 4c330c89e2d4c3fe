use tumongo::policy::{same_text, OnDelete, UnknownPolicy};
use tumongo::registry::{holds_name, CollMap, FkField, FkFieldMap, Tumongo, UniqueFieldMap};

fn link(field_name: &str, coll: &str, on_delete: Option<&str>) -> FkField {
    FkField {
        field_name: field_name.to_string(),
        coll: coll.to_string(),
        on_delete: on_delete.map(|s| s.to_string()),
    }
}

fn shape(links: &[FkField]) -> Vec<(String, String, Option<String>)> {
    links.iter().map(|l| (l.field_name.clone(), l.coll.clone(), l.on_delete.clone())).collect()
}

#[test]
fn policy_names_are_read_exactly() {
    assert_eq!(OnDelete::from_str("null"), Ok(OnDelete::Null));
    assert_eq!(OnDelete::from_str("cascade"), Ok(OnDelete::Cascade));
    assert_eq!(OnDelete::from_str("Cascade"), Err(UnknownPolicy));
    assert_eq!(OnDelete::from_str("NULL"), Err(UnknownPolicy));
    assert_eq!(OnDelete::from_str(""), Err(UnknownPolicy));
    assert_eq!(OnDelete::from_str("cascade "), Err(UnknownPolicy));
    assert_eq!(OnDelete::from_str("restrict"), Err(UnknownPolicy));
}

#[test]
fn policy_parses_through_the_standard_trait() {
    assert_eq!("null".parse::<OnDelete>(), Ok(OnDelete::Null));
    assert_eq!("cascade".parse::<OnDelete>(), Ok(OnDelete::Cascade));
    assert_eq!("Null".parse::<OnDelete>(), Err(UnknownPolicy));
}

#[test]
fn policy_names_round_trip() {
    assert_eq!(OnDelete::Null.name(), "null");
    assert_eq!(OnDelete::Cascade.name(), "cascade");
    assert_eq!(OnDelete::from_str(OnDelete::Null.name()), Ok(OnDelete::Null));
    assert_eq!(OnDelete::from_str(OnDelete::Cascade.name()), Ok(OnDelete::Cascade));
    assert_eq!(OnDelete::variants(), vec!["null", "cascade"]);
}

#[test]
fn same_text_compares_contents() {
    assert!(same_text("users", "users"));
    assert!(same_text("", ""));
    assert!(!same_text("users", "user"));
    assert!(!same_text("users", "Users"));
}

#[test]
fn holds_name_finds_a_name_in_a_list() {
    let names = vec!["posts".to_string(), "cars".to_string()];
    assert!(holds_name(&names, "posts"));
    assert!(holds_name(&names, "cars"));
    assert!(!holds_name(&names, "car"));
    assert!(!holds_name(&Vec::new(), "posts"));
}

#[test]
fn link_policy_is_read_from_its_name() {
    assert_eq!(link("a", "b", Some("null")).policy(), Some(OnDelete::Null));
    assert_eq!(link("a", "b", Some("cascade")).policy(), Some(OnDelete::Cascade));
    assert_eq!(link("a", "b", Some("Cascade")).policy(), None);
    assert_eq!(link("a", "b", None).policy(), None);
}

#[test]
fn map_get_insert_remove() {
    let mut map: CollMap<u32> = CollMap::new();
    assert_eq!(map.len(), 0);
    assert_eq!(map.get("users"), None);
    map.insert("users", 1);
    map.insert("posts", 2);
    assert_eq!(map.len(), 2);
    assert_eq!(map.get("users"), Some(&1));
    assert_eq!(map.get("posts"), Some(&2));
    assert_eq!(map.get("post"), None);
    map.insert("users", 3);
    assert_eq!(map.len(), 2);
    assert_eq!(map.get("users"), Some(&3));
    assert_eq!(map.remove("users"), Some(3));
    assert_eq!(map.remove("users"), None);
    assert_eq!(map.len(), 1);
    assert_eq!(map.get("users"), None);
    assert_eq!(map.get("posts"), Some(&2));
}

#[test]
fn map_append_keeps_the_order_of_declaration() {
    let mut map = FkFieldMap::new();
    map.append("users", link("author_id", "posts", Some("cascade")));
    map.append("posts", link("post_id", "comments", None));
    map.append("users", link("owner_id", "cars", Some("null")));
    assert_eq!(map.len(), 2);
    assert_eq!(
        shape(map.get("users").unwrap()),
        vec![
            ("author_id".to_string(), "posts".to_string(), Some("cascade".to_string())),
            ("owner_id".to_string(), "cars".to_string(), Some("null".to_string())),
        ]
    );
    assert_eq!(
        shape(map.get("posts").unwrap()),
        vec![("post_id".to_string(), "comments".to_string(), None)]
    );
}

#[test]
fn empty_registry_has_no_entries() {
    let registry = Tumongo::new();
    assert_eq!(registry.fk_fields().len(), 0);
    assert_eq!(registry.ref_fields().len(), 0);
    assert_eq!(registry.unique_fields().len(), 0);
    assert!(registry.lookup_reverse("users").is_empty());
    assert!(registry.lookup_forward("users").is_empty());
    assert!(registry.lookup_unique("users").is_empty());
}

#[test]
fn declared_fk_is_entered_under_the_referenced_collection() {
    let mut registry = Tumongo::new();
    assert_eq!(registry.declare_fk("posts", "author_id", "users", Some("cascade")), Ok(()));
    assert_eq!(registry.declare_fk("cars", "owner_id", "users", None), Ok(()));
    assert_eq!(
        shape(registry.lookup_reverse("users")),
        vec![
            ("author_id".to_string(), "posts".to_string(), Some("cascade".to_string())),
            ("owner_id".to_string(), "cars".to_string(), None),
        ]
    );
    assert!(registry.lookup_reverse("posts").is_empty());
    assert!(registry.lookup_forward("posts").is_empty());
    assert_eq!(registry.fk_fields().len(), 1);
    assert_eq!(registry.ref_fields().len(), 0);
}

#[test]
fn declared_ref_is_entered_under_the_owning_collection() {
    let mut registry = Tumongo::new();
    assert_eq!(registry.declare_ref("persons", "cars", "cars", None), Ok(()));
    assert_eq!(registry.declare_ref("persons", "boss", "persons", Some("null")), Ok(()));
    assert_eq!(
        shape(registry.lookup_forward("persons")),
        vec![
            ("cars".to_string(), "cars".to_string(), None),
            ("boss".to_string(), "persons".to_string(), Some("null".to_string())),
        ]
    );
    assert!(registry.lookup_forward("cars").is_empty());
    assert!(registry.lookup_reverse("persons").is_empty());
}

#[test]
fn declaration_with_unknown_policy_is_refused() {
    let mut registry = Tumongo::new();
    assert_eq!(
        registry.declare_fk("posts", "author_id", "users", Some("restrict")),
        Err(UnknownPolicy)
    );
    assert_eq!(
        registry.declare_ref("posts", "author_id", "users", Some("CASCADE")),
        Err(UnknownPolicy)
    );
    assert_eq!(registry.fk_fields().len(), 0);
    assert_eq!(registry.ref_fields().len(), 0);
}

#[test]
fn declared_unique_fields_are_listed_per_collection() {
    let mut registry = Tumongo::new();
    registry.declare_unique("persons", "name");
    registry.declare_unique("persons", "email");
    registry.declare_unique("cars", "plate");
    assert_eq!(
        registry.lookup_unique("persons").to_vec(),
        vec!["name".to_string(), "email".to_string()]
    );
    assert_eq!(registry.lookup_unique("cars").to_vec(), vec!["plate".to_string()]);
    assert!(registry.lookup_unique("posts").is_empty());
}

#[test]
fn registry_from_maps_keeps_the_maps() {
    let mut fk = FkFieldMap::new();
    fk.append("users", link("author_id", "posts", Some("cascade")));
    let mut rf = FkFieldMap::new();
    rf.append("posts", link("author_id", "users", None));
    let mut unique = UniqueFieldMap::new();
    unique.insert("users", vec!["name".to_string()]);
    let registry = Tumongo::from_maps(fk, rf, unique);
    assert_eq!(shape(registry.lookup_reverse("users")).len(), 1);
    assert_eq!(shape(registry.lookup_forward("posts")).len(), 1);
    assert_eq!(registry.lookup_unique("users").to_vec(), vec!["name".to_string()]);
    assert_eq!(registry.fk_fields().get("users").unwrap()[0].coll, "posts");
    assert_eq!(registry.ref_fields().get("posts").unwrap()[0].coll, "users");
    assert_eq!(registry.unique_fields().get("users").unwrap()[0], "name");
}
