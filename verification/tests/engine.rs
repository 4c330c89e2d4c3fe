use bson::oid::ObjectId;
use bson::{Bson, Document};
use std::collections::HashMap;
use tumongo::cascade::{DeleteAction, DeleteEvent, DeleteFailure, Phase};
use tumongo::populate::{PopulateAction, PopulateEvent, PopulateFailure, Waiting};
use tumongo::registry::{FkField, FkFieldMap, Tumongo};

fn oid(n: u8) -> ObjectId {
    ObjectId::from_bytes([0, 0, 0, 0, 0, 0, 0, 0, 0, 0, 0, n])
}

fn link(field_name: &str, coll: &str, on_delete: Option<&str>) -> FkField {
    FkField {
        field_name: field_name.to_string(),
        coll: coll.to_string(),
        on_delete: on_delete.map(|s| s.to_string()),
    }
}

fn record(id: u8, fields: &[(&str, Bson)]) -> Document {
    let mut doc = Document::new();
    doc.insert("_id", oid(id));
    for (key, value) in fields {
        doc.insert(key.to_string(), value.clone());
    }
    doc
}

/// A store in memory: per collection, its records in insertion order.
struct Store {
    colls: HashMap<String, Vec<Document>>,
    log: Vec<String>,
}

impl Store {
    fn new() -> Store {
        Store { colls: HashMap::new(), log: Vec::new() }
    }

    fn add(&mut self, coll: &str, doc: Document) {
        self.colls.entry(coll.to_string()).or_default().push(doc);
    }

    fn find_many(&self, coll: &str, field: &str, id: &ObjectId) -> Vec<Document> {
        match self.colls.get(coll) {
            Some(docs) => docs
                .iter()
                .filter(|d| d.get_object_id(field).ok().as_ref() == Some(id))
                .cloned()
                .collect(),
            None => Vec::new(),
        }
    }

    fn find_one(&self, coll: &str, id: &ObjectId) -> Option<Document> {
        self.find_many(coll, "_id", id).into_iter().next()
    }

    fn clear_field(&mut self, coll: &str, field: &str, id: &ObjectId) {
        self.log.push(format!("clear {}.{}", coll, field));
        if let Some(docs) = self.colls.get_mut(coll) {
            for d in docs.iter_mut() {
                if d.get_object_id(field).ok().as_ref() == Some(id) {
                    d.insert(field.to_string(), Bson::Null);
                }
            }
        }
    }

    fn delete_one(&mut self, coll: &str, id: &ObjectId) {
        self.log.push(format!("delete {}/{}", coll, id.bytes()[11]));
        if let Some(docs) = self.colls.get_mut(coll) {
            if let Some(at) = docs.iter().position(|d| d.get_object_id("_id").ok().as_ref() == Some(id)) {
                docs.remove(at);
            }
        }
    }

    fn ids(&self, coll: &str) -> Vec<u8> {
        match self.colls.get(coll) {
            Some(docs) => docs.iter().map(|d| d.get_object_id("_id").unwrap().bytes()[11]).collect(),
            None => Vec::new(),
        }
    }
}

fn run_delete(store: &mut Store, links: &FkFieldMap, coll: &str, id: u8) -> Phase {
    let mut machine = Tumongo::delete(coll, &oid(id), links, false);
    let mut event = DeleteEvent::Begin;
    for _ in 0..1000 {
        let (next, action) = machine.step(event);
        machine = next;
        event = match action {
            DeleteAction::ClearField { coll, field_name, id } => {
                store.clear_field(&coll, &field_name, &id);
                DeleteEvent::Cleared
            }
            DeleteAction::FindReferrers { coll, field_name, id } => {
                DeleteEvent::Referrers(store.find_many(&coll, &field_name, &id))
            }
            DeleteAction::DeleteRecord { coll, id, .. } => {
                store.delete_one(&coll, &id);
                DeleteEvent::Removed
            }
            DeleteAction::Finished | DeleteAction::Aborted(_) => return machine.phase(),
        };
    }
    panic!("the delete did not come to an end");
}

fn run_populate(
    store: &Store,
    doc: Document,
    coll: &str,
    filter: Option<&[&str]>,
    fk: &FkFieldMap,
    rf: &FkFieldMap,
    asked: &mut Vec<String>,
) -> Document {
    let mut machine = Tumongo::populate(doc, coll, filter, fk, rf);
    let mut event = PopulateEvent::Begin;
    for _ in 0..1000 {
        let (next, action) = machine.step(event);
        machine = next;
        event = match action {
            PopulateAction::FindMany { coll, field_name, id } => {
                asked.push(format!("many {}.{}={}", coll, field_name, id.bytes()[11]));
                PopulateEvent::Matches(store.find_many(&coll, &field_name, &id))
            }
            PopulateAction::FindOne { coll, id } => {
                asked.push(format!("one {}/{}", coll, id.bytes()[11]));
                PopulateEvent::Target(store.find_one(&coll, &id))
            }
            PopulateAction::Finished(doc) => {
                assert_eq!(machine.waiting(), Waiting::Finished);
                return doc;
            }
            PopulateAction::Aborted(failure) => panic!("given up: {:?}", failure),
        };
    }
    panic!("the population did not come to an end");
}

fn blog_links(author_policy: Option<&str>) -> FkFieldMap {
    let mut map = FkFieldMap::new();
    map.append("users", link("author_id", "posts", author_policy));
    map.append("posts", link("post_id", "comments", Some("cascade")));
    map
}

fn blog_store() -> Store {
    let mut store = Store::new();
    store.add("users", record(1, &[("name", Bson::String("ann".to_string()))]));
    store.add("users", record(2, &[("name", Bson::String("bob".to_string()))]));
    store.add("posts", record(10, &[("author_id", Bson::ObjectId(oid(1)))]));
    store.add("posts", record(11, &[("author_id", Bson::ObjectId(oid(2)))]));
    store.add("comments", record(100, &[("post_id", Bson::ObjectId(oid(10)))]));
    store.add("comments", record(101, &[("post_id", Bson::ObjectId(oid(11)))]));
    store
}

#[test]
fn cascade_requests_step_by_step() {
    let links = blog_links(Some("cascade"));
    let machine = Tumongo::delete("users", &oid(1), &links, false);
    let (machine, action) = machine.step(DeleteEvent::Begin);
    assert_eq!(
        action,
        DeleteAction::FindReferrers {
            coll: "posts".to_string(),
            field_name: "author_id".to_string(),
            id: oid(1)
        }
    );
    assert_eq!(machine.phase(), Phase::Finding);
    let (machine, action) = machine.step(DeleteEvent::Referrers(vec![record(10, &[])]));
    assert_eq!(
        action,
        DeleteAction::FindReferrers {
            coll: "comments".to_string(),
            field_name: "post_id".to_string(),
            id: oid(10)
        }
    );
    let (machine, action) = machine.step(DeleteEvent::Referrers(vec![record(100, &[])]));
    assert_eq!(
        action,
        DeleteAction::DeleteRecord { coll: "comments".to_string(), id: oid(100), is_child: true }
    );
    assert_eq!(machine.phase(), Phase::Removing);
    let (machine, action) = machine.step(DeleteEvent::Removed);
    assert_eq!(
        action,
        DeleteAction::DeleteRecord { coll: "posts".to_string(), id: oid(10), is_child: true }
    );
    let (machine, action) = machine.step(DeleteEvent::Removed);
    assert_eq!(
        action,
        DeleteAction::DeleteRecord { coll: "users".to_string(), id: oid(1), is_child: false }
    );
    let (machine, action) = machine.step(DeleteEvent::Removed);
    assert_eq!(action, DeleteAction::Finished);
    assert_eq!(machine.phase(), Phase::Finished);
    let (machine, action) = machine.step(DeleteEvent::Removed);
    assert_eq!(action, DeleteAction::Finished);
    assert_eq!(machine.phase(), Phase::Finished);
}

#[test]
fn cascade_deletes_comment_then_post_then_user() {
    let links = blog_links(Some("cascade"));
    let mut store = blog_store();
    assert_eq!(run_delete(&mut store, &links, "users", 1), Phase::Finished);
    assert_eq!(store.log, vec!["delete comments/100", "delete posts/10", "delete users/1"]);
    assert_eq!(store.ids("users"), vec![2]);
    assert_eq!(store.ids("posts"), vec![11]);
    assert_eq!(store.ids("comments"), vec![101]);
}

#[test]
fn null_policy_clears_the_field_and_deletes_nothing_else() {
    let links = blog_links(Some("null"));
    let mut store = blog_store();
    assert_eq!(run_delete(&mut store, &links, "users", 1), Phase::Finished);
    assert_eq!(store.log, vec!["clear posts.author_id", "delete users/1"]);
    assert_eq!(store.ids("posts"), vec![10, 11]);
    assert_eq!(store.ids("comments"), vec![100, 101]);
    let post = store.find_one("posts", &oid(10)).unwrap();
    assert_eq!(post.get("author_id"), Some(&Bson::Null));
    let other = store.find_one("posts", &oid(11)).unwrap();
    assert_eq!(other.get_object_id("author_id").unwrap(), oid(2));
}

#[test]
fn link_without_policy_is_ignored_on_delete() {
    let links = blog_links(None);
    let mut store = blog_store();
    assert_eq!(run_delete(&mut store, &links, "users", 1), Phase::Finished);
    assert_eq!(store.log, vec!["delete users/1"]);
    let post = store.find_one("posts", &oid(10)).unwrap();
    assert_eq!(post.get_object_id("author_id").unwrap(), oid(1));
}

#[test]
fn link_with_unknown_policy_is_ignored_on_delete() {
    let links = blog_links(Some("Cascade"));
    let mut store = blog_store();
    assert_eq!(run_delete(&mut store, &links, "users", 1), Phase::Finished);
    assert_eq!(store.log, vec!["delete users/1"]);
}

#[test]
fn delete_without_links_removes_only_the_record() {
    let links = FkFieldMap::new();
    let machine = Tumongo::delete("users", &oid(1), &links, true);
    let (_, action) = machine.step(DeleteEvent::Begin);
    assert_eq!(
        action,
        DeleteAction::DeleteRecord { coll: "users".to_string(), id: oid(1), is_child: true }
    );
}

#[test]
fn cascade_over_several_referrers_in_the_order_found() {
    let links = blog_links(Some("cascade"));
    let mut store = blog_store();
    store.add("posts", record(12, &[("author_id", Bson::ObjectId(oid(1)))]));
    store.add("comments", record(102, &[("post_id", Bson::ObjectId(oid(12)))]));
    store.add("comments", record(103, &[("post_id", Bson::ObjectId(oid(10)))]));
    assert_eq!(run_delete(&mut store, &links, "users", 1), Phase::Finished);
    assert_eq!(
        store.log,
        vec![
            "delete comments/100",
            "delete comments/103",
            "delete posts/10",
            "delete comments/102",
            "delete posts/12",
            "delete users/1"
        ]
    );
}

#[test]
fn record_that_references_itself_gives_the_delete_up() {
    let mut links = FkFieldMap::new();
    links.append("comments", link("parent_id", "comments", Some("cascade")));
    let mut store = Store::new();
    store.add("comments", record(1, &[("parent_id", Bson::ObjectId(oid(1)))]));
    assert_eq!(
        run_delete(&mut store, &links, "comments", 1),
        Phase::Aborted(DeleteFailure::Cycle)
    );
    assert!(store.log.is_empty());
    assert_eq!(store.ids("comments"), vec![1]);
}

#[test]
fn records_that_cascade_to_each_other_give_the_delete_up() {
    let mut links = FkFieldMap::new();
    links.append("a", link("a_id", "b", Some("cascade")));
    links.append("b", link("b_id", "a", Some("cascade")));
    let mut store = Store::new();
    store.add("a", record(1, &[("b_id", Bson::ObjectId(oid(2)))]));
    store.add("b", record(2, &[("a_id", Bson::ObjectId(oid(1)))]));
    assert_eq!(run_delete(&mut store, &links, "a", 1), Phase::Aborted(DeleteFailure::Cycle));
    assert!(store.log.is_empty());
}

#[test]
fn same_identity_in_another_collection_is_no_cycle() {
    let mut links = FkFieldMap::new();
    links.append("a", link("a_id", "b", Some("cascade")));
    let mut store = Store::new();
    store.add("a", record(1, &[]));
    store.add("b", record(1, &[("a_id", Bson::ObjectId(oid(1)))]));
    assert_eq!(run_delete(&mut store, &links, "a", 1), Phase::Finished);
    assert_eq!(store.log, vec!["delete b/1", "delete a/1"]);
}

#[test]
fn self_referencing_collection_cascades_down_a_chain() {
    let mut links = FkFieldMap::new();
    links.append("comments", link("parent_id", "comments", Some("cascade")));
    let mut store = Store::new();
    store.add("comments", record(1, &[]));
    store.add("comments", record(2, &[("parent_id", Bson::ObjectId(oid(1)))]));
    store.add("comments", record(3, &[("parent_id", Bson::ObjectId(oid(2)))]));
    assert_eq!(run_delete(&mut store, &links, "comments", 1), Phase::Finished);
    assert_eq!(
        store.log,
        vec!["delete comments/3", "delete comments/2", "delete comments/1"]
    );
}

#[test]
fn store_failure_gives_the_delete_up() {
    let links = blog_links(Some("cascade"));
    let machine = Tumongo::delete("users", &oid(1), &links, false);
    let (machine, _) = machine.step(DeleteEvent::Begin);
    let (machine, action) = machine.step(DeleteEvent::StoreFailed);
    assert_eq!(action, DeleteAction::Aborted(DeleteFailure::Store));
    assert_eq!(machine.phase(), Phase::Aborted(DeleteFailure::Store));
    let (_, action) = machine.step(DeleteEvent::Removed);
    assert_eq!(action, DeleteAction::Aborted(DeleteFailure::Store));
}

#[test]
fn answer_out_of_turn_gives_the_delete_up() {
    let links = blog_links(Some("cascade"));
    let machine = Tumongo::delete("users", &oid(1), &links, false);
    let (machine, _) = machine.step(DeleteEvent::Begin);
    let (_, action) = machine.step(DeleteEvent::Removed);
    assert_eq!(action, DeleteAction::Aborted(DeleteFailure::OutOfTurn));
}

#[test]
fn referrer_without_identity_gives_the_delete_up() {
    let links = blog_links(Some("cascade"));
    let machine = Tumongo::delete("users", &oid(1), &links, false);
    let (machine, _) = machine.step(DeleteEvent::Begin);
    let (_, action) = machine.step(DeleteEvent::Referrers(vec![Document::new()]));
    assert_eq!(action, DeleteAction::Aborted(DeleteFailure::MissingId));
}

#[test]
fn populate_embeds_posts_and_their_comments() {
    let fk = blog_links(Some("cascade"));
    let rf = FkFieldMap::new();
    let store = blog_store();
    let user = store.find_one("users", &oid(1)).unwrap();
    let mut asked = Vec::new();
    let out = run_populate(&store, user, "users", None, &fk, &rf, &mut asked);
    assert_eq!(asked, vec!["many posts.author_id=1", "many comments.post_id=10"]);

    let mut comment = Document::new();
    comment.insert("_id", oid(100));
    comment.insert("post_id", oid(10));
    let mut post = Document::new();
    post.insert("_id", oid(10));
    post.insert("author_id", oid(1));
    post.insert("comments", vec![comment]);
    let mut expected = Document::new();
    expected.insert("_id", oid(1));
    expected.insert("name", "ann");
    expected.insert("posts", vec![post]);
    assert_eq!(out, expected);
    let keys: Vec<&String> = out.keys().collect();
    assert_eq!(keys, vec!["_id", "name", "posts"]);
}

#[test]
fn populate_without_links_returns_the_document_unchanged() {
    let fk = FkFieldMap::new();
    let rf = FkFieldMap::new();
    let doc = record(1, &[("name", Bson::String("ann".to_string())), ("age", Bson::Int32(3))]);
    let machine = Tumongo::populate(doc.clone(), "users", None, &fk, &rf);
    let (machine, action) = machine.step(PopulateEvent::Begin);
    assert_eq!(action, PopulateAction::Finished(doc));
    assert_eq!(machine.waiting(), Waiting::Finished);
    let (_, action) = machine.step(PopulateEvent::Begin);
    assert_eq!(action, PopulateAction::Aborted(PopulateFailure::OutOfTurn));
}

#[test]
fn populate_resolves_forward_references() {
    let fk = FkFieldMap::new();
    let mut rf = FkFieldMap::new();
    rf.append("comments", link("post_id", "posts", None));
    rf.append("posts", link("author_id", "users", None));
    let store = blog_store();
    let comment = store.find_one("comments", &oid(100)).unwrap();
    let mut asked = Vec::new();
    let out = run_populate(&store, comment, "comments", None, &fk, &rf, &mut asked);
    assert_eq!(asked, vec!["one posts/10", "one users/1"]);

    let mut user = Document::new();
    user.insert("_id", oid(1));
    user.insert("name", "ann");
    let mut post = Document::new();
    post.insert("_id", oid(10));
    post.insert("author_id", user);
    let mut expected = Document::new();
    expected.insert("_id", oid(100));
    expected.insert("post_id", post);
    assert_eq!(out, expected);
}

#[test]
fn populate_leaves_a_dangling_reference_as_it_is() {
    let fk = FkFieldMap::new();
    let mut rf = FkFieldMap::new();
    rf.append("comments", link("post_id", "posts", None));
    let store = Store::new();
    let comment = record(100, &[("post_id", Bson::ObjectId(oid(10)))]);
    let mut asked = Vec::new();
    let out = run_populate(&store, comment.clone(), "comments", None, &fk, &rf, &mut asked);
    assert_eq!(asked, vec!["one posts/10"]);
    assert_eq!(out, comment);
}

#[test]
fn populate_passes_over_a_field_that_holds_no_reference() {
    let fk = FkFieldMap::new();
    let mut rf = FkFieldMap::new();
    rf.append("comments", link("post_id", "posts", None));
    rf.append("comments", link("author", "users", None));
    let store = blog_store();
    let comment = record(100, &[("post_id", Bson::String("ten".to_string()))]);
    let mut asked = Vec::new();
    let out = run_populate(&store, comment.clone(), "comments", None, &fk, &rf, &mut asked);
    assert!(asked.is_empty());
    assert_eq!(out, comment);
}

#[test]
fn populate_attaches_nothing_where_no_record_matches() {
    let fk = blog_links(Some("cascade"));
    let rf = FkFieldMap::new();
    let store = blog_store();
    let user = record(3, &[]);
    let mut asked = Vec::new();
    let out = run_populate(&store, user.clone(), "users", None, &fk, &rf, &mut asked);
    assert_eq!(asked, vec!["many posts.author_id=3"]);
    assert_eq!(out, user);
    assert!(!out.contains_key("posts"));
}

#[test]
fn populate_filter_holds_at_the_first_level_only() {
    let mut fk = FkFieldMap::new();
    fk.append("users", link("author_id", "posts", None));
    fk.append("users", link("owner_id", "cars", None));
    fk.append("posts", link("post_id", "comments", None));
    let rf = FkFieldMap::new();
    let mut store = blog_store();
    store.add("cars", record(50, &[("owner_id", Bson::ObjectId(oid(1)))]));
    let user = store.find_one("users", &oid(1)).unwrap();
    let mut asked = Vec::new();
    let names = ["posts"];
    let out = run_populate(&store, user, "users", Some(&names[..]), &fk, &rf, &mut asked);
    assert_eq!(asked, vec!["many posts.author_id=1", "many comments.post_id=10"]);
    assert!(!out.contains_key("cars"));
    let posts = out.get_array("posts").unwrap();
    assert_eq!(posts.len(), 1);
    let post = posts[0].as_document().unwrap();
    assert_eq!(post.get_array("comments").unwrap().len(), 1);
}

#[test]
fn populate_filter_restricts_forward_pass_of_first_level_matches() {
    let mut fk = FkFieldMap::new();
    fk.append("users", link("author_id", "posts", None));
    let mut rf = FkFieldMap::new();
    rf.append("posts", link("topic_id", "topics", None));
    rf.append("users", link("team_id", "teams", None));
    let mut store = Store::new();
    store.add("users", record(1, &[("team_id", Bson::ObjectId(oid(7)))]));
    store.add("teams", record(7, &[]));
    store.add("topics", record(9, &[]));
    store.add(
        "posts",
        record(10, &[("author_id", Bson::ObjectId(oid(1))), ("topic_id", Bson::ObjectId(oid(9)))]),
    );
    let user = store.find_one("users", &oid(1)).unwrap();
    let mut asked = Vec::new();
    let names = ["posts"];
    let out = run_populate(&store, user.clone(), "users", Some(&names[..]), &fk, &rf, &mut asked);
    assert_eq!(asked, vec!["many posts.author_id=1"]);
    assert_eq!(out.get_object_id("team_id").unwrap(), oid(7));
    let post = out.get_array("posts").unwrap()[0].as_document().unwrap();
    assert_eq!(post.get_object_id("topic_id").unwrap(), oid(9));

    let mut asked = Vec::new();
    let out = run_populate(&store, user, "users", None, &fk, &rf, &mut asked);
    assert_eq!(asked, vec!["many posts.author_id=1", "one topics/9", "one teams/7"]);
    assert!(out.get_document("team_id").is_ok());
}

#[test]
fn populate_expands_a_collection_once() {
    let mut fk = FkFieldMap::new();
    fk.append("users", link("author_id", "posts", None));
    fk.append("users", link("editor_id", "posts", None));
    let rf = FkFieldMap::new();
    let mut store = Store::new();
    store.add("users", record(1, &[]));
    store.add("posts", record(10, &[("author_id", Bson::ObjectId(oid(1)))]));
    store.add("posts", record(11, &[("editor_id", Bson::ObjectId(oid(1)))]));
    let user = store.find_one("users", &oid(1)).unwrap();
    let mut asked = Vec::new();
    let out = run_populate(&store, user, "users", None, &fk, &rf, &mut asked);
    assert_eq!(asked, vec!["many posts.author_id=1"]);
    assert_eq!(out.get_array("posts").unwrap().len(), 1);
}

#[test]
fn populate_asks_again_while_a_collection_gave_nothing() {
    let mut fk = FkFieldMap::new();
    fk.append("users", link("author_id", "posts", None));
    fk.append("users", link("editor_id", "posts", None));
    let rf = FkFieldMap::new();
    let mut store = Store::new();
    store.add("users", record(1, &[]));
    store.add("posts", record(11, &[("editor_id", Bson::ObjectId(oid(1)))]));
    let user = store.find_one("users", &oid(1)).unwrap();
    let mut asked = Vec::new();
    let out = run_populate(&store, user, "users", None, &fk, &rf, &mut asked);
    assert_eq!(asked, vec!["many posts.author_id=1", "many posts.editor_id=1"]);
    assert_eq!(out.get_array("posts").unwrap().len(), 1);
}

#[test]
fn populate_overwrites_a_field_named_like_a_collection_in_place() {
    let fk = blog_links(None);
    let rf = FkFieldMap::new();
    let store = blog_store();
    let mut user = Document::new();
    user.insert("_id", oid(1));
    user.insert("posts", "mine");
    user.insert("name", "ann");
    let mut asked = Vec::new();
    let out = run_populate(&store, user, "users", None, &fk, &rf, &mut asked);
    let keys: Vec<&String> = out.keys().collect();
    assert_eq!(keys, vec!["_id", "posts", "name"]);
    assert_eq!(out.get_array("posts").unwrap().len(), 1);
}

#[test]
fn populate_keeps_matches_in_the_order_found() {
    let fk = blog_links(None);
    let rf = FkFieldMap::new();
    let mut store = blog_store();
    store.add("posts", record(12, &[("author_id", Bson::ObjectId(oid(1)))]));
    store.add("posts", record(13, &[("author_id", Bson::ObjectId(oid(1)))]));
    let user = store.find_one("users", &oid(1)).unwrap();
    let mut asked = Vec::new();
    let out = run_populate(&store, user, "users", None, &fk, &rf, &mut asked);
    let ids: Vec<u8> = out
        .get_array("posts")
        .unwrap()
        .iter()
        .map(|p| p.as_document().unwrap().get_object_id("_id").unwrap().bytes()[11])
        .collect();
    assert_eq!(ids, vec![10, 12, 13]);
    assert_eq!(asked, vec!["many posts.author_id=1", "many comments.post_id=10"]);
}

#[test]
fn populate_resolves_references_of_embedded_matches() {
    let mut fk = FkFieldMap::new();
    fk.append("users", link("author_id", "posts", None));
    let mut rf = FkFieldMap::new();
    rf.append("posts", link("topic_id", "topics", None));
    rf.append("topics", link("owner_id", "users", None));
    let mut store = Store::new();
    store.add("users", record(1, &[]));
    store.add("users", record(2, &[]));
    store.add("topics", record(9, &[("owner_id", Bson::ObjectId(oid(2)))]));
    store.add(
        "posts",
        record(10, &[("author_id", Bson::ObjectId(oid(1))), ("topic_id", Bson::ObjectId(oid(9)))]),
    );
    let user = store.find_one("users", &oid(1)).unwrap();
    let mut asked = Vec::new();
    let out = run_populate(&store, user, "users", None, &fk, &rf, &mut asked);
    assert_eq!(asked, vec!["many posts.author_id=1", "one topics/9", "one users/2"]);
    let post = out.get_array("posts").unwrap()[0].as_document().unwrap();
    let topic = post.get_document("topic_id").unwrap();
    assert_eq!(topic.get_object_id("_id").unwrap(), oid(9));
    assert_eq!(topic.get_document("owner_id").unwrap().get_object_id("_id").unwrap(), oid(2));
}

#[test]
fn populate_looks_a_collection_up_under_itself_until_it_is_embedded() {
    let mut fk = FkFieldMap::new();
    fk.append("comments", link("parent_id", "comments", None));
    let rf = FkFieldMap::new();
    let mut store = Store::new();
    store.add("comments", record(1, &[]));
    store.add("comments", record(2, &[("parent_id", Bson::ObjectId(oid(1)))]));
    store.add("comments", record(3, &[("parent_id", Bson::ObjectId(oid(2)))]));
    store.add("comments", record(4, &[("parent_id", Bson::ObjectId(oid(1)))]));
    store.add("comments", record(5, &[("parent_id", Bson::ObjectId(oid(4)))]));
    let first = store.find_one("comments", &oid(1)).unwrap();
    let mut asked = Vec::new();
    let out = run_populate(&store, first, "comments", None, &fk, &rf, &mut asked);
    assert_eq!(
        asked,
        vec![
            "many comments.parent_id=1",
            "many comments.parent_id=2",
            "many comments.parent_id=3"
        ]
    );
    let replies = out.get_array("comments").unwrap();
    assert_eq!(replies.len(), 2);
    let second = replies[0].as_document().unwrap();
    assert_eq!(second.get_object_id("_id").unwrap(), oid(2));
    assert_eq!(second.get_array("comments").unwrap().len(), 1);
    let fourth = replies[1].as_document().unwrap();
    assert_eq!(fourth.get_object_id("_id").unwrap(), oid(4));
    assert!(!fourth.contains_key("comments"));
}

#[test]
fn populate_of_a_document_without_identity_asks_nothing_in_reverse() {
    let fk = blog_links(None);
    let rf = FkFieldMap::new();
    let store = blog_store();
    let mut doc = Document::new();
    doc.insert("name", "nobody");
    let mut asked = Vec::new();
    let out = run_populate(&store, doc.clone(), "users", None, &fk, &rf, &mut asked);
    assert!(asked.is_empty());
    assert_eq!(out, doc);
}

#[test]
fn store_failure_gives_the_population_up() {
    let fk = blog_links(None);
    let rf = FkFieldMap::new();
    let machine = Tumongo::populate(record(1, &[]), "users", None, &fk, &rf);
    let (machine, _) = machine.step(PopulateEvent::Begin);
    assert_eq!(machine.waiting(), Waiting::Matches);
    let (machine, action) = machine.step(PopulateEvent::StoreFailed);
    assert_eq!(action, PopulateAction::Aborted(PopulateFailure::Store));
    assert_eq!(machine.waiting(), Waiting::Aborted(PopulateFailure::Store));
}

#[test]
fn answer_out_of_turn_gives_the_population_up() {
    let fk = blog_links(None);
    let rf = FkFieldMap::new();
    let machine = Tumongo::populate(record(1, &[]), "users", None, &fk, &rf);
    let (machine, _) = machine.step(PopulateEvent::Begin);
    let (_, action) = machine.step(PopulateEvent::Target(None));
    assert_eq!(action, PopulateAction::Aborted(PopulateFailure::OutOfTurn));
}
