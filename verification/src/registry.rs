//! The relationship registry: which collections reference which, through
//! which field, and with what on-delete policy.

use crate::policy::{policy_named, same_text, OnDelete, UnknownPolicy};
use vstd::prelude::*;

verus! {

/// One link between two collections: a field that holds a reference, the
/// collection on the other side of it, and the declared on-delete policy.
#[derive(Debug, Clone)]
pub struct FkField {
    pub field_name: String,
    pub coll: String,
    pub on_delete: Option<String>,
}

/// A link as the contracts see it.
pub struct Link {
    pub field_name: Seq<char>,
    pub coll: Seq<char>,
    pub on_delete: Option<Seq<char>>,
}

impl Link {
    /// The policy the link declares. A link without a declaration, or with
    /// one that names no policy, has none.
    pub open spec fn policy(self) -> Option<OnDelete> {
        match self.on_delete {
            Some(name) => policy_named(name),
            None => None,
        }
    }
}

impl View for FkField {
    type V = Link;

    open spec fn view(&self) -> Link {
        Link {
            field_name: self.field_name@,
            coll: self.coll@,
            on_delete: match self.on_delete {
                Some(name) => Some(name@),
                None => None,
            },
        }
    }
}

impl FkField {
    /// The policy the link declares, if it declares one that exists.
    pub fn policy(&self) -> (policy: Option<OnDelete>)
        ensures
            policy == self@.policy(),
    {
        match &self.on_delete {
            Some(name) => match OnDelete::from_str(name.as_str()) {
                Ok(policy) => Some(policy),
                Err(_) => None,
            },
            None => None,
        }
    }
}

/// The links of a list, each as the contracts see it.
pub open spec fn links_view(links: Seq<FkField>) -> Seq<Link> {
    links.map_values(|link: FkField| link@)
}

/// The texts of a list of names.
pub open spec fn names_view(names: Seq<String>) -> Seq<Seq<char>> {
    names.map_values(|name: String| name@)
}

/// Whether `names` holds the text `name`.
pub fn holds_name(names: &Vec<String>, name: &str) -> (held: bool)
    ensures
        held == names_view(names@).contains(name@),
{
    let mut i: usize = 0;
    while i < names.len()
        invariant
            i <= names.len(),
            forall|j: int| 0 <= j < i ==> names@[j]@ != name@,
        decreases names.len() - i,
    {
        if same_text(names[i].as_str(), name) {
            assert(names_view(names@)[i as int] == name@);
            return true;
        }
        i += 1;
    }
    false
}

/// A map from collection name to a value, with each collection entered once.
pub struct CollMap<V> {
    entries: Vec<(String, V)>,
}

/// Per collection, the links that concern it.
pub type FkFieldMap = CollMap<Vec<FkField>>;

/// Per collection, the fields whose values must not repeat.
pub type UniqueFieldMap = CollMap<Vec<String>>;

impl<V> CollMap<V> {
    #[verifier::type_invariant]
    spec fn distinct_keys(self) -> bool {
        forall|i: int, j: int|
            0 <= i < j < self.entries@.len() ==> self.entries@[i].0@ != self.entries@[j].0@
    }

    /// Where the entry of `coll` stands, if the collection is entered.
    spec fn slot(self, coll: Seq<char>) -> int {
        choose|i: int| 0 <= i < self.entries@.len() && self.entries@[i].0@ == coll
    }

    /// The map itself: the entered collections and the value of each.
    pub closed spec fn view(&self) -> Map<Seq<char>, V> {
        Map::new(
            |coll: Seq<char>|
                exists|i: int| 0 <= i < self.entries@.len() && self.entries@[i].0@ == coll,
            |coll: Seq<char>| self.entries@[self.slot(coll)].1,
        )
    }

    /// A map with no collection in it.
    pub fn new() -> (map: Self)
        ensures
            map@ == Map::<Seq<char>, V>::empty(),
    {
        let map = CollMap { entries: Vec::new() };
        assert(map@ =~= Map::<Seq<char>, V>::empty());
        map
    }

    /// How many collections are entered.
    pub fn len(&self) -> (n: usize)
        ensures
            n == self@.dom().len(),
            self@.dom().finite(),
    {
        proof {
            use_type_invariant(self);
            self.lemma_dom_len(self.entries@.len() as int);
            assert(self.keys_before(self.entries@.len() as int) =~= self@.dom());
        }
        self.entries.len()
    }

    /// The names entered in the first `n` places.
    spec fn keys_before(self, n: int) -> Set<Seq<char>> {
        Set::new(|coll: Seq<char>| exists|i: int| 0 <= i < n && self.entries@[i].0@ == coll)
    }

    proof fn lemma_dom_len(self, n: int)
        requires
            self.distinct_keys(),
            0 <= n <= self.entries@.len(),
        ensures
            self.keys_before(n).finite(),
            self.keys_before(n).len() == n,
        decreases n,
    {
        if n == 0 {
            assert(self.keys_before(0) =~= Set::<Seq<char>>::empty());
        } else {
            self.lemma_dom_len(n - 1);
            let key = self.entries@[n - 1].0@;
            assert(!self.keys_before(n - 1).contains(key));
            assert(self.keys_before(n) =~= self.keys_before(n - 1).insert(key));
        }
    }

    /// The index of the entry of `coll`, or the number of entries.
    fn find(&self, coll: &str) -> (at: usize)
        ensures
            at <= self.entries@.len(),
            at < self.entries@.len() ==> self.entries@[at as int].0@ == coll@,
            at == self.entries@.len() ==> !self@.dom().contains(coll@),
            at < self.entries@.len() ==> self@.dom().contains(coll@) && self@[coll@]
                == self.entries@[at as int].1,
    {
        proof {
            use_type_invariant(self);
        }
        let mut i: usize = 0;
        while i < self.entries.len()
            invariant
                self.distinct_keys(),
                i <= self.entries@.len(),
                forall|j: int| 0 <= j < i ==> self.entries@[j].0@ != coll@,
            decreases self.entries@.len() - i,
        {
            if same_text(self.entries[i].0.as_str(), coll) {
                assert(self.entries@[i as int].0@ == coll@);
                assert(self.slot(coll@) == i);
                return i;
            }
            i += 1;
        }
        i
    }

    /// The value entered for `coll`, if the collection is entered.
    pub fn get(&self, coll: &str) -> (found: Option<&V>)
        ensures
            match found {
                Some(value) => self@.dom().contains(coll@) && *value == self@[coll@],
                None => !self@.dom().contains(coll@),
            },
    {
        let at = self.find(coll);
        if at < self.entries.len() {
            Some(&self.entries[at].1)
        } else {
            None
        }
    }

    /// Takes the entry of `coll` out, if the collection is entered.
    pub fn remove(&mut self, coll: &str) -> (taken: Option<V>)
        ensures
            final(self)@ == old(self)@.remove(coll@),
            match taken {
                Some(value) => old(self)@.dom().contains(coll@) && value == old(self)@[coll@],
                None => !old(self)@.dom().contains(coll@),
            },
    {
        proof {
            use_type_invariant(&*self);
        }
        let at = self.find(coll);
        if at >= self.entries.len() {
            assert(self@ =~= self@.remove(coll@));
            return None;
        }
        let ghost before = *self;
        let mut entries: Vec<(String, V)> = Vec::new();
        std::mem::swap(&mut self.entries, &mut entries);
        let entry = entries.remove(at);
        self.entries = entries;
        proof {
            let after = *self;
            assert forall|k: Seq<char>| after@.dom().contains(k) <==> before@.remove(
                coll@,
            ).dom().contains(k) by {
                if after@.dom().contains(k) {
                    let i = choose|i: int|
                        0 <= i < after.entries@.len() && after.entries@[i].0@ == k;
                    let j = if i < at { i } else { i + 1 };
                    assert(before.entries@[j].0@ == k);
                }
                if before@.remove(coll@).dom().contains(k) {
                    let j = choose|j: int|
                        0 <= j < before.entries@.len() && before.entries@[j].0@ == k;
                    let i = if j < at { j } else { j - 1 };
                    assert(after.entries@[i].0@ == k);
                }
            }
            assert forall|k: Seq<char>| after@.dom().contains(k) implies after@[k]
                == before@.remove(coll@)[k] by {
                let i = after.slot(k);
                let j = if i < at { i } else { i + 1 };
                assert(before.entries@[j].0@ == k);
                assert(before.slot(k) == j);
            }
            assert(after@ =~= before@.remove(coll@));
        }
        Some(entry.1)
    }

    /// Enters `value` for `coll`, in place of what was entered before.
    pub fn insert(&mut self, coll: &str, value: V)
        ensures
            final(self)@ == old(self)@.insert(coll@, value),
    {
        proof {
            use_type_invariant(&*self);
        }
        let at = self.find(coll);
        let ghost before = *self;
        let mut entries: Vec<(String, V)> = Vec::new();
        std::mem::swap(&mut self.entries, &mut entries);
        if at < entries.len() {
            entries.remove(at);
        }
        let ghost mid = entries@;
        entries.push((coll.to_owned(), value));
        self.entries = entries;
        proof {
            let after = *self;
            assert forall|k: Seq<char>| after@.dom().contains(k) <==> before@.insert(
                coll@,
                value,
            ).dom().contains(k) by {
                if after@.dom().contains(k) {
                    let i = choose|i: int|
                        0 <= i < after.entries@.len() && after.entries@[i].0@ == k;
                    if i < mid.len() && k != coll@ {
                        let j = if i < at { i } else { i + 1 };
                        assert(before.entries@[j].0@ == k);
                    }
                }
                if before@.insert(coll@, value).dom().contains(k) {
                    if k == coll@ {
                        assert(after.entries@[mid.len() as int].0@ == k);
                    } else {
                        let j = choose|j: int|
                            0 <= j < before.entries@.len() && before.entries@[j].0@ == k;
                        let i = if j < at { j } else { j - 1 };
                        assert(after.entries@[i].0@ == k);
                    }
                }
            }
            assert forall|k: Seq<char>| after@.dom().contains(k) implies after@[k]
                == before@.insert(coll@, value)[k] by {
                let i = after.slot(k);
                if k == coll@ {
                    assert(after.entries@[mid.len() as int].0@ == k);
                    assert(i == mid.len());
                } else {
                    let j = if i < at { i } else { i + 1 };
                    assert(before.entries@[j].0@ == k);
                    assert(before.slot(k) == j);
                }
            }
            assert(after@ =~= before@.insert(coll@, value));
        }
    }
}

/// What is listed for `coll` in a map of lists: nothing where the collection
/// is not entered.
pub open spec fn listed<T>(map: Map<Seq<char>, Vec<T>>, coll: Seq<char>) -> Seq<T> {
    if map.dom().contains(coll) {
        map[coll]@
    } else {
        Seq::empty()
    }
}

impl<T> CollMap<Vec<T>> {
    /// Adds `item` at the end of what is listed for `coll`, entering the
    /// collection if need be. Every other collection keeps its list.
    pub fn append(&mut self, coll: &str, item: T)
        ensures
            final(self)@.dom() == old(self)@.dom().insert(coll@),
            listed(final(self)@, coll@) == listed(old(self)@, coll@).push(item),
            forall|other: Seq<char>|
                other != coll@ && old(self)@.dom().contains(other) ==> final(self)@[other] == old(
                    self,
                )@[other],
    {
        let mut list = match self.remove(coll) {
            Some(list) => list,
            None => Vec::new(),
        };
        list.push(item);
        self.insert(coll, list);
        assert(final(self)@.dom() =~= old(self)@.dom().insert(coll@));
    }
}

/// The links of each collection, as the traversals' contracts see them.
pub type Links = Map<Seq<char>, Seq<Link>>;

/// The links listed for `coll`: none where the collection is not entered.
pub open spec fn links_of(links: Links, coll: Seq<char>) -> Seq<Link> {
    if links.dom().contains(coll) {
        links[coll]
    } else {
        Seq::empty()
    }
}

/// The links that a map of link lists holds.
pub open spec fn links_in(map: Map<Seq<char>, Vec<FkField>>) -> Links {
    map.map_values(|list: Vec<FkField>| links_view(list@))
}

/// The links `links` with `link` added at the end of those listed for `coll`.
pub open spec fn with_link(links: Links, coll: Seq<char>, link: Link) -> Links {
    links.insert(coll, links_of(links, coll).push(link))
}

/// Whether a link may be declared with the policy name `on_delete`: with
/// none, or with one that names a policy.
pub open spec fn declarable(on_delete: Option<&str>) -> bool {
    match on_delete {
        Some(name) => policy_named(name@).is_some(),
        None => true,
    }
}

/// The link that a declaration makes.
pub open spec fn declared(field_name: Seq<char>, coll: Seq<char>, on_delete: Option<&str>) -> Link {
    Link {
        field_name,
        coll,
        on_delete: match on_delete {
            Some(name) => Some(name@),
            None => None,
        },
    }
}

/// A link with the given field, collection and policy name, where the name,
/// if there is one, names a policy.
fn new_link(field_name: &str, coll: &str, on_delete: Option<&str>) -> (made: Result<
    FkField,
    UnknownPolicy,
>)
    ensures
        made is Ok <==> declarable(on_delete),
        made is Ok ==> made->Ok_0@ == declared(field_name@, coll@, on_delete),
{
    let policy = match on_delete {
        Some(name) => {
            match OnDelete::from_str(name) {
                Ok(_) => Some(name.to_owned()),
                Err(refused) => {
                    return Err(refused);
                },
            }
        },
        None => None,
    };
    Ok(FkField { field_name: field_name.to_owned(), coll: coll.to_owned(), on_delete: policy })
}

/// Appending a link to a map of link lists adds it to the links that the map
/// holds.
proof fn lemma_append_links(
    before: Map<Seq<char>, Vec<FkField>>,
    after: Map<Seq<char>, Vec<FkField>>,
    coll: Seq<char>,
    link: FkField,
)
    requires
        after.dom() == before.dom().insert(coll),
        listed(after, coll) == listed(before, coll).push(link),
        forall|other: Seq<char>|
            other != coll && before.dom().contains(other) ==> after[other] == before[other],
    ensures
        links_in(after) == with_link(links_in(before), coll, link@),
{
    assert(links_view(after[coll]@) =~= links_of(links_in(before), coll).push(link@));
    assert(links_in(after) =~= with_link(links_in(before), coll, link@));
}

/// The registry: three maps, filled once and read-only afterwards.
pub struct Tumongo {
    fk_fields: FkFieldMap,
    ref_fields: FkFieldMap,
    unique_fields: UniqueFieldMap,
}

impl Tumongo {
    /// Per referenced collection, the links that point at it from other
    /// collections: each names the referencing collection and its field.
    pub closed spec fn reverse_links(self) -> Links {
        links_in(self.fk_fields@)
    }

    /// Per collection, the links that start at its own fields: each names the
    /// field and the collection it points at.
    pub closed spec fn forward_links(self) -> Links {
        links_in(self.ref_fields@)
    }

    /// Per collection, the fields that must be unique in it.
    pub closed spec fn unique_names(self) -> Map<Seq<char>, Seq<Seq<char>>> {
        self.unique_fields@.map_values(|list: Vec<String>| names_view(list@))
    }

    /// A registry in which nothing is declared.
    pub fn new() -> (registry: Self)
        ensures
            registry.reverse_links() == Links::empty(),
            registry.forward_links() == Links::empty(),
            registry.unique_names() == Map::<Seq<char>, Seq<Seq<char>>>::empty(),
    {
        let registry = Tumongo {
            fk_fields: CollMap::new(),
            ref_fields: CollMap::new(),
            unique_fields: CollMap::new(),
        };
        assert(registry.reverse_links() =~= Links::empty());
        assert(registry.forward_links() =~= Links::empty());
        assert(registry.unique_names() =~= Map::<Seq<char>, Seq<Seq<char>>>::empty());
        registry
    }

    /// A registry made of three maps that were filled elsewhere.
    pub fn from_maps(
        fk_fields: FkFieldMap,
        ref_fields: FkFieldMap,
        unique_fields: UniqueFieldMap,
    ) -> (registry: Self)
        ensures
            registry.reverse_links() == links_in(fk_fields@),
            registry.forward_links() == links_in(ref_fields@),
            registry.unique_names() == unique_fields@.map_values(
                |list: Vec<String>| names_view(list@),
            ),
    {
        Tumongo { fk_fields, ref_fields, unique_fields }
    }

    /// Declares that `field_name` of `coll_name` holds a reference to a record
    /// of `target`, with the on-delete policy named by `on_delete`. The link
    /// is entered under `target`, where a delete of one of its records will
    /// look for it. A policy name that names no policy is refused, and the
    /// registry stays as it is.
    pub fn declare_fk(
        &mut self,
        coll_name: &str,
        field_name: &str,
        target: &str,
        on_delete: Option<&str>,
    ) -> (done: Result<(), UnknownPolicy>)
        ensures
            done is Ok <==> declarable(on_delete),
            done is Err ==> *final(self) == *old(self),
            done is Ok ==> final(self).reverse_links() == with_link(
                old(self).reverse_links(),
                target@,
                declared(field_name@, coll_name@, on_delete),
            ),
            done is Ok ==> final(self).forward_links() == old(self).forward_links(),
            done is Ok ==> final(self).unique_names() == old(self).unique_names(),
    {
        let link = match new_link(field_name, coll_name, on_delete) {
            Ok(link) => link,
            Err(refused) => {
                return Err(refused);
            },
        };
        let ghost before = self.fk_fields@;
        self.fk_fields.append(target, link);
        proof {
            lemma_append_links(before, self.fk_fields@, target@, link);
        }
        Ok(())
    }

    /// Declares that `field_name` of `coll_name` holds a reference to a record
    /// of `target`, to be resolved when a record of `coll_name` is populated.
    /// The link is entered under `coll_name`. A policy name that names no
    /// policy is refused, and the registry stays as it is.
    pub fn declare_ref(
        &mut self,
        coll_name: &str,
        field_name: &str,
        target: &str,
        on_delete: Option<&str>,
    ) -> (done: Result<(), UnknownPolicy>)
        ensures
            done is Ok <==> declarable(on_delete),
            done is Err ==> *final(self) == *old(self),
            done is Ok ==> final(self).forward_links() == with_link(
                old(self).forward_links(),
                coll_name@,
                declared(field_name@, target@, on_delete),
            ),
            done is Ok ==> final(self).reverse_links() == old(self).reverse_links(),
            done is Ok ==> final(self).unique_names() == old(self).unique_names(),
    {
        let link = match new_link(field_name, target, on_delete) {
            Ok(link) => link,
            Err(refused) => {
                return Err(refused);
            },
        };
        let ghost before = self.ref_fields@;
        self.ref_fields.append(coll_name, link);
        proof {
            lemma_append_links(before, self.ref_fields@, coll_name@, link);
        }
        Ok(())
    }

    /// Declares that the values of `field_name` must not repeat within
    /// `coll_name`.
    pub fn declare_unique(&mut self, coll_name: &str, field_name: &str)
        ensures
            final(self).unique_names() == old(self).unique_names().insert(
                coll_name@,
                (if old(self).unique_names().dom().contains(coll_name@) {
                    old(self).unique_names()[coll_name@]
                } else {
                    Seq::empty()
                }).push(field_name@),
            ),
            final(self).reverse_links() == old(self).reverse_links(),
            final(self).forward_links() == old(self).forward_links(),
    {
        let ghost before = self.unique_fields@;
        let name = field_name.to_owned();
        self.unique_fields.append(coll_name, name);
        proof {
            let after = self.unique_fields@;
            let view = |list: Vec<String>| names_view(list@);
            let was = if before.dom().contains(coll_name@) {
                names_view(before[coll_name@]@)
            } else {
                Seq::empty()
            };
            assert(listed(after, coll_name@) == listed(before, coll_name@).push(name));
            assert(names_view(after[coll_name@]@) =~= was.push(field_name@));
            assert(after.map_values(view) =~= before.map_values(view).insert(
                coll_name@,
                was.push(field_name@),
            ));
        }
    }

    /// The links that point at `coll` from other collections: none where the
    /// collection has no entry.
    pub fn lookup_reverse(&self, coll: &str) -> (found: &[FkField])
        ensures
            links_view(found@) == links_of(self.reverse_links(), coll@),
    {
        match self.fk_fields.get(coll) {
            Some(list) => list.as_slice(),
            None => {
                assert(links_view(Seq::<FkField>::empty()) =~= Seq::<Link>::empty());
                &[]
            },
        }
    }

    /// The links that start at the fields of `coll`: none where the
    /// collection has no entry.
    pub fn lookup_forward(&self, coll: &str) -> (found: &[FkField])
        ensures
            links_view(found@) == links_of(self.forward_links(), coll@),
    {
        match self.ref_fields.get(coll) {
            Some(list) => list.as_slice(),
            None => {
                assert(links_view(Seq::<FkField>::empty()) =~= Seq::<Link>::empty());
                &[]
            },
        }
    }

    /// The fields that must be unique in `coll`: none where the collection
    /// has no entry.
    pub fn lookup_unique(&self, coll: &str) -> (found: &[String])
        ensures
            names_view(found@) == (if self.unique_names().dom().contains(coll@) {
                self.unique_names()[coll@]
            } else {
                Seq::empty()
            }),
    {
        match self.unique_fields.get(coll) {
            Some(list) => list.as_slice(),
            None => {
                assert(names_view(Seq::<String>::empty()) =~= Seq::<Seq<char>>::empty());
                &[]
            },
        }
    }

    /// The map of unique fields.
    pub fn unique_fields(&self) -> (map: &UniqueFieldMap)
        ensures
            map@.map_values(|list: Vec<String>| names_view(list@)) == self.unique_names(),
    {
        &self.unique_fields
    }

    /// The map of reverse links, keyed by the referenced collection.
    pub fn fk_fields(&self) -> (map: &FkFieldMap)
        ensures
            links_in(map@) == self.reverse_links(),
    {
        &self.fk_fields
    }

    /// The map of forward links, keyed by the collection that owns the field.
    pub fn ref_fields(&self) -> (map: &FkFieldMap)
        ensures
            links_in(map@) == self.forward_links(),
    {
        &self.ref_fields
    }
}

} // verus!
