//! The document that a population yields, said directly.
//!
//! The store is modelled by what it answers: for a collection, a field and an
//! identity the records that reference the identity, and for a collection and
//! an identity the record itself. [`joined`] says by recursion over the links
//! which document comes of populating a document against such a store, and
//! [`law_population_yields_the_joined_document`] shows that the machine of
//! [`crate::populate`], answered by that store, hands out that very document.

use crate::document::{id_at, upsert, Fields, Value};
use crate::populate::{
    allows, forward_task, lemma_move_costs, links_left, reverse_task, stack_cost, AnswerView,
    Move, Pass, PopulateView, Relations, RequestView, Role, TaskView, Waiting,
};
use crate::registry::links_of;
use bson::oid::ObjectId;
use vstd::prelude::*;

verus! {

/// What a store answers to the lookups of a population.
pub struct Oracle {
    /// Per collection, field and identity, the records of the collection that
    /// hold the identity in the field.
    pub many: Map<(Seq<char>, Seq<char>, ObjectId), Seq<Fields>>,
    /// Per collection and identity, the record with that identity.
    pub one: Map<(Seq<char>, ObjectId), Fields>,
}

impl Oracle {
    /// The records of `coll` that hold `id` in `field`: none where the store
    /// knows of none.
    pub open spec fn matches(self, coll: Seq<char>, field: Seq<char>, id: ObjectId) -> Seq<Fields> {
        if self.many.dom().contains((coll, field, id)) {
            self.many[(coll, field, id)]
        } else {
            Seq::empty()
        }
    }

    /// The record `id` of `coll`, if there is one.
    pub open spec fn target(self, coll: Seq<char>, id: ObjectId) -> Option<Fields> {
        if self.one.dom().contains((coll, id)) {
            Some(self.one[(coll, id)])
        } else {
            None
        }
    }

    /// The answer to `request`.
    pub open spec fn answer(self, request: RequestView) -> AnswerView {
        match request {
            RequestView::FindMany { coll, field_name, id } => AnswerView::Matches(
                self.matches(coll, field_name, id),
            ),
            RequestView::FindOne { coll, id } => AnswerView::Target(self.target(coll, id)),
            _ => AnswerView::StoreFailed,
        }
    }
}

/// The record that a forward pass finds through the link `link` of `coll`,
/// if the field holds a reference, the filter lets the collection through,
/// and the store has the record.
pub open spec fn found_ahead(
    rel: Relations,
    store: Oracle,
    doc: Fields,
    coll: Seq<char>,
    filter: Option<Seq<Seq<char>>>,
    link: int,
) -> Option<Fields> {
    let via = links_of(rel.forward, coll)[link];
    match id_at(doc, via.field_name) {
        Some(id) => if allows(filter, via.coll) {
            store.target(via.coll, id)
        } else {
            None
        },
        None => None,
    }
}

/// The records that a reverse pass finds through the link `link` of `coll`:
/// none where the collection is in `skip` or is kept out by the filter.
pub open spec fn found_behind(
    rel: Relations,
    store: Oracle,
    id: ObjectId,
    coll: Seq<char>,
    filter: Option<Seq<Seq<char>>>,
    skip: Seq<Seq<char>>,
    link: int,
) -> Seq<Fields> {
    let via = links_of(rel.reverse, coll)[link];
    if skip.contains(via.coll) || !allows(filter, via.coll) {
        Seq::empty()
    } else {
        store.matches(via.coll, via.field_name, id)
    }
}

/// `doc`, a record of `coll`, with the references of its forward links from
/// `link` on resolved: each reference that the filter lets through and that
/// names a record is replaced by that record, itself resolved without a
/// filter. `None` where the records nest deeper than `depth`.
pub open spec fn resolved(
    rel: Relations,
    store: Oracle,
    doc: Fields,
    coll: Seq<char>,
    filter: Option<Seq<Seq<char>>>,
    link: int,
    depth: nat,
) -> Option<Fields>
    decreases depth, 0nat, links_left(links_of(rel.forward, coll), link),
{
    let list = links_of(rel.forward, coll);
    if !(0 <= link < list.len()) {
        Some(doc)
    } else {
        let via = list[link];
        match found_ahead(rel, store, doc, coll, filter, link) {
            None => resolved(rel, store, doc, coll, filter, link + 1, depth),
            Some(record) => if depth == 0 {
                None
            } else {
                match resolved(rel, store, record, via.coll, None, 0, (depth - 1) as nat) {
                    None => None,
                    Some(inner) => resolved(
                        rel,
                        store,
                        upsert(doc, via.field_name, Value::Doc(inner)),
                        coll,
                        filter,
                        link + 1,
                        depth,
                    ),
                }
            },
        }
    }
}

/// `doc`, a record of `coll` with the identity `id`, with the records that
/// reference it through its reverse links from `link` on embedded, and the
/// names of the collections embedded, `skip` before them. A link is passed
/// over where its collection is in `skip` or is kept out by the filter, or
/// where no record references `id` through it; otherwise its matches, each
/// expanded, are embedded under the name of their collection. `None` where
/// the records nest deeper than `depth`.
pub open spec fn expanded(
    rel: Relations,
    store: Oracle,
    doc: Fields,
    id: Option<ObjectId>,
    coll: Seq<char>,
    filter: Option<Seq<Seq<char>>>,
    skip: Seq<Seq<char>>,
    link: int,
    depth: nat,
) -> Option<(Fields, Seq<Seq<char>>)>
    decreases depth, 0nat, links_left(links_of(rel.reverse, coll), link),
{
    let list = links_of(rel.reverse, coll);
    if id is None || !(0 <= link < list.len()) {
        Some((doc, skip))
    } else {
        let via = list[link];
        let found = found_behind(rel, store, id.unwrap(), coll, filter, skip, link);
        if found.len() == 0 {
            expanded(rel, store, doc, id, coll, filter, skip, link + 1, depth)
        } else if depth == 0 {
            None
        } else {
            match gathered(
                rel,
                store,
                found,
                Seq::empty(),
                via.coll,
                filter,
                skip,
                (depth - 1) as nat,
            ) {
                None => None,
                Some(all) => expanded(
                    rel,
                    store,
                    upsert(doc, via.coll, Value::Docs(all.0)),
                    id,
                    coll,
                    filter,
                    all.1.push(via.coll),
                    link + 1,
                    depth,
                ),
            }
        }
    }
}

/// The records `done` followed by the records `pending` of `coll`, each with
/// its forward links resolved under `filter` and then its reverse links
/// expanded without a filter, and the names of the collections embedded on
/// the way, `skip` before them.
pub open spec fn gathered(
    rel: Relations,
    store: Oracle,
    pending: Seq<Fields>,
    done: Seq<Fields>,
    coll: Seq<char>,
    filter: Option<Seq<Seq<char>>>,
    skip: Seq<Seq<char>>,
    depth: nat,
) -> Option<(Seq<Fields>, Seq<Seq<char>>)>
    decreases depth, 1nat, pending.len(),
{
    if pending.len() == 0 {
        Some((done, skip))
    } else {
        match resolved(rel, store, pending[0], coll, filter, 0, depth) {
            None => None,
            Some(forth) => match expanded(
                rel,
                store,
                forth,
                id_at(forth, "_id"@),
                coll,
                None,
                skip,
                0,
                depth,
            ) {
                None => None,
                Some(full) => gathered(
                    rel,
                    store,
                    pending.drop_first(),
                    done.push(full.0),
                    coll,
                    filter,
                    full.1,
                    depth,
                ),
            },
        }
    }
}

/// The document that comes of populating `doc`, a record of `coll`: its
/// reverse links expanded, then its forward links resolved, both under
/// `filter`. `None` where the records nest deeper than `depth`.
pub open spec fn joined(
    rel: Relations,
    store: Oracle,
    doc: Fields,
    coll: Seq<char>,
    filter: Option<Seq<Seq<char>>>,
    depth: nat,
) -> Option<Fields> {
    match expanded(rel, store, doc, id_at(doc, "_id"@), coll, filter, Seq::empty(), 0, depth) {
        None => None,
        Some(back) => resolved(rel, store, back.0, coll, filter, 0, depth),
    }
}

/// The machine with the tasks `stack` and the names `skip`, waiting for
/// nothing.
pub open spec fn poised(stack: Seq<TaskView>, skip: Seq<Seq<char>>) -> PopulateView {
    PopulateView { stack, skip, waiting: Waiting::Fresh }
}

/// The machine one move on, a lookup being answered by `store` at once. A
/// machine that has handed its document out, or has given up, stays.
pub open spec fn tick(rel: Relations, store: Oracle, st: PopulateView) -> PopulateView {
    match st.nudge(rel) {
        Move::On(next) => poised(next.stack, next.skip),
        Move::Ask(next, request) => match next.receive(rel, store.answer(request)) {
            Some(taken) => poised(taken.stack, taken.skip),
            None => st,
        },
    }
}

/// The machine `count` moves on.
pub open spec fn ticks(rel: Relations, store: Oracle, st: PopulateView, count: nat) -> PopulateView
    decreases count,
{
    if count == 0 {
        st
    } else {
        ticks(rel, store, tick(rel, store, st), (count - 1) as nat)
    }
}

/// Moves add up.
pub proof fn lemma_ticks_add(
    rel: Relations,
    store: Oracle,
    st: PopulateView,
    first: nat,
    then: nat,
)
    ensures
        ticks(rel, store, st, first + then) == ticks(
            rel,
            store,
            ticks(rel, store, st, first),
            then,
        ),
    decreases first,
{
    if first > 0 {
        lemma_ticks_add(rel, store, tick(rel, store, st), (first - 1) as nat, then);
    }
}

/// A forward pass at a link through which nothing is found passes the link.
proof fn lemma_tick_forward_pass(
    rel: Relations,
    store: Oracle,
    base: Seq<TaskView>,
    top: TaskView,
    skip: Seq<Seq<char>>,
)
    requires
        top.pass == Pass::Forward,
        0 <= top.link < links_of(rel.forward, top.coll).len(),
        found_ahead(rel, store, top.doc, top.coll, top.filter, top.link) is None,
    ensures
        tick(rel, store, poised(base.push(top), skip)) == poised(
            base.push(TaskView { link: top.link + 1, ..top }),
            skip,
        ),
{
    let st = poised(base.push(top), skip);
    assert(st.top() == top);
    assert(st.stack.drop_last() =~= base);
    let moved = st.with_top(TaskView { link: top.link + 1, ..top });
    assert(moved.stack =~= base.push(TaskView { link: top.link + 1, ..top }));
    match st.nudge(rel) {
        Move::On(next) => {
            assert(next == moved);
        },
        Move::Ask(next, request) => {
            assert(next.top() == top);
            assert(next.stack.drop_last() =~= base);
            let got = next.receive(rel, store.answer(request));
            assert(got == Some(next.with_top(TaskView { link: top.link + 1, ..top })));
            assert(got.unwrap().stack =~= moved.stack);
        },
    }
}

/// A forward pass at a link through which a record is found takes the
/// record up as a task of its own.
proof fn lemma_tick_forward_hit(
    rel: Relations,
    store: Oracle,
    base: Seq<TaskView>,
    top: TaskView,
    skip: Seq<Seq<char>>,
)
    requires
        top.pass == Pass::Forward,
        0 <= top.link < links_of(rel.forward, top.coll).len(),
        found_ahead(rel, store, top.doc, top.coll, top.filter, top.link) is Some,
    ensures
        tick(rel, store, poised(base.push(top), skip)) == poised(
            base.push(top).push(
                forward_task(
                    Role::Target,
                    found_ahead(rel, store, top.doc, top.coll, top.filter, top.link).unwrap(),
                    links_of(rel.forward, top.coll)[top.link].coll,
                    None,
                ),
            ),
            skip,
        ),
{
    let st = poised(base.push(top), skip);
    assert(st.top() == top);
    assert(st.nudge(rel) is Ask);
    let next = st.nudge(rel)->Ask_0;
    assert(next.top() == top);
}

/// A forward pass that is done with a target puts the target in the place
/// of the reference in the document below, which passes its link.
proof fn lemma_tick_forward_done_target(
    rel: Relations,
    store: Oracle,
    lower: Seq<TaskView>,
    below: TaskView,
    top: TaskView,
    skip: Seq<Seq<char>>,
)
    requires
        top.pass == Pass::Forward,
        top.role == Role::Target,
        !(0 <= top.link < links_of(rel.forward, top.coll).len()),
        below.pass == Pass::Forward,
        0 <= below.link < links_of(rel.forward, below.coll).len(),
    ensures
        tick(rel, store, poised(lower.push(below).push(top), skip)) == poised(
            lower.push(
                TaskView {
                    doc: upsert(
                        below.doc,
                        links_of(rel.forward, below.coll)[below.link].field_name,
                        Value::Doc(top.doc),
                    ),
                    link: below.link + 1,
                    ..below
                },
            ),
            skip,
        ),
{
    let st = poised(lower.push(below).push(top), skip);
    assert(st.top() == top);
    assert(st.pop().stack =~= lower.push(below));
    assert(st.pop().top() == below);
    assert(st.pop().stack.drop_last() =~= lower);
    assert(st.nudge(rel) is On);
    let next = st.nudge(rel)->On_0;
    assert(next.stack =~= lower.push(
        TaskView {
            doc: upsert(
                below.doc,
                links_of(rel.forward, below.coll)[below.link].field_name,
                Value::Doc(top.doc),
            ),
            link: below.link + 1,
            ..below
        },
    ));
}

/// A forward pass that is done with a match turns to the reverse pass over
/// the match, without a filter.
proof fn lemma_tick_forward_done_match(
    rel: Relations,
    store: Oracle,
    base: Seq<TaskView>,
    top: TaskView,
    skip: Seq<Seq<char>>,
)
    requires
        top.pass == Pass::Forward,
        top.role == Role::Match,
        !(0 <= top.link < links_of(rel.forward, top.coll).len()),
    ensures
        tick(rel, store, poised(base.push(top), skip)) == poised(
            base.push(reverse_task(Role::Match, top.doc, top.coll, None)),
            skip,
        ),
{
    let st = poised(base.push(top), skip);
    assert(st.top() == top);
    assert(st.stack.drop_last() =~= base);
    assert(st.nudge(rel) is On);
    let next = st.nudge(rel)->On_0;
    assert(next.stack =~= base.push(reverse_task(Role::Match, top.doc, top.coll, None)));
}

/// A reverse pass at a link through which nothing is found passes the link.
proof fn lemma_tick_reverse_pass(
    rel: Relations,
    store: Oracle,
    base: Seq<TaskView>,
    top: TaskView,
    skip: Seq<Seq<char>>,
)
    requires
        top.pass == Pass::Reverse,
        top.pending.len() == 0,
        top.gathered.len() == 0,
        top.id is Some,
        0 <= top.link < links_of(rel.reverse, top.coll).len(),
        found_behind(rel, store, top.id.unwrap(), top.coll, top.filter, skip, top.link).len() == 0,
    ensures
        tick(rel, store, poised(base.push(top), skip)) == poised(
            base.push(TaskView { link: top.link + 1, ..top }),
            skip,
        ),
{
    let st = poised(base.push(top), skip);
    assert(st.top() == top);
    assert(st.stack.drop_last() =~= base);
    let moved = st.with_top(TaskView { link: top.link + 1, ..top });
    assert(moved.stack =~= base.push(TaskView { link: top.link + 1, ..top }));
    match st.nudge(rel) {
        Move::On(next) => {
            assert(next == moved);
        },
        Move::Ask(next, request) => {
            assert(next.top() == top);
            assert(next.stack.drop_last() =~= base);
            let got = next.receive(rel, store.answer(request));
            assert(got == Some(next.with_top(TaskView { link: top.link + 1, ..top })));
            assert(got.unwrap().stack =~= moved.stack);
        },
    }
}

/// A reverse pass at a link through which records are found holds them for
/// expansion.
proof fn lemma_tick_reverse_hit(
    rel: Relations,
    store: Oracle,
    base: Seq<TaskView>,
    top: TaskView,
    skip: Seq<Seq<char>>,
)
    requires
        top.pass == Pass::Reverse,
        top.pending.len() == 0,
        top.gathered.len() == 0,
        top.id is Some,
        0 <= top.link < links_of(rel.reverse, top.coll).len(),
        found_behind(rel, store, top.id.unwrap(), top.coll, top.filter, skip, top.link).len() > 0,
    ensures
        tick(rel, store, poised(base.push(top), skip)) == poised(
            base.push(
                TaskView {
                    pending: found_behind(
                        rel,
                        store,
                        top.id.unwrap(),
                        top.coll,
                        top.filter,
                        skip,
                        top.link,
                    ),
                    ..top
                },
            ),
            skip,
        ),
{
    let st = poised(base.push(top), skip);
    let found = found_behind(rel, store, top.id.unwrap(), top.coll, top.filter, skip, top.link);
    assert(st.top() == top);
    assert(st.stack.drop_last() =~= base);
    assert(st.nudge(rel) is Ask);
    let next = st.nudge(rel)->Ask_0;
    let request = st.nudge(rel)->Ask_1;
    assert(next.top() == top);
    assert(next.stack.drop_last() =~= base);
    let got = next.receive(rel, store.answer(request));
    assert(got == Some(next.with_top(TaskView { pending: found, ..top })));
    assert(got.unwrap().stack =~= base.push(TaskView { pending: found, ..top }));
}

/// A reverse pass with matches left takes the next of them up as a task
/// of its own, beginning with its forward pass.
proof fn lemma_tick_reverse_start(
    rel: Relations,
    store: Oracle,
    base: Seq<TaskView>,
    top: TaskView,
    skip: Seq<Seq<char>>,
)
    requires
        top.pass == Pass::Reverse,
        top.pending.len() > 0,
        0 <= top.link < links_of(rel.reverse, top.coll).len(),
    ensures
        tick(rel, store, poised(base.push(top), skip)) == poised(
            base.push(TaskView { pending: top.pending.drop_first(), ..top }).push(
                forward_task(
                    Role::Match,
                    top.pending[0],
                    links_of(rel.reverse, top.coll)[top.link].coll,
                    top.filter,
                ),
            ),
            skip,
        ),
{
    let st = poised(base.push(top), skip);
    assert(st.top() == top);
    assert(st.stack.drop_last() =~= base);
    assert(st.nudge(rel) is On);
    let next = st.nudge(rel)->On_0;
    assert(next.stack =~= base.push(TaskView { pending: top.pending.drop_first(), ..top }).push(
        forward_task(
            Role::Match,
            top.pending[0],
            links_of(rel.reverse, top.coll)[top.link].coll,
            top.filter,
        ),
    ));
}

/// A reverse pass with all matches of its link expanded embeds them and
/// passes the link; the name of their collection joins `skip`.
proof fn lemma_tick_reverse_attach(
    rel: Relations,
    store: Oracle,
    base: Seq<TaskView>,
    top: TaskView,
    skip: Seq<Seq<char>>,
)
    requires
        top.pass == Pass::Reverse,
        top.pending.len() == 0,
        top.gathered.len() > 0,
        0 <= top.link < links_of(rel.reverse, top.coll).len(),
    ensures
        tick(rel, store, poised(base.push(top), skip)) == poised(
            base.push(
                TaskView {
                    doc: upsert(
                        top.doc,
                        links_of(rel.reverse, top.coll)[top.link].coll,
                        Value::Docs(top.gathered),
                    ),
                    gathered: Seq::empty(),
                    link: top.link + 1,
                    ..top
                },
            ),
            skip.push(links_of(rel.reverse, top.coll)[top.link].coll),
        ),
{
    let st = poised(base.push(top), skip);
    assert(st.top() == top);
    assert(st.stack.drop_last() =~= base);
    assert(st.nudge(rel) is On);
    let next = st.nudge(rel)->On_0;
    assert(next.stack =~= base.push(
        TaskView {
            doc: upsert(
                top.doc,
                links_of(rel.reverse, top.coll)[top.link].coll,
                Value::Docs(top.gathered),
            ),
            gathered: Seq::empty(),
            link: top.link + 1,
            ..top
        },
    ));
}

/// A reverse pass that is done with a match hands the match to the records
/// gathered below.
proof fn lemma_tick_reverse_done_match(
    rel: Relations,
    store: Oracle,
    lower: Seq<TaskView>,
    below: TaskView,
    top: TaskView,
    skip: Seq<Seq<char>>,
)
    requires
        top.pass == Pass::Reverse,
        top.role == Role::Match,
        top.pending.len() == 0,
        top.gathered.len() == 0,
        top.id is None || !(0 <= top.link < links_of(rel.reverse, top.coll).len()),
        below.pass == Pass::Reverse,
    ensures
        tick(rel, store, poised(lower.push(below).push(top), skip)) == poised(
            lower.push(TaskView { gathered: below.gathered.push(top.doc), ..below }),
            skip,
        ),
{
    let st = poised(lower.push(below).push(top), skip);
    assert(st.top() == top);
    assert(st.pop().stack =~= lower.push(below));
    assert(st.pop().top() == below);
    assert(st.pop().stack.drop_last() =~= lower);
    assert(st.nudge(rel) is On);
    let next = st.nudge(rel)->On_0;
    assert(next.stack =~= lower.push(
        TaskView { gathered: below.gathered.push(top.doc), ..below },
    ));
}

/// The reverse pass over the root, once done, turns to the forward pass.
proof fn lemma_tick_reverse_done_root(
    rel: Relations,
    store: Oracle,
    base: Seq<TaskView>,
    top: TaskView,
    skip: Seq<Seq<char>>,
)
    requires
        top.pass == Pass::Reverse,
        top.role == Role::Root,
        top.pending.len() == 0,
        top.gathered.len() == 0,
        top.id is None || !(0 <= top.link < links_of(rel.reverse, top.coll).len()),
    ensures
        tick(rel, store, poised(base.push(top), skip)) == poised(
            base.push(forward_task(Role::Root, top.doc, top.coll, top.filter)),
            skip,
        ),
{
    let st = poised(base.push(top), skip);
    assert(st.top() == top);
    assert(st.stack.drop_last() =~= base);
    assert(st.nudge(rel) is On);
    let next = st.nudge(rel)->On_0;
    assert(next.stack =~= base.push(forward_task(Role::Root, top.doc, top.coll, top.filter)));
}

/// The link at which a reverse pass over `task` ends: where it stands if
/// the document has no identity, past the last link otherwise.
pub open spec fn reverse_end(rel: Relations, task: TaskView) -> int {
    if task.id is None {
        task.link
    } else {
        links_of(rel.reverse, task.coll).len() as int
    }
}

/// A forward pass whose document resolves comes, in some number of moves, to
/// its end with the resolved document; the tasks below it and `skip` are as
/// they were.
pub proof fn lemma_resolved_runs(
    rel: Relations,
    store: Oracle,
    base: Seq<TaskView>,
    top: TaskView,
    skip: Seq<Seq<char>>,
    depth: nat,
) -> (count: nat)
    requires
        top.pass == Pass::Forward,
        0 <= top.link <= links_of(rel.forward, top.coll).len(),
        resolved(rel, store, top.doc, top.coll, top.filter, top.link, depth) is Some,
    ensures
        ticks(rel, store, poised(base.push(top), skip), count) == poised(
            base.push(
                TaskView {
                    doc: resolved(
                        rel,
                        store,
                        top.doc,
                        top.coll,
                        top.filter,
                        top.link,
                        depth,
                    ).unwrap(),
                    link: links_of(rel.forward, top.coll).len() as int,
                    ..top
                },
            ),
            skip,
        ),
    decreases depth, 0nat, links_left(links_of(rel.forward, top.coll), top.link),
{
    let list = links_of(rel.forward, top.coll);
    let st = poised(base.push(top), skip);
    if top.link == list.len() {
        return 0;
    }
    let via = list[top.link];
    match found_ahead(rel, store, top.doc, top.coll, top.filter, top.link) {
        None => {
            let moved = TaskView { link: top.link + 1, ..top };
            lemma_tick_forward_pass(rel, store, base, top, skip);
            let rest = lemma_resolved_runs(rel, store, base, moved, skip, depth);
            lemma_ticks_add(rel, store, st, 1, rest);
            assert(ticks(rel, store, st, 1) == tick(rel, store, st)) by {
                assert(ticks(rel, store, tick(rel, store, st), 0) == tick(rel, store, st));
            }
            1 + rest
        },
        Some(record) => {
            let child = forward_task(Role::Target, record, via.coll, None);
            lemma_tick_forward_hit(rel, store, base, top, skip);
            let inside = lemma_resolved_runs(
                rel,
                store,
                base.push(top),
                child,
                skip,
                (depth - 1) as nat,
            );
            let inner = resolved(rel, store, record, via.coll, None, 0, (depth - 1) as nat).unwrap();
            let done = TaskView {
                doc: inner,
                link: links_of(rel.forward, child.coll).len() as int,
                ..child
            };
            lemma_tick_forward_done_target(rel, store, base, top, done, skip);
            let fed = TaskView {
                doc: upsert(top.doc, via.field_name, Value::Doc(inner)),
                link: top.link + 1,
                ..top
            };
            let rest = lemma_resolved_runs(rel, store, base, fed, skip, depth);
            let st1 = poised(base.push(top).push(child), skip);
            let st2 = poised(base.push(top).push(done), skip);
            let st3 = poised(base.push(fed), skip);
            assert(ticks(rel, store, st, 1) == st1) by {
                assert(ticks(rel, store, tick(rel, store, st), 0) == tick(rel, store, st));
            }
            assert(ticks(rel, store, st2, 1) == st3) by {
                assert(ticks(rel, store, tick(rel, store, st2), 0) == tick(rel, store, st2));
            }
            lemma_ticks_add(rel, store, st, 1, inside);
            lemma_ticks_add(rel, store, st, 1 + inside, 1);
            lemma_ticks_add(rel, store, st, 1 + inside + 1, rest);
            1 + inside + 1 + rest
        },
    }
}

/// One move is one tick.
proof fn lemma_one_tick(rel: Relations, store: Oracle, st: PopulateView)
    ensures
        ticks(rel, store, st, 1) == tick(rel, store, st),
{
    assert(ticks(rel, store, tick(rel, store, st), 0) == tick(rel, store, st));
}

/// What is gathered is as many records as were gathered and pending.
pub proof fn lemma_gathered_len(
    rel: Relations,
    store: Oracle,
    pending: Seq<Fields>,
    done: Seq<Fields>,
    coll: Seq<char>,
    filter: Option<Seq<Seq<char>>>,
    skip: Seq<Seq<char>>,
    depth: nat,
)
    requires
        gathered(rel, store, pending, done, coll, filter, skip, depth) is Some,
    ensures
        gathered(rel, store, pending, done, coll, filter, skip, depth).unwrap().0.len()
            == done.len() + pending.len(),
    decreases pending.len(),
{
    if pending.len() > 0 {
        let forth = resolved(rel, store, pending[0], coll, filter, 0, depth).unwrap();
        let full = expanded(rel, store, forth, id_at(forth, "_id"@), coll, None, skip, 0, depth).unwrap();
        lemma_gathered_len(
            rel,
            store,
            pending.drop_first(),
            done.push(full.0),
            coll,
            filter,
            full.1,
            depth,
        );
    }
}

/// A reverse pass whose document expands comes, in some number of moves, to
/// its end with the expanded document and the names of the collections
/// embedded; the tasks below it are as they were.
pub proof fn lemma_expanded_runs(
    rel: Relations,
    store: Oracle,
    base: Seq<TaskView>,
    top: TaskView,
    skip: Seq<Seq<char>>,
    depth: nat,
) -> (count: nat)
    requires
        top.pass == Pass::Reverse,
        top.pending.len() == 0,
        top.gathered.len() == 0,
        0 <= top.link <= links_of(rel.reverse, top.coll).len(),
        expanded(rel, store, top.doc, top.id, top.coll, top.filter, skip, top.link, depth) is Some,
    ensures
        ticks(rel, store, poised(base.push(top), skip), count) == poised(
            base.push(
                TaskView {
                    doc: expanded(
                        rel,
                        store,
                        top.doc,
                        top.id,
                        top.coll,
                        top.filter,
                        skip,
                        top.link,
                        depth,
                    ).unwrap().0,
                    link: reverse_end(rel, top),
                    ..top
                },
            ),
            expanded(
                rel,
                store,
                top.doc,
                top.id,
                top.coll,
                top.filter,
                skip,
                top.link,
                depth,
            ).unwrap().1,
        ),
    decreases depth, 0nat, links_left(links_of(rel.reverse, top.coll), top.link),
{
    let list = links_of(rel.reverse, top.coll);
    let st = poised(base.push(top), skip);
    if top.id is None || top.link == list.len() {
        return 0;
    }
    let via = list[top.link];
    let found = found_behind(rel, store, top.id.unwrap(), top.coll, top.filter, skip, top.link);
    if found.len() == 0 {
        let moved = TaskView { link: top.link + 1, ..top };
        lemma_tick_reverse_pass(rel, store, base, top, skip);
        let rest = lemma_expanded_runs(rel, store, base, moved, skip, depth);
        lemma_one_tick(rel, store, st);
        lemma_ticks_add(rel, store, st, 1, rest);
        1 + rest
    } else {
        let held = TaskView { pending: found, ..top };
        lemma_tick_reverse_hit(rel, store, base, top, skip);
        let all = gathered(
            rel,
            store,
            found,
            Seq::empty(),
            via.coll,
            top.filter,
            skip,
            (depth - 1) as nat,
        ).unwrap();
        assert(held.gathered =~= Seq::<Fields>::empty());
        let inside = lemma_gathered_runs(rel, store, base, held, skip, (depth - 1) as nat);
        lemma_gathered_len(
            rel,
            store,
            found,
            Seq::empty(),
            via.coll,
            top.filter,
            skip,
            (depth - 1) as nat,
        );
        let full = TaskView { pending: Seq::empty(), gathered: all.0, ..held };
        lemma_tick_reverse_attach(rel, store, base, full, all.1);
        let fed = TaskView {
            doc: upsert(top.doc, via.coll, Value::Docs(all.0)),
            gathered: Seq::empty(),
            link: top.link + 1,
            ..full
        };
        assert(fed.pending.len() == 0 && fed.gathered.len() == 0);
        let rest = lemma_expanded_runs(rel, store, base, fed, all.1.push(via.coll), depth);
        let st1 = poised(base.push(held), skip);
        let st2 = poised(base.push(full), all.1);
        let st3 = poised(base.push(fed), all.1.push(via.coll));
        lemma_one_tick(rel, store, st);
        lemma_one_tick(rel, store, st2);
        lemma_ticks_add(rel, store, st, 1, inside);
        lemma_ticks_add(rel, store, st, 1 + inside, 1);
        lemma_ticks_add(rel, store, st, 1 + inside + 1, rest);
        assert(TaskView {
            doc: expanded(
                rel,
                store,
                top.doc,
                top.id,
                top.coll,
                top.filter,
                skip,
                top.link,
                depth,
            ).unwrap().0,
            link: reverse_end(rel, top),
            ..top
        } == TaskView {
            doc: expanded(
                rel,
                store,
                fed.doc,
                fed.id,
                fed.coll,
                fed.filter,
                all.1.push(via.coll),
                fed.link,
                depth,
            ).unwrap().0,
            link: reverse_end(rel, fed),
            ..fed
        }) by {
            assert(fed.pending =~= top.pending);
            assert(fed.gathered =~= top.gathered);
        }
        1 + inside + 1 + rest
    }
}

/// A reverse pass that holds matches of the link in hand, all of which
/// expand, comes in some number of moves to hold them all expanded, with the
/// names of the collections embedded on the way; the tasks below it are as
/// they were.
pub proof fn lemma_gathered_runs(
    rel: Relations,
    store: Oracle,
    base: Seq<TaskView>,
    top: TaskView,
    skip: Seq<Seq<char>>,
    depth: nat,
) -> (count: nat)
    requires
        top.pass == Pass::Reverse,
        0 <= top.link < links_of(rel.reverse, top.coll).len(),
        gathered(
            rel,
            store,
            top.pending,
            top.gathered,
            links_of(rel.reverse, top.coll)[top.link].coll,
            top.filter,
            skip,
            depth,
        ) is Some,
    ensures
        ticks(rel, store, poised(base.push(top), skip), count) == poised(
            base.push(
                TaskView {
                    pending: Seq::empty(),
                    gathered: gathered(
                        rel,
                        store,
                        top.pending,
                        top.gathered,
                        links_of(rel.reverse, top.coll)[top.link].coll,
                        top.filter,
                        skip,
                        depth,
                    ).unwrap().0,
                    ..top
                },
            ),
            gathered(
                rel,
                store,
                top.pending,
                top.gathered,
                links_of(rel.reverse, top.coll)[top.link].coll,
                top.filter,
                skip,
                depth,
            ).unwrap().1,
        ),
    decreases depth, 1nat, top.pending.len(),
{
    let st = poised(base.push(top), skip);
    let via = links_of(rel.reverse, top.coll)[top.link];
    if top.pending.len() == 0 {
        assert(top.pending =~= Seq::<Fields>::empty());
        return 0;
    }
    let kept = TaskView { pending: top.pending.drop_first(), ..top };
    let child = forward_task(Role::Match, top.pending[0], via.coll, top.filter);
    lemma_tick_reverse_start(rel, store, base, top, skip);
    let forth = resolved(rel, store, top.pending[0], via.coll, top.filter, 0, depth).unwrap();
    let ahead = lemma_resolved_runs(rel, store, base.push(kept), child, skip, depth);
    let gone = TaskView {
        doc: forth,
        link: links_of(rel.forward, child.coll).len() as int,
        ..child
    };
    lemma_tick_forward_done_match(rel, store, base.push(kept), gone, skip);
    let turned = reverse_task(Role::Match, forth, via.coll, None);
    let full = expanded(rel, store, forth, id_at(forth, "_id"@), via.coll, None, skip, 0, depth).unwrap();
    let behind = lemma_expanded_runs(rel, store, base.push(kept), turned, skip, depth);
    let ended = TaskView { doc: full.0, link: reverse_end(rel, turned), ..turned };
    lemma_tick_reverse_done_match(rel, store, base, kept, ended, full.1);
    let fed = TaskView { gathered: kept.gathered.push(full.0), ..kept };
    let rest = lemma_gathered_runs(rel, store, base, fed, full.1, depth);
    let st1 = poised(base.push(kept).push(child), skip);
    let st2 = poised(base.push(kept).push(gone), skip);
    let st3 = poised(base.push(kept).push(turned), skip);
    let st4 = poised(base.push(kept).push(ended), full.1);
    let st5 = poised(base.push(fed), full.1);
    lemma_one_tick(rel, store, st);
    lemma_one_tick(rel, store, st2);
    lemma_one_tick(rel, store, st4);
    lemma_ticks_add(rel, store, st, 1, ahead);
    lemma_ticks_add(rel, store, st, 1 + ahead, 1);
    lemma_ticks_add(rel, store, st, 1 + ahead + 1, behind);
    lemma_ticks_add(rel, store, st, 1 + ahead + 1 + behind, 1);
    lemma_ticks_add(rel, store, st, 1 + ahead + 1 + behind + 1, rest);
    1 + ahead + 1 + behind + 1 + rest
}

/// The machine and its request after `count` of its requests, from `at` on,
/// were answered by `store`.
pub open spec fn answered(
    rel: Relations,
    store: Oracle,
    at: (PopulateView, RequestView),
    count: nat,
) -> (PopulateView, RequestView)
    decreases count,
{
    if count == 0 {
        at
    } else {
        let before = answered(rel, store, at, (count - 1) as nat);
        before.0.step(rel, store.answer(before.1))
    }
}

/// Answering one request and then `count` more is answering `count + 1`.
proof fn lemma_answered_shift(
    rel: Relations,
    store: Oracle,
    at: (PopulateView, RequestView),
    count: nat,
)
    ensures
        answered(rel, store, at, count + 1) == answered(
            rel,
            store,
            at.0.step(rel, store.answer(at.1)),
            count,
        ),
    decreases count,
{
    if count > 0 {
        lemma_answered_shift(rel, store, at, (count - 1) as nat);
    } else {
        assert(answered(rel, store, at, 0) == at);
    }
}

/// What a machine settles to does not depend on what it waited for.
proof fn lemma_settle_ignores_waiting(a: PopulateView, b: PopulateView, rel: Relations)
    requires
        a.stack == b.stack,
        a.skip == b.skip,
    ensures
        a.settle(rel) == b.settle(rel),
    decreases stack_cost(rel, a.stack),
{
    lemma_move_costs(a, rel);
    match a.nudge(rel) {
        Move::On(next) => {
            let other = b.nudge(rel)->On_0;
            lemma_settle_ignores_waiting(next, other, rel);
        },
        Move::Ask(next, request) => {},
    }
}

/// Where the machine, some moves on, settles to handing its document out,
/// it hands the same document out after some number of its requests were
/// answered.
proof fn lemma_ticks_are_answers(
    rel: Relations,
    store: Oracle,
    st: PopulateView,
    moves: nat,
) -> (count: nat)
    requires
        st.waiting == Waiting::Fresh,
        ticks(rel, store, st, moves).settle(rel).1 is Finished,
    ensures
        answered(rel, store, st.settle(rel), count) == ticks(rel, store, st, moves).settle(rel),
    decreases moves,
{
    if moves == 0 {
        return 0;
    }
    let after = tick(rel, store, st);
    match st.nudge(rel) {
        Move::On(next) => {
            lemma_settle_ignores_waiting(next, after, rel);
            lemma_ticks_are_answers(rel, store, after, (moves - 1) as nat)
        },
        Move::Ask(next, request) => {
            match next.receive(rel, store.answer(request)) {
                Some(taken) => {
                    lemma_settle_ignores_waiting(taken, after, rel);
                    let rest = lemma_ticks_are_answers(rel, store, after, (moves - 1) as nat);
                    lemma_answered_shift(rel, store, st.settle(rel), rest);
                    assert(next.step(rel, store.answer(request)) == taken.settle(rel));
                    rest + 1
                },
                None => lemma_ticks_are_answers(rel, store, st, (moves - 1) as nat),
            }
        },
    }
}

/// A population whose lookups the store answers hands out the joined
/// document: where `joined` says what comes of populating `doc`, the machine
/// begun on `doc` makes, after `count` of its requests were answered, the
/// request that hands that very document out.
pub proof fn law_population_yields_the_joined_document(
    rel: Relations,
    store: Oracle,
    doc: Fields,
    coll: Seq<char>,
    filter: Option<Seq<Seq<char>>>,
    depth: nat,
) -> (count: nat)
    requires
        joined(rel, store, doc, coll, filter, depth) is Some,
    ensures
        answered(
            rel,
            store,
            PopulateView::start(doc, coll, filter).step(rel, AnswerView::Begin),
            count,
        ).1 == RequestView::Finished(joined(rel, store, doc, coll, filter, depth).unwrap()),
{
    let none = Seq::<TaskView>::empty();
    let nothing = Seq::<Seq<char>>::empty();
    let root = reverse_task(Role::Root, doc, coll, filter);
    let start = PopulateView::start(doc, coll, filter);
    assert(start.stack =~= none.push(root));
    assert(start == poised(none.push(root), nothing));
    let back = expanded(rel, store, doc, root.id, coll, filter, nothing, 0, depth).unwrap();
    let behind = lemma_expanded_runs(rel, store, none, root, nothing, depth);
    let ended = TaskView { doc: back.0, link: reverse_end(rel, root), ..root };
    lemma_tick_reverse_done_root(rel, store, none, ended, back.1);
    let turned = forward_task(Role::Root, back.0, coll, filter);
    let ahead = lemma_resolved_runs(rel, store, none, turned, back.1, depth);
    let result = joined(rel, store, doc, coll, filter, depth).unwrap();
    let last = TaskView {
        doc: result,
        link: links_of(rel.forward, coll).len() as int,
        ..turned
    };
    let end = poised(none.push(last), back.1);
    lemma_one_tick(rel, store, poised(none.push(ended), back.1));
    lemma_ticks_add(rel, store, start, behind, 1);
    lemma_ticks_add(rel, store, start, behind + 1, ahead);
    assert(ticks(rel, store, start, behind + 1 + ahead) == end);
    assert(end.top() == last);
    assert(end.nudge(rel) is Ask);
    assert(end.settle(rel).1 == RequestView::Finished(result));
    assert(start.receive(rel, AnswerView::Begin) == Some(start));
    lemma_ticks_are_answers(rel, store, start, behind + 1 + ahead)
}

} // verus!
