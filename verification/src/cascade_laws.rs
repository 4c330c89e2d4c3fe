//! What a cascading delete does to a store.
//!
//! The store is modelled as a map from collection and identity to record. A
//! run pairs the machine with such a store: each request is performed on the
//! store, and the machine is stepped with a truthful answer. The laws below
//! hold of every run that comes to its end.

use crate::cascade::{
    chained, identities, lemma_descend_shape, lemma_drop_last_chained, lemma_next_policied,
    lemma_past_link_shape, lemma_proceed_well_formed, lemma_step_well_formed, next_policied,
    on_path, settled, waits_for, ActionView, CascadeView, EventView, FrameView, Phase,
};
use crate::document::{field_at, id_at, lemma_upsert_field_at, upsert, Fields, Value};
use crate::policy::OnDelete;
use crate::registry::{links_of, Links};
use bson::oid::ObjectId;
use vstd::prelude::*;

verus! {

/// The records of a store, by collection and identity.
pub type Store = Map<(Seq<char>, ObjectId), Fields>;

/// A store, the records that were deleted from it, and the requests that
/// were performed on it, in order.
pub struct World {
    pub store: Store,
    pub removed: Set<(Seq<char>, ObjectId)>,
    pub log: Seq<ActionView>,
}

/// The record `at` of `coll` holds, in `field`, a reference to `id`.
pub open spec fn refers(
    store: Store,
    coll: Seq<char>,
    at: ObjectId,
    field: Seq<char>,
    id: ObjectId,
) -> bool {
    store.dom().contains((coll, at)) && id_at(store[(coll, at)], field) == Some(id)
}

/// No record of `coll` holds, in `field`, a reference to `id`.
pub open spec fn no_ref(store: Store, coll: Seq<char>, field: Seq<char>, id: ObjectId) -> bool {
    forall|at: ObjectId| !#[trigger] refers(store, coll, at, field, id)
}

/// The store after `field` was set to null on every record of `coll` where it
/// held a reference to `id`.
pub open spec fn cleared(store: Store, coll: Seq<char>, field: Seq<char>, id: ObjectId) -> Store {
    Map::new(
        |key: (Seq<char>, ObjectId)| store.dom().contains(key),
        |key: (Seq<char>, ObjectId)|
            if key.0 == coll && id_at(store[key], field) == Some(id) {
                upsert(store[key], field, Value::Null)
            } else {
                store[key]
            },
    )
}

/// The world after the store has done what `action` asks.
pub open spec fn perform(world: World, action: ActionView) -> World {
    match action {
        ActionView::ClearField { coll, field_name, id } => World {
            store: cleared(world.store, coll, field_name, id),
            log: world.log.push(action),
            ..world
        },
        ActionView::DeleteRecord { coll, id, is_child } => World {
            store: world.store.remove((coll, id)),
            removed: world.removed.insert((coll, id)),
            log: world.log.push(action),
        },
        ActionView::FindReferrers { .. } => World { log: world.log.push(action), ..world },
        _ => world,
    }
}

/// `event` is what a store in the state `store` answers to `action`: to a
/// lookup, records that carry the identities of exactly the referrers.
pub open spec fn truthful(store: Store, action: ActionView, event: EventView) -> bool {
    match action {
        ActionView::ClearField { .. } => event is Cleared,
        ActionView::DeleteRecord { .. } => event is Removed,
        ActionView::FindReferrers { coll, field_name, id } => {
            &&& event is Referrers
            &&& identities(event->Referrers_0) is Some
            &&& forall|at: ObjectId| #[trigger]
                refers(store, coll, at, field_name, id) ==> identities(
                    event->Referrers_0,
                ).unwrap().contains(at)
            &&& forall|q: int|
                0 <= q < identities(event->Referrers_0).unwrap().len() ==> refers(
                    store,
                    coll,
                    #[trigger] identities(event->Referrers_0).unwrap()[q],
                    field_name,
                    id,
                )
        },
        _ => false,
    }
}

/// A machine, the request it made last, and the world in which that request
/// is still to be performed.
pub struct Run {
    pub machine: CascadeView,
    pub pending: ActionView,
    pub world: World,
}

/// The run of a delete of `id` from `coll` at its first request.
pub open spec fn begin(
    links: Links,
    coll: Seq<char>,
    id: ObjectId,
    is_child: bool,
    store: Store,
) -> Run {
    let first = CascadeView::start(coll, id, is_child).step(links, EventView::Begin);
    Run {
        machine: first.0,
        pending: first.1,
        world: World { store, removed: Set::empty(), log: Seq::empty() },
    }
}

/// The run after the pending request was performed and answered by `event`.
pub open spec fn advance(links: Links, run: Run, event: EventView) -> Run {
    let next = run.machine.step(links, event);
    Run { machine: next.0, pending: next.1, world: perform(run.world, run.pending) }
}

/// The run after the answers `events`, in order.
pub open spec fn run_on(links: Links, run: Run, events: Seq<EventView>) -> Run
    decreases events.len(),
{
    if events.len() == 0 {
        run
    } else {
        advance(links, run_on(links, run, events.drop_last()), events.last())
    }
}

/// Each of `events` is a truthful answer to the request that was pending when
/// it came.
pub open spec fn truthful_run(links: Links, run: Run, events: Seq<EventView>) -> bool
    decreases events.len(),
{
    events.len() == 0 || {
        let at = run_on(links, run, events.drop_last());
        &&& truthful_run(links, run, events.drop_last())
        &&& truthful(at.world.store, at.pending, events.last())
    }
}

/// Some collection declares a `Cascade` link that `coll` is the referencing
/// side of.
pub open spec fn cascades_into(links: Links, coll: Seq<char>) -> bool {
    exists|from: Seq<char>, j: int|
        0 <= j < links_of(links, from).len() && (#[trigger] links_of(links, from)[j]).coll == coll
            && links_of(links, from)[j].policy() == Some(OnDelete::Cascade)
}

/// No record references the record `id` of `coll` through any of the first
/// `upto` links of `coll` that declare a policy.
pub open spec fn clean_below(
    links: Links,
    store: Store,
    coll: Seq<char>,
    id: ObjectId,
    upto: int,
) -> bool {
    forall|j: int|
        0 <= j < upto && j < links_of(links, coll).len() && (#[trigger] links_of(
            links,
            coll,
        )[j]).policy().is_some() ==> no_ref(
            store,
            links_of(links, coll)[j].coll,
            links_of(links, coll)[j].field_name,
            id,
        )
}

/// `new` is `old` but for references that became null.
pub open spec fn only_cleared(old: Fields, new: Fields) -> bool {
    forall|name: Seq<char>| #[trigger]
        field_at(new, name) == field_at(old, name) || (field_at(new, name) == Some(Value::Null)
            && id_at(old, name).is_some())
}

/// Every record of `first` was deleted since, or is there still and changed
/// at most by references that became null; no record was added, and no
/// deleted record is there.
pub open spec fn survivors(first: Store, world: World) -> bool {
    &&& forall|key: (Seq<char>, ObjectId)| #[trigger]
        first.dom().contains(key) ==> world.removed.contains(key) || (world.store.dom().contains(
            key,
        ) && only_cleared(first[key], world.store[key]))
    &&& forall|key: (Seq<char>, ObjectId)| #[trigger]
        world.store.dom().contains(key) ==> first.dom().contains(key)
    &&& forall|key: (Seq<char>, ObjectId)| #[trigger]
        world.removed.contains(key) ==> !world.store.dom().contains(key)
}

/// Every referrer of `frame` through the link it stands at is among the
/// referrers it holds and has not deleted yet.
pub open spec fn covered(links: Links, store: Store, frame: FrameView) -> bool {
    let via = links_of(links, frame.coll)[frame.link];
    forall|at: ObjectId| #[trigger]
        refers(store, via.coll, at, via.field_name, frame.id) ==> exists|q: int|
            frame.kid <= q < frame.kids.len() && #[trigger] frame.kids[q] == at
}

/// Each frame has no referrers left through the links it has passed, and each
/// frame but the last holds all the referrers that are left through its own.
pub open spec fn frames_ok(links: Links, store: Store, stack: Seq<FrameView>) -> bool {
    &&& forall|p: int|
        0 <= p < stack.len() ==> clean_below(
            links,
            store,
            (#[trigger] stack[p]).coll,
            stack[p].id,
            stack[p].link,
        )
    &&& forall|p: int| 0 <= p < stack.len() - 1 ==> covered(links, store, #[trigger] stack[p])
}

/// The request `pending` is the one that the machine waits on: a `Null` link
/// of the record in hand is cleared, a `Cascade` link of it is looked up, and
/// the record itself is deleted only with all its links passed.
pub open spec fn asked(links: Links, machine: CascadeView, pending: ActionView) -> bool {
    let top = machine.top();
    let via = links_of(links, top.coll)[top.link];
    match machine.phase {
        Phase::Fresh => false,
        Phase::Clearing => via.policy() == Some(OnDelete::Null) && pending
            == (ActionView::ClearField { coll: via.coll, field_name: via.field_name, id: top.id }),
        Phase::Finding => via.policy() == Some(OnDelete::Cascade) && pending
            == (ActionView::FindReferrers {
            coll: via.coll,
            field_name: via.field_name,
            id: top.id,
        }),
        Phase::Removing => pending == (ActionView::DeleteRecord {
            coll: top.coll,
            id: top.id,
            is_child: machine.is_child || machine.stack.len() > 1,
        }),
        Phase::Finished => pending is Finished,
        Phase::Aborted(failure) => pending == ActionView::Aborted(failure),
    }
}

/// What holds of every run of the delete of `root` that began on `first`.
pub open spec fn run_inv(
    links: Links,
    root: (Seq<char>, ObjectId),
    first: Store,
    run: Run,
) -> bool {
    let machine = run.machine;
    let world = run.world;
    &&& machine.well_formed(links)
    &&& asked(links, machine, run.pending)
    &&& !(machine.phase is Aborted) ==> {
        &&& frames_ok(links, world.store, machine.stack)
        &&& machine.stack.len() > 0 ==> (machine.stack[0].coll, machine.stack[0].id) == root
        &&& machine.phase is Finished ==> world.removed.contains(root)
        &&& survivors(first, world)
        &&& forall|key: (Seq<char>, ObjectId)| #[trigger]
            world.removed.contains(key) ==> {
                &&& clean_below(
                    links,
                    world.store,
                    key.0,
                    key.1,
                    links_of(links, key.0).len() as int,
                )
                &&& key == root || cascades_into(links, key.0)
            }
    }
}

/// Every reference that `after` holds, `before` held too.
pub open spec fn shrinks(before: Store, after: Store) -> bool {
    forall|coll: Seq<char>, at: ObjectId, field: Seq<char>, id: ObjectId| #[trigger]
        refers(after, coll, at, field, id) ==> refers(before, coll, at, field, id)
}

/// No request creates a reference.
pub proof fn lemma_perform_shrinks(world: World, action: ActionView)
    ensures
        shrinks(world.store, perform(world, action).store),
{
    let after = perform(world, action).store;
    assert forall|coll: Seq<char>, at: ObjectId, field: Seq<char>, id: ObjectId| #[trigger]
        refers(after, coll, at, field, id) implies refers(world.store, coll, at, field, id) by {
        match action {
            ActionView::ClearField { coll: in_coll, field_name, id: of } => {
                let record = world.store[(coll, at)];
                lemma_upsert_field_at(record, field_name, Value::Null, field);
            },
            _ => {},
        }
    }
}

/// Clearing a field leaves no reference in it.
pub proof fn lemma_cleared_has_no_ref(
    store: Store,
    coll: Seq<char>,
    field: Seq<char>,
    id: ObjectId,
)
    ensures
        no_ref(cleared(store, coll, field, id), coll, field, id),
{
    let after = cleared(store, coll, field, id);
    assert forall|at: ObjectId| !#[trigger] refers(after, coll, at, field, id) by {
        if store.dom().contains((coll, at)) {
            lemma_upsert_field_at(store[(coll, at)], field, Value::Null, field);
        }
    }
}

/// Where references only go away, what was free of referrers stays so.
pub proof fn lemma_shrinks_keeps_clean(
    links: Links,
    before: Store,
    after: Store,
    coll: Seq<char>,
    id: ObjectId,
    upto: int,
)
    requires
        shrinks(before, after),
        clean_below(links, before, coll, id, upto),
    ensures
        clean_below(links, after, coll, id, upto),
{
    let list = links_of(links, coll);
    assert forall|j: int|
        0 <= j < upto && j < list.len() && (#[trigger] list[j]).policy().is_some() implies no_ref(
        after,
        list[j].coll,
        list[j].field_name,
        id,
    ) by {
        assert(no_ref(before, list[j].coll, list[j].field_name, id));
        assert forall|at: ObjectId| !#[trigger] refers(
            after,
            list[j].coll,
            at,
            list[j].field_name,
            id,
        ) by {
            assert(!refers(before, list[j].coll, at, list[j].field_name, id));
        }
    }
}

/// Where references only go away, the frames stay in order.
pub proof fn lemma_shrinks_keeps_frames(
    links: Links,
    before: Store,
    after: Store,
    stack: Seq<FrameView>,
)
    requires
        shrinks(before, after),
        frames_ok(links, before, stack),
    ensures
        frames_ok(links, after, stack),
{
    assert forall|p: int| 0 <= p < stack.len() implies clean_below(
        links,
        after,
        (#[trigger] stack[p]).coll,
        stack[p].id,
        stack[p].link,
    ) by {
        lemma_shrinks_keeps_clean(links, before, after, stack[p].coll, stack[p].id, stack[p].link);
    }
    assert forall|p: int| 0 <= p < stack.len() - 1 implies covered(
        links,
        after,
        #[trigger] stack[p],
    ) by {
        let frame = stack[p];
        let via = links_of(links, frame.coll)[frame.link];
        assert(covered(links, before, frame));
        assert forall|at: ObjectId| #[trigger]
            refers(after, via.coll, at, via.field_name, frame.id) implies exists|q: int|
            frame.kid <= q < frame.kids.len() && #[trigger] frame.kids[q] == at by {
            assert(refers(before, via.coll, at, via.field_name, frame.id));
        }
    }
}

/// Being changed only by cleared references carries over two changes.
pub proof fn lemma_only_cleared_twice(first: Fields, then: Fields, last: Fields)
    requires
        only_cleared(first, then),
        only_cleared(then, last),
    ensures
        only_cleared(first, last),
{
    assert forall|name: Seq<char>| #[trigger]
        field_at(last, name) == field_at(first, name) || (field_at(last, name) == Some(
            Value::Null,
        ) && id_at(first, name).is_some()) by {
        assert(field_at(last, name) == field_at(then, name) || (field_at(last, name) == Some(
            Value::Null,
        ) && id_at(then, name).is_some()));
        assert(field_at(then, name) == field_at(first, name) || (field_at(then, name) == Some(
            Value::Null,
        ) && id_at(first, name).is_some()));
    }
}

/// No request does more to the records than delete them or clear references.
pub proof fn lemma_perform_keeps_survivors(first: Store, world: World, action: ActionView)
    requires
        survivors(first, world),
    ensures
        survivors(first, perform(world, action)),
{
    let after = perform(world, action);
    assert forall|key: (Seq<char>, ObjectId)| #[trigger]
        first.dom().contains(key) implies after.removed.contains(key) || (
    after.store.dom().contains(key) && only_cleared(first[key], after.store[key])) by {
        if !world.removed.contains(key) {
            match action {
                ActionView::ClearField { coll, field_name, id } => {
                    let record = world.store[key];
                    let now = after.store[key];
                    assert forall|name: Seq<char>| #[trigger]
                        field_at(now, name) == field_at(record, name) || (field_at(now, name)
                            == Some(Value::Null) && id_at(record, name).is_some()) by {
                        lemma_upsert_field_at(record, field_name, Value::Null, name);
                    }
                    lemma_only_cleared_twice(first[key], record, now);
                },
                _ => {},
            }
        }
    }
}

/// Finding the request for a settled last frame keeps the frames in order,
/// and the request is the one that the machine then waits on.
pub proof fn lemma_proceed_keeps_frames(links: Links, store: Store, st: CascadeView)
    requires
        st.stack.len() > 0,
        chained(st.stack, links),
        settled(st.top(), links),
        frames_ok(links, store, st.stack),
    ensures
        frames_ok(links, store, st.proceed(links).0.stack),
        asked(links, st.proceed(links).0, st.proceed(links).1),
        st.proceed(links).0.stack.len() == st.stack.len(),
        st.proceed(links).0.stack[0].coll == st.stack[0].coll,
        st.proceed(links).0.stack[0].id == st.stack[0].id,
        st.proceed(links).0.is_child == st.is_child,
        st.proceed(links).0.well_formed(links),
        !(st.proceed(links).0.phase is Aborted),
        !(st.proceed(links).0.phase is Finished),
{
    lemma_proceed_well_formed(st, links);
    let top = st.top();
    let list = links_of(links, top.coll);
    lemma_next_policied(list, top.link);
    let at = next_policied(list, top.link);
    let after = st.proceed(links).0;
    assert(after.stack =~= st.stack.drop_last().push(FrameView { link: at, ..top }));
    assert forall|p: int| 0 <= p < after.stack.len() implies clean_below(
        links,
        store,
        (#[trigger] after.stack[p]).coll,
        after.stack[p].id,
        after.stack[p].link,
    ) by {
        if p < st.stack.len() - 1 {
            assert(after.stack[p] == st.stack[p]);
        } else {
            assert(clean_below(links, store, st.stack[p].coll, st.stack[p].id, st.stack[p].link));
            assert forall|j: int|
                0 <= j < at && j < list.len() && (#[trigger] list[j]).policy().is_some() implies no_ref(
                store,
                list[j].coll,
                list[j].field_name,
                top.id,
            ) by {
                if j >= top.link {
                    assert(list[j].policy().is_none());
                }
            }
        }
    }
    assert forall|p: int| 0 <= p < after.stack.len() - 1 implies covered(
        links,
        store,
        #[trigger] after.stack[p],
    ) by {
        assert(after.stack[p] == st.stack[p]);
    }
}

/// A frame with all the referrers of its link in hand, and the first of
/// them made the record in hand, keeps the frames in order.
proof fn lemma_descend_keeps_frames(
    links: Links,
    store: Store,
    st: CascadeView,
    held: CascadeView,
)
    requires
        st.stack.len() > 0,
        held.stack.len() == st.stack.len(),
        forall|i: int| 0 <= i < st.stack.len() - 1 ==> held.stack[i] == st.stack[i],
        held.top().coll == st.top().coll,
        held.top().id == st.top().id,
        held.top().link == st.top().link,
        frames_ok(links, store, st.stack),
        covered(links, store, held.top()),
    ensures
        frames_ok(links, store, held.descend(links).stack),
{
    let down = held.descend(links);
    let n = st.stack.len() as int;
    assert forall|p: int| 0 <= p < down.stack.len() implies clean_below(
        links,
        store,
        (#[trigger] down.stack[p]).coll,
        down.stack[p].id,
        down.stack[p].link,
    ) by {
        if p < n - 1 {
            assert(down.stack[p] == st.stack[p]);
        } else if p == n - 1 {
            assert(down.stack[p] == held.top());
            assert(clean_below(links, store, st.stack[p].coll, st.stack[p].id, st.stack[p].link));
        }
    }
    assert forall|p: int| 0 <= p < down.stack.len() - 1 implies covered(
        links,
        store,
        #[trigger] down.stack[p],
    ) by {
        if p < n - 1 {
            assert(down.stack[p] == st.stack[p]);
        } else {
            assert(down.stack[p] == held.top());
        }
    }
}

/// A frame moved past a link through which nothing references it any more
/// keeps the frames in order.
proof fn lemma_past_link_keeps_frames(links: Links, store: Store, st: CascadeView)
    requires
        st.stack.len() > 0,
        frames_ok(links, store, st.stack),
        no_ref(
            store,
            links_of(links, st.top().coll)[st.top().link].coll,
            links_of(links, st.top().coll)[st.top().link].field_name,
            st.top().id,
        ),
    ensures
        frames_ok(links, store, st.past_link().stack),
{
    let moved = st.past_link();
    let n = st.stack.len() as int;
    let top = st.top();
    let list = links_of(links, top.coll);
    assert forall|p: int| 0 <= p < moved.stack.len() implies clean_below(
        links,
        store,
        (#[trigger] moved.stack[p]).coll,
        moved.stack[p].id,
        moved.stack[p].link,
    ) by {
        if p < n - 1 {
            assert(moved.stack[p] == st.stack[p]);
        } else {
            assert(clean_below(links, store, st.stack[p].coll, st.stack[p].id, st.stack[p].link));
            assert forall|j: int|
                0 <= j < top.link + 1 && j < list.len() && (#[trigger] list[j]).policy().is_some() implies no_ref(
                store,
                list[j].coll,
                list[j].field_name,
                top.id,
            ) by {
            }
        }
    }
    assert forall|p: int| 0 <= p < moved.stack.len() - 1 implies covered(
        links,
        store,
        #[trigger] moved.stack[p],
    ) by {
        assert(moved.stack[p] == st.stack[p]);
    }
}

/// The invariant holds of the run once the removed record `key` is known to
/// be free of referrers and to be one that may be removed.
proof fn lemma_removed_stay_clean(
    links: Links,
    root: (Seq<char>, ObjectId),
    run: Run,
    after: World,
)
    requires
        shrinks(run.world.store, after.store),
        forall|key: (Seq<char>, ObjectId)| #[trigger]
            run.world.removed.contains(key) ==> {
                &&& clean_below(
                    links,
                    run.world.store,
                    key.0,
                    key.1,
                    links_of(links, key.0).len() as int,
                )
                &&& key == root || cascades_into(links, key.0)
            },
        after.removed == run.world.removed,
    ensures
        forall|key: (Seq<char>, ObjectId)| #[trigger]
            after.removed.contains(key) ==> {
                &&& clean_below(
                    links,
                    after.store,
                    key.0,
                    key.1,
                    links_of(links, key.0).len() as int,
                )
                &&& key == root || cascades_into(links, key.0)
            },
{
    assert forall|key: (Seq<char>, ObjectId)| #[trigger] after.removed.contains(key) implies {
        &&& clean_below(links, after.store, key.0, key.1, links_of(links, key.0).len() as int)
        &&& key == root || cascades_into(links, key.0)
    } by {
        lemma_shrinks_keeps_clean(
            links,
            run.world.store,
            after.store,
            key.0,
            key.1,
            links_of(links, key.0).len() as int,
        );
    }
}

/// The invariant carries over the answer to a cleared field.
proof fn lemma_advance_cleared(
    links: Links,
    root: (Seq<char>, ObjectId),
    first: Store,
    run: Run,
)
    requires
        run_inv(links, root, first, run),
        run.machine.phase is Clearing,
    ensures
        run_inv(links, root, first, advance(links, run, EventView::Cleared)),
{
    let st = run.machine;
    let top = st.top();
    let via = links_of(links, top.coll)[top.link];
    let after = perform(run.world, run.pending);
    lemma_step_well_formed(st, links, EventView::Cleared);
    lemma_perform_shrinks(run.world, run.pending);
    lemma_perform_keeps_survivors(first, run.world, run.pending);
    lemma_cleared_has_no_ref(run.world.store, via.coll, via.field_name, top.id);
    lemma_shrinks_keeps_frames(links, run.world.store, after.store, st.stack);
    lemma_removed_stay_clean(links, root, run, after);
    lemma_past_link_keeps_frames(links, after.store, st);
    lemma_past_link_shape(st, links);
    lemma_proceed_keeps_frames(links, after.store, st.past_link());
}

/// A truthful answer to a lookup names every referrer.
proof fn lemma_truthful_names_referrers(
    store: Store,
    coll: Seq<char>,
    field: Seq<char>,
    id: ObjectId,
    event: EventView,
    at: ObjectId,
)
    requires
        truthful(store, ActionView::FindReferrers { coll, field_name: field, id }, event),
        refers(store, coll, at, field, id),
    ensures
        identities(event->Referrers_0).unwrap().contains(at),
{
    let action = ActionView::FindReferrers { coll, field_name: field, id };
    assert(match action {
        ActionView::FindReferrers { coll: c, field_name: f, id: i } => c == coll && f == field && i
            == id,
        _ => false,
    });
}

/// The invariant carries over a truthful answer to a lookup of referrers.
proof fn lemma_advance_found(
    links: Links,
    root: (Seq<char>, ObjectId),
    first: Store,
    run: Run,
    event: EventView,
)
    requires
        run_inv(links, root, first, run),
        run.machine.phase is Finding,
        truthful(run.world.store, run.pending, event),
    ensures
        run_inv(links, root, first, advance(links, run, event)),
{
    let st = run.machine;
    let top = st.top();
    let via = links_of(links, top.coll)[top.link];
    let store = run.world.store;
    let ids = identities(event->Referrers_0).unwrap();
    lemma_step_well_formed(st, links, event);
    assert(perform(run.world, run.pending).store == run.world.store);
    assert(perform(run.world, run.pending).removed == run.world.removed);
    assert(run.pending == (ActionView::FindReferrers {
        coll: via.coll,
        field_name: via.field_name,
        id: top.id,
    }));
    assert(event is Referrers);
    if ids.len() == 0 {
        assert forall|at: ObjectId| #[trigger]
            refers(store, via.coll, at, via.field_name, top.id) implies false by {
            lemma_truthful_names_referrers(store, via.coll, via.field_name, top.id, event, at);
            let q = choose|q: int| 0 <= q < ids.len() && ids[q] == at;
        }
        lemma_past_link_keeps_frames(links, store, st);
        lemma_past_link_shape(st, links);
        lemma_proceed_keeps_frames(links, store, st.past_link());
    } else {
        let held = st.with_top(FrameView { kids: ids, kid: 0, ..top });
        assert forall|at: ObjectId| #[trigger]
            refers(store, via.coll, at, via.field_name, top.id) implies exists|q: int|
            0 <= q < ids.len() && #[trigger] ids[q] == at by {
            lemma_truthful_names_referrers(store, via.coll, via.field_name, top.id, event, at);
        }
        assert(covered(links, store, held.top()));
        lemma_descend_keeps_frames(links, store, st, held);
        lemma_descend_shape(st, held, links);
        lemma_proceed_keeps_frames(links, store, held.descend(links));
    }
}

/// The invariant carries over the answer to a deleted record.
proof fn lemma_advance_removed(
    links: Links,
    root: (Seq<char>, ObjectId),
    first: Store,
    run: Run,
)
    requires
        run_inv(links, root, first, run),
        run.machine.phase is Removing,
    ensures
        run_inv(links, root, first, advance(links, run, EventView::Removed)),
{
    let st = run.machine;
    let top = st.top();
    let gone = (top.coll, top.id);
    let store = run.world.store;
    let after = perform(run.world, run.pending);
    let next = advance(links, run, EventView::Removed);
    lemma_step_well_formed(st, links, EventView::Removed);
    lemma_perform_shrinks(run.world, run.pending);
    lemma_perform_keeps_survivors(first, run.world, run.pending);
    lemma_shrinks_keeps_frames(links, store, after.store, st.stack);
    assert(after.store == store.remove(gone));
    assert(after.removed == run.world.removed.insert(gone));
    assert(clean_below(links, store, top.coll, top.id, top.link));
    if st.stack.len() > 1 {
        assert(waits_for(st.stack[st.stack.len() - 2], st.stack[st.stack.len() - 1], links));
        let below = st.stack[st.stack.len() - 2];
        assert(links_of(links, below.coll)[below.link].coll == top.coll);
        assert(cascades_into(links, top.coll));
    }
    assert forall|key: (Seq<char>, ObjectId)| #[trigger] after.removed.contains(key) implies {
        &&& clean_below(links, after.store, key.0, key.1, links_of(links, key.0).len() as int)
        &&& key == root || cascades_into(links, key.0)
    } by {
        lemma_shrinks_keeps_clean(
            links,
            store,
            after.store,
            key.0,
            key.1,
            links_of(links, key.0).len() as int,
        );
    }
    if st.stack.len() > 1 {
        let back = CascadeView { stack: st.stack.drop_last(), ..st };
        let parent = back.top();
        let via = links_of(links, parent.coll)[parent.link];
        assert(parent == st.stack[st.stack.len() - 2]);
        lemma_drop_last_chained(st.stack, links);
        assert(frames_ok(links, after.store, back.stack)) by {
            assert forall|p: int| 0 <= p < back.stack.len() implies clean_below(
                links,
                after.store,
                (#[trigger] back.stack[p]).coll,
                back.stack[p].id,
                back.stack[p].link,
            ) by {
                assert(back.stack[p] == st.stack[p]);
            }
            assert forall|p: int| 0 <= p < back.stack.len() - 1 implies covered(
                links,
                after.store,
                #[trigger] back.stack[p],
            ) by {
                assert(back.stack[p] == st.stack[p]);
            }
        }
        assert(covered(links, after.store, parent));
        if parent.kid + 1 < parent.kids.len() {
            let held = back.with_top(FrameView { kid: parent.kid + 1, ..parent });
            assert forall|at: ObjectId| #[trigger]
                refers(after.store, via.coll, at, via.field_name, parent.id) implies exists|q: int|
                parent.kid + 1 <= q < parent.kids.len() && #[trigger] parent.kids[q] == at by {
                let q = choose|q: int|
                    parent.kid <= q < parent.kids.len() && #[trigger] parent.kids[q] == at;
                if q == parent.kid {
                    assert((via.coll, at) == gone);
                }
            }
            assert(covered(links, after.store, held.top()));
            lemma_descend_keeps_frames(links, after.store, back, held);
            lemma_descend_shape(back, held, links);
            lemma_proceed_keeps_frames(links, after.store, held.descend(links));
        } else {
            assert forall|at: ObjectId| !#[trigger] refers(
                after.store,
                via.coll,
                at,
                via.field_name,
                parent.id,
            ) by {
                if refers(after.store, via.coll, at, via.field_name, parent.id) {
                    let q = choose|q: int|
                        parent.kid <= q < parent.kids.len() && #[trigger] parent.kids[q] == at;
                    assert((via.coll, at) == gone);
                }
            }
            lemma_past_link_keeps_frames(links, after.store, back);
            lemma_past_link_shape(back, links);
            lemma_proceed_keeps_frames(links, after.store, back.past_link());
        }
    }
}

/// The invariant carries over every truthful answer.
pub proof fn lemma_advance_keeps_inv(
    links: Links,
    root: (Seq<char>, ObjectId),
    first: Store,
    run: Run,
    event: EventView,
)
    requires
        run_inv(links, root, first, run),
        truthful(run.world.store, run.pending, event),
    ensures
        run_inv(links, root, first, advance(links, run, event)),
{
    match run.machine.phase {
        Phase::Clearing => {
            lemma_advance_cleared(links, root, first, run);
        },
        Phase::Finding => {
            lemma_advance_found(links, root, first, run, event);
        },
        Phase::Removing => {
            lemma_advance_removed(links, root, first, run);
        },
        _ => {},
    }
}

/// The invariant holds of a run at its first request.
pub proof fn lemma_begin_has_inv(
    links: Links,
    coll: Seq<char>,
    id: ObjectId,
    is_child: bool,
    store: Store,
)
    ensures
        run_inv(links, (coll, id), store, begin(links, coll, id, is_child, store)),
{
    let st = CascadeView::start(coll, id, is_child);
    assert(frames_ok(links, store, st.stack));
    assert(chained(st.stack, links));
    lemma_proceed_keeps_frames(links, store, st);
    let run = begin(links, coll, id, is_child, store);
    assert forall|key: (Seq<char>, ObjectId)| #[trigger]
        store.dom().contains(key) implies run.world.removed.contains(key) || (
    run.world.store.dom().contains(key) && only_cleared(store[key], run.world.store[key])) by {
        assert(only_cleared(store[key], store[key]));
    }
}

/// The invariant holds of a run after any truthful answers.
pub proof fn lemma_run_has_inv(
    links: Links,
    coll: Seq<char>,
    id: ObjectId,
    is_child: bool,
    store: Store,
    events: Seq<EventView>,
)
    requires
        truthful_run(links, begin(links, coll, id, is_child, store), events),
    ensures
        run_inv(
            links,
            (coll, id),
            store,
            run_on(links, begin(links, coll, id, is_child, store), events),
        ),
    decreases events.len(),
{
    if events.len() == 0 {
        lemma_begin_has_inv(links, coll, id, is_child, store);
    } else {
        lemma_run_has_inv(links, coll, id, is_child, store, events.drop_last());
        lemma_advance_keeps_inv(
            links,
            (coll, id),
            store,
            run_on(links, begin(links, coll, id, is_child, store), events.drop_last()),
            events.last(),
        );
    }
}

/// The run of a delete of `id` from `coll` on `store`, after the answers
/// `events`.
pub open spec fn delete_run(
    links: Links,
    coll: Seq<char>,
    id: ObjectId,
    is_child: bool,
    store: Store,
    events: Seq<EventView>,
) -> Run {
    run_on(links, begin(links, coll, id, is_child, store), events)
}

/// A delete that comes to its end has removed the record, and has left no
/// record that references a removed record through a `Cascade` link: each
/// record that did so at the start was removed in turn, unless the very field
/// was cleared on it instead.
pub proof fn law_cascade_removes_referrers(
    links: Links,
    coll: Seq<char>,
    id: ObjectId,
    is_child: bool,
    store: Store,
    events: Seq<EventView>,
)
    requires
        truthful_run(links, begin(links, coll, id, is_child, store), events),
        delete_run(links, coll, id, is_child, store, events).machine.phase is Finished,
    ensures
        delete_run(links, coll, id, is_child, store, events).world.removed.contains((coll, id)),
        forall|key: (Seq<char>, ObjectId)| #[trigger]
            delete_run(links, coll, id, is_child, store, events).world.removed.contains(key)
                ==> !delete_run(links, coll, id, is_child, store, events).world.store.dom().contains(
                key,
            ),
        forall|key: (Seq<char>, ObjectId), j: int|
            delete_run(links, coll, id, is_child, store, events).world.removed.contains(key) && 0
                <= j < links_of(links, key.0).len() && (#[trigger] links_of(
                links,
                key.0,
            )[j]).policy() == Some(OnDelete::Cascade) ==> no_ref(
                delete_run(links, coll, id, is_child, store, events).world.store,
                links_of(links, key.0)[j].coll,
                links_of(links, key.0)[j].field_name,
                key.1,
            ),
        forall|key: (Seq<char>, ObjectId), j: int, at: ObjectId|
            delete_run(links, coll, id, is_child, store, events).world.removed.contains(key) && 0
                <= j < links_of(links, key.0).len() && (#[trigger] links_of(
                links,
                key.0,
            )[j]).policy() == Some(OnDelete::Cascade) && #[trigger] refers(
                store,
                links_of(links, key.0)[j].coll,
                at,
                links_of(links, key.0)[j].field_name,
                key.1,
            ) ==> delete_run(links, coll, id, is_child, store, events).world.removed.contains(
                (links_of(links, key.0)[j].coll, at),
            ) || field_at(
                delete_run(links, coll, id, is_child, store, events).world.store[(
                    links_of(links, key.0)[j].coll,
                    at,
                )],
                links_of(links, key.0)[j].field_name,
            ) == Some(Value::Null),
{
    lemma_run_has_inv(links, coll, id, is_child, store, events);
    let end = delete_run(links, coll, id, is_child, store, events).world;
    assert forall|key: (Seq<char>, ObjectId), j: int|
        end.removed.contains(key) && 0 <= j < links_of(links, key.0).len() && (#[trigger] links_of(
            links,
            key.0,
        )[j]).policy() == Some(OnDelete::Cascade) implies no_ref(
        end.store,
        links_of(links, key.0)[j].coll,
        links_of(links, key.0)[j].field_name,
        key.1,
    ) by {
        assert(clean_below(links, end.store, key.0, key.1, links_of(links, key.0).len() as int));
    }
    assert forall|key: (Seq<char>, ObjectId), j: int, at: ObjectId|
        end.removed.contains(key) && 0 <= j < links_of(links, key.0).len() && (#[trigger] links_of(
            links,
            key.0,
        )[j]).policy() == Some(OnDelete::Cascade) && #[trigger] refers(
            store,
            links_of(links, key.0)[j].coll,
            at,
            links_of(links, key.0)[j].field_name,
            key.1,
        ) implies end.removed.contains((links_of(links, key.0)[j].coll, at)) || field_at(
        end.store[(links_of(links, key.0)[j].coll, at)],
        links_of(links, key.0)[j].field_name,
    ) == Some(Value::Null) by {
        let via = links_of(links, key.0)[j];
        let child = (via.coll, at);
        assert(store.dom().contains(child));
        if !end.removed.contains(child) {
            assert(only_cleared(store[child], end.store[child]));
            assert(field_at(end.store[child], via.field_name) == field_at(
                store[child],
                via.field_name,
            ) || (field_at(end.store[child], via.field_name) == Some(Value::Null) && id_at(
                store[child],
                via.field_name,
            ).is_some()));
            assert(!refers(end.store, via.coll, at, via.field_name, key.1));
        }
    }
}

/// A delete that comes to its end has left no record that references the
/// deleted record through a `Null` link, and has deleted no record for it:
/// every record of the store is there still, changed at most by references
/// that became null, unless a request of the run deleted it; and what the run
/// deletes, the record itself apart, are records of collections on the
/// referencing side of a `Cascade` link.
pub proof fn law_null_link_clears_and_keeps(
    links: Links,
    coll: Seq<char>,
    id: ObjectId,
    is_child: bool,
    store: Store,
    events: Seq<EventView>,
)
    requires
        truthful_run(links, begin(links, coll, id, is_child, store), events),
        delete_run(links, coll, id, is_child, store, events).machine.phase is Finished,
    ensures
        forall|j: int|
            0 <= j < links_of(links, coll).len() && (#[trigger] links_of(links, coll)[j]).policy()
                == Some(OnDelete::Null) ==> no_ref(
                delete_run(links, coll, id, is_child, store, events).world.store,
                links_of(links, coll)[j].coll,
                links_of(links, coll)[j].field_name,
                id,
            ),
        survivors(store, delete_run(links, coll, id, is_child, store, events).world),
        forall|key: (Seq<char>, ObjectId)| #[trigger]
            delete_run(links, coll, id, is_child, store, events).world.removed.contains(key)
                ==> key == (coll, id) || cascades_into(links, key.0),
{
    lemma_run_has_inv(links, coll, id, is_child, store, events);
    let end = delete_run(links, coll, id, is_child, store, events).world;
    assert(clean_below(links, end.store, coll, id, links_of(links, coll).len() as int));
}

/// Whatever the answer, the request that follows goes by the policies: a
/// field is cleared only for a `Null` link of the record in hand, referrers
/// are looked up only for a `Cascade` link of it, and a record is deleted
/// only when it is the record in hand, which is the record first asked for or
/// a referrer found through a `Cascade` link. A link without a policy is
/// behind none of these.
pub proof fn law_requests_follow_policies(st: CascadeView, links: Links, event: EventView)
    requires
        st.well_formed(links),
    ensures
        st.step(links, event).0.well_formed(links),
        asked(links, st.step(links, event).0, st.step(links, event).1),
        !(st.step(links, event).0.phase is Aborted) ==> chained(
            st.step(links, event).0.stack,
            links,
        ),
{
    let nothing = Store::empty();
    lemma_step_well_formed(st, links, event);
    let next = st.step(links, event);
    if next.0.phase is Aborted || st.phase is Finished {
    } else {
        match st.phase {
            Phase::Fresh => {
                assert(frames_ok(links, nothing, st.stack));
                lemma_proceed_keeps_frames(links, nothing, st);
            },
            Phase::Clearing => {
                lemma_past_link_shape(st, links);
                assert(frames_ok(links, nothing, st.past_link().stack));
                lemma_proceed_keeps_frames(links, nothing, st.past_link());
            },
            Phase::Finding => {
                let ids = identities(event->Referrers_0).unwrap();
                if ids.len() == 0 {
                    lemma_past_link_shape(st, links);
                    assert(frames_ok(links, nothing, st.past_link().stack));
                    lemma_proceed_keeps_frames(links, nothing, st.past_link());
                } else {
                    let held = st.with_top(FrameView { kids: ids, kid: 0, ..st.top() });
                    lemma_descend_shape(st, held, links);
                    assert(frames_ok(links, nothing, held.descend(links).stack));
                    lemma_proceed_keeps_frames(links, nothing, held.descend(links));
                }
            },
            Phase::Removing => {
                if st.stack.len() > 1 {
                    let back = CascadeView { stack: st.stack.drop_last(), ..st };
                    let parent = back.top();
                    assert(parent == st.stack[st.stack.len() - 2]);
                    assert(waits_for(
                        st.stack[st.stack.len() - 2],
                        st.stack[st.stack.len() - 1],
                        links,
                    ));
                    lemma_drop_last_chained(st.stack, links);
                    if parent.kid + 1 < parent.kids.len() {
                        let held = back.with_top(FrameView { kid: parent.kid + 1, ..parent });
                        lemma_descend_shape(back, held, links);
                        assert(frames_ok(links, nothing, held.descend(links).stack));
                        lemma_proceed_keeps_frames(links, nothing, held.descend(links));
                    } else {
                        lemma_past_link_shape(back, links);
                        assert(frames_ok(links, nothing, back.past_link().stack));
                        lemma_proceed_keeps_frames(links, nothing, back.past_link());
                    }
                }
            },
            _ => {},
        }
    }
}

/// Where no link of a collection declares a policy, the delete of one of its
/// records asks for the deletion of that record and for nothing else.
pub proof fn law_unpolicied_links_are_inert(
    links: Links,
    coll: Seq<char>,
    id: ObjectId,
    is_child: bool,
)
    requires
        forall|j: int|
            0 <= j < links_of(links, coll).len() ==> (#[trigger] links_of(
                links,
                coll,
            )[j]).policy().is_none(),
    ensures
        CascadeView::start(coll, id, is_child).step(links, EventView::Begin).1
            == (ActionView::DeleteRecord { coll, id, is_child }),
        CascadeView::start(coll, id, is_child).step(links, EventView::Begin).0.step(
            links,
            EventView::Removed,
        ).1 == ActionView::Finished,
{
    let list = links_of(links, coll);
    lemma_next_policied(list, 0);
    let at = next_policied(list, 0);
    if at < list.len() {
        assert(list[at].policy().is_some());
    }
    let st = CascadeView::start(coll, id, is_child);
    assert(st.top().coll == coll);
    let first = st.step(links, EventView::Begin);
    assert(first.0.phase == Phase::Removing);
    assert(first.0.stack.len() == 1);
}

/// No record is on the path twice.
pub open spec fn simple_path(stack: Seq<FrameView>) -> bool {
    forall|p: int, q: int|
        0 <= p < q < stack.len() ==> !((#[trigger] stack[p]).coll == (#[trigger] stack[q]).coll
            && stack[p].id == stack[q].id)
}

/// The records of `after` are those of `before`, one for one, up to the
/// place `upto`.
pub open spec fn same_records(before: Seq<FrameView>, after: Seq<FrameView>, upto: int) -> bool {
    forall|p: int|
        0 <= p < upto ==> (#[trigger] after[p]).coll == before[p].coll && after[p].id
            == before[p].id
}

/// A path that holds the records of a simple path, one for one, is simple.
proof fn lemma_same_records_simple(before: Seq<FrameView>, after: Seq<FrameView>)
    requires
        simple_path(before),
        after.len() <= before.len(),
        same_records(before, after, after.len() as int),
    ensures
        simple_path(after),
{
    assert forall|p: int, q: int| 0 <= p < q < after.len() implies !((#[trigger] after[p]).coll
        == (#[trigger] after[q]).coll && after[p].id == after[q].id) by {
        assert(!(before[p].coll == before[q].coll && before[p].id == before[q].id));
    }
}

/// Making the next referrer the record in hand keeps the path simple: a
/// referrer that is on the path already is not entered.
proof fn lemma_enter_keeps_simple(held: CascadeView, links: Links)
    requires
        simple_path(held.stack),
        held.stack.len() > 0,
    ensures
        simple_path(held.enter(links).0.stack),
{
    let down = held.descend(links);
    let next = down.top();
    if !on_path(held.stack, next.coll, next.id) {
        let after = down.proceed(links).0;
        let n = held.stack.len() as int;
        assert forall|p: int, q: int| 0 <= p < q < after.stack.len() implies !((
        #[trigger] after.stack[p]).coll == (#[trigger] after.stack[q]).coll && after.stack[p].id
            == after.stack[q].id) by {
            assert(after.stack[p] == held.stack[p]);
            if q < n {
                assert(after.stack[q] == held.stack[q]);
            } else {
                assert(after.stack[q].coll == next.coll && after.stack[q].id == next.id);
            }
        }
    }
}

/// The path never holds a record twice: a delete that would have to delete a
/// record before itself is given up instead. So the path is never longer
/// than the store has records, and a delete cannot descend without end.
pub proof fn law_path_holds_no_record_twice(st: CascadeView, links: Links, event: EventView)
    requires
        st.well_formed(links),
        simple_path(st.stack),
    ensures
        simple_path(st.step(links, event).0.stack),
{
    let next = st.step(links, event).0;
    if next.stack == st.stack {
    } else if st.stack.len() == 0 {
    } else {
        match st.phase {
            Phase::Fresh => {
                lemma_same_records_simple(st.stack, next.stack);
            },
            Phase::Clearing => {
                lemma_same_records_simple(st.stack, next.stack);
            },
            Phase::Finding => {
                let ids = identities(event->Referrers_0).unwrap();
                if ids.len() == 0 {
                    lemma_same_records_simple(st.stack, next.stack);
                } else {
                    let held = st.with_top(FrameView { kids: ids, kid: 0, ..st.top() });
                    lemma_same_records_simple(st.stack, held.stack);
                    lemma_enter_keeps_simple(held, links);
                }
            },
            Phase::Removing => {
                if st.stack.len() > 1 {
                    let back = CascadeView { stack: st.stack.drop_last(), ..st };
                    let parent = back.top();
                    lemma_same_records_simple(st.stack, back.stack);
                    if parent.kid + 1 < parent.kids.len() {
                        let held = back.with_top(FrameView { kid: parent.kid + 1, ..parent });
                        lemma_same_records_simple(back.stack, held.stack);
                        lemma_enter_keeps_simple(held, links);
                    } else {
                        lemma_same_records_simple(back.stack, next.stack);
                    }
                }
            },
            _ => {},
        }
    }
}

} // verus!
