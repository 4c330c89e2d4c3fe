//! What a cascading delete does to a store, said directly.
//!
//! [`deleted`] says by recursion over the links what becomes of a store when
//! a record is deleted from it, and which requests are made in which order:
//! for each link of the record's collection in turn, a `Null` link has its
//! field cleared, a `Cascade` link has each referrer deleted by the same
//! rule, and the record itself goes last.
//! [`law_delete_does_what_deleted_says`] shows that the machine of
//! [`crate::cascade`], answered by the store, does exactly that.

use crate::cascade::{
    identities, next_policied, on_path, ActionView, CascadeView, EventView, FrameView, Phase,
};
use crate::cascade_laws::{
    advance, begin, clean_below, lemma_run_has_inv, no_ref, perform, refers, run_on, survivors,
    truthful, truthful_run, Run, Store, World,
};
use crate::document::{id_at, lemma_key_index_is, Fields, Value};
use crate::policy::OnDelete;
use crate::registry::{links_of, Links};
use bson::oid::ObjectId;
use vstd::prelude::*;

verus! {

/// What a store holds, as far as a lookup of referrers shows it: for the
/// state of the store, a collection, a field and an identity, the records of
/// the collection that hold the identity in the field, in the order in which
/// the store returns them.
pub type Finder = spec_fn(Store, Seq<char>, Seq<char>, ObjectId) -> Seq<Fields>;

/// The answer of the store to the request `pending`.
pub open spec fn respond(find: Finder, store: Store, pending: ActionView) -> EventView {
    match pending {
        ActionView::ClearField { .. } => EventView::Cleared,
        ActionView::DeleteRecord { .. } => EventView::Removed,
        ActionView::FindReferrers { coll, field_name, id } => EventView::Referrers(
            find(store, coll, field_name, id),
        ),
        _ => EventView::StoreFailed,
    }
}

/// The run after `count` more of its requests were performed and answered.
pub open spec fn drive(links: Links, find: Finder, run: Run, count: nat) -> Run
    decreases count,
{
    if count == 0 {
        run
    } else {
        drive(
            links,
            find,
            advance(links, run, respond(find, run.world.store, run.pending)),
            (count - 1) as nat,
        )
    }
}

/// The frame of a record that none of its links was looked at for yet.
pub open spec fn fresh_frame(coll: Seq<char>, id: ObjectId) -> FrameView {
    FrameView { coll, id, link: 0, kids: Seq::empty(), kid: 0 }
}

/// The frame of the referrer in hand of `held`.
pub open spec fn child_frame(links: Links, held: FrameView) -> FrameView {
    fresh_frame(links_of(links, held.coll)[held.link].coll, held.kids[held.kid])
}

/// The world after the links of the record of `top`, from the link in hand
/// on, were seen to: each `Null` link has its field cleared, each `Cascade`
/// link has its referrers, as the store returns them, deleted one after the
/// other, each with what references it in turn. `base` is the path down to
/// the record. `None` where a referrer carries no identity, where a
/// referrer is on the path already, or where the referrers nest deeper than
/// `depth`.
pub open spec fn erased(
    links: Links,
    find: Finder,
    world: World,
    base: Seq<FrameView>,
    top: FrameView,
    depth: nat,
) -> Option<World>
    decreases depth, 0nat, links_of(links, top.coll).len() - top.link,
{
    let list = links_of(links, top.coll);
    if !(0 <= top.link < list.len()) {
        Some(world)
    } else {
        let via = list[top.link];
        let onward = FrameView { link: top.link + 1, ..top };
        match via.policy() {
            None => erased(links, find, world, base, onward, depth),
            Some(OnDelete::Null) => erased(
                links,
                find,
                perform(
                    world,
                    ActionView::ClearField {
                        coll: via.coll,
                        field_name: via.field_name,
                        id: top.id,
                    },
                ),
                base,
                onward,
                depth,
            ),
            Some(OnDelete::Cascade) => {
                let asked = ActionView::FindReferrers {
                    coll: via.coll,
                    field_name: via.field_name,
                    id: top.id,
                };
                match identities(find(world.store, via.coll, via.field_name, top.id)) {
                    None => None,
                    Some(ids) => if ids.len() == 0 {
                        erased(links, find, perform(world, asked), base, onward, depth)
                    } else if depth == 0 {
                        None
                    } else {
                        match erased_each(
                            links,
                            find,
                            perform(world, asked),
                            base,
                            FrameView { kids: ids, kid: 0, ..top },
                            (depth - 1) as nat,
                        ) {
                            None => None,
                            Some(done) => erased(links, find, done, base, onward, depth),
                        }
                    },
                }
            },
        }
    }
}

/// The world after the referrers that `held` holds, from the one in hand
/// on, were deleted one after the other: each with the links of its own
/// collection seen to first, and then itself.
pub open spec fn erased_each(
    links: Links,
    find: Finder,
    world: World,
    base: Seq<FrameView>,
    held: FrameView,
    depth: nat,
) -> Option<World>
    decreases depth, 1nat, held.kids.len() - held.kid,
{
    if !(0 <= held.kid < held.kids.len()) {
        Some(world)
    } else {
        let child = child_frame(links, held);
        if on_path(base.push(held), child.coll, child.id) {
            None
        } else {
            match erased(links, find, world, base.push(held), child, depth) {
                None => None,
                Some(done) => erased_each(
                    links,
                    find,
                    perform(
                        done,
                        ActionView::DeleteRecord { coll: child.coll, id: child.id, is_child: true },
                    ),
                    base,
                    FrameView { kid: held.kid + 1, ..held },
                    depth,
                ),
            }
        }
    }
}

/// The world after the record `id` of `coll` was deleted from `store`: the
/// links of its collection seen to, and the record itself deleted last.
/// `None` where [`erased`] is.
pub open spec fn deleted(
    links: Links,
    find: Finder,
    store: Store,
    coll: Seq<char>,
    id: ObjectId,
    is_child: bool,
    depth: nat,
) -> Option<World> {
    match erased(
        links,
        find,
        World { store, removed: Set::empty(), log: Seq::empty() },
        Seq::empty(),
        fresh_frame(coll, id),
        depth,
    ) {
        None => None,
        Some(done) => Some(perform(done, ActionView::DeleteRecord { coll, id, is_child })),
    }
}

/// The run in which the request of the last frame of `stack` is pending.
pub open spec fn poised(links: Links, stack: Seq<FrameView>, is_child: bool, world: World) -> Run {
    let at = (CascadeView { stack, is_child, phase: Phase::Fresh }).proceed(links);
    Run { machine: at.0, pending: at.1, world }
}

/// Requests performed add up.
pub proof fn lemma_drive_add(links: Links, find: Finder, run: Run, first: nat, then: nat)
    ensures
        drive(links, find, run, first + then) == drive(
            links,
            find,
            drive(links, find, run, first),
            then,
        ),
    decreases first,
{
    if first > 0 {
        lemma_drive_add(
            links,
            find,
            advance(links, run, respond(find, run.world.store, run.pending)),
            (first - 1) as nat,
            then,
        );
    }
}

/// The run in which the deletion of the record of `top` is pending, with
/// all its links seen to.
pub open spec fn at_removal(
    base: Seq<FrameView>,
    top: FrameView,
    is_child: bool,
    world: World,
) -> Run {
    Run {
        machine: CascadeView { stack: base.push(top), is_child, phase: Phase::Removing },
        pending: ActionView::DeleteRecord {
            coll: top.coll,
            id: top.id,
            is_child: is_child || base.len() > 0,
        },
        world,
    }
}

/// A link without a policy is passed over without a request.
proof fn lemma_poised_passes(
    links: Links,
    base: Seq<FrameView>,
    top: FrameView,
    is_child: bool,
    world: World,
)
    requires
        0 <= top.link < links_of(links, top.coll).len(),
        links_of(links, top.coll)[top.link].policy() is None,
    ensures
        poised(links, base.push(top), is_child, world) == poised(
            links,
            base.push(FrameView { link: top.link + 1, ..top }),
            is_child,
            world,
        ),
{
    let onward = FrameView { link: top.link + 1, ..top };
    let a = CascadeView { stack: base.push(top), is_child, phase: Phase::Fresh };
    let b = CascadeView { stack: base.push(onward), is_child, phase: Phase::Fresh };
    let list = links_of(links, top.coll);
    assert(next_policied(list, top.link) == next_policied(list, top.link + 1));
    assert(a.stack.drop_last() =~= base);
    assert(b.stack.drop_last() =~= base);
    assert(a.top() == top);
    assert(b.top() == onward);
}

/// With no link left, the deletion of the record itself is pending.
proof fn lemma_poised_at_end(
    links: Links,
    base: Seq<FrameView>,
    top: FrameView,
    is_child: bool,
    world: World,
)
    requires
        top.link == links_of(links, top.coll).len(),
    ensures
        poised(links, base.push(top), is_child, world) == at_removal(base, top, is_child, world),
{
    let a = CascadeView { stack: base.push(top), is_child, phase: Phase::Fresh };
    assert(a.top() == top);
    assert(a.stack.drop_last() =~= base);
    assert(a.proceed(links).0.stack =~= base.push(top));
}

/// After the field of a `Null` link is cleared, the next link is in hand.
proof fn lemma_advance_clears(
    links: Links,
    find: Finder,
    base: Seq<FrameView>,
    top: FrameView,
    is_child: bool,
    world: World,
)
    requires
        0 <= top.link < links_of(links, top.coll).len(),
        links_of(links, top.coll)[top.link].policy() == Some(OnDelete::Null),
        top.kids.len() == 0,
        top.kid == 0,
    ensures
        drive(links, find, poised(links, base.push(top), is_child, world), 1) == poised(
            links,
            base.push(FrameView { link: top.link + 1, ..top }),
            is_child,
            perform(
                world,
                ActionView::ClearField {
                    coll: links_of(links, top.coll)[top.link].coll,
                    field_name: links_of(links, top.coll)[top.link].field_name,
                    id: top.id,
                },
            ),
        ),
{
    let a = CascadeView { stack: base.push(top), is_child, phase: Phase::Fresh };
    let run = poised(links, base.push(top), is_child, world);
    let onward = FrameView { link: top.link + 1, ..top };
    assert(a.top() == top);
    assert(a.stack.drop_last() =~= base);
    assert(next_policied(links_of(links, top.coll), top.link) == top.link);
    assert(run.machine.stack =~= base.push(top));
    assert(run.machine.top() == top);
    assert(run.machine.past_link().stack =~= base.push(onward)) by {
        assert(onward.kids =~= Seq::<ObjectId>::empty());
        assert(run.machine.stack.drop_last() =~= base);
    }
    let next = advance(links, run, respond(find, run.world.store, run.pending));
    assert(drive(links, find, next, 0) == next);
    let b = CascadeView { stack: base.push(onward), is_child, phase: Phase::Fresh };
    assert(run.machine.past_link().proceed(links) == b.proceed(links));
}

/// After no referrer was found through a `Cascade` link, the next link is
/// in hand.
proof fn lemma_advance_finds_none(
    links: Links,
    find: Finder,
    base: Seq<FrameView>,
    top: FrameView,
    is_child: bool,
    world: World,
)
    requires
        0 <= top.link < links_of(links, top.coll).len(),
        links_of(links, top.coll)[top.link].policy() == Some(OnDelete::Cascade),
        top.kids.len() == 0,
        top.kid == 0,
        identities(
            find(
                world.store,
                links_of(links, top.coll)[top.link].coll,
                links_of(links, top.coll)[top.link].field_name,
                top.id,
            ),
        ) == Some(Seq::<ObjectId>::empty()),
    ensures
        drive(links, find, poised(links, base.push(top), is_child, world), 1) == poised(
            links,
            base.push(FrameView { link: top.link + 1, ..top }),
            is_child,
            perform(
                world,
                ActionView::FindReferrers {
                    coll: links_of(links, top.coll)[top.link].coll,
                    field_name: links_of(links, top.coll)[top.link].field_name,
                    id: top.id,
                },
            ),
        ),
{
    let a = CascadeView { stack: base.push(top), is_child, phase: Phase::Fresh };
    let run = poised(links, base.push(top), is_child, world);
    let onward = FrameView { link: top.link + 1, ..top };
    assert(a.top() == top);
    assert(a.stack.drop_last() =~= base);
    assert(next_policied(links_of(links, top.coll), top.link) == top.link);
    assert(run.machine.stack =~= base.push(top));
    assert(run.machine.top() == top);
    assert(run.machine.past_link().stack =~= base.push(onward)) by {
        assert(onward.kids =~= Seq::<ObjectId>::empty());
        assert(run.machine.stack.drop_last() =~= base);
    }
    let next = advance(links, run, respond(find, run.world.store, run.pending));
    assert(drive(links, find, next, 0) == next);
    let b = CascadeView { stack: base.push(onward), is_child, phase: Phase::Fresh };
    assert(run.machine.past_link().proceed(links) == b.proceed(links));
}

/// After referrers were found through a `Cascade` link, the first of them
/// is the record in hand.
proof fn lemma_advance_finds_some(
    links: Links,
    find: Finder,
    base: Seq<FrameView>,
    top: FrameView,
    ids: Seq<ObjectId>,
    is_child: bool,
    world: World,
)
    requires
        0 <= top.link < links_of(links, top.coll).len(),
        links_of(links, top.coll)[top.link].policy() == Some(OnDelete::Cascade),
        top.kids.len() == 0,
        top.kid == 0,
        ids.len() > 0,
        identities(
            find(
                world.store,
                links_of(links, top.coll)[top.link].coll,
                links_of(links, top.coll)[top.link].field_name,
                top.id,
            ),
        ) == Some(ids),
        !on_path(
            base.push(FrameView { kids: ids, kid: 0, ..top }),
            child_frame(links, FrameView { kids: ids, kid: 0, ..top }).coll,
            child_frame(links, FrameView { kids: ids, kid: 0, ..top }).id,
        ),
    ensures
        drive(links, find, poised(links, base.push(top), is_child, world), 1) == poised(
            links,
            base.push(FrameView { kids: ids, kid: 0, ..top }).push(
                child_frame(links, FrameView { kids: ids, kid: 0, ..top }),
            ),
            is_child,
            perform(
                world,
                ActionView::FindReferrers {
                    coll: links_of(links, top.coll)[top.link].coll,
                    field_name: links_of(links, top.coll)[top.link].field_name,
                    id: top.id,
                },
            ),
        ),
{
    let a = CascadeView { stack: base.push(top), is_child, phase: Phase::Fresh };
    let run = poised(links, base.push(top), is_child, world);
    let held = FrameView { kids: ids, kid: 0, ..top };
    assert(a.top() == top);
    assert(a.stack.drop_last() =~= base);
    assert(next_policied(links_of(links, top.coll), top.link) == top.link);
    assert(run.machine.stack =~= base.push(top));
    assert(run.machine.top() == top);
    let kept = run.machine.with_top(held);
    assert(kept.stack =~= base.push(held)) by {
        assert(run.machine.stack.drop_last() =~= base);
    }
    assert(kept.top() == held);
    assert(kept.descend(links).stack =~= base.push(held).push(child_frame(links, held)));
    assert(kept.descend(links).top() == child_frame(links, held));
    let next = advance(links, run, respond(find, run.world.store, run.pending));
    assert(drive(links, find, next, 0) == next);
    let b = CascadeView {
        stack: base.push(held).push(child_frame(links, held)),
        is_child,
        phase: Phase::Fresh,
    };
    assert(kept.descend(links).proceed(links) == b.proceed(links));
}

/// After a referrer was deleted, the next referrer of the record below is
/// the record in hand.
proof fn lemma_advance_removes_next(
    links: Links,
    find: Finder,
    base: Seq<FrameView>,
    held: FrameView,
    top: FrameView,
    is_child: bool,
    world: World,
)
    requires
        held.kid + 1 < held.kids.len(),
        !on_path(
            base.push(FrameView { kid: held.kid + 1, ..held }),
            child_frame(links, FrameView { kid: held.kid + 1, ..held }).coll,
            child_frame(links, FrameView { kid: held.kid + 1, ..held }).id,
        ),
    ensures
        drive(links, find, at_removal(base.push(held), top, is_child, world), 1) == poised(
            links,
            base.push(FrameView { kid: held.kid + 1, ..held }).push(
                child_frame(links, FrameView { kid: held.kid + 1, ..held }),
            ),
            is_child,
            perform(
                world,
                ActionView::DeleteRecord { coll: top.coll, id: top.id, is_child: true },
            ),
        ),
{
    let run = at_removal(base.push(held), top, is_child, world);
    let next_held = FrameView { kid: held.kid + 1, ..held };
    let st = run.machine;
    assert(st.stack.drop_last() =~= base.push(held));
    let back = CascadeView { stack: st.stack.drop_last(), ..st };
    assert(back.top() == held);
    let kept = back.with_top(next_held);
    assert(kept.stack =~= base.push(next_held)) by {
        assert(back.stack.drop_last() =~= base);
    }
    assert(kept.top() == next_held);
    assert(kept.descend(links).stack =~= base.push(next_held).push(
        child_frame(links, next_held),
    ));
    let next = advance(links, run, respond(find, run.world.store, run.pending));
    assert(drive(links, find, next, 0) == next);
    let b = CascadeView {
        stack: base.push(next_held).push(child_frame(links, next_held)),
        is_child,
        phase: Phase::Fresh,
    };
    assert(kept.descend(links).proceed(links) == b.proceed(links));
}

/// After the last referrer was deleted, the record below has its next link
/// in hand.
proof fn lemma_advance_removes_last(
    links: Links,
    find: Finder,
    base: Seq<FrameView>,
    held: FrameView,
    top: FrameView,
    is_child: bool,
    world: World,
)
    requires
        held.kid + 1 >= held.kids.len(),
    ensures
        drive(links, find, at_removal(base.push(held), top, is_child, world), 1) == poised(
            links,
            base.push(
                FrameView { link: held.link + 1, kids: Seq::empty(), kid: 0, ..held },
            ),
            is_child,
            perform(
                world,
                ActionView::DeleteRecord { coll: top.coll, id: top.id, is_child: true },
            ),
        ),
{
    let run = at_removal(base.push(held), top, is_child, world);
    let onward = FrameView { link: held.link + 1, kids: Seq::empty(), kid: 0, ..held };
    let st = run.machine;
    assert(st.stack.drop_last() =~= base.push(held));
    let back = CascadeView { stack: st.stack.drop_last(), ..st };
    assert(back.top() == held);
    assert(back.past_link().stack =~= base.push(onward)) by {
        assert(back.stack.drop_last() =~= base);
    }
    let next = advance(links, run, respond(find, run.world.store, run.pending));
    assert(drive(links, find, next, 0) == next);
    let b = CascadeView { stack: base.push(onward), is_child, phase: Phase::Fresh };
    assert(back.past_link().proceed(links) == b.proceed(links));
}

/// A record whose links can all be seen to has them seen to, in some number
/// of requests, and its own deletion is then pending; the path below it is
/// as it was.
pub proof fn lemma_erased_runs(
    links: Links,
    find: Finder,
    world: World,
    base: Seq<FrameView>,
    top: FrameView,
    is_child: bool,
    depth: nat,
) -> (count: nat)
    requires
        top.kids.len() == 0,
        top.kid == 0,
        0 <= top.link <= links_of(links, top.coll).len(),
        erased(links, find, world, base, top, depth) is Some,
    ensures
        drive(links, find, poised(links, base.push(top), is_child, world), count) == at_removal(
            base,
            FrameView { link: links_of(links, top.coll).len() as int, ..top },
            is_child,
            erased(links, find, world, base, top, depth).unwrap(),
        ),
    decreases depth, 0nat, links_of(links, top.coll).len() - top.link,
{
    let list = links_of(links, top.coll);
    let run = poised(links, base.push(top), is_child, world);
    if top.link == list.len() {
        lemma_poised_at_end(links, base, top, is_child, world);
        return 0;
    }
    let via = list[top.link];
    let onward = FrameView { link: top.link + 1, ..top };
    match via.policy() {
        None => {
            lemma_poised_passes(links, base, top, is_child, world);
            lemma_erased_runs(links, find, world, base, onward, is_child, depth)
        },
        Some(OnDelete::Null) => {
            let after = perform(
                world,
                ActionView::ClearField { coll: via.coll, field_name: via.field_name, id: top.id },
            );
            lemma_advance_clears(links, find, base, top, is_child, world);
            let rest = lemma_erased_runs(links, find, after, base, onward, is_child, depth);
            lemma_drive_add(links, find, run, 1, rest);
            1 + rest
        },
        Some(OnDelete::Cascade) => {
            let after = perform(
                world,
                ActionView::FindReferrers {
                    coll: via.coll,
                    field_name: via.field_name,
                    id: top.id,
                },
            );
            let ids = identities(find(world.store, via.coll, via.field_name, top.id)).unwrap();
            if ids.len() == 0 {
                assert(ids =~= Seq::<ObjectId>::empty());
                lemma_advance_finds_none(links, find, base, top, is_child, world);
                let rest = lemma_erased_runs(links, find, after, base, onward, is_child, depth);
                lemma_drive_add(links, find, run, 1, rest);
                1 + rest
            } else {
                let held = FrameView { kids: ids, kid: 0, ..top };
                lemma_advance_finds_some(links, find, base, top, ids, is_child, world);
                let done = erased_each(links, find, after, base, held, (depth - 1) as nat).unwrap();
                let inside = lemma_erased_each_runs(
                    links,
                    find,
                    after,
                    base,
                    held,
                    is_child,
                    (depth - 1) as nat,
                );
                assert(FrameView { link: held.link + 1, kids: Seq::empty(), kid: 0, ..held }
                    == onward) by {
                    assert(onward.kids =~= Seq::<ObjectId>::empty());
                }
                let rest = lemma_erased_runs(links, find, done, base, onward, is_child, depth);
                lemma_drive_add(links, find, run, 1, inside);
                lemma_drive_add(links, find, run, 1 + inside, rest);
                1 + inside + rest
            }
        },
    }
}

/// A record whose referrers in hand can all be deleted has them deleted, in
/// some number of requests, and its next link is then in hand; the path
/// below it is as it was.
pub proof fn lemma_erased_each_runs(
    links: Links,
    find: Finder,
    world: World,
    base: Seq<FrameView>,
    held: FrameView,
    is_child: bool,
    depth: nat,
) -> (count: nat)
    requires
        0 <= held.kid < held.kids.len(),
        erased_each(links, find, world, base, held, depth) is Some,
    ensures
        drive(
            links,
            find,
            poised(links, base.push(held).push(child_frame(links, held)), is_child, world),
            count,
        ) == poised(
            links,
            base.push(FrameView { link: held.link + 1, kids: Seq::empty(), kid: 0, ..held }),
            is_child,
            erased_each(links, find, world, base, held, depth).unwrap(),
        ),
    decreases depth, 1nat, held.kids.len() - held.kid,
{
    let child = child_frame(links, held);
    let run = poised(links, base.push(held).push(child), is_child, world);
    let done = erased(links, find, world, base.push(held), child, depth).unwrap();
    let down = lemma_erased_runs(links, find, world, base.push(held), child, is_child, depth);
    let ended = FrameView { link: links_of(links, child.coll).len() as int, ..child };
    let after = perform(
        done,
        ActionView::DeleteRecord { coll: child.coll, id: child.id, is_child: true },
    );
    let next_held = FrameView { kid: held.kid + 1, ..held };
    assert(erased_each(links, find, world, base, held, depth) == erased_each(
        links,
        find,
        after,
        base,
        next_held,
        depth,
    ));
    if held.kid + 1 < held.kids.len() {
        assert(!on_path(
            base.push(next_held),
            child_frame(links, next_held).coll,
            child_frame(links, next_held).id,
        ));
        lemma_advance_removes_next(links, find, base, held, ended, is_child, done);
        let rest = lemma_erased_each_runs(links, find, after, base, next_held, is_child, depth);
        lemma_drive_add(links, find, run, down, 1);
        lemma_drive_add(links, find, run, down + 1, rest);
        down + 1 + rest
    } else {
        lemma_advance_removes_last(links, find, base, held, ended, is_child, done);
        lemma_drive_add(links, find, run, down, 1);
        down + 1
    }
}

/// A delete whose requests the store performs and answers does what
/// [`deleted`] says: where `deleted` gives a world, the machine begun on the
/// record comes, after `count` requests, to its end with the store, the
/// deleted records and the requests made, in their order, as that world has
/// them.
pub proof fn law_delete_does_what_deleted_says(
    links: Links,
    find: Finder,
    store: Store,
    coll: Seq<char>,
    id: ObjectId,
    is_child: bool,
    depth: nat,
) -> (count: nat)
    requires
        deleted(links, find, store, coll, id, is_child, depth) is Some,
    ensures
        drive(links, find, begin(links, coll, id, is_child, store), count).machine.phase
            == Phase::Finished,
        drive(links, find, begin(links, coll, id, is_child, store), count).pending
            == ActionView::Finished,
        drive(links, find, begin(links, coll, id, is_child, store), count).world == deleted(
            links,
            find,
            store,
            coll,
            id,
            is_child,
            depth,
        ).unwrap(),
{
    let none = Seq::<FrameView>::empty();
    let root = fresh_frame(coll, id);
    let first = World { store, removed: Set::empty(), log: Seq::empty() };
    let start = CascadeView::start(coll, id, is_child);
    assert(start.stack =~= none.push(root));
    assert(begin(links, coll, id, is_child, store) == poised(
        links,
        none.push(root),
        is_child,
        first,
    ));
    let run = begin(links, coll, id, is_child, store);
    let done = erased(links, find, first, none, root, depth).unwrap();
    let down = lemma_erased_runs(links, find, first, none, root, is_child, depth);
    let ended = FrameView { link: links_of(links, coll).len() as int, ..root };
    let last = at_removal(none, ended, is_child, done);
    let end = advance(links, last, respond(find, last.world.store, last.pending));
    assert(drive(links, find, end, 0) == end);
    assert(drive(links, find, last, 1) == end);
    lemma_drive_add(links, find, run, down, 1);
    assert(last.machine.stack.len() == 1);
    down + 1
}

/// The record itself goes last: the request that deletes it is the last one
/// of its delete, after every request made for its links, and it is gone
/// from the store then.
pub proof fn law_record_goes_last(
    links: Links,
    find: Finder,
    store: Store,
    coll: Seq<char>,
    id: ObjectId,
    is_child: bool,
    depth: nat,
)
    requires
        deleted(links, find, store, coll, id, is_child, depth) is Some,
    ensures
        deleted(links, find, store, coll, id, is_child, depth).unwrap().log.last()
            == (ActionView::DeleteRecord { coll, id, is_child }),
        deleted(links, find, store, coll, id, is_child, depth).unwrap().log.drop_last() == erased(
            links,
            find,
            World { store, removed: Set::empty(), log: Seq::empty() },
            Seq::empty(),
            fresh_frame(coll, id),
            depth,
        ).unwrap().log,
        !deleted(links, find, store, coll, id, is_child, depth).unwrap().store.dom().contains(
            (coll, id),
        ),
{
    let first = World { store, removed: Set::empty(), log: Seq::empty() };
    let done = erased(links, find, first, Seq::empty(), fresh_frame(coll, id), depth).unwrap();
    let end = deleted(links, find, store, coll, id, is_child, depth).unwrap();
    assert(end.log.drop_last() =~= done.log);
}

/// `find` answers every lookup in a store of finitely many records
/// truthfully: with records that carry the identities of exactly the
/// referrers.
pub open spec fn truthful_finder(find: Finder) -> bool {
    forall|store: Store, coll: Seq<char>, field: Seq<char>, id: ObjectId|
        store.dom().finite() ==> truthful(
            store,
            ActionView::FindReferrers { coll, field_name: field, id },
            EventView::Referrers(#[trigger] find(store, coll, field, id)),
        )
}

/// The referrers of a lookup, each as a record of its identity alone, in
/// some order.
pub open spec fn listing(
    store: Store,
    coll: Seq<char>,
    field: Seq<char>,
    id: ObjectId,
) -> Seq<Fields> {
    store.dom().filter(
        |key: (Seq<char>, ObjectId)| key.0 == coll && id_at(store[key], field) == Some(id),
    ).to_seq().map_values(|key: (Seq<char>, ObjectId)| seq![("_id"@, Value::Id(key.1))])
}

/// There is a truthful finder: the one that lists the referrers.
pub proof fn lemma_listing_is_truthful()
    ensures
        truthful_finder(
            |store: Store, coll: Seq<char>, field: Seq<char>, id: ObjectId|
                listing(store, coll, field, id),
        ),
{
    let find = |store: Store, coll: Seq<char>, field: Seq<char>, id: ObjectId|
        listing(store, coll, field, id);
    assert forall|store: Store, coll: Seq<char>, field: Seq<char>, id: ObjectId|
        store.dom().finite() implies truthful(
        store,
        ActionView::FindReferrers { coll, field_name: field, id },
        EventView::Referrers(#[trigger] find(store, coll, field, id)),
    ) by {
        let wanted = |key: (Seq<char>, ObjectId)|
            key.0 == coll && id_at(store[key], field) == Some(id);
        let keys = store.dom().filter(wanted);
        assert(keys.finite()) by {
            assert(keys.subset_of(store.dom()));
            vstd::set_lib::lemma_len_subset(keys, store.dom());
        }
        keys.lemma_to_seq_to_set_id();
        let order = keys.to_seq();
        let docs = listing(store, coll, field, id);
        assert(docs.len() == order.len());
        assert forall|i: int| 0 <= i < docs.len() implies id_at(#[trigger] docs[i], "_id"@)
            == Some(order[i].1) by {
            lemma_key_index_is(docs[i], "_id"@, 0);
        }
        let ids = identities(docs).unwrap();
        assert(ids.len() == order.len());
        assert forall|at: ObjectId| #[trigger] refers(store, coll, at, field, id) implies ids.contains(
            at,
        ) by {
            assert(keys.contains((coll, at)));
            assert(order.to_set().contains((coll, at)));
            let i = choose|i: int| 0 <= i < order.len() && order[i] == (coll, at);
            assert(ids[i] == at);
        }
        assert forall|q: int| 0 <= q < ids.len() implies refers(
            store,
            coll,
            #[trigger] ids[q],
            field,
            id,
        ) by {
            assert(order.to_set().contains(order[q]));
            assert(keys.contains(order[q]));
        }
    }
}

/// No record of the store references a record that was deleted, through any
/// link that declares a policy.
pub open spec fn nothing_dangles(links: Links, world: World) -> bool {
    forall|key: (Seq<char>, ObjectId), j: int|
        world.removed.contains(key) && 0 <= j < links_of(links, key.0).len() && (
        #[trigger] links_of(links, key.0)[j]).policy().is_some() ==> no_ref(
            world.store,
            links_of(links, key.0)[j].coll,
            links_of(links, key.0)[j].field_name,
            key.1,
        )
}

/// What a truthful store is driven to is what truthful answers lead to.
proof fn lemma_drive_is_truthful_run(
    links: Links,
    find: Finder,
    coll: Seq<char>,
    id: ObjectId,
    is_child: bool,
    store: Store,
    events: Seq<EventView>,
    count: nat,
) -> (all: Seq<EventView>)
    requires
        truthful_finder(find),
        store.dom().finite(),
        truthful_run(links, begin(links, coll, id, is_child, store), events),
    ensures
        truthful_run(links, begin(links, coll, id, is_child, store), all),
        run_on(links, begin(links, coll, id, is_child, store), all) == drive(
            links,
            find,
            run_on(links, begin(links, coll, id, is_child, store), events),
            count,
        ),
    decreases count,
{
    if count == 0 {
        return events;
    }
    let first = begin(links, coll, id, is_child, store);
    let run = run_on(links, first, events);
    let event = respond(find, run.world.store, run.pending);
    lemma_run_has_inv(links, coll, id, is_child, store, events);
    if run.pending is ClearField || run.pending is FindReferrers || run.pending is DeleteRecord {
        let more = events.push(event);
        assert(more.drop_last() =~= events);
        if run.pending is FindReferrers {
            assert(run.world.store.dom().finite()) by {
                assert(run.world.store.dom().subset_of(store.dom()));
                vstd::set_lib::lemma_len_subset(run.world.store.dom(), store.dom());
            }
            assert(truthful(
                run.world.store,
                ActionView::FindReferrers {
                    coll: run.pending->FindReferrers_coll,
                    field_name: run.pending->FindReferrers_field_name,
                    id: run.pending->FindReferrers_id,
                },
                EventView::Referrers(
                    find(
                        run.world.store,
                        run.pending->FindReferrers_coll,
                        run.pending->FindReferrers_field_name,
                        run.pending->FindReferrers_id,
                    ),
                ),
            ));
        }
        assert(truthful(run.world.store, run.pending, event));
        lemma_drive_is_truthful_run(
            links,
            find,
            coll,
            id,
            is_child,
            store,
            more,
            (count - 1) as nat,
        )
    } else {
        assert(advance(links, run, event) == run);
        lemma_drive_is_truthful_run(
            links,
            find,
            coll,
            id,
            is_child,
            store,
            events,
            (count - 1) as nat,
        )
    }
}

/// What [`deleted`] gives of a store of finitely many records, where the
/// store answers truthfully, is a store in which nothing dangles: the record is gone, no record references a
/// deleted record through a link that declares a policy, and every other
/// record of the store is there still, changed at most by references that
/// became null.
pub proof fn law_deleted_leaves_nothing_dangling(
    links: Links,
    find: Finder,
    store: Store,
    coll: Seq<char>,
    id: ObjectId,
    is_child: bool,
    depth: nat,
)
    requires
        truthful_finder(find),
        store.dom().finite(),
        deleted(links, find, store, coll, id, is_child, depth) is Some,
    ensures
        deleted(links, find, store, coll, id, is_child, depth).unwrap().removed.contains(
            (coll, id),
        ),
        nothing_dangles(links, deleted(links, find, store, coll, id, is_child, depth).unwrap()),
        survivors(store, deleted(links, find, store, coll, id, is_child, depth).unwrap()),
{
    let count = law_delete_does_what_deleted_says(links, find, store, coll, id, is_child, depth);
    let none = Seq::<EventView>::empty();
    let all = lemma_drive_is_truthful_run(links, find, coll, id, is_child, store, none, count);
    lemma_run_has_inv(links, coll, id, is_child, store, all);
    let end = deleted(links, find, store, coll, id, is_child, depth).unwrap();
    assert forall|key: (Seq<char>, ObjectId), j: int|
        end.removed.contains(key) && 0 <= j < links_of(links, key.0).len() && (
        #[trigger] links_of(links, key.0)[j]).policy().is_some() implies no_ref(
        end.store,
        links_of(links, key.0)[j].coll,
        links_of(links, key.0)[j].field_name,
        key.1,
    ) by {
        assert(clean_below(links, end.store, key.0, key.1, links_of(links, key.0).len() as int));
    }
}

} // verus!
