//! Cascading delete as a resumable machine.
//!
//! Deleting a record means visiting every link that points at its collection:
//! a `Null` link has the referencing field cleared, a `Cascade` link has every
//! referencing record deleted first, by the same rule. The record itself goes
//! last. The machine holds the path from the record first asked for down to
//! the record in hand; each [`CascadeDelete::step`] takes the store's answer to
//! the last request and returns the next one.

use crate::document::{docs_fields, id_at, object_id_at, Fields};
use crate::policy::{same_text, OnDelete};
use crate::registry::{links_in, links_of, links_view, FkFieldMap, Link, Links, Tumongo};
use bson::oid::ObjectId;
use bson::Document;
use vstd::prelude::*;

verus! {

/// Why a delete stopped before its end.
#[derive(Debug, Clone, Copy, PartialEq, Eq, Structural)]
pub enum DeleteFailure {
    /// The store failed.
    Store,
    /// A record that the store returned carries no object id under `_id`.
    MissingId,
    /// A record that is to be deleted before another is that other's own
    /// referrer, directly or through others: the links form a cycle.
    Cycle,
    /// The answer handed in does not belong to the request that was made.
    OutOfTurn,
}

/// What the machine waits for.
#[derive(Debug, Clone, Copy, PartialEq, Eq, Structural)]
pub enum Phase {
    /// Nothing was requested yet.
    Fresh,
    /// A field is being cleared.
    Clearing,
    /// Referencing records are being looked up.
    Finding,
    /// A record is being deleted.
    Removing,
    /// The record first asked for is deleted.
    Finished,
    /// The delete was given up.
    Aborted(DeleteFailure),
}

/// The store's answer to the previous request.
#[derive(Debug, Clone, PartialEq)]
pub enum DeleteEvent {
    /// No request was made yet.
    Begin,
    /// The field was cleared on every matching record.
    Cleared,
    /// The records that hold the reference asked for.
    Referrers(Vec<Document>),
    /// The record was deleted.
    Removed,
    /// The request failed.
    StoreFailed,
}

/// What the store is to do next.
#[derive(Debug, Clone, PartialEq, Eq)]
pub enum DeleteAction {
    /// In `coll`, set `field_name` to null on every record where it equals `id`.
    ClearField { coll: String, field_name: String, id: ObjectId },
    /// In `coll`, find every record where `field_name` equals `id`.
    FindReferrers { coll: String, field_name: String, id: ObjectId },
    /// Delete from `coll` the record whose identity is `id`. `is_child` tells
    /// a record reached through a link from the one first asked for.
    DeleteRecord { coll: String, id: ObjectId, is_child: bool },
    /// Nothing: the delete is complete.
    Finished,
    /// Nothing: the delete was given up, with records already changed left as
    /// they are.
    Aborted(DeleteFailure),
}

/// An answer as the contracts see it.
pub enum EventView {
    Begin,
    Cleared,
    Referrers(Seq<Fields>),
    Removed,
    StoreFailed,
}

/// A request as the contracts see it.
pub enum ActionView {
    ClearField { coll: Seq<char>, field_name: Seq<char>, id: ObjectId },
    FindReferrers { coll: Seq<char>, field_name: Seq<char>, id: ObjectId },
    DeleteRecord { coll: Seq<char>, id: ObjectId, is_child: bool },
    Finished,
    Aborted(DeleteFailure),
}

impl View for DeleteEvent {
    type V = EventView;

    open spec fn view(&self) -> EventView {
        match self {
            DeleteEvent::Begin => EventView::Begin,
            DeleteEvent::Cleared => EventView::Cleared,
            DeleteEvent::Referrers(docs) => EventView::Referrers(docs_fields(docs@)),
            DeleteEvent::Removed => EventView::Removed,
            DeleteEvent::StoreFailed => EventView::StoreFailed,
        }
    }
}

impl View for DeleteAction {
    type V = ActionView;

    open spec fn view(&self) -> ActionView {
        match self {
            DeleteAction::ClearField { coll, field_name, id } => ActionView::ClearField {
                coll: coll@,
                field_name: field_name@,
                id: *id,
            },
            DeleteAction::FindReferrers { coll, field_name, id } => ActionView::FindReferrers {
                coll: coll@,
                field_name: field_name@,
                id: *id,
            },
            DeleteAction::DeleteRecord { coll, id, is_child } => ActionView::DeleteRecord {
                coll: coll@,
                id: *id,
                is_child: *is_child,
            },
            DeleteAction::Finished => ActionView::Finished,
            DeleteAction::Aborted(failure) => ActionView::Aborted(*failure),
        }
    }
}

/// One record on the path, as the contracts see it: the record, the link of
/// its collection that is in hand, and the referrers found through that link,
/// of which those before `kid` are deleted.
pub struct FrameView {
    pub coll: Seq<char>,
    pub id: ObjectId,
    pub link: int,
    pub kids: Seq<ObjectId>,
    pub kid: int,
}

/// The machine as the contracts see it. The last frame is the record in hand;
/// each frame before it waits for the deletion of the frame after it.
pub struct CascadeView {
    pub stack: Seq<FrameView>,
    pub is_child: bool,
    pub phase: Phase,
}

/// The first link at or after `from` that declares a policy; `from` itself
/// when it is past the end, the number of links when there is none.
pub open spec fn next_policied(links: Seq<Link>, from: int) -> int
    decreases links.len() - from,
{
    if from < 0 || from >= links.len() {
        from
    } else if links[from].policy().is_some() {
        from
    } else {
        next_policied(links, from + 1)
    }
}

/// The identities of `docs`, if each carries an object id under `_id`.
pub open spec fn identities(docs: Seq<Fields>) -> Option<Seq<ObjectId>> {
    if forall|i: int| 0 <= i < docs.len() ==> id_at(#[trigger] docs[i], "_id"@).is_some() {
        Some(docs.map_values(|doc: Fields| id_at(doc, "_id"@).unwrap()))
    } else {
        None
    }
}

impl CascadeView {
    /// The machine before its first step, about to delete `id` from `coll`.
    pub open spec fn start(coll: Seq<char>, id: ObjectId, is_child: bool) -> CascadeView {
        CascadeView {
            stack: seq![FrameView { coll, id, link: 0, kids: Seq::empty(), kid: 0 }],
            is_child,
            phase: Phase::Fresh,
        }
    }

    /// The record in hand.
    pub open spec fn top(self) -> FrameView {
        self.stack.last()
    }

    /// The same machine with `frame` as the record in hand.
    pub open spec fn with_top(self, frame: FrameView) -> CascadeView {
        CascadeView { stack: self.stack.drop_last().push(frame), ..self }
    }

    /// The same machine, given up for `failure`.
    pub open spec fn aborted(self, failure: DeleteFailure) -> (CascadeView, ActionView) {
        (CascadeView { phase: Phase::Aborted(failure), ..self }, ActionView::Aborted(failure))
    }

    /// The record in hand is done with its current link and has no referrers
    /// left to delete.
    pub open spec fn past_link(self) -> CascadeView {
        self.with_top(
            FrameView { link: self.top().link + 1, kids: Seq::empty(), kid: 0, ..self.top() },
        )
    }

    /// The next referrer of the record in hand becomes the record in hand.
    pub open spec fn descend(self, links: Links) -> CascadeView {
        let top = self.top();
        let via = links_of(links, top.coll)[top.link];
        CascadeView {
            stack: self.stack.push(
                FrameView { coll: via.coll, id: top.kids[top.kid], link: 0, kids: Seq::empty(), kid: 0 },
            ),
            ..self
        }
    }

    /// The next referrer of the record in hand becomes the record in hand and
    /// makes its request, unless it is on the path already: then the delete
    /// is given up, as it could never come to an end.
    pub open spec fn enter(self, links: Links) -> (CascadeView, ActionView) {
        let next = self.descend(links).top();
        if on_path(self.stack, next.coll, next.id) {
            self.aborted(DeleteFailure::Cycle)
        } else {
            self.descend(links).proceed(links)
        }
    }

    /// The request for the record in hand: links without a policy are passed
    /// over; the first `Null` link has its field cleared, the first `Cascade`
    /// link has its referrers looked up, and with no link left the record
    /// itself is deleted.
    pub open spec fn proceed(self, links: Links) -> (CascadeView, ActionView) {
        let top = self.top();
        let list = links_of(links, top.coll);
        let at = next_policied(list, top.link);
        let moved = self.with_top(FrameView { link: at, ..top });
        if at < 0 || at >= list.len() {
            (
                CascadeView { phase: Phase::Removing, ..moved },
                ActionView::DeleteRecord {
                    coll: top.coll,
                    id: top.id,
                    is_child: self.is_child || self.stack.len() > 1,
                },
            )
        } else {
            match list[at].policy() {
                Some(OnDelete::Null) => (
                    CascadeView { phase: Phase::Clearing, ..moved },
                    ActionView::ClearField {
                        coll: list[at].coll,
                        field_name: list[at].field_name,
                        id: top.id,
                    },
                ),
                _ => (
                    CascadeView { phase: Phase::Finding, ..moved },
                    ActionView::FindReferrers {
                        coll: list[at].coll,
                        field_name: list[at].field_name,
                        id: top.id,
                    },
                ),
            }
        }
    }

    /// The record in hand was deleted: the one that waited for it goes on with
    /// its next referrer, or past the link when that was the last.
    pub open spec fn ascend(self, links: Links) -> (CascadeView, ActionView) {
        if self.stack.len() <= 1 {
            (
                CascadeView { stack: Seq::empty(), phase: Phase::Finished, ..self },
                ActionView::Finished,
            )
        } else {
            let back = CascadeView { stack: self.stack.drop_last(), ..self };
            let parent = back.top();
            if parent.kid + 1 < parent.kids.len() {
                back.with_top(FrameView { kid: parent.kid + 1, ..parent }).enter(links)
            } else {
                back.past_link().proceed(links)
            }
        }
    }

    /// One step: the machine after `event`, and the request it makes.
    ///
    /// A store failure gives the delete up, and so does an answer that does
    /// not belong to the request made, a referrer without an identity, or a
    /// referrer that is on the path already. A machine that is finished or
    /// given up stays so.
    pub open spec fn step(self, links: Links, event: EventView) -> (CascadeView, ActionView) {
        match self.phase {
            Phase::Finished => (self, ActionView::Finished),
            Phase::Aborted(failure) => (self, ActionView::Aborted(failure)),
            Phase::Fresh => match event {
                EventView::Begin => self.proceed(links),
                EventView::StoreFailed => self.aborted(DeleteFailure::Store),
                _ => self.aborted(DeleteFailure::OutOfTurn),
            },
            Phase::Clearing => match event {
                EventView::Cleared => self.past_link().proceed(links),
                EventView::StoreFailed => self.aborted(DeleteFailure::Store),
                _ => self.aborted(DeleteFailure::OutOfTurn),
            },
            Phase::Finding => match event {
                EventView::Referrers(docs) => match identities(docs) {
                    None => self.aborted(DeleteFailure::MissingId),
                    Some(ids) => if ids.len() == 0 {
                        self.past_link().proceed(links)
                    } else {
                        self.with_top(FrameView { kids: ids, kid: 0, ..self.top() }).enter(links)
                    },
                },
                EventView::StoreFailed => self.aborted(DeleteFailure::Store),
                _ => self.aborted(DeleteFailure::OutOfTurn),
            },
            Phase::Removing => match event {
                EventView::Removed => self.ascend(links),
                EventView::StoreFailed => self.aborted(DeleteFailure::Store),
                _ => self.aborted(DeleteFailure::OutOfTurn),
            },
        }
    }

    /// What holds of every machine that [`CascadeView::start`] and
    /// [`CascadeView::step`] can produce with the links `links`.
    pub open spec fn well_formed(self, links: Links) -> bool {
        &&& match self.phase {
            Phase::Finished => self.stack.len() == 0,
            Phase::Aborted(_) => true,
            _ => self.stack.len() > 0,
        }
        &&& !(self.phase is Aborted) ==> chained(self.stack, links)
        &&& !(self.phase is Aborted) && self.stack.len() > 0 ==> {
            let top = self.top();
            let list = links_of(links, top.coll);
            &&& settled(top, links)
            &&& self.phase is Clearing ==> top.link < list.len() && list[top.link].policy()
                == Some(OnDelete::Null)
            &&& self.phase is Finding ==> top.link < list.len() && list[top.link].policy()
                == Some(OnDelete::Cascade)
            &&& self.phase is Removing ==> top.link == list.len()
            &&& self.phase is Fresh ==> top.link == 0 && self.stack.len() == 1
        }
    }
}

/// Whether the record `id` of `coll` is one of the records on the path.
pub open spec fn on_path(stack: Seq<FrameView>, coll: Seq<char>, id: ObjectId) -> bool {
    exists|p: int| 0 <= p < stack.len() && (#[trigger] stack[p]).coll == coll && stack[p].id == id
}

/// `frame` waits for the deletion of `next`: it stands at a `Cascade` link,
/// and `next` is the referrer in hand, in the collection that link names.
pub open spec fn waits_for(frame: FrameView, next: FrameView, links: Links) -> bool {
    let list = links_of(links, frame.coll);
    &&& 0 <= frame.link < list.len()
    &&& list[frame.link].policy() == Some(OnDelete::Cascade)
    &&& 0 <= frame.kid < frame.kids.len()
    &&& next.coll == list[frame.link].coll
    &&& next.id == frame.kids[frame.kid]
}

/// Each frame but the last waits for the one after it.
pub open spec fn chained(stack: Seq<FrameView>, links: Links) -> bool {
    forall|i: int| 0 <= i < stack.len() - 1 ==> waits_for(#[trigger] stack[i], stack[i + 1], links)
}

/// `frame` holds no referrers and stands at a link of its collection, or just
/// past the last.
pub open spec fn settled(frame: FrameView, links: Links) -> bool {
    &&& frame.kids.len() == 0
    &&& frame.kid == 0
    &&& 0 <= frame.link <= links_of(links, frame.coll).len()
}

/// `next_policied` stops at a link with a policy or at the end, and passes
/// over nothing but links without one.
pub proof fn lemma_next_policied(links: Seq<Link>, from: int)
    requires
        0 <= from <= links.len(),
    ensures
        from <= next_policied(links, from) <= links.len(),
        next_policied(links, from) < links.len() ==> links[next_policied(
            links,
            from,
        )].policy().is_some(),
        forall|i: int| from <= i < next_policied(links, from) ==> (#[trigger] links[i]).policy().is_none(),
    decreases links.len() - from,
{
    if from < links.len() && links[from].policy().is_none() {
        lemma_next_policied(links, from + 1);
    }
}

/// The machine that `start` gives is well formed.
pub proof fn lemma_start_well_formed(links: Links, coll: Seq<char>, id: ObjectId, is_child: bool)
    ensures
        CascadeView::start(coll, id, is_child).well_formed(links),
{
}

/// Finding the request for a settled last frame keeps the machine well formed.
pub proof fn lemma_proceed_well_formed(st: CascadeView, links: Links)
    requires
        st.stack.len() > 0,
        chained(st.stack, links),
        settled(st.top(), links),
    ensures
        st.proceed(links).0.well_formed(links),
        !(st.proceed(links).0.phase is Fresh),
{
    let top = st.top();
    let list = links_of(links, top.coll);
    lemma_next_policied(list, top.link);
    let after = st.proceed(links).0;
    assert(after.stack.len() == st.stack.len());
    assert(after.top().coll == top.coll);
    assert forall|i: int| 0 <= i < after.stack.len() - 1 implies waits_for(
        #[trigger] after.stack[i],
        after.stack[i + 1],
        links,
    ) by {
        assert(after.stack[i] == st.stack[i]);
        assert(waits_for(st.stack[i], st.stack[i + 1], links));
        assert(after.stack[i + 1].coll == st.stack[i + 1].coll);
        assert(after.stack[i + 1].id == st.stack[i + 1].id);
    }
}

/// After `held`, which is `st` with referrers in hand for the link of its last
/// frame, descends, every frame waits for the next and the last is settled.
pub proof fn lemma_descend_shape(st: CascadeView, held: CascadeView, links: Links)
    requires
        st.stack.len() > 0,
        held.stack.len() == st.stack.len(),
        forall|i: int| 0 <= i < st.stack.len() - 1 ==> held.stack[i] == st.stack[i],
        held.top().coll == st.top().coll,
        held.top().id == st.top().id,
        held.top().link == st.top().link,
        0 <= held.top().kid < held.top().kids.len(),
        0 <= st.top().link < links_of(links, st.top().coll).len(),
        links_of(links, st.top().coll)[st.top().link].policy() == Some(OnDelete::Cascade),
        chained(st.stack, links),
    ensures
        held.descend(links).stack.len() == st.stack.len() + 1,
        settled(held.descend(links).top(), links),
        chained(held.descend(links).stack, links),
{
    let down = held.descend(links);
    assert forall|i: int| 0 <= i < down.stack.len() - 1 implies waits_for(
        #[trigger] down.stack[i],
        down.stack[i + 1],
        links,
    ) by {
        if i < st.stack.len() - 1 {
            assert(down.stack[i] == st.stack[i]);
            assert(waits_for(st.stack[i], st.stack[i + 1], links));
            if i + 1 < st.stack.len() - 1 {
                assert(down.stack[i + 1] == st.stack[i + 1]);
            } else {
                assert(down.stack[i + 1].coll == st.top().coll);
                assert(down.stack[i + 1].id == st.top().id);
            }
        }
    }
}

/// Moving the last frame past its link leaves the frames below it as they are.
pub proof fn lemma_past_link_shape(st: CascadeView, links: Links)
    requires
        st.stack.len() > 0,
        chained(st.stack, links),
        0 <= st.top().link < links_of(links, st.top().coll).len(),
    ensures
        st.past_link().stack.len() == st.stack.len(),
        chained(st.past_link().stack, links),
        settled(st.past_link().top(), links),
{
    let moved = st.past_link();
    assert forall|i: int| 0 <= i < moved.stack.len() - 1 implies waits_for(
        #[trigger] moved.stack[i],
        moved.stack[i + 1],
        links,
    ) by {
        assert(moved.stack[i] == st.stack[i]);
        assert(waits_for(st.stack[i], st.stack[i + 1], links));
        assert(moved.stack[i + 1].coll == st.stack[i + 1].coll);
        assert(moved.stack[i + 1].id == st.stack[i + 1].id);
    }
}

/// Dropping the last frame leaves the frames below it chained.
pub proof fn lemma_drop_last_chained(stack: Seq<FrameView>, links: Links)
    requires
        stack.len() > 0,
        chained(stack, links),
    ensures
        chained(stack.drop_last(), links),
{
    let back = stack.drop_last();
    assert forall|i: int| 0 <= i < back.len() - 1 implies waits_for(
        #[trigger] back[i],
        back[i + 1],
        links,
    ) by {
        assert(back[i] == stack[i]);
        assert(waits_for(stack[i], stack[i + 1], links));
    }
}

/// A step of a well-formed machine gives a well-formed machine.
pub proof fn lemma_step_well_formed(st: CascadeView, links: Links, event: EventView)
    requires
        st.well_formed(links),
    ensures
        st.step(links, event).0.well_formed(links),
{
    let next = st.step(links, event).0;
    if next.phase is Aborted || st.phase is Finished {
    } else {
        match st.phase {
            Phase::Fresh => {
                lemma_proceed_well_formed(st, links);
            },
            Phase::Clearing => {
                lemma_past_link_shape(st, links);
                lemma_proceed_well_formed(st.past_link(), links);
            },
            Phase::Finding => {
                let docs = event->Referrers_0;
                let ids = identities(docs).unwrap();
                if ids.len() == 0 {
                    lemma_past_link_shape(st, links);
                    lemma_proceed_well_formed(st.past_link(), links);
                } else {
                    let held = st.with_top(FrameView { kids: ids, kid: 0, ..st.top() });
                    lemma_descend_shape(st, held, links);
                    lemma_proceed_well_formed(held.descend(links), links);
                }
            },
            Phase::Removing => {
                if st.stack.len() > 1 {
                    let back = CascadeView { stack: st.stack.drop_last(), ..st };
                    let parent = back.top();
                    assert(parent == st.stack[st.stack.len() - 2]);
                    assert(waits_for(
                        st.stack[st.stack.len() - 2],
                        st.stack[st.stack.len() - 1],
                        links,
                    ));
                    lemma_drop_last_chained(st.stack, links);
                    if parent.kid + 1 < parent.kids.len() {
                        let held = back.with_top(FrameView { kid: parent.kid + 1, ..parent });
                        lemma_descend_shape(back, held, links);
                        lemma_proceed_well_formed(held.descend(links), links);
                    } else {
                        lemma_past_link_shape(back, links);
                        lemma_proceed_well_formed(back.past_link(), links);
                    }
                }
            },
            _ => {},
        }
    }
}

/// One record on the path from the record first asked for to the one in hand.
struct DeleteFrame {
    coll: String,
    id: ObjectId,
    link: usize,
    kids: Vec<ObjectId>,
    kid: usize,
}

impl View for DeleteFrame {
    type V = FrameView;

    closed spec fn view(&self) -> FrameView {
        FrameView {
            coll: self.coll@,
            id: self.id,
            link: self.link as int,
            kids: self.kids@,
            kid: self.kid as int,
        }
    }
}

spec fn frames_view(frames: Seq<DeleteFrame>) -> Seq<FrameView> {
    frames.map_values(|frame: DeleteFrame| frame@)
}

/// A cascading delete in progress.
pub struct CascadeDelete<'a> {
    links: &'a FkFieldMap,
    stack: Vec<DeleteFrame>,
    is_child: bool,
    phase: Phase,
}

impl<'a> View for CascadeDelete<'a> {
    type V = CascadeView;

    closed spec fn view(&self) -> CascadeView {
        CascadeView { stack: frames_view(self.stack@), is_child: self.is_child, phase: self.phase }
    }
}

/// The identities of `docs`, if each carries one.
fn identities_of(docs: &Vec<Document>) -> (ids: Option<Vec<ObjectId>>)
    ensures
        match ids {
            Some(ids) => identities(docs_fields(docs@)) == Some(ids@),
            None => identities(docs_fields(docs@)).is_none(),
        },
{
    let mut ids: Vec<ObjectId> = Vec::new();
    let mut i: usize = 0;
    while i < docs.len()
        invariant
            i <= docs.len(),
            ids@.len() == i,
            forall|j: int|
                0 <= j < i ==> id_at(#[trigger] docs_fields(docs@)[j], "_id"@) == Some(ids@[j]),
        decreases docs.len() - i,
    {
        match object_id_at(&docs[i], "_id") {
            Some(id) => {
                ids.push(id);
            },
            None => {
                assert(id_at(docs_fields(docs@)[i as int], "_id"@).is_none());
                return None;
            },
        }
        i += 1;
    }
    assert(identities(docs_fields(docs@)).unwrap() =~= ids@);
    Some(ids)
}

/// The frame for the referrer in hand of `parent`.
fn child_of(links: &FkFieldMap, parent: &DeleteFrame) -> (child: DeleteFrame)
    requires
        parent.link < links_of(links_in(links@), parent.coll@).len(),
        parent.kid < parent.kids@.len(),
    ensures
        child@ == (FrameView {
            coll: links_of(links_in(links@), parent.coll@)[parent.link as int].coll,
            id: parent.kids@[parent.kid as int],
            link: 0,
            kids: Seq::empty(),
            kid: 0,
        }),
{
    let list = links.get(parent.coll.as_str()).unwrap();
    DeleteFrame {
        coll: list[parent.link].coll.clone(),
        id: parent.kids[parent.kid].clone(),
        link: 0,
        kids: Vec::new(),
        kid: 0,
    }
}

/// Finds the request for the last frame of `stack`.
fn proceed(links: &FkFieldMap, stack: Vec<DeleteFrame>, is_child: bool) -> (out: (
    Vec<DeleteFrame>,
    Phase,
    DeleteAction,
))
    requires
        stack@.len() > 0,
        stack@.last().link <= links_of(links_in(links@), stack@.last().coll@).len(),
    ensures
        ({
            let before = CascadeView { stack: frames_view(stack@), is_child, phase: Phase::Fresh };
            let after = before.proceed(links_in(links@));
            &&& frames_view(out.0@) == after.0.stack
            &&& out.1 == after.0.phase
            &&& out.2@ == after.1
        }),
{
    let mut stack = stack;
    let ghost before = CascadeView { stack: frames_view(stack@), is_child, phase: Phase::Fresh };
    let ghost list_view = links_of(links_in(links@), stack@.last().coll@);
    let mut top = stack.pop().unwrap();
    let deep = is_child || stack.len() > 0;
    let found = links.get(top.coll.as_str());
    let ghost from = top.link as int;
    let ghost top_before = top@;
    let mut duty: Option<OnDelete> = None;
    assert(top_before == before.stack.last());
    match found {
        Some(list) => {
            assert(list_view == links_view(list@));
            while top.link < list.len() && duty.is_none()
                invariant
                    list_view == links_view(list@),
                    top@ == (FrameView { link: top.link as int, ..top_before }),
                    from <= top.link <= list@.len(),
                    next_policied(list_view, top.link as int) == next_policied(list_view, from),
                    duty.is_some() ==> top.link < list@.len() && list_view[top.link as int].policy()
                        == duty,
                decreases list@.len() - top.link + (if duty.is_none() { 1int } else { 0int }),
            {
                duty = list[top.link].policy();
                if duty.is_none() {
                    top.link += 1;
                }
            }
        },
        None => {},
    }
    proof {
        lemma_next_policied(list_view, from);
        assert(next_policied(list_view, from) == top.link);
        assert(frames_view(stack@) =~= before.stack.drop_last());
    }
    let action = match duty {
        Some(OnDelete::Null) => {
            let via = &found.unwrap()[top.link];
            DeleteAction::ClearField {
                coll: via.coll.clone(),
                field_name: via.field_name.clone(),
                id: top.id.clone(),
            }
        },
        Some(OnDelete::Cascade) => {
            let via = &found.unwrap()[top.link];
            DeleteAction::FindReferrers {
                coll: via.coll.clone(),
                field_name: via.field_name.clone(),
                id: top.id.clone(),
            }
        },
        None => DeleteAction::DeleteRecord {
            coll: top.coll.clone(),
            id: top.id.clone(),
            is_child: deep,
        },
    };
    let phase = match duty {
        Some(OnDelete::Null) => Phase::Clearing,
        Some(OnDelete::Cascade) => Phase::Finding,
        None => Phase::Removing,
    };
    stack.push(top);
    proof {
        let after = before.proceed(links_in(links@));
        assert(frames_view(stack@) =~= after.0.stack);
    }
    (stack, phase, action)
}

impl<'a> CascadeDelete<'a> {
    #[verifier::type_invariant]
    spec fn inv(self) -> bool {
        self@.well_formed(links_in(self.links@))
    }

    /// The links the delete goes by.
    pub closed spec fn links(self) -> Links {
        links_in(self.links@)
    }

    /// What the machine waits for.
    pub fn phase(&self) -> (phase: Phase)
        ensures
            phase == self@.phase,
    {
        self.phase
    }

    /// Takes the store's answer to the last request and returns the machine
    /// after it with the next request: [`CascadeView::step`].
    pub fn step(self, event: DeleteEvent) -> (next: (CascadeDelete<'a>, DeleteAction))
        ensures
            (next.0@, next.1@) == self@.step(self.links(), event@),
            next.0.links() == self.links(),
            next.0@.well_formed(self.links()),
    {
        proof {
            use_type_invariant(&self);
            lemma_step_well_formed(self@, self.links(), event@);
        }
        let ghost before = self@;
        let ghost spec_links = self.links();
        let CascadeDelete { links, stack, is_child, phase } = self;
        let mut stack = stack;
        proof {
            if before.stack.len() > 0 {
                lemma_links_fit(links, before.top().coll);
                assert(frames_view(stack@).last() == stack@.last()@);
            }
        }
        match phase {
            Phase::Finished => (
                CascadeDelete { links, stack, is_child, phase },
                DeleteAction::Finished,
            ),
            Phase::Aborted(failure) => (
                CascadeDelete { links, stack, is_child, phase },
                DeleteAction::Aborted(failure),
            ),
            Phase::Fresh => match event {
                DeleteEvent::Begin => {
                    let (stack, phase, action) = proceed(links, stack, is_child);
                    (CascadeDelete { links, stack, is_child, phase }, action)
                },
                DeleteEvent::StoreFailed => give_up(links, stack, is_child, DeleteFailure::Store),
                _ => give_up(links, stack, is_child, DeleteFailure::OutOfTurn),
            },
            Phase::Clearing => match event {
                DeleteEvent::Cleared => {
                    let (stack, phase, action) = after_link(links, stack, is_child);
                    (CascadeDelete { links, stack, is_child, phase }, action)
                },
                DeleteEvent::StoreFailed => give_up(links, stack, is_child, DeleteFailure::Store),
                _ => give_up(links, stack, is_child, DeleteFailure::OutOfTurn),
            },
            Phase::Finding => match event {
                DeleteEvent::Referrers(docs) => match identities_of(&docs) {
                    None => give_up(links, stack, is_child, DeleteFailure::MissingId),
                    Some(ids) => {
                        let (stack, phase, action) = if ids.len() == 0 {
                            after_link(links, stack, is_child)
                        } else {
                            after_referrers(links, stack, is_child, ids)
                        };
                        (CascadeDelete { links, stack, is_child, phase }, action)
                    },
                },
                DeleteEvent::StoreFailed => give_up(links, stack, is_child, DeleteFailure::Store),
                _ => give_up(links, stack, is_child, DeleteFailure::OutOfTurn),
            },
            Phase::Removing => match event {
                DeleteEvent::Removed => {
                    if stack.len() == 1 {
                        stack.pop();
                        assert(frames_view(stack@) =~= Seq::empty());
                        (
                            CascadeDelete { links, stack, is_child, phase: Phase::Finished },
                            DeleteAction::Finished,
                        )
                    } else {
                        assert(waits_for(
                            before.stack[before.stack.len() - 2],
                            before.stack[before.stack.len() - 1],
                            spec_links,
                        ));
                        let (stack, phase, action) = after_removal(links, stack, is_child);
                        (CascadeDelete { links, stack, is_child, phase }, action)
                    }
                },
                DeleteEvent::StoreFailed => give_up(links, stack, is_child, DeleteFailure::Store),
                _ => give_up(links, stack, is_child, DeleteFailure::OutOfTurn),
            },
        }
    }
}

/// The request after the last frame is done with its link.
fn after_link(links: &FkFieldMap, stack: Vec<DeleteFrame>, is_child: bool) -> (out: (
    Vec<DeleteFrame>,
    Phase,
    DeleteAction,
))
    requires
        stack@.len() > 0,
        frames_view(stack@).last().link < links_of(
            links_in(links@),
            frames_view(stack@).last().coll,
        ).len(),
    ensures
        ({
            let before = CascadeView { stack: frames_view(stack@), is_child, phase: Phase::Fresh };
            let after = before.past_link().proceed(links_in(links@));
            &&& frames_view(out.0@) == after.0.stack
            &&& out.1 == after.0.phase
            &&& out.2@ == after.1
        }),
{
    proof {
        lemma_links_fit(links, frames_view(stack@).last().coll);
    }
    let stack = past_link(stack);
    proceed(links, stack, is_child)
}

/// The request after the referrers `ids` were found through the link of the
/// last frame.
fn after_referrers(
    links: &FkFieldMap,
    stack: Vec<DeleteFrame>,
    is_child: bool,
    ids: Vec<ObjectId>,
) -> (out: (Vec<DeleteFrame>, Phase, DeleteAction))
    requires
        stack@.len() > 0,
        ids@.len() > 0,
        frames_view(stack@).last().link < links_of(
            links_in(links@),
            frames_view(stack@).last().coll,
        ).len(),
    ensures
        ({
            let before = CascadeView { stack: frames_view(stack@), is_child, phase: Phase::Fresh };
            let held = before.with_top(FrameView { kids: ids@, kid: 0, ..before.top() });
            let after = held.enter(links_in(links@));
            &&& frames_view(out.0@) == after.0.stack
            &&& out.1 == after.0.phase
            &&& out.2@ == after.1
        }),
{
    let mut stack = stack;
    let ghost before = CascadeView { stack: frames_view(stack@), is_child, phase: Phase::Fresh };
    let ghost held = before.with_top(FrameView { kids: ids@, kid: 0, ..before.top() });
    let mut top = stack.pop().unwrap();
    assert(top@ == before.top());
    top.kids = ids;
    top.kid = 0;
    stack.push(top);
    assert(frames_view(stack@) =~= held.stack);
    enter(links, stack, is_child)
}

/// Whether the record `id` of `coll` is on the path `stack`.
fn is_on_path(stack: &Vec<DeleteFrame>, coll: &str, id: &ObjectId) -> (found: bool)
    ensures
        found == on_path(frames_view(stack@), coll@, *id),
{
    let mut i: usize = 0;
    while i < stack.len()
        invariant
            i <= stack@.len(),
            forall|p: int|
                0 <= p < i ==> !((#[trigger] frames_view(stack@)[p]).coll == coll@ && frames_view(
                    stack@,
                )[p].id == *id),
        decreases stack@.len() - i,
    {
        if same_text(stack[i].coll.as_str(), coll) && stack[i].id == *id {
            assert(frames_view(stack@)[i as int].coll == coll@);
            return true;
        }
        i += 1;
    }
    false
}

/// Makes the referrer in hand of the last frame the record in hand, unless
/// it is on the path already: [`CascadeView::enter`].
fn enter(links: &FkFieldMap, stack: Vec<DeleteFrame>, is_child: bool) -> (out: (
    Vec<DeleteFrame>,
    Phase,
    DeleteAction,
))
    requires
        stack@.len() > 0,
        frames_view(stack@).last().link < links_of(
            links_in(links@),
            frames_view(stack@).last().coll,
        ).len(),
        frames_view(stack@).last().kid < frames_view(stack@).last().kids.len(),
    ensures
        ({
            let before = CascadeView { stack: frames_view(stack@), is_child, phase: Phase::Fresh };
            let after = before.enter(links_in(links@));
            &&& frames_view(out.0@) == after.0.stack
            &&& out.1 == after.0.phase
            &&& out.2@ == after.1
        }),
{
    let mut stack = stack;
    let ghost before = CascadeView { stack: frames_view(stack@), is_child, phase: Phase::Fresh };
    assert(frames_view(stack@).last() == stack@.last()@);
    let child = child_of(links, &stack[stack.len() - 1]);
    assert(child@ == before.descend(links_in(links@)).top());
    if is_on_path(&stack, child.coll.as_str(), &child.id) {
        return (
            stack,
            Phase::Aborted(DeleteFailure::Cycle),
            DeleteAction::Aborted(DeleteFailure::Cycle),
        );
    }
    stack.push(child);
    assert(frames_view(stack@) =~= before.descend(links_in(links@)).stack);
    proceed(links, stack, is_child)
}

/// The request after the record of the last frame was deleted, where a frame
/// waits for it.
fn after_removal(links: &FkFieldMap, stack: Vec<DeleteFrame>, is_child: bool) -> (out: (
    Vec<DeleteFrame>,
    Phase,
    DeleteAction,
))
    requires
        stack@.len() > 1,
        waits_for(
            frames_view(stack@)[stack@.len() - 2],
            frames_view(stack@)[stack@.len() - 1],
            links_in(links@),
        ),
    ensures
        ({
            let before = CascadeView {
                stack: frames_view(stack@),
                is_child,
                phase: Phase::Removing,
            };
            let after = before.ascend(links_in(links@));
            &&& frames_view(out.0@) == after.0.stack
            &&& out.1 == after.0.phase
            &&& out.2@ == after.1
        }),
{
    let mut stack = stack;
    let ghost before = CascadeView { stack: frames_view(stack@), is_child, phase: Phase::Removing };
    let ghost back = CascadeView { stack: before.stack.drop_last(), ..before };
    stack.pop();
    let mut parent = stack.pop().unwrap();
    assert(parent@ == back.top());
    proof {
        lemma_links_fit(links, parent@.coll);
        assert(back.top() == before.stack[before.stack.len() - 2]);
        assert(parent.kid < parent.kids@.len());
        assert(parent.kids@.len() == parent.kids.len());
    }
    if parent.kid + 1 < parent.kids.len() {
        parent.kid += 1;
        stack.push(parent);
        proof {
            let held = back.with_top(FrameView { kid: back.top().kid + 1, ..back.top() });
            assert(frames_view(stack@) =~= held.stack);
        }
        enter(links, stack, is_child)
    } else {
        parent.link += 1;
        parent.kids = Vec::new();
        parent.kid = 0;
        stack.push(parent);
        assert(frames_view(stack@) =~= back.past_link().stack);
        proceed(links, stack, is_child)
    }
}

/// No collection has more links than an index can count.
proof fn lemma_links_fit(links: &FkFieldMap, coll: Seq<char>)
    ensures
        links_of(links_in(links@), coll).len() <= usize::MAX,
{
    if links@.dom().contains(coll) {
        assert(links_of(links_in(links@), coll).len() == links@[coll].len());
    }
}

/// Moves the last frame of `stack` past its link.
fn past_link(stack: Vec<DeleteFrame>) -> (moved: Vec<DeleteFrame>)
    requires
        stack@.len() > 0,
        frames_view(stack@).last().link < usize::MAX,
    ensures
        frames_view(moved@) == (CascadeView {
            stack: frames_view(stack@),
            is_child: false,
            phase: Phase::Fresh,
        }).past_link().stack,
{
    let mut stack = stack;
    let ghost before = frames_view(stack@);
    let mut top = stack.pop().unwrap();
    top.link += 1;
    top.kids = Vec::new();
    top.kid = 0;
    stack.push(top);
    assert(frames_view(stack@) =~= before.drop_last().push(
        FrameView { link: before.last().link + 1, kids: Seq::empty(), kid: 0, ..before.last() },
    ));
    stack
}

/// The machine given up for `failure`.
fn give_up<'a>(
    links: &'a FkFieldMap,
    stack: Vec<DeleteFrame>,
    is_child: bool,
    failure: DeleteFailure,
) -> (out: (CascadeDelete<'a>, DeleteAction))
    ensures
        out.0@ == (CascadeView {
            stack: frames_view(stack@),
            is_child,
            phase: Phase::Aborted(failure),
        }),
        out.0.links() == links_in(links@),
        out.1@ == ActionView::Aborted(failure),
{
    (
        CascadeDelete { links, stack, is_child, phase: Phase::Aborted(failure) },
        DeleteAction::Aborted(failure),
    )
}

impl Tumongo {
    /// Begins the delete of the record `id` of `coll_name`, by the reverse
    /// links `fk_fields`. `is_child` is handed on with the request that
    /// deletes the record itself and changes nothing else.
    pub fn delete<'a>(
        coll_name: &str,
        id: &ObjectId,
        fk_fields: &'a FkFieldMap,
        is_child: bool,
    ) -> (machine: CascadeDelete<'a>)
        ensures
            machine@ == CascadeView::start(coll_name@, *id, is_child),
            machine.links() == links_in(fk_fields@),
    {
        let mut stack: Vec<DeleteFrame> = Vec::new();
        stack.push(
            DeleteFrame {
                coll: coll_name.to_owned(),
                id: id.clone(),
                link: 0,
                kids: Vec::new(),
                kid: 0,
            },
        );
        assert(frames_view(stack@) =~= CascadeView::start(coll_name@, *id, is_child).stack);
        CascadeDelete { links: fk_fields, stack, is_child, phase: Phase::Fresh }
    }
}

} // verus!
