//! What holds of every population, whatever the store answers.

use crate::document::{upsert, Fields, Value};
use crate::populate::{
    allows, forward_task, lemma_move_costs, reverse_task, stack_cost, AnswerView, Move, Pass,
    PopulateFailure, PopulateView, Relations, RequestView, Role, TaskView, Waiting,
};
use crate::registry::links_of;
use vstd::prelude::*;

verus! {

/// The filter is in force at the first level only: the root task carries it,
/// and so does the forward pass of a match of the root; every other task has
/// none. The root task is the lowest.
pub open spec fn first_level_only(stack: Seq<TaskView>) -> bool {
    forall|p: int|
        0 <= p < stack.len() ==> {
            let task = #[trigger] stack[p];
            &&& task.role == Role::Root ==> p == 0
            &&& p >= 1 ==> task.filter is None || (p == 1 && task.pass == Pass::Forward
                && task.role == Role::Match)
        }
}

/// The request is one that the task in hand may make: a lookup of matches
/// only in a collection that is not embedded yet, and any lookup only in a
/// collection that the filter of the task lets through.
pub open spec fn sound_request(machine: PopulateView, request: RequestView) -> bool {
    match request {
        RequestView::FindMany { coll, field_name, id } => !machine.skip.contains(coll) && allows(
            machine.top().filter,
            coll,
        ),
        RequestView::FindOne { coll, id } => allows(machine.top().filter, coll),
        _ => true,
    }
}

/// The machine that a move comes to.
pub open spec fn after_move(made: Move) -> PopulateView {
    match made {
        Move::On(next) => next,
        Move::Ask(next, request) => next,
    }
}

/// One move keeps the filter at the first level and the names in `skip`, and
/// a request it makes is sound.
pub proof fn lemma_move_is_orderly(st: PopulateView, rel: Relations)
    requires
        first_level_only(st.stack),
    ensures
        first_level_only(after_move(st.nudge(rel)).stack),
        st.skip.is_prefix_of(after_move(st.nudge(rel)).skip),
        st.nudge(rel) matches Move::Ask(next, request) ==> sound_request(next, request),
{
    let next = after_move(st.nudge(rel));
    if st.stack.len() > 0 {
        let top = st.top();
        let n = st.stack.len() as int;
        assert(top == st.stack[n - 1]);
        assert forall|p: int| 0 <= p < next.stack.len() implies {
            let task = #[trigger] next.stack[p];
            &&& task.role == Role::Root ==> p == 0
            &&& p >= 1 ==> task.filter is None || (p == 1 && task.pass == Pass::Forward
                && task.role == Role::Match)
        } by {
            if p < n - 2 {
                assert(next.stack[p] == st.stack[p]);
            } else if p == n - 2 {
                let below = st.stack[n - 2];
                assert(next.stack[p].role == below.role);
                assert(next.stack[p].filter == below.filter);
                assert(next.stack[p].pass == below.pass);
            }
        }
    }
}

/// Moving on until a request is made keeps the filter at the first level
/// and the names in `skip`, and the request is sound.
pub proof fn lemma_settle_is_orderly(st: PopulateView, rel: Relations)
    requires
        first_level_only(st.stack),
    ensures
        first_level_only(st.settle(rel).0.stack),
        st.skip.is_prefix_of(st.settle(rel).0.skip),
        sound_request(st.settle(rel).0, st.settle(rel).1),
    decreases stack_cost(rel, st.stack),
{
    lemma_move_costs(st, rel);
    lemma_move_is_orderly(st, rel);
    match st.nudge(rel) {
        Move::On(next) => {
            lemma_settle_is_orderly(next, rel);
        },
        Move::Ask(next, request) => {},
    }
}

/// The machine and the request after the answers `events`, in order; before
/// any answer, the request is taken to be that the population was given up
/// out of turn.
pub open spec fn populate_run(
    rel: Relations,
    st: PopulateView,
    events: Seq<AnswerView>,
) -> (PopulateView, RequestView)
    decreases events.len(),
{
    if events.len() == 0 {
        (st, RequestView::Aborted(PopulateFailure::OutOfTurn))
    } else {
        populate_run(rel, st, events.drop_last()).0.step(rel, events.last())
    }
}

/// A population begins with the filter at the first level only.
pub proof fn lemma_start_is_orderly(doc: Fields, coll: Seq<char>, filter: Option<Seq<Seq<char>>>)
    ensures
        first_level_only(PopulateView::start(doc, coll, filter).stack),
{
}

/// Taking an answer in keeps the filter at the first level and leaves `skip`
/// as it is.
pub proof fn lemma_receive_is_orderly(st: PopulateView, rel: Relations, event: AnswerView)
    requires
        first_level_only(st.stack),
    ensures
        st.receive(rel, event) matches Some(next) ==> first_level_only(next.stack) && next.skip
            == st.skip,
{
    if st.receive(rel, event) is Some {
        let next = st.receive(rel, event).unwrap();
        let n = st.stack.len() as int;
        assert forall|p: int| 0 <= p < next.stack.len() implies {
            let task = #[trigger] next.stack[p];
            &&& task.role == Role::Root ==> p == 0
            &&& p >= 1 ==> task.filter is None || (p == 1 && task.pass == Pass::Forward
                && task.role == Role::Match)
        } by {
            if p < n - 1 {
                assert(next.stack[p] == st.stack[p]);
            } else if p == n - 1 {
                let top = st.stack[n - 1];
                assert(next.stack[p].role == top.role);
                assert(next.stack[p].filter == top.filter);
                assert(next.stack[p].pass == top.pass);
            }
        }
    }
}

/// A step keeps the filter at the first level and the names in `skip`, and
/// the request it makes is sound.
pub proof fn lemma_step_is_orderly(st: PopulateView, rel: Relations, event: AnswerView)
    requires
        first_level_only(st.stack),
    ensures
        first_level_only(st.step(rel, event).0.stack),
        st.skip.is_prefix_of(st.step(rel, event).0.skip),
        sound_request(st.step(rel, event).0, st.step(rel, event).1),
{
    lemma_receive_is_orderly(st, rel, event);
    if st.receive(rel, event) is Some {
        lemma_settle_is_orderly(st.receive(rel, event).unwrap(), rel);
    }
}

/// A document of a collection without links comes back as it went in, with
/// no lookup made.
pub proof fn law_unlinked_document_is_unchanged(
    rel: Relations,
    doc: Fields,
    coll: Seq<char>,
    filter: Option<Seq<Seq<char>>>,
)
    requires
        links_of(rel.reverse, coll).len() == 0,
        links_of(rel.forward, coll).len() == 0,
    ensures
        PopulateView::start(doc, coll, filter).step(rel, AnswerView::Begin).1
            == RequestView::Finished(doc),
        PopulateView::start(doc, coll, filter).step(rel, AnswerView::Begin).0.waiting
            == Waiting::Finished,
{
    let st = PopulateView::start(doc, coll, filter);
    let turned = st.with_top(forward_task(Role::Root, doc, coll, filter));
    assert(st.receive(rel, AnswerView::Begin) == Some(st));
    assert(st.top() == reverse_task(Role::Root, doc, coll, filter));
    assert(st.nudge(rel) == Move::On(turned));
    assert(turned.top() == forward_task(Role::Root, doc, coll, filter));
    assert(turned.nudge(rel) is Ask);
    assert(st.settle(rel) == turned.settle(rel));
}

/// The move from `st` to `next` embeds the matches gathered for the link in
/// hand, of which there is at least one, under the name of their collection,
/// and adds that name to `skip`.
pub open spec fn embeds(st: PopulateView, rel: Relations, next: PopulateView) -> bool {
    let top = st.top();
    let via = links_of(rel.reverse, top.coll)[top.link];
    &&& st.stack.len() > 0
    &&& top.pass == Pass::Reverse
    &&& top.pending.len() == 0
    &&& top.gathered.len() > 0
    &&& next.skip == st.skip.push(via.coll)
    &&& next.top().doc == upsert(top.doc, via.coll, Value::Docs(top.gathered))
}

/// A name joins `skip` in no other move than the one that embeds at least one
/// match under it.
pub proof fn law_skip_grows_with_embedding(st: PopulateView, rel: Relations)
    ensures
        after_move(st.nudge(rel)).skip == st.skip || embeds(st, rel, after_move(st.nudge(rel))),
{
}

/// A collection that is embedded is not looked up for matches again: once its
/// name is in `skip`, the name stays there, and no request that follows, after
/// however many answers, asks for the matches of that collection.
pub proof fn law_embedded_collection_is_not_looked_up_again(
    rel: Relations,
    st: PopulateView,
    events: Seq<AnswerView>,
    coll: Seq<char>,
)
    requires
        first_level_only(st.stack),
        st.skip.contains(coll),
    ensures
        first_level_only(populate_run(rel, st, events).0.stack),
        populate_run(rel, st, events).0.skip.contains(coll),
        !(populate_run(rel, st, events).1 is FindMany && populate_run(
            rel,
            st,
            events,
        ).1->FindMany_coll == coll),
    decreases events.len(),
{
    if events.len() > 0 {
        law_embedded_collection_is_not_looked_up_again(rel, st, events.drop_last(), coll);
        let before = populate_run(rel, st, events.drop_last()).0;
        lemma_step_is_orderly(before, rel, events.last());
        let after = before.step(rel, events.last()).0;
        let at = choose|i: int| 0 <= i < before.skip.len() && before.skip[i] == coll;
        assert(after.skip[at] == coll);
    }
}

/// The filter restricts the first level only: at every step of a population,
/// each task but the root task and the forward pass of a match of the root is
/// without a filter, and no lookup is asked for in a collection that the
/// filter of the task in hand keeps out.
pub proof fn law_filter_holds_at_first_level_only(
    rel: Relations,
    doc: Fields,
    coll: Seq<char>,
    filter: Option<Seq<Seq<char>>>,
    events: Seq<AnswerView>,
)
    ensures
        first_level_only(
            populate_run(rel, PopulateView::start(doc, coll, filter), events).0.stack,
        ),
        sound_request(
            populate_run(rel, PopulateView::start(doc, coll, filter), events).0,
            populate_run(rel, PopulateView::start(doc, coll, filter), events).1,
        ),
    decreases events.len(),
{
    let st = PopulateView::start(doc, coll, filter);
    if events.len() > 0 {
        law_filter_holds_at_first_level_only(rel, doc, coll, filter, events.drop_last());
        lemma_step_is_orderly(populate_run(rel, st, events.drop_last()).0, rel, events.last());
    }
}

} // verus!
