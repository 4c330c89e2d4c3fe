//! Population as a resumable machine.
//!
//! Populating a document runs two passes over it. The reverse pass embeds,
//! under each referencing collection's name, the records that reference the
//! document; the forward pass replaces each reference the document holds by
//! the record it names. Embedded records are expanded in turn. The machine
//! holds the documents under expansion as a stack of tasks; each
//! [`Populate::step`] takes the store's answer to the last lookup and returns
//! the next one, or the finished document.

use crate::document::{
    doc_fields, docs_fields, id_at, object_id_at, put_document, put_documents, upsert, Fields,
    Value,
};
use crate::registry::{
    holds_name, links_in, links_of, names_view, FkFieldMap, Link, Links, Tumongo,
};
use bson::oid::ObjectId;
use bson::Document;
use vstd::prelude::*;

verus! {

/// Which pass a task runs over its document.
#[derive(Debug, Clone, Copy, PartialEq, Eq, Structural)]
pub enum Pass {
    /// Embedding the records that reference the document.
    Reverse,
    /// Resolving the references that the document holds.
    Forward,
}

/// Where a task's document goes when the task is done.
#[derive(Debug, Clone, Copy, PartialEq, Eq, Structural)]
pub enum Role {
    /// The document first handed in: it is the result.
    Root,
    /// A record that references the document of the task below: it joins the
    /// records gathered there.
    Match,
    /// A record that the document of the task below references: it takes the
    /// place of the reference.
    Target,
}

/// Why a population stopped before its end.
#[derive(Debug, Clone, Copy, PartialEq, Eq, Structural)]
pub enum PopulateFailure {
    /// The store failed.
    Store,
    /// The answer handed in does not belong to the lookup that was asked for.
    OutOfTurn,
}

/// What the machine waits for.
#[derive(Debug, Clone, Copy, PartialEq, Eq, Structural)]
pub enum Waiting {
    /// Nothing was asked for yet.
    Fresh,
    /// The records that reference a document.
    Matches,
    /// The record that a reference names.
    Target,
    /// Nothing: the document was handed out.
    Finished,
    /// Nothing: the population was given up.
    Aborted(PopulateFailure),
}

/// The store's answer to the previous lookup.
#[derive(Debug, PartialEq)]
pub enum PopulateEvent {
    /// No lookup was asked for yet.
    Begin,
    /// The records that hold the reference asked for.
    Matches(Vec<Document>),
    /// The record with the identity asked for, if there is one.
    Target(Option<Document>),
    /// The lookup failed.
    StoreFailed,
}

/// What the store is to look up next.
#[derive(Debug, PartialEq)]
pub enum PopulateAction {
    /// In `coll`, every record where `field_name` equals `id`.
    FindMany { coll: String, field_name: String, id: ObjectId },
    /// In `coll`, the record whose identity is `id`.
    FindOne { coll: String, id: ObjectId },
    /// Nothing: this is the populated document.
    Finished(Document),
    /// Nothing: the population was given up.
    Aborted(PopulateFailure),
}

/// An answer as the contracts see it.
pub enum AnswerView {
    Begin,
    Matches(Seq<Fields>),
    Target(Option<Fields>),
    StoreFailed,
}

/// A lookup as the contracts see it.
pub enum RequestView {
    FindMany { coll: Seq<char>, field_name: Seq<char>, id: ObjectId },
    FindOne { coll: Seq<char>, id: ObjectId },
    Finished(Fields),
    Aborted(PopulateFailure),
}

impl View for PopulateEvent {
    type V = AnswerView;

    open spec fn view(&self) -> AnswerView {
        match self {
            PopulateEvent::Begin => AnswerView::Begin,
            PopulateEvent::Matches(docs) => AnswerView::Matches(docs_fields(docs@)),
            PopulateEvent::Target(found) => AnswerView::Target(
                match found {
                    Some(doc) => Some(doc_fields(*doc)),
                    None => None,
                },
            ),
            PopulateEvent::StoreFailed => AnswerView::StoreFailed,
        }
    }
}

impl View for PopulateAction {
    type V = RequestView;

    open spec fn view(&self) -> RequestView {
        match self {
            PopulateAction::FindMany { coll, field_name, id } => RequestView::FindMany {
                coll: coll@,
                field_name: field_name@,
                id: *id,
            },
            PopulateAction::FindOne { coll, id } => RequestView::FindOne { coll: coll@, id: *id },
            PopulateAction::Finished(doc) => RequestView::Finished(doc_fields(*doc)),
            PopulateAction::Aborted(failure) => RequestView::Aborted(*failure),
        }
    }
}

/// The two link maps a population goes by.
pub struct Relations {
    /// Per collection, the links that point at it from other collections.
    pub reverse: Links,
    /// Per collection, the links that start at its own fields.
    pub forward: Links,
}

/// The names that a filter lets through: all of them where there is none.
pub open spec fn allows(filter: Option<Seq<Seq<char>>>, coll: Seq<char>) -> bool {
    match filter {
        Some(names) => names.contains(coll),
        None => true,
    }
}

/// One document under expansion, as the contracts see it.
pub struct TaskView {
    pub pass: Pass,
    pub role: Role,
    /// The document, with what was embedded so far.
    pub doc: Fields,
    /// The document's identity as it was when the reverse pass began.
    pub id: Option<ObjectId>,
    /// The collection the document belongs to.
    pub coll: Seq<char>,
    /// The collections that may be expanded at this level, if restricted.
    pub filter: Option<Seq<Seq<char>>>,
    /// The link in hand.
    pub link: int,
    /// Reverse pass: the matches of the link in hand that are not expanded yet.
    pub pending: Seq<Fields>,
    /// Reverse pass: the matches of the link in hand that are expanded.
    pub gathered: Seq<Fields>,
}

/// A task that begins the reverse pass over `doc`.
pub open spec fn reverse_task(
    role: Role,
    doc: Fields,
    coll: Seq<char>,
    filter: Option<Seq<Seq<char>>>,
) -> TaskView {
    TaskView {
        pass: Pass::Reverse,
        role,
        doc,
        id: id_at(doc, "_id"@),
        coll,
        filter,
        link: 0,
        pending: Seq::empty(),
        gathered: Seq::empty(),
    }
}

/// A task that begins the forward pass over `doc`.
pub open spec fn forward_task(
    role: Role,
    doc: Fields,
    coll: Seq<char>,
    filter: Option<Seq<Seq<char>>>,
) -> TaskView {
    TaskView {
        pass: Pass::Forward,
        role,
        doc,
        id: None,
        coll,
        filter,
        link: 0,
        pending: Seq::empty(),
        gathered: Seq::empty(),
    }
}

/// The machine as the contracts see it. The last task is the one in hand;
/// `skip` holds the collections that a reverse pass has embedded already.
pub struct PopulateView {
    pub stack: Seq<TaskView>,
    pub skip: Seq<Seq<char>>,
    pub waiting: Waiting,
}

/// What one move of the machine comes to.
pub enum Move {
    /// The machine moved on without the store.
    On(PopulateView),
    /// The machine stands still with a request.
    Ask(PopulateView, RequestView),
}

/// How many links of `list` are left from `link` on.
pub open spec fn links_left(list: Seq<Link>, link: int) -> nat {
    if 0 <= link <= list.len() {
        (list.len() - link) as nat
    } else {
        0
    }
}

/// A bound on the moves that one match of collection `coll` can take before
/// it is gathered.
pub open spec fn match_cost(rel: Relations, coll: Seq<char>) -> nat {
    links_of(rel.forward, coll).len() + links_of(rel.reverse, coll).len() + 5
}

/// A bound on the moves that `task` can take without the store.
pub open spec fn task_cost(rel: Relations, task: TaskView) -> nat {
    match task.pass {
        Pass::Forward => 1 + links_left(links_of(rel.forward, task.coll), task.link) + (if task.role
            == Role::Match {
            links_of(rel.reverse, task.coll).len() + 3
        } else {
            0
        }),
        Pass::Reverse => {
            let list = links_of(rel.reverse, task.coll);
            let via = list[task.link].coll;
            2 + links_left(list, task.link) + (if task.gathered.len() > 0 {
                1nat
            } else {
                0nat
            }) + task.pending.len() * match_cost(rel, via) + (if task.role == Role::Root {
                links_of(rel.forward, task.coll).len() + 2
            } else {
                0
            })
        },
    }
}

/// A bound on the moves that the tasks of `stack` can take without the store.
pub open spec fn stack_cost(rel: Relations, stack: Seq<TaskView>) -> nat
    decreases stack.len(),
{
    if stack.len() == 0 {
        0
    } else {
        stack_cost(rel, stack.drop_last()) + task_cost(rel, stack.last())
    }
}

impl PopulateView {
    /// The machine before its first step, about to populate `doc` of `coll`.
    pub open spec fn start(
        doc: Fields,
        coll: Seq<char>,
        filter: Option<Seq<Seq<char>>>,
    ) -> PopulateView {
        PopulateView {
            stack: seq![reverse_task(Role::Root, doc, coll, filter)],
            skip: Seq::empty(),
            waiting: Waiting::Fresh,
        }
    }

    /// The task in hand.
    pub open spec fn top(self) -> TaskView {
        self.stack.last()
    }

    /// The same machine with `task` in place of the task in hand.
    pub open spec fn with_top(self, task: TaskView) -> PopulateView {
        PopulateView { stack: self.stack.drop_last().push(task), ..self }
    }

    /// The same machine with `task` on top of the task in hand.
    pub open spec fn push(self, task: TaskView) -> PopulateView {
        PopulateView { stack: self.stack.push(task), ..self }
    }

    /// The same machine without the task in hand.
    pub open spec fn pop(self) -> PopulateView {
        PopulateView { stack: self.stack.drop_last(), ..self }
    }

    /// The same machine, given up for `failure`.
    pub open spec fn aborted(self, failure: PopulateFailure) -> (PopulateView, RequestView) {
        (PopulateView { waiting: Waiting::Aborted(failure), ..self }, RequestView::Aborted(failure))
    }

    /// The move of a machine that is in no state to move.
    pub open spec fn halt(self) -> Move {
        Move::Ask(
            PopulateView { waiting: Waiting::Aborted(PopulateFailure::OutOfTurn), ..self },
            RequestView::Aborted(PopulateFailure::OutOfTurn),
        )
    }

    /// One move of a reverse pass.
    ///
    /// With matches of the link in hand left, the next of them begins its own
    /// forward pass, under the filter of this level. With all of them
    /// expanded, they are embedded under the name of their collection, that
    /// name joins `skip`, and the pass goes to the next link. With no link
    /// left (or no identity to look for), the document goes on: the root to
    /// its forward pass, a match to the records gathered below it. Otherwise
    /// the link in hand is passed over where its collection is in `skip` or is
    /// kept out by the filter, and looked up where it is not.
    pub open spec fn reverse_move(self, rel: Relations) -> Move {
        let top = self.top();
        let list = links_of(rel.reverse, top.coll);
        let at_link = 0 <= top.link < list.len();
        if top.pending.len() > 0 || top.gathered.len() > 0 {
            if !at_link {
                self.halt()
            } else if top.pending.len() > 0 {
                Move::On(
                    self.with_top(TaskView { pending: top.pending.drop_first(), ..top }).push(
                        forward_task(Role::Match, top.pending[0], list[top.link].coll, top.filter),
                    ),
                )
            } else {
                Move::On(
                    PopulateView {
                        skip: self.skip.push(list[top.link].coll),
                        ..self.with_top(
                            TaskView {
                                doc: upsert(
                                    top.doc,
                                    list[top.link].coll,
                                    Value::Docs(top.gathered),
                                ),
                                gathered: Seq::empty(),
                                link: top.link + 1,
                                ..top
                            },
                        )
                    },
                )
            }
        } else if top.id is None || !at_link {
            if top.role == Role::Root {
                Move::On(self.with_top(forward_task(Role::Root, top.doc, top.coll, top.filter)))
            } else if self.stack.len() >= 2 && self.pop().top().pass == Pass::Reverse {
                let below = self.pop().top();
                Move::On(
                    self.pop().with_top(
                        TaskView { gathered: below.gathered.push(top.doc), ..below },
                    ),
                )
            } else {
                self.halt()
            }
        } else if self.skip.contains(list[top.link].coll) || !allows(
            top.filter,
            list[top.link].coll,
        ) {
            Move::On(self.with_top(TaskView { link: top.link + 1, ..top }))
        } else {
            Move::Ask(
                PopulateView { waiting: Waiting::Matches, ..self },
                RequestView::FindMany {
                    coll: list[top.link].coll,
                    field_name: list[top.link].field_name,
                    id: top.id.unwrap(),
                },
            )
        }
    }

    /// One move of a forward pass.
    ///
    /// With no link left, the document goes on: the root is the result, a
    /// match begins its reverse pass without a filter, a target takes the
    /// place of the reference in the document below. Otherwise the link in
    /// hand is passed over where its field holds no object id or its
    /// collection is kept out by the filter, and looked up where not.
    ///
    /// Unlike the reverse pass, the forward pass keeps no record of what it
    /// has resolved: where records reference each other in a circle, it
    /// follows the circle for as long as it is answered.
    pub open spec fn forward_move(self, rel: Relations) -> Move {
        let top = self.top();
        let list = links_of(rel.forward, top.coll);
        if !(0 <= top.link < list.len()) {
            match top.role {
                Role::Root => Move::Ask(
                    PopulateView { stack: Seq::empty(), waiting: Waiting::Finished, ..self },
                    RequestView::Finished(top.doc),
                ),
                Role::Match => Move::On(
                    self.with_top(reverse_task(Role::Match, top.doc, top.coll, None)),
                ),
                Role::Target => {
                    let below = self.pop().top();
                    let below_list = links_of(rel.forward, below.coll);
                    if self.stack.len() >= 2 && below.pass == Pass::Forward && 0 <= below.link
                        < below_list.len() {
                        Move::On(
                            self.pop().with_top(
                                TaskView {
                                    doc: upsert(
                                        below.doc,
                                        below_list[below.link].field_name,
                                        Value::Doc(top.doc),
                                    ),
                                    link: below.link + 1,
                                    ..below
                                },
                            ),
                        )
                    } else {
                        self.halt()
                    }
                },
            }
        } else {
            match id_at(top.doc, list[top.link].field_name) {
                Some(id) => if allows(top.filter, list[top.link].coll) {
                    Move::Ask(
                        PopulateView { waiting: Waiting::Target, ..self },
                        RequestView::FindOne { coll: list[top.link].coll, id },
                    )
                } else {
                    Move::On(self.with_top(TaskView { link: top.link + 1, ..top }))
                },
                None => Move::On(self.with_top(TaskView { link: top.link + 1, ..top })),
            }
        }
    }

    /// One move of the machine, by the pass of the task in hand.
    pub open spec fn nudge(self, rel: Relations) -> Move {
        if self.stack.len() == 0 {
            self.halt()
        } else if self.top().pass == Pass::Reverse {
            self.reverse_move(rel)
        } else {
            self.forward_move(rel)
        }
    }

    /// The machine moved on until it stands still, and the request it then
    /// makes.
    pub open spec fn settle(self, rel: Relations) -> (PopulateView, RequestView)
        decreases stack_cost(rel, self.stack),
        via Self::settle_decreases
    {
        match self.nudge(rel) {
            Move::On(next) => next.settle(rel),
            Move::Ask(next, request) => (next, request),
        }
    }

    #[via_fn]
    proof fn settle_decreases(self, rel: Relations) {
        lemma_move_costs(self, rel);
    }

    /// The machine with the answer `event` taken in, where the answer belongs
    /// to the lookup asked for: matches are held for expansion, or the link is
    /// passed where there are none; a target begins its own forward pass,
    /// without a filter, or the link is passed where there is none.
    pub open spec fn receive(self, rel: Relations, event: AnswerView) -> Option<PopulateView> {
        let top = self.top();
        if self.waiting == Waiting::Fresh && event is Begin {
            Some(self)
        } else if self.stack.len() == 0 {
            None
        } else if self.waiting == Waiting::Matches && event is Matches && top.pass == Pass::Reverse
            && 0 <= top.link < links_of(rel.reverse, top.coll).len() {
            let docs = event->Matches_0;
            if docs.len() == 0 {
                Some(self.with_top(TaskView { link: top.link + 1, ..top }))
            } else {
                Some(self.with_top(TaskView { pending: docs, ..top }))
            }
        } else if self.waiting == Waiting::Target && event is Target && top.pass == Pass::Forward
            && 0 <= top.link < links_of(rel.forward, top.coll).len() {
            match event->Target_0 {
                None => Some(self.with_top(TaskView { link: top.link + 1, ..top })),
                Some(doc) => Some(
                    self.push(
                        forward_task(
                            Role::Target,
                            doc,
                            links_of(rel.forward, top.coll)[top.link].coll,
                            None,
                        ),
                    ),
                ),
            }
        } else {
            None
        }
    }

    /// One step: the machine after `event`, and the request it makes.
    ///
    /// A store failure gives the population up, and so does an answer that
    /// does not belong to the lookup asked for. A machine that was given up
    /// stays so, and one that has handed its document out takes no answer.
    pub open spec fn step(self, rel: Relations, event: AnswerView) -> (PopulateView, RequestView) {
        match self.waiting {
            Waiting::Aborted(failure) => (self, RequestView::Aborted(failure)),
            Waiting::Finished => (self, RequestView::Aborted(PopulateFailure::OutOfTurn)),
            _ => if event is StoreFailed {
                self.aborted(PopulateFailure::Store)
            } else {
                match self.receive(rel, event) {
                    Some(next) => next.settle(rel),
                    None => self.aborted(PopulateFailure::OutOfTurn),
                }
            },
        }
    }
}

/// The cost of a stack is that of the tasks below the last, and the last.
pub proof fn lemma_cost_push(rel: Relations, stack: Seq<TaskView>, task: TaskView)
    ensures
        stack_cost(rel, stack.push(task)) == stack_cost(rel, stack) + task_cost(rel, task),
{
    assert(stack.push(task).drop_last() =~= stack);
}

/// Every move that does not stand still brings the machine nearer to
/// standing still.
pub proof fn lemma_move_costs(st: PopulateView, rel: Relations)
    ensures
        st.nudge(rel) matches Move::On(next) ==> stack_cost(rel, next.stack) < stack_cost(
            rel,
            st.stack,
        ),
{
    if st.nudge(rel) is On {
        let next = st.nudge(rel)->On_0;
        let top = st.top();
        let base = st.stack.drop_last();
        lemma_cost_push(rel, base, top);
        assert(base.push(top) =~= st.stack);
        if top.pass == Pass::Reverse {
            let list = links_of(rel.reverse, top.coll);
            if top.pending.len() > 0 {
                let via = list[top.link].coll;
                let kept = TaskView { pending: top.pending.drop_first(), ..top };
                let child = forward_task(Role::Match, top.pending[0], via, top.filter);
                assert(next.stack == base.push(kept).push(child));
                lemma_cost_push(rel, base.push(kept), child);
                lemma_cost_push(rel, base, kept);
                let n = top.pending.len();
                let k = match_cost(rel, via);
                assert(kept.pending.len() == n - 1);
                assert((n - 1) * k == n * k - k) by (nonlinear_arith);
            } else if top.gathered.len() > 0 {
                let moved = TaskView {
                    doc: upsert(top.doc, list[top.link].coll, Value::Docs(top.gathered)),
                    gathered: Seq::empty(),
                    link: top.link + 1,
                    ..top
                };
                assert(next.stack == base.push(moved));
                lemma_cost_push(rel, base, moved);
                assert(top.pending.len() * match_cost(rel, list[top.link].coll) == 0) by (nonlinear_arith)
                    requires
                        top.pending.len() == 0,
                ;
                assert(moved.pending.len() * match_cost(rel, list[moved.link].coll) == 0) by (nonlinear_arith)
                    requires
                        moved.pending.len() == 0,
                ;
            } else if top.id is None || !(0 <= top.link < list.len()) {
                assert(top.pending.len() * match_cost(rel, list[top.link].coll) == 0) by (nonlinear_arith)
                    requires
                        top.pending.len() == 0,
                ;
                if top.role == Role::Root {
                    let turned = forward_task(Role::Root, top.doc, top.coll, top.filter);
                    assert(next.stack == base.push(turned));
                    lemma_cost_push(rel, base, turned);
                } else {
                    let below = base.last();
                    let lower = base.drop_last();
                    let fed = TaskView { gathered: below.gathered.push(top.doc), ..below };
                    assert(next.stack == lower.push(fed));
                    lemma_cost_push(rel, lower, fed);
                    lemma_cost_push(rel, lower, below);
                    assert(lower.push(below) =~= base);
                }
            } else {
                let moved = TaskView { link: top.link + 1, ..top };
                assert(next.stack == base.push(moved));
                lemma_cost_push(rel, base, moved);
                assert(top.pending.len() * match_cost(rel, list[top.link].coll) == 0) by (nonlinear_arith)
                    requires
                        top.pending.len() == 0,
                ;
                assert(moved.pending.len() * match_cost(rel, list[moved.link].coll) == 0) by (nonlinear_arith)
                    requires
                        moved.pending.len() == 0,
                ;
            }
        } else {
            let list = links_of(rel.forward, top.coll);
            if !(0 <= top.link < list.len()) {
                if top.role == Role::Match {
                    let turned = reverse_task(Role::Match, top.doc, top.coll, None);
                    assert(next.stack == base.push(turned));
                    lemma_cost_push(rel, base, turned);
                    assert(turned.pending.len() * match_cost(
                        rel,
                        links_of(rel.reverse, turned.coll)[turned.link].coll,
                    ) == 0) by (nonlinear_arith)
                        requires
                            turned.pending.len() == 0,
                    ;
                } else {
                    let below = base.last();
                    let lower = base.drop_last();
                    let below_list = links_of(rel.forward, below.coll);
                    let fed = TaskView {
                        doc: upsert(
                            below.doc,
                            below_list[below.link].field_name,
                            Value::Doc(top.doc),
                        ),
                        link: below.link + 1,
                        ..below
                    };
                    assert(next.stack == lower.push(fed));
                    lemma_cost_push(rel, lower, fed);
                    lemma_cost_push(rel, lower, below);
                    assert(lower.push(below) =~= base);
                }
            } else {
                let moved = TaskView { link: top.link + 1, ..top };
                assert(next.stack == base.push(moved));
                lemma_cost_push(rel, base, moved);
            }
        }
    }
}

/// One document under expansion.
struct Task {
    pass: Pass,
    role: Role,
    doc: Document,
    id: Option<ObjectId>,
    coll: String,
    /// Whether the caller's filter holds at this level.
    filtered: bool,
    link: usize,
    pending: Vec<Document>,
    gathered: Vec<Document>,
}

/// A caller's filter as the contracts see it.
pub open spec fn filter_view(filter: Option<Vec<String>>) -> Option<Seq<Seq<char>>> {
    match filter {
        Some(names) => Some(names_view(names@)),
        None => None,
    }
}

impl Task {
    spec fn view_under(self, filter: Option<Seq<Seq<char>>>) -> TaskView {
        TaskView {
            pass: self.pass,
            role: self.role,
            doc: doc_fields(self.doc),
            id: self.id,
            coll: self.coll@,
            filter: if self.filtered {
                filter
            } else {
                None
            },
            link: self.link as int,
            pending: docs_fields(self.pending@),
            gathered: docs_fields(self.gathered@),
        }
    }
}

spec fn tasks_view(tasks: Seq<Task>, filter: Option<Seq<Seq<char>>>) -> Seq<TaskView> {
    tasks.map_values(|task: Task| task.view_under(filter))
}

/// The machine that `stack` and `skip` make up.
spec fn machine(
    stack: Seq<Task>,
    skip: Seq<String>,
    filter: Option<Vec<String>>,
    waiting: Waiting,
) -> PopulateView {
    PopulateView {
        stack: tasks_view(stack, filter_view(filter)),
        skip: names_view(skip),
        waiting,
    }
}

/// Whether the move `made`, with the tasks and names it left, is `spec`.
spec fn is_move(
    spec: Move,
    made: Option<(Waiting, PopulateAction)>,
    stack: Seq<Task>,
    skip: Seq<String>,
    filter: Option<Vec<String>>,
    waiting: Waiting,
) -> bool {
    match spec {
        Move::On(next) => made is None && next == machine(stack, skip, filter, waiting),
        Move::Ask(next, request) => {
            &&& made is Some
            &&& next == machine(stack, skip, filter, made->Some_0.0)
            &&& made->Some_0.1@ == request
        },
    }
}

/// Whether the caller's filter, where it holds, lets `coll` through.
fn lets_through(filter: &Option<Vec<String>>, filtered: bool, coll: &str) -> (through: bool)
    ensures
        through == allows(
            if filtered {
                filter_view(*filter)
            } else {
                None
            },
            coll@,
        ),
{
    if !filtered {
        return true;
    }
    match filter {
        Some(names) => holds_name(names, coll),
        None => true,
    }
}

/// The move that gives up.
fn halted() -> (made: Option<(Waiting, PopulateAction)>)
    ensures
        made == Some(
            (
                Waiting::Aborted(PopulateFailure::OutOfTurn),
                PopulateAction::Aborted(PopulateFailure::OutOfTurn),
            ),
        ),
{
    Some(
        (
            Waiting::Aborted(PopulateFailure::OutOfTurn),
            PopulateAction::Aborted(PopulateFailure::OutOfTurn),
        ),
    )
}

/// One move of the reverse pass in hand: [`PopulateView::reverse_move`].
fn reverse_move(
    fk_fields: &FkFieldMap,
    filter: &Option<Vec<String>>,
    stack: &mut Vec<Task>,
    skip: &mut Vec<String>,
    Ghost(rel): Ghost<Relations>,
    Ghost(waiting): Ghost<Waiting>,
) -> (made: Option<(Waiting, PopulateAction)>)
    requires
        old(stack)@.len() > 0,
        rel.reverse == links_in(fk_fields@),
    ensures
        is_move(
            machine(old(stack)@, old(skip)@, *filter, waiting).reverse_move(rel),
            made,
            final(stack)@,
            final(skip)@,
            *filter,
            waiting,
        ),
{
    let ghost fv = filter_view(*filter);
    let ghost before = machine(stack@, skip@, *filter, waiting);
    let ghost base = before.stack.drop_last();
    let mut top = stack.pop().unwrap();
    assert(top.view_under(fv) == before.top());
    assert(tasks_view(stack@, fv) =~= base);
    let found = fk_fields.get(top.coll.as_str());
    let count = match found {
        Some(list) => list.len(),
        None => 0,
    };
    let ghost list = links_of(rel.reverse, top.coll@);
    assert(list.len() == count);
    let at_link = top.link < count;
    if top.pending.len() > 0 || top.gathered.len() > 0 {
        if !at_link {
            stack.push(top);
            assert(tasks_view(stack@, fv) =~= before.stack);
            return halted();
        }
        let via = &found.unwrap()[top.link];
        assert(via@ == list[top.link as int]);
        if top.pending.len() > 0 {
            let ghost held = top.pending@;
            let doc = top.pending.remove(0);
            assert(docs_fields(top.pending@) =~= docs_fields(held).drop_first());
            let child = Task {
                pass: Pass::Forward,
                role: Role::Match,
                doc,
                id: None,
                coll: via.coll.clone(),
                filtered: top.filtered,
                link: 0,
                pending: Vec::new(),
                gathered: Vec::new(),
            };
            assert(child.view_under(fv) == forward_task(
                Role::Match,
                before.top().pending[0],
                list[top.link as int].coll,
                before.top().filter,
            )) by {
                assert(docs_fields(child.pending@) =~= Seq::<Fields>::empty());
                assert(docs_fields(child.gathered@) =~= Seq::<Fields>::empty());
            }
            stack.push(top);
            stack.push(child);
            assert(tasks_view(stack@, fv) =~= base.push(
                TaskView { pending: before.top().pending.drop_first(), ..before.top() },
            ).push(child.view_under(fv)));
            None
        } else {
            let mut gathered: Vec<Document> = Vec::new();
            std::mem::swap(&mut top.gathered, &mut gathered);
            put_documents(&mut top.doc, via.coll.as_str(), gathered);
            skip.push(via.coll.clone());
            top.link = top.link + 1;
            assert(docs_fields(top.gathered@) =~= Seq::<Fields>::empty());
            stack.push(top);
            assert(tasks_view(stack@, fv) =~= base.push(
                TaskView {
                    doc: upsert(
                        before.top().doc,
                        list[before.top().link].coll,
                        Value::Docs(before.top().gathered),
                    ),
                    gathered: Seq::empty(),
                    link: before.top().link + 1,
                    ..before.top()
                },
            ));
            assert(names_view(skip@) =~= before.skip.push(list[before.top().link].coll));
            None
        }
    } else if top.id.is_none() || !at_link {
        assert(docs_fields(top.pending@) =~= Seq::<Fields>::empty());
        assert(docs_fields(top.gathered@) =~= Seq::<Fields>::empty());
        if top.role == Role::Root {
            top.pass = Pass::Forward;
            top.id = None;
            top.link = 0;
            stack.push(top);
            assert(tasks_view(stack@, fv) =~= base.push(
                forward_task(
                    Role::Root,
                    before.top().doc,
                    before.top().coll,
                    before.top().filter,
                ),
            ));
            None
        } else if stack.len() >= 1 && stack[stack.len() - 1].pass == Pass::Reverse {
            let mut below = stack.pop().unwrap();
            let ghost was = below.view_under(fv);
            assert(was == base.last());
            let ghost lower = base.drop_last();
            assert(tasks_view(stack@, fv) =~= lower);
            let ghost had = below.gathered@;
            below.gathered.push(top.doc);
            assert(docs_fields(below.gathered@) =~= docs_fields(had).push(before.top().doc));
            stack.push(below);
            assert(tasks_view(stack@, fv) =~= lower.push(
                TaskView { gathered: was.gathered.push(before.top().doc), ..was },
            ));
            None
        } else {
            stack.push(top);
            assert(tasks_view(stack@, fv) =~= before.stack);
            halted()
        }
    } else {
        let via = &found.unwrap()[top.link];
        assert(via@ == list[top.link as int]);
        let passed = holds_name(skip, via.coll.as_str()) || !lets_through(
            filter,
            top.filtered,
            via.coll.as_str(),
        );
        if passed {
            top.link = top.link + 1;
            stack.push(top);
            assert(tasks_view(stack@, fv) =~= base.push(
                TaskView { link: before.top().link + 1, ..before.top() },
            ));
            None
        } else {
            let id = match &top.id {
                Some(id) => id.clone(),
                None => {
                    stack.push(top);
                    return halted();
                },
            };
            let action = PopulateAction::FindMany {
                coll: via.coll.clone(),
                field_name: via.field_name.clone(),
                id,
            };
            stack.push(top);
            assert(tasks_view(stack@, fv) =~= before.stack);
            Some((Waiting::Matches, action))
        }
    }
}

/// One move of the forward pass in hand: [`PopulateView::forward_move`].
fn forward_move(
    ref_fields: &FkFieldMap,
    filter: &Option<Vec<String>>,
    stack: &mut Vec<Task>,
    skip: &Vec<String>,
    Ghost(rel): Ghost<Relations>,
    Ghost(waiting): Ghost<Waiting>,
) -> (made: Option<(Waiting, PopulateAction)>)
    requires
        old(stack)@.len() > 0,
        rel.forward == links_in(ref_fields@),
    ensures
        is_move(
            machine(old(stack)@, skip@, *filter, waiting).forward_move(rel),
            made,
            final(stack)@,
            skip@,
            *filter,
            waiting,
        ),
{
    let ghost fv = filter_view(*filter);
    let ghost before = machine(stack@, skip@, *filter, waiting);
    let ghost base = before.stack.drop_last();
    let mut top = stack.pop().unwrap();
    assert(top.view_under(fv) == before.top());
    assert(tasks_view(stack@, fv) =~= base);
    let found = ref_fields.get(top.coll.as_str());
    let count = match found {
        Some(list) => list.len(),
        None => 0,
    };
    let ghost list = links_of(rel.forward, top.coll@);
    assert(list.len() == count);
    if top.link >= count {
        match top.role {
            Role::Root => {
                stack.clear();
                assert(tasks_view(stack@, fv) =~= Seq::<TaskView>::empty());
                Some((Waiting::Finished, PopulateAction::Finished(top.doc)))
            },
            Role::Match => {
                top.pass = Pass::Reverse;
                top.id = object_id_at(&top.doc, "_id");
                top.filtered = false;
                top.link = 0;
                top.pending = Vec::new();
                top.gathered = Vec::new();
                assert(docs_fields(top.pending@) =~= Seq::<Fields>::empty());
                assert(docs_fields(top.gathered@) =~= Seq::<Fields>::empty());
                stack.push(top);
                assert(tasks_view(stack@, fv) =~= base.push(
                    reverse_task(Role::Match, before.top().doc, before.top().coll, None),
                ));
                None
            },
            Role::Target => {
                if stack.len() == 0 {
                    stack.push(top);
                    assert(tasks_view(stack@, fv) =~= before.stack);
                    return halted();
                }
                let mut below = stack.pop().unwrap();
                let ghost was = below.view_under(fv);
                assert(was == base.last());
                let ghost lower = base.drop_last();
                assert(tasks_view(stack@, fv) =~= lower);
                let below_found = ref_fields.get(below.coll.as_str());
                let below_count = match below_found {
                    Some(list) => list.len(),
                    None => 0,
                };
                let ghost below_list = links_of(rel.forward, below.coll@);
                assert(below_list.len() == below_count);
                if below.pass == Pass::Forward && below.link < below_count {
                    let via = &below_found.unwrap()[below.link];
                    assert(via@ == below_list[below.link as int]);
                    put_document(&mut below.doc, via.field_name.as_str(), top.doc);
                    below.link = below.link + 1;
                    stack.push(below);
                    assert(tasks_view(stack@, fv) =~= lower.push(
                        TaskView {
                            doc: upsert(
                                was.doc,
                                below_list[was.link].field_name,
                                Value::Doc(before.top().doc),
                            ),
                            link: was.link + 1,
                            ..was
                        },
                    ));
                    None
                } else {
                    stack.push(below);
                    stack.push(top);
                    assert(tasks_view(stack@, fv) =~= before.stack);
                    halted()
                }
            },
        }
    } else {
        let via = &found.unwrap()[top.link];
        assert(via@ == list[top.link as int]);
        let asked = match object_id_at(&top.doc, via.field_name.as_str()) {
            Some(id) => if lets_through(filter, top.filtered, via.coll.as_str()) {
                Some(PopulateAction::FindOne { coll: via.coll.clone(), id })
            } else {
                None
            },
            None => None,
        };
        match asked {
            Some(action) => {
                stack.push(top);
                assert(tasks_view(stack@, fv) =~= before.stack);
                Some((Waiting::Target, action))
            },
            None => {
                top.link = top.link + 1;
                stack.push(top);
                assert(tasks_view(stack@, fv) =~= base.push(
                    TaskView { link: before.top().link + 1, ..before.top() },
                ));
                None
            },
        }
    }
}

/// Moves on until a request is made: [`PopulateView::settle`].
fn settle(
    fk_fields: &FkFieldMap,
    ref_fields: &FkFieldMap,
    filter: &Option<Vec<String>>,
    stack: Vec<Task>,
    skip: Vec<String>,
    Ghost(rel): Ghost<Relations>,
    Ghost(waiting): Ghost<Waiting>,
) -> (out: (Vec<Task>, Vec<String>, Waiting, PopulateAction))
    requires
        rel.reverse == links_in(fk_fields@),
        rel.forward == links_in(ref_fields@),
    ensures
        machine(stack@, skip@, *filter, waiting).settle(rel) == (
            machine(out.0@, out.1@, *filter, out.2),
            out.3@,
        ),
{
    let mut tasks = stack;
    let mut names = skip;
    loop
        invariant
            rel.reverse == links_in(fk_fields@),
            rel.forward == links_in(ref_fields@),
            machine(tasks@, names@, *filter, waiting).settle(rel) == machine(
                stack@,
                skip@,
                *filter,
                waiting,
            ).settle(rel),
        decreases stack_cost(rel, tasks_view(tasks@, filter_view(*filter))),
    {
        let ghost now = machine(tasks@, names@, *filter, waiting);
        proof {
            lemma_move_costs(now, rel);
            if tasks@.len() > 0 {
                assert(now.top().pass == tasks@.last().pass);
            }
        }
        let made = if tasks.len() == 0 {
            halted()
        } else if tasks[tasks.len() - 1].pass == Pass::Reverse {
            reverse_move(fk_fields, filter, &mut tasks, &mut names, Ghost(rel), Ghost(waiting))
        } else {
            forward_move(ref_fields, filter, &mut tasks, &names, Ghost(rel), Ghost(waiting))
        };
        assert(is_move(now.nudge(rel), made, tasks@, names@, *filter, waiting));
        match made {
            Some((asked, action)) => {
                assert(now.nudge(rel) is Ask);
                assert(now.settle(rel) == (machine(tasks@, names@, *filter, asked), action@));
                return (tasks, names, asked, action);
            },
            None => {
                assert(now.nudge(rel) is On);
                assert(now.settle(rel) == machine(tasks@, names@, *filter, waiting).settle(rel));
            },
        }
    }
}

/// Takes in the matches `docs` for the link in hand, where a reverse pass
/// stands at a link.
fn take_matches(
    fk_fields: &FkFieldMap,
    filter: &Option<Vec<String>>,
    stack: &mut Vec<Task>,
    docs: Vec<Document>,
    Ghost(rel): Ghost<Relations>,
    Ghost(skip): Ghost<Seq<String>>,
) -> (taken: bool)
    requires
        rel.reverse == links_in(fk_fields@),
    ensures
        match machine(old(stack)@, skip, *filter, Waiting::Matches).receive(
            rel,
            AnswerView::Matches(docs_fields(docs@)),
        ) {
            Some(next) => taken && next == machine(final(stack)@, skip, *filter, Waiting::Matches),
            None => !taken && final(stack)@ == old(stack)@,
        },
{
    if stack.len() == 0 {
        return false;
    }
    let ghost fv = filter_view(*filter);
    let ghost before = machine(stack@, skip, *filter, Waiting::Matches);
    let ghost base = before.stack.drop_last();
    let ghost held = stack@;
    let mut top = stack.pop().unwrap();
    assert(top.view_under(fv) == before.top());
    assert(tasks_view(stack@, fv) =~= base);
    let count = match fk_fields.get(top.coll.as_str()) {
        Some(list) => list.len(),
        None => 0,
    };
    assert(links_of(rel.reverse, top.coll@).len() == count);
    if top.pass == Pass::Reverse && top.link < count {
        if docs.len() == 0 {
            top.link = top.link + 1;
        } else {
            top.pending = docs;
        }
        stack.push(top);
        assert(tasks_view(stack@, fv) =~= base.push(stack@.last().view_under(fv)));
        true
    } else {
        stack.push(top);
        assert(stack@ =~= held);
        false
    }
}

/// Takes in the record `found` for the link in hand, where a forward pass
/// stands at a link.
fn take_target(
    ref_fields: &FkFieldMap,
    filter: &Option<Vec<String>>,
    stack: &mut Vec<Task>,
    found: Option<Document>,
    Ghost(rel): Ghost<Relations>,
    Ghost(skip): Ghost<Seq<String>>,
) -> (taken: bool)
    requires
        rel.forward == links_in(ref_fields@),
    ensures
        match machine(old(stack)@, skip, *filter, Waiting::Target).receive(
            rel,
            AnswerView::Target(
                match found {
                    Some(doc) => Some(doc_fields(doc)),
                    None => None,
                },
            ),
        ) {
            Some(next) => taken && next == machine(final(stack)@, skip, *filter, Waiting::Target),
            None => !taken && final(stack)@ == old(stack)@,
        },
{
    if stack.len() == 0 {
        return false;
    }
    let ghost fv = filter_view(*filter);
    let ghost before = machine(stack@, skip, *filter, Waiting::Target);
    let ghost base = before.stack.drop_last();
    let ghost held = stack@;
    let mut top = stack.pop().unwrap();
    assert(top.view_under(fv) == before.top());
    assert(tasks_view(stack@, fv) =~= base);
    let links = ref_fields.get(top.coll.as_str());
    let count = match links {
        Some(list) => list.len(),
        None => 0,
    };
    let ghost list = links_of(rel.forward, top.coll@);
    assert(list.len() == count);
    if top.pass == Pass::Forward && top.link < count {
        match found {
            None => {
                top.link = top.link + 1;
                stack.push(top);
                assert(tasks_view(stack@, fv) =~= base.push(stack@.last().view_under(fv)));
            },
            Some(doc) => {
                let via = &links.unwrap()[top.link];
                assert(via@ == list[top.link as int]);
                let child = Task {
                    pass: Pass::Forward,
                    role: Role::Target,
                    doc,
                    id: None,
                    coll: via.coll.clone(),
                    filtered: false,
                    link: 0,
                    pending: Vec::new(),
                    gathered: Vec::new(),
                };
                assert(child.view_under(fv) == forward_task(
                    Role::Target,
                    doc_fields(doc),
                    list[top.link as int].coll,
                    None,
                )) by {
                    assert(docs_fields(child.pending@) =~= Seq::<Fields>::empty());
                    assert(docs_fields(child.gathered@) =~= Seq::<Fields>::empty());
                }
                stack.push(top);
                assert(stack@ =~= held);
                stack.push(child);
                assert(tasks_view(stack@, fv) =~= before.stack.push(child.view_under(fv)));
            },
        }
        true
    } else {
        stack.push(top);
        assert(stack@ =~= held);
        false
    }
}

/// A population in progress.
pub struct Populate<'a> {
    fk_fields: &'a FkFieldMap,
    ref_fields: &'a FkFieldMap,
    filter: Option<Vec<String>>,
    stack: Vec<Task>,
    skip: Vec<String>,
    waiting: Waiting,
}

impl<'a> View for Populate<'a> {
    type V = PopulateView;

    closed spec fn view(&self) -> PopulateView {
        machine(self.stack@, self.skip@, self.filter, self.waiting)
    }
}

impl<'a> Populate<'a> {
    /// The link maps the population goes by.
    pub closed spec fn relations(self) -> Relations {
        Relations { reverse: links_in(self.fk_fields@), forward: links_in(self.ref_fields@) }
    }

    /// What the machine waits for.
    pub fn waiting(&self) -> (waiting: Waiting)
        ensures
            waiting == self@.waiting,
    {
        self.waiting
    }

    /// The machine given up for `failure`.
    fn give_up(self, failure: PopulateFailure) -> (out: (Populate<'a>, PopulateAction))
        ensures
            (out.0@, out.1@) == self@.aborted(failure),
            out.0.relations() == self.relations(),
    {
        let Populate { fk_fields, ref_fields, filter, stack, skip, waiting } = self;
        (
            Populate {
                fk_fields,
                ref_fields,
                filter,
                stack,
                skip,
                waiting: Waiting::Aborted(failure),
            },
            PopulateAction::Aborted(failure),
        )
    }

    /// Takes the store's answer to the last lookup and returns the machine
    /// after it with the next request: [`PopulateView::step`].
    pub fn step(self, event: PopulateEvent) -> (next: (Populate<'a>, PopulateAction))
        ensures
            (next.0@, next.1@) == self@.step(self.relations(), event@),
            next.0.relations() == self.relations(),
    {
        match self.waiting {
            Waiting::Aborted(failure) => {
                return (self, PopulateAction::Aborted(failure));
            },
            Waiting::Finished => {
                return (self, PopulateAction::Aborted(PopulateFailure::OutOfTurn));
            },
            _ => {},
        }
        let ghost before = self@;
        let ghost rel = self.relations();
        let Populate { fk_fields, ref_fields, filter, stack, skip, waiting } = self;
        let mut stack = stack;
        let ghost held = stack@;
        let taken = match event {
            PopulateEvent::StoreFailed => {
                return (Populate { fk_fields, ref_fields, filter, stack, skip, waiting }).give_up(
                    PopulateFailure::Store,
                );
            },
            PopulateEvent::Begin => waiting == Waiting::Fresh,
            PopulateEvent::Matches(docs) => if waiting == Waiting::Matches {
                take_matches(fk_fields, &filter, &mut stack, docs, Ghost(rel), Ghost(skip@))
            } else {
                false
            },
            PopulateEvent::Target(found) => if waiting == Waiting::Target {
                take_target(ref_fields, &filter, &mut stack, found, Ghost(rel), Ghost(skip@))
            } else {
                false
            },
        };
        if !taken {
            assert(stack@ == held);
            return (Populate { fk_fields, ref_fields, filter, stack, skip, waiting }).give_up(
                PopulateFailure::OutOfTurn,
            );
        }
        let (stack, skip, waiting, action) = settle(
            fk_fields,
            ref_fields,
            &filter,
            stack,
            skip,
            Ghost(rel),
            Ghost(waiting),
        );
        (Populate { fk_fields, ref_fields, filter, stack, skip, waiting }, action)
    }
}

/// The texts of a list of string slices.
pub open spec fn texts_view(names: Seq<&str>) -> Seq<Seq<char>> {
    names.map_values(|name: &str| name@)
}

/// An owned copy of a list of names.
fn owned_names(names: &[&str]) -> (owned: Vec<String>)
    ensures
        names_view(owned@) == texts_view(names@),
{
    let mut owned: Vec<String> = Vec::new();
    let mut i: usize = 0;
    while i < names.len()
        invariant
            i <= names@.len(),
            owned@.len() == i,
            forall|j: int| 0 <= j < i ==> (#[trigger] owned@[j])@ == names@[j]@,
        decreases names@.len() - i,
    {
        owned.push(names[i].to_owned());
        i += 1;
    }
    assert(names_view(owned@) =~= texts_view(names@));
    owned
}

impl Tumongo {
    /// Begins the population of `dok`, a record of `coll_name`, by the
    /// reverse links `fk_fields` and the forward links `ref_fields`. Where
    /// `coll_names` is given, only the collections it names are expanded at
    /// the level of `dok` itself.
    pub fn populate<'a>(
        dok: Document,
        coll_name: &str,
        coll_names: Option<&[&str]>,
        fk_fields: &'a FkFieldMap,
        ref_fields: &'a FkFieldMap,
    ) -> (machine: Populate<'a>)
        ensures
            machine@ == PopulateView::start(
                doc_fields(dok),
                coll_name@,
                match coll_names {
                    Some(names) => Some(texts_view(names@)),
                    None => None,
                },
            ),
            machine.relations() == (Relations {
                reverse: links_in(fk_fields@),
                forward: links_in(ref_fields@),
            }),
    {
        let filter = match coll_names {
            Some(names) => Some(owned_names(names)),
            None => None,
        };
        let id = object_id_at(&dok, "_id");
        let root = Task {
            pass: Pass::Reverse,
            role: Role::Root,
            doc: dok,
            id,
            coll: coll_name.to_owned(),
            filtered: true,
            link: 0,
            pending: Vec::new(),
            gathered: Vec::new(),
        };
        let mut stack: Vec<Task> = Vec::new();
        stack.push(root);
        let machine = Populate {
            fk_fields,
            ref_fields,
            filter,
            stack,
            skip: Vec::new(),
            waiting: Waiting::Fresh,
        };
        proof {
            assert(docs_fields(root.pending@) =~= Seq::<Fields>::empty());
            assert(docs_fields(root.gathered@) =~= Seq::<Fields>::empty());
            assert(machine@.stack =~= seq![root.view_under(filter_view(filter))]);
            assert(machine@.skip =~= Seq::<Seq<char>>::empty());
        }
        machine
    }
}

} // verus!
