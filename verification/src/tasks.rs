//! Dockets: task semantics layered over notebooks.
//!
//! A docket is one notebook per task state; a task's state is whichever
//! state notebook currently holds its note, and moving a task between
//! states is the only legal state change. Dependency edges come from
//! links with the dependency scheme, may cross states, and form a
//! directed graph over task names that is checked for cycles before any
//! consumer may treat it as a directed acyclic graph.

use crate::graph::has_edge;
use crate::graph::is_cycle;
use crate::graph::topo_order;
use crate::graph::valid_order;
use crate::graph::wf_adj;
use crate::note::Link;
use crate::note::LinkView;
use crate::note::Note;
use crate::note::NoteView;
use crate::notebook::NoteTemplate;
use crate::notebook::Notebook;
use crate::notebook::remove_spec;
use crate::notebook::upsert_spec;
use crate::resolve::dep_name;
use crate::resolve::find_note;
use crate::resolve::has_note;
use crate::resolve::is_dep;
use crate::resolve::lemma_note_index;
use crate::resolve::lookup_note;
use crate::resolve::note_index;
use crate::strutil::chars_vec;
use crate::strutil::tail_from;
use vstd::prelude::*;

verus! {

/// A structural inconsistency of a docket.
#[derive(Debug)]
pub enum StructuralConflict {
    /// Two states hold a task of this name.
    DuplicateTask(String),
    /// These tasks form a dependency cycle, in walk order.
    TaskCycle(Vec<String>),
    /// The destination state already holds a task of this name.
    DestinationOccupied(String),
}

/// Failure of a docket operation.
#[derive(Debug)]
pub enum DocketError {
    /// No such state, or no such task in the source state.
    NotFound,
    /// The docket's structure refuses the operation.
    Conflict(StructuralConflict),
}

/// One task state: a name and the notebook of the notes currently in
/// that state.
pub struct TaskState<T: NoteTemplate> {
    name: String,
    notebook: Notebook<T>,
}

/// Mathematical image of a [`TaskState`].
pub ghost struct TaskStateView {
    pub name: Seq<char>,
    pub notes: Seq<NoteView>,
}

impl<T: NoteTemplate> TaskState<T> {
    pub closed spec fn model(&self) -> TaskStateView {
        TaskStateView { name: self.name@, notes: self.notebook.model() }
    }

    pub closed spec fn wf(&self) -> bool {
        self.notebook.wf()
    }

    pub fn new(name: String, notebook: Notebook<T>) -> (r: TaskState<T>)
        requires
            notebook.wf(),
        ensures
            r.wf(),
            r.model() == (TaskStateView { name: name@, notes: notebook.model() }),
    {
        TaskState { name, notebook }
    }
}

/// A docket: its states, in configuration order.
pub struct Docket<T: NoteTemplate> {
    states: Vec<TaskState<T>>,
}

/// The first position of a state with the given name, if any.
pub open spec fn state_index(states: Seq<TaskStateView>, name: Seq<char>) -> Option<int>
    decreases states.len(),
{
    if states.len() == 0 {
        None
    } else if states[0].name == name {
        Some(0int)
    } else {
        match state_index(states.drop_first(), name) {
            Some(i) => Some(i + 1),
            None => None,
        }
    }
}

pub proof fn lemma_state_index(states: Seq<TaskStateView>, name: Seq<char>)
    ensures
        match state_index(states, name) {
            Some(i) => 0 <= i < states.len() && states[i].name == name && forall|k: int|
                0 <= k < i ==> states[k].name != name,
            None => forall|k: int| 0 <= k < states.len() ==> states[k].name != name,
        },
    decreases states.len(),
{
    if states.len() > 0 && states[0].name != name {
        lemma_state_index(states.drop_first(), name);
        let t = states.drop_first();
        assert(forall|k: int| 1 <= k < states.len() ==> states[k] == t[k - 1]);
    }
}

/// All notes of all states, in state order then note order.
pub open spec fn docket_notes(states: Seq<TaskStateView>) -> Seq<NoteView>
    decreases states.len(),
{
    if states.len() == 0 {
        Seq::empty()
    } else {
        docket_notes(states.drop_last()) + states.last().notes
    }
}

impl<T: NoteTemplate> Docket<T> {
    /// The states as the contracts see them.
    pub closed spec fn model(&self) -> Seq<TaskStateView> {
        Seq::new(self.states@.len(), |i: int| self.states@[i].model())
    }

    /// Each state's notebook is well-formed and the state names are
    /// pairwise distinct. Task names may still collide across states:
    /// that is a structural conflict the validity check reports, not an
    /// invariant of the type.
    pub closed spec fn wf(&self) -> bool {
        &&& forall|i: int| 0 <= i < self.states@.len() ==> (#[trigger] self.states@[i]).wf()
        &&& forall|i: int, j: int|
            0 <= i < j < self.states@.len() ==> self.states@[i].name@ != self.states@[j].name@
    }

    /// Assembles a docket from its states.
    pub fn new(states: Vec<TaskState<T>>) -> (r: Docket<T>)
        requires
            forall|i: int| 0 <= i < states@.len() ==> (#[trigger] states@[i]).wf(),
            forall|i: int, j: int|
                0 <= i < j < states@.len() ==> states@[i].model().name != states@[j].model().name,
        ensures
            r.wf(),
            r.model() == Seq::new(states@.len(), |i: int| states@[i].model()),
    {
        let r = Docket { states };
        proof {
            assert(r.model() =~= Seq::new(r.states@.len(), |i: int| r.states@[i].model()));
        }
        r
    }

    /// Scans for the first state with the given name.
    fn find_state(&self, name: &str) -> (r: Option<usize>)
        ensures
            match r {
                Some(i) => state_index(self.model(), name@) == Some(i as int),
                None => state_index(self.model(), name@) is None,
            },
    {
        proof {
            lemma_state_index(self.model(), name@);
        }
        let nv = chars_vec(name);
        let mut i: usize = 0;
        while i < self.states.len()
            invariant
                0 <= i <= self.states@.len(),
                nv@ == name@,
                forall|k: int| 0 <= k < i ==> self.model()[k].name != name@,
                match state_index(self.model(), name@) {
                    Some(k) => 0 <= k < self.states@.len() && self.model()[k].name == name@
                        && forall|m: int| 0 <= m < k ==> self.model()[m].name != name@,
                    None => forall|m: int|
                        0 <= m < self.states@.len() ==> self.model()[m].name != name@,
                },
            decreases self.states@.len() - i,
        {
            proof {
                assert(self.model()[i as int].name == self.states@[i as int].model().name);
            }
            if crate::strutil::chars_eq_str(&nv, self.states[i].name.as_str()) {
                proof {
                    if let Some(k) = state_index(self.model(), name@) {
                        assert(!(k < i) && !(i < k));
                    }
                }
                return Some(i);
            }
            i = i + 1;
        }
        None
    }

    /// Moves the named task from one state to another, transactionally:
    /// when anything refuses — unknown state, unknown task, or a task of
    /// the same name already in the destination — the docket is left
    /// exactly as it was.
    pub fn move_task(&mut self, task: &str, from: &str, to: &str) -> (r: Result<(), DocketError>)
        requires
            old(self).wf(),
        ensures
            final(self).wf(),
            match r {
                Ok(_) => match (
                    state_index(old(self).model(), from@),
                    state_index(old(self).model(), to@),
                ) {
                    (Some(fi), Some(ti)) => fi != ti && (match lookup_note(
                        old(self).model()[fi].notes,
                        task@,
                    ) {
                        Some(n) => !has_note(old(self).model()[ti].notes, task@)
                            && final(self).model() == old(self).model().update(
                            fi,
                            TaskStateView {
                                name: old(self).model()[fi].name,
                                notes: remove_spec(old(self).model()[fi].notes, task@),
                            },
                        ).update(
                            ti,
                            TaskStateView {
                                name: old(self).model()[ti].name,
                                notes: upsert_spec(old(self).model()[ti].notes, n),
                            },
                        ),
                        None => false,
                    }),
                    _ => false,
                },
                Err(DocketError::NotFound) => final(self).model() == old(self).model() && (match (
                    state_index(old(self).model(), from@),
                    state_index(old(self).model(), to@),
                ) {
                    (Some(fi), Some(ti)) => !has_note(old(self).model()[fi].notes, task@),
                    _ => true,
                }),
                Err(DocketError::Conflict(StructuralConflict::DestinationOccupied(nm))) =>
                    final(self).model() == old(self).model() && nm@ == task@ && (match (
                    state_index(old(self).model(), from@),
                    state_index(old(self).model(), to@),
                ) {
                    (Some(fi), Some(ti)) => has_note(old(self).model()[fi].notes, task@)
                        && has_note(old(self).model()[ti].notes, task@),
                    _ => false,
                }),
                Err(_) => false,
            },
    {
        let ghost m0 = self.model();
        let from_idx = match self.find_state(from) {
            Some(i) => i,
            None => {
                return Err(DocketError::NotFound);
            },
        };
        let to_idx = match self.find_state(to) {
            Some(i) => i,
            None => {
                return Err(DocketError::NotFound);
            },
        };
        proof {
            lemma_state_index(m0, from@);
            lemma_state_index(m0, to@);
        }
        if !self.states[from_idx].notebook.contains(task) {
            return Err(DocketError::NotFound);
        }
        if self.states[to_idx].notebook.contains(task) {
            return Err(
                DocketError::Conflict(StructuralConflict::DestinationOccupied(task.to_owned())),
            );
        }
        proof {
            // The two states differ: the task is in one and not the
            // other.
            assert(from_idx != to_idx);
        }
        let taken = self.states[from_idx].notebook.take(task);
        let ghost m1 = self.model();
        let note = match taken {
            Some(n) => n,
            None => {
                proof {
                    assert(false);
                }
                return Err(DocketError::NotFound);
            },
        };
        proof {
            assert(m1 =~= m0.update(
                from_idx as int,
                TaskStateView {
                    name: m0[from_idx as int].name,
                    notes: remove_spec(m0[from_idx as int].notes, task@),
                },
            ));
            assert(m1[to_idx as int] == m0[to_idx as int]);
        }
        self.states[to_idx].notebook.upsert(note);
        proof {
            assert(self.model() =~= m1.update(
                to_idx as int,
                TaskStateView {
                    name: m1[to_idx as int].name,
                    notes: upsert_spec(
                        m1[to_idx as int].notes,
                        lookup_note(m0[from_idx as int].notes, task@).unwrap(),
                    ),
                },
            ));
        }
        Ok(())
    }

    /// The names of the tasks currently in the named state, in note
    /// order; `None` when no such state is configured.
    pub fn tasks_in(&self, state: &str) -> (r: Option<Vec<String>>)
        ensures
            match state_index(self.model(), state@) {
                Some(i) => r matches Some(v) && v.deep_view() == task_names(
                    self.model()[i].notes,
                ),
                None => r is None,
            },
    {
        match self.find_state(state) {
            Some(i) => {
                proof {
                    lemma_state_index(self.model(), state@);
                    assert(self.model()[i as int] == self.states@[i as int].model());
                }
                let notes = self.states[i].notebook.notes_all();
                Some(names_of(&notes))
            },
            None => None,
        }
    }

    /// A value-equal copy of every task note, in state order then note
    /// order: the snapshot that dependency resolution runs against.
    pub fn all_notes(&self) -> (r: Vec<Note>)
        ensures
            r.deep_view() == docket_notes(self.model()),
    {
        let mut out: Vec<Note> = Vec::new();
        proof {
            assert(out.deep_view() =~= Seq::<NoteView>::empty());
            assert(self.model().subrange(0, 0) =~= Seq::<TaskStateView>::empty());
        }
        let mut i: usize = 0;
        while i < self.states.len()
            invariant
                0 <= i <= self.states@.len(),
                out.deep_view() == docket_notes(self.model().subrange(0, i as int)),
            decreases self.states@.len() - i,
        {
            proof {
                assert(self.model()[i as int] == self.states@[i as int].model());
                assert(self.model().subrange(0, i + 1 as int).drop_last() =~= self.model().subrange(
                    0,
                    i as int,
                ));
                assert(self.model().subrange(0, i + 1 as int).last() == self.model()[i as int]);
            }
            let ghost o0 = out.deep_view();
            let mut part = self.states[i].notebook.notes_all();
            let ghost pv = part.deep_view();
            out.append(&mut part);
            proof {
                assert(out.deep_view() =~= o0 + pv);
            }
            i = i + 1;
        }
        proof {
            assert(self.model().subrange(0, self.states@.len() as int) =~= self.model());
        }
        out
    }
}

/// The dependency targets of a link sequence: for each link with the
/// dependency scheme whose named note exists in the snapshot, that
/// note's position in the snapshot, in link order.
pub open spec fn dep_edges(links: Seq<LinkView>, all: Seq<NoteView>) -> Seq<usize>
    decreases links.len(),
{
    if links.len() == 0 {
        Seq::empty()
    } else {
        let rest = dep_edges(links.drop_last(), all);
        let l = links.last();
        if is_dep(l.target) {
            match note_index(all, dep_name(l.target)) {
                Some(j) => rest.push(j as usize),
                None => rest,
            }
        } else {
            rest
        }
    }
}

/// The unresolved dependency targets of a link sequence: the raw target
/// of each dependency link whose named note does not exist, in link
/// order.
pub open spec fn dangling_deps(links: Seq<LinkView>, all: Seq<NoteView>) -> Seq<Seq<char>>
    decreases links.len(),
{
    if links.len() == 0 {
        Seq::empty()
    } else {
        let rest = dangling_deps(links.drop_last(), all);
        let l = links.last();
        if is_dep(l.target) && !has_note(all, dep_name(l.target)) {
            rest.push(l.target)
        } else {
            rest
        }
    }
}

pub proof fn lemma_dep_edges_bounded(links: Seq<LinkView>, all: Seq<NoteView>)
    requires
        all.len() <= usize::MAX,
    ensures
        forall|x: int|
            0 <= x < dep_edges(links, all).len() ==> (#[trigger] dep_edges(links, all)[x] as int)
                < all.len(),
    decreases links.len(),
{
    if links.len() > 0 {
        lemma_dep_edges_bounded(links.drop_last(), all);
        let rest = dep_edges(links.drop_last(), all);
        let cur = dep_edges(links, all);
        let l = links.last();
        if is_dep(l.target) {
            lemma_note_index(all, dep_name(l.target));
            match note_index(all, dep_name(l.target)) {
                Some(j) => {
                    assert(cur == rest.push(j as usize));
                    assert forall|x: int| 0 <= x < cur.len() implies (#[trigger] cur[x] as int)
                        < all.len() by {
                        if x < rest.len() {
                            assert(cur[x] == rest[x]);
                        } else {
                            assert(cur[x] == j as usize);
                        }
                    }
                },
                None => {
                    assert(cur == rest);
                },
            }
        } else {
            assert(cur == rest);
        }
    }
}

/// An unresolved dependency, as reported: the task that depends, and
/// the target name that resolves to no task.
pub struct DanglingDep {
    pub source: String,
    pub target: String,
}

/// Mathematical image of a [`DanglingDep`].
pub ghost struct DanglingDepView {
    pub source: Seq<char>,
    pub target: Seq<char>,
}

impl DeepView for DanglingDep {
    type V = DanglingDepView;

    open spec fn deep_view(&self) -> DanglingDepView {
        DanglingDepView { source: self.source@, target: self.target@ }
    }
}

/// The task dependency graph of a docket: every task by name, each
/// task's dependency edges as positions into the task list, and the
/// unresolved dependency targets, reported rather than dropped.
pub struct DependencyGraph {
    pub tasks: Vec<String>,
    pub edges: Vec<Vec<usize>>,
    pub dangling: Vec<DanglingDep>,
}

/// Every task of the snapshot, by name, in snapshot order.
pub open spec fn task_names(all: Seq<NoteView>) -> Seq<Seq<char>> {
    Seq::new(all.len(), |i: int| all[i].name)
}

/// The dependency adjacency of the snapshot: one edge list per task.
pub open spec fn docket_adj(all: Seq<NoteView>) -> Seq<Seq<usize>> {
    Seq::new(all.len(), |i: int| dep_edges(all[i].links, all))
}

/// The unresolved dependencies of one note, each tagged with its source.
pub open spec fn note_dangling(n: NoteView, all: Seq<NoteView>) -> Seq<DanglingDepView> {
    Seq::new(
        dangling_deps(n.links, all).len(),
        |i: int| DanglingDepView { source: n.name, target: dangling_deps(n.links, all)[i] },
    )
}

/// The unresolved dependencies of the snapshot, in task order.
pub open spec fn all_dangling(docs: Seq<NoteView>, all: Seq<NoteView>) -> Seq<DanglingDepView>
    decreases docs.len(),
{
    if docs.len() == 0 {
        Seq::empty()
    } else {
        all_dangling(docs.drop_last(), all) + note_dangling(docs.last(), all)
    }
}

/// The dependency edge targets of one link vector, resolved against the
/// snapshot.
pub fn dep_edges_of(links: &Vec<Link>, all: &Vec<Note>) -> (r: Vec<usize>)
    ensures
        r@ == dep_edges(links.deep_view(), all.deep_view()),
{
    let mut out: Vec<usize> = Vec::new();
    proof {
        assert(out@ =~= Seq::<usize>::empty());
        assert(links.deep_view().subrange(0, 0) =~= Seq::<LinkView>::empty());
    }
    let mut j: usize = 0;
    while j < links.len()
        invariant
            0 <= j <= links@.len(),
            out@ == dep_edges(links.deep_view().subrange(0, j as int), all.deep_view()),
        decreases links@.len() - j,
    {
        let ghost lv = links.deep_view();
        proof {
            assert(lv[j as int] == links@[j as int].deep_view());
            assert(lv.subrange(0, j + 1 as int).drop_last() =~= lv.subrange(0, j as int));
            assert(lv.subrange(0, j + 1 as int).last() == lv[j as int]);
        }
        let l = &links[j];
        let t = chars_vec(l.target().as_str());
        if t.len() >= 4 && t[0] == 'd' && t[1] == 'e' && t[2] == 'p' && t[3] == ':' {
            let name = tail_from(&t, 4);
            match find_note(all, &name) {
                Some(ix) => {
                    out.push(ix);
                },
                None => {},
            }
        } else {
            proof {
                assert(!is_dep(lv[j as int].target));
            }
        }
        j = j + 1;
    }
    proof {
        assert(links.deep_view().subrange(0, links@.len() as int) =~= links.deep_view());
    }
    out
}

/// The unresolved dependencies of one note's links, tagged with the
/// note's name.
fn dangling_of(links: &Vec<Link>, all: &Vec<Note>, source: &String) -> (r: Vec<DanglingDep>)
    ensures
        r.deep_view() == Seq::new(
            dangling_deps(links.deep_view(), all.deep_view()).len(),
            |i: int|
                DanglingDepView {
                    source: source@,
                    target: dangling_deps(links.deep_view(), all.deep_view())[i],
                },
        ),
{
    let mut out: Vec<DanglingDep> = Vec::new();
    proof {
        assert(links.deep_view().subrange(0, 0) =~= Seq::<LinkView>::empty());
    }
    let mut j: usize = 0;
    while j < links.len()
        invariant
            0 <= j <= links@.len(),
            out.deep_view() =~= Seq::new(
                dangling_deps(
                    links.deep_view().subrange(0, j as int),
                    all.deep_view(),
                ).len(),
                |i: int|
                    DanglingDepView {
                        source: source@,
                        target: dangling_deps(
                            links.deep_view().subrange(0, j as int),
                            all.deep_view(),
                        )[i],
                    },
            ),
        decreases links@.len() - j,
    {
        let ghost lv = links.deep_view();
        let ghost o0 = out.deep_view();
        proof {
            assert(lv[j as int] == links@[j as int].deep_view());
            assert(lv.subrange(0, j + 1 as int).drop_last() =~= lv.subrange(0, j as int));
            assert(lv.subrange(0, j + 1 as int).last() == lv[j as int]);
        }
        let l = &links[j];
        let t = chars_vec(l.target().as_str());
        if t.len() >= 4 && t[0] == 'd' && t[1] == 'e' && t[2] == 'p' && t[3] == ':' {
            let name = tail_from(&t, 4);
            match find_note(all, &name) {
                Some(_) => {},
                None => {
                    let d = DanglingDep { source: source.clone(), target: l.target().clone() };
                    let ghost dv = d.deep_view();
                    out.push(d);
                    proof {
                        assert(out.deep_view() =~= o0.push(dv));
                    }
                },
            }
        } else {
            proof {
                assert(!is_dep(lv[j as int].target));
            }
        }
        proof {
            assert(out.deep_view() =~= Seq::new(
                dangling_deps(lv.subrange(0, j + 1 as int), all.deep_view()).len(),
                |i: int|
                    DanglingDepView {
                        source: source@,
                        target: dangling_deps(lv.subrange(0, j + 1 as int), all.deep_view())[i],
                    },
            ));
        }
        j = j + 1;
    }
    proof {
        assert(links.deep_view().subrange(0, links@.len() as int) =~= links.deep_view());
    }
    out
}

/// The names of the given notes, in order.
fn names_of(all: &Vec<Note>) -> (r: Vec<String>)
    ensures
        r.deep_view() == task_names(all.deep_view()),
{
    let mut out: Vec<String> = Vec::new();
    let mut i: usize = 0;
    while i < all.len()
        invariant
            0 <= i <= all@.len(),
            out@.len() == i,
            forall|k: int| 0 <= k < i ==> out.deep_view()[k] == all.deep_view()[k].name,
        decreases all@.len() - i,
    {
        let ghost o0 = out.deep_view();
        proof {
            assert(all.deep_view()[i as int] == all@[i as int].deep_view());
        }
        let nm = all[i].name().clone();
        let ghost nv = nm@;
        out.push(nm);
        proof {
            assert(out.deep_view() =~= o0.push(nv));
            assert forall|k: int|
                0 <= k < i + 1 implies out.deep_view()[k] == all.deep_view()[k].name by {
                if k < i {
                    assert(out.deep_view()[k] == o0[k]);
                }
            }
        }
        i = i + 1;
    }
    proof {
        assert(out.deep_view() =~= task_names(all.deep_view()));
    }
    out
}

impl<T: NoteTemplate> Docket<T> {
    /// Builds the docket's dependency graph: every task by name, each
    /// task's dependency edges resolved against all tasks in all states,
    /// and the unresolved dependency targets, reported rather than
    /// dropped.
    pub fn dependency_graph(&self) -> (r: DependencyGraph)
        ensures
            ({
                let all = docket_notes(self.model());
                &&& r.tasks.deep_view() == task_names(all)
                &&& r.edges.deep_view() == docket_adj(all)
                &&& r.dangling.deep_view() == all_dangling(all, all)
                &&& wf_adj(r.edges.deep_view())
            }),
    {
        let all = self.all_notes();
        let ghost av = all.deep_view();
        let tasks = names_of(&all);
        let mut edges: Vec<Vec<usize>> = Vec::new();
        let mut dangling: Vec<DanglingDep> = Vec::new();
        proof {
            assert(av.subrange(0, 0) =~= Seq::<NoteView>::empty());
            assert(dangling.deep_view() =~= Seq::<DanglingDepView>::empty());
        }
        let mut i: usize = 0;
        while i < all.len()
            invariant
                0 <= i <= all@.len(),
                av == all.deep_view(),
                edges@.len() == i,
                forall|k: int| 0 <= k < i ==> (#[trigger] edges.deep_view()[k]) == dep_edges(
                    av[k].links,
                    av,
                ),
                dangling.deep_view() == all_dangling(av.subrange(0, i as int), av),
            decreases all@.len() - i,
        {
            let ghost e0 = edges.deep_view();
            let ghost d0 = dangling.deep_view();
            proof {
                assert(av[i as int] == all@[i as int].deep_view());
                assert(av.subrange(0, i + 1 as int).drop_last() =~= av.subrange(0, i as int));
                assert(av.subrange(0, i + 1 as int).last() == av[i as int]);
            }
            let note = &all[i];
            let es = dep_edges_of(note.links(), &all);
            let ghost ev = es@;
            edges.push(es);
            let mut ds = dangling_of(note.links(), &all, note.name());
            let ghost dsv = ds.deep_view();
            dangling.append(&mut ds);
            proof {
                assert forall|k: int|
                    0 <= k < i + 1 implies (#[trigger] edges.deep_view()[k]) == dep_edges(
                    av[k].links,
                    av,
                ) by {
                    if k < i {
                        assert(edges.deep_view()[k] == e0[k]);
                    } else {
                        assert(edges.deep_view()[k] == ev);
                    }
                }
                assert(dsv =~= note_dangling(av[i as int], av));
                assert(dangling.deep_view() =~= d0 + dsv);
            }
            i = i + 1;
        }
        proof {
            assert(av.subrange(0, all@.len() as int) =~= av);
            assert(edges.deep_view() =~= docket_adj(av));
            lemma_dep_edges_bounded_all(av);
        }
        DependencyGraph { tasks, edges, dangling }
    }

    /// Checks that the docket's dependency graph is fit for consumers
    /// that assume a directed acyclic graph over unique task names.
    /// Returns the tasks in an order with every dependency before its
    /// dependents; reports a duplicated task name or the member tasks of
    /// a dependency cycle as the structural conflict it is.
    pub fn check_dag(&self) -> (r: Result<Vec<String>, DocketError>)
        ensures
            ({
                let all = docket_notes(self.model());
                let names = task_names(all);
                match r {
                    Ok(ns) => (forall|i: int, j: int|
                        0 <= i < j < names.len() ==> names[i] != names[j]) && exists|
                        ord: Seq<usize>,
                    |
                        valid_order(docket_adj(all), ord) && ns.deep_view() == Seq::new(
                            ord.len(),
                            |x: int| names[ord[x] as int],
                        ),
                    Err(DocketError::Conflict(StructuralConflict::DuplicateTask(nm))) => exists|
                        i: int,
                        j: int,
                    |
                        0 <= i < j < names.len() && names[i] == names[j] && names[i] == nm@,
                    Err(DocketError::Conflict(StructuralConflict::TaskCycle(cs))) => exists|
                        c: Seq<usize>,
                    |
                        is_cycle(docket_adj(all), c) && cs.deep_view() == Seq::new(
                            c.len(),
                            |x: int| names[c[x] as int],
                        ),
                    Err(_) => false,
                }
            }),
    {
        let ghost all = docket_notes(self.model());
        let g = self.dependency_graph();
        let n = g.tasks.len();
        proof {
            assert(g.tasks.deep_view().len() == task_names(all).len());
        }
        // Reject a task name that two states hold.
        let mut i: usize = 0;
        while i < n
            invariant
                0 <= i <= n,
                n == g.tasks@.len(),
                all == docket_notes(self.model()),
                g.tasks.deep_view() == task_names(all),
                forall|p: int, q: int|
                    0 <= p < q < i ==> task_names(all)[p] != task_names(all)[q],
            decreases n - i,
        {
            let ti = chars_vec(g.tasks[i].as_str());
            proof {
                assert(g.tasks.deep_view()[i as int] == g.tasks@[i as int]@);
            }
            let mut j: usize = 0;
            while j < i
                invariant
                    0 <= j <= i < n,
                    n == g.tasks@.len(),
                    all == docket_notes(self.model()),
                    g.tasks.deep_view() == task_names(all),
                    ti@ == task_names(all)[i as int],
                    forall|q: int| 0 <= q < j ==> task_names(all)[q] != task_names(all)[i as int],
                decreases i - j,
            {
                proof {
                    assert(g.tasks.deep_view()[j as int] == g.tasks@[j as int]@);
                }
                if crate::strutil::chars_eq_str(&ti, g.tasks[j].as_str()) {
                    let nm = g.tasks[i].clone();
                    proof {
                        assert(task_names(all).len() == g.tasks.deep_view().len());
                        assert(g.tasks.deep_view().len() == g.tasks@.len());
                        assert(0 <= j as int && (j as int) < i as int && (i as int) < task_names(
                            all,
                        ).len());
                        assert(task_names(all)[j as int] == task_names(all)[i as int]
                            && task_names(all)[j as int] == nm@);
                        assert(exists|p: int, q: int|
                            0 <= p < q < task_names(all).len() && task_names(all)[p] == task_names(
                                all,
                            )[q] && task_names(all)[p] == nm@);
                    }
                    return Err(
                        DocketError::Conflict(StructuralConflict::DuplicateTask(nm)),
                    );
                }
                j = j + 1;
            }
            i = i + 1;
        }
        match topo_order(&g.edges) {
            Ok(order) => {
                let mut ns: Vec<String> = Vec::new();
                let mut x: usize = 0;
                proof {
                    assert(valid_order(docket_adj(all), order@));
                }
                while x < order.len()
                    invariant
                        0 <= x <= order@.len(),
                        n == g.tasks@.len(),
                        g.tasks.deep_view() == task_names(all),
                        g.edges.deep_view() == docket_adj(all),
                        valid_order(docket_adj(all), order@),
                        ns@.len() == x,
                        forall|k: int|
                            0 <= k < x ==> (#[trigger] ns.deep_view()[k]) == task_names(
                                all,
                            )[order@[k] as int],
                    decreases order@.len() - x,
                {
                    let ghost o0 = ns.deep_view();
                    proof {
                        assert(docket_adj(all).len() == task_names(all).len());
                        assert(task_names(all).len() == g.tasks.deep_view().len());
                        assert(g.tasks.deep_view().len() == g.tasks@.len());
                        assert((order@[x as int] as int) < docket_adj(all).len());
                        assert(g.tasks.deep_view()[order@[x as int] as int] == g.tasks@[order@[
                            x as int
                        ] as int]@);
                    }
                    let idx = order[x];
                    let nm = g.tasks[idx].clone();
                    let ghost nv = nm@;
                    ns.push(nm);
                    proof {
                        assert(ns.deep_view() =~= o0.push(nv));
                        assert forall|k: int|
                            0 <= k < x + 1 implies (#[trigger] ns.deep_view()[k]) == task_names(
                            all,
                        )[order@[k] as int] by {
                            if k < x {
                                assert(ns.deep_view()[k] == o0[k]);
                            } else {
                                assert(ns.deep_view()[k] == nv);
                            }
                        }
                    }
                    x = x + 1;
                }
                proof {
                    assert(ns.deep_view() =~= Seq::new(
                        order@.len(),
                        |k: int| task_names(all)[order@[k] as int],
                    ));
                    let ord = order@;
                    assert(valid_order(docket_adj(all), ord) && ns.deep_view() == Seq::new(
                        ord.len(),
                        |x: int| task_names(all)[ord[x] as int],
                    ));
                }
                Ok(ns)
            },
            Err(cycle) => {
                let mut cs: Vec<String> = Vec::new();
                let mut x: usize = 0;
                proof {
                    assert(is_cycle(docket_adj(all), cycle@));
                }
                while x < cycle.len()
                    invariant
                        0 <= x <= cycle@.len(),
                        n == g.tasks@.len(),
                        g.tasks.deep_view() == task_names(all),
                        g.edges.deep_view() == docket_adj(all),
                        is_cycle(docket_adj(all), cycle@),
                        cs@.len() == x,
                        forall|k: int|
                            0 <= k < x ==> (#[trigger] cs.deep_view()[k]) == task_names(
                                all,
                            )[cycle@[k] as int],
                    decreases cycle@.len() - x,
                {
                    let ghost o0 = cs.deep_view();
                    proof {
                        assert(docket_adj(all).len() == task_names(all).len());
                        assert(task_names(all).len() == g.tasks.deep_view().len());
                        assert(g.tasks.deep_view().len() == g.tasks@.len());
                        if x == 0 {
                            assert(has_edge_start(docket_adj(all), cycle@));
                        } else {
                            assert(has_edge(
                                docket_adj(all),
                                cycle@[x - 1] as int,
                                cycle@[x as int] as int,
                            ));
                        }
                        assert((cycle@[x as int] as int) < docket_adj(all).len());
                        assert(g.tasks.deep_view()[cycle@[x as int] as int] == g.tasks@[cycle@[
                            x as int
                        ] as int]@);
                    }
                    let idx = cycle[x];
                    let nm = g.tasks[idx].clone();
                    let ghost nv = nm@;
                    cs.push(nm);
                    proof {
                        assert(cs.deep_view() =~= o0.push(nv));
                        assert forall|k: int|
                            0 <= k < x + 1 implies (#[trigger] cs.deep_view()[k]) == task_names(
                            all,
                        )[cycle@[k] as int] by {
                            if k < x {
                                assert(cs.deep_view()[k] == o0[k]);
                            } else {
                                assert(cs.deep_view()[k] == nv);
                            }
                        }
                    }
                    x = x + 1;
                }
                proof {
                    assert(cs.deep_view() =~= Seq::new(
                        cycle@.len(),
                        |k: int| task_names(all)[cycle@[k] as int],
                    ));
                    let c = cycle@;
                    assert(is_cycle(docket_adj(all), c) && cs.deep_view() == Seq::new(
                        c.len(),
                        |x: int| task_names(all)[c[x] as int],
                    ));
                }
                Err(DocketError::Conflict(StructuralConflict::TaskCycle(cs)))
            },
        }
    }
}

/// Every edge list of the snapshot's adjacency stays inside the
/// snapshot.
pub proof fn lemma_dep_edges_bounded_all(all: Seq<NoteView>)
    requires
        all.len() <= usize::MAX,
    ensures
        wf_adj(docket_adj(all)),
{
    let adj = docket_adj(all);
    assert forall|i: int, k: int|
        0 <= i < adj.len() && 0 <= k < adj[i].len() implies (adj[i][k] as int) < adj.len() by {
        lemma_dep_edges_bounded(all[i].links, all);
        assert(adj[i] == dep_edges(all[i].links, all));
        assert((dep_edges(all[i].links, all)[k] as int) < all.len());
    }
}

/// The first step of a cycle, spelled out for the verifier.
pub open spec fn has_edge_start(adj: Seq<Seq<usize>>, c: Seq<usize>) -> bool {
    c.len() > 0 && (c[0] as int) < adj.len()
}

} // verus!
