//! The vault-wide document index: an in-memory cache of parsed notes
//! with the derived link, backlink and task queries over them.
//!
//! Every query is computed from the current snapshot of documents when it
//! is asked, so no derived state can ever be read stale. The
//! [`NotebookIndex`] and [`DocketIndex`] snapshot both directions at
//! once for callers that want the whole derived view; rebuilding them
//! after a mutation is the caller's (cheap, explicit) choice.

use crate::note::BackLink;
use crate::note::BackLinkView;
use crate::note::Link;
use crate::note::LinkView;
use crate::note::Note;
use crate::note::NoteView;
use crate::note::NotebookError;
use crate::note::parse_note_spec;
use crate::notebook::collect_backlinks;
use crate::notebook::backlinks_spec;
use crate::notebook::remove_spec;
use crate::notebook::upsert_spec;
use crate::notebook::wf_notes;
use crate::notebook::lemma_upsert_wf;
use crate::notebook::lemma_remove_wf;
use crate::resolve::LinkResolution;
use crate::resolve::ResolutionView;
use crate::resolve::find_note;
use crate::resolve::lemma_note_index;
use crate::resolve::lookup_note;
use crate::resolve::resolve;
use crate::resolve::resolve_spec;
use crate::strutil::chars_vec;
use crate::strutil::chars_eq_str;
use crate::tasks::dep_edges;
use crate::tasks::lemma_dep_edges_bounded;
use vstd::prelude::*;

verus! {

/// An entry of the vault, by kind: a plain note, or a task together
/// with the name of the state that holds it.
pub enum VaultItem {
    Note(String),
    Task(String, String),
}

/// One place a link points at or comes from: a document name and the
/// 1-based line and column where the link stands.
pub struct VaultReference {
    file: String,
    line: usize,
    column: usize,
}

/// Mathematical image of a [`VaultReference`].
pub ghost struct RefView {
    pub file: Seq<char>,
    pub line: usize,
    pub column: usize,
}

impl DeepView for VaultReference {
    type V = RefView;

    closed spec fn deep_view(&self) -> RefView {
        RefView { file: self.file@, line: self.line, column: self.column }
    }
}

impl VaultReference {
    /// The referenced or referencing document's name.
    pub fn file(&self) -> (r: &String)
        ensures
            r@ == self.deep_view().file,
    {
        &self.file
    }

    /// The 1-based line of the link.
    pub fn line(&self) -> (r: usize)
        ensures
            r == self.deep_view().line,
    {
        self.line
    }

    /// The 1-based column of the link.
    pub fn column(&self) -> (r: usize)
        ensures
            r == self.deep_view().column,
    {
        self.column
    }
}

/// The outgoing references of a link sequence: one per link that
/// resolves to a note, in link order, naming the resolved note.
pub open spec fn source_refs(links: Seq<LinkView>, all: Seq<NoteView>) -> Seq<RefView>
    decreases links.len(),
{
    if links.len() == 0 {
        Seq::empty()
    } else {
        let rest = source_refs(links.drop_last(), all);
        let l = links.last();
        match resolve_spec(l.target, all) {
            ResolutionView::Note(m) => rest.push(
                RefView { file: m, line: l.range.start.line, column: l.range.start.column },
            ),
            _ => rest,
        }
    }
}

/// Backlinks reshaped as references: one per backlink, naming the
/// source document.
pub open spec fn backlink_refs(bls: Seq<BackLinkView>) -> Seq<RefView> {
    Seq::new(
        bls.len(),
        |i: int|
            RefView {
                file: bls[i].source,
                line: bls[i].range.start.line,
                column: bls[i].range.start.column,
            },
    )
}

/// The dependency targets of a link sequence, by name: the notes that
/// the dependency-scheme links resolve to, in link order.
pub open spec fn dep_children(links: Seq<LinkView>, all: Seq<NoteView>) -> Seq<Seq<char>> {
    Seq::new(dep_edges(links, all).len(), |i: int| all[dep_edges(links, all)[i] as int].name)
}

/// The dependents of the named task among `docs`: every document with a
/// dependency link resolving to it, in document order.
pub open spec fn parents_spec(docs: Seq<NoteView>, all: Seq<NoteView>, name: Seq<char>) -> Seq<
    Seq<char>,
>
    decreases docs.len(),
{
    if docs.len() == 0 {
        Seq::empty()
    } else {
        let rest = parents_spec(docs.drop_last(), all, name);
        if dep_children(docs.last().links, all).contains(name) {
            rest.push(docs.last().name)
        } else {
            rest
        }
    }
}

/// The resolved outgoing references of the given links.
fn source_refs_of(links: &Vec<Link>, all: &Vec<Note>) -> (r: Vec<VaultReference>)
    ensures
        r.deep_view() == source_refs(links.deep_view(), all.deep_view()),
{
    let mut out: Vec<VaultReference> = Vec::new();
    proof {
        assert(out.deep_view() =~= Seq::<RefView>::empty());
        assert(links.deep_view().subrange(0, 0) =~= Seq::<LinkView>::empty());
    }
    let mut j: usize = 0;
    while j < links.len()
        invariant
            0 <= j <= links@.len(),
            out.deep_view() == source_refs(links.deep_view().subrange(0, j as int), all.deep_view()),
        decreases links@.len() - j,
    {
        let ghost lv = links.deep_view();
        proof {
            assert(lv[j as int] == links@[j as int].deep_view());
            assert(lv.subrange(0, j + 1 as int).drop_last() =~= lv.subrange(0, j as int));
            assert(lv.subrange(0, j + 1 as int).last() == lv[j as int]);
        }
        let l = &links[j];
        let res = resolve(l.target().as_str(), all);
        match res {
            LinkResolution::ResolvedNote(m) => {
                let ghost o0 = out.deep_view();
                let rng = l.range();
                let nr = VaultReference {
                    file: m,
                    line: rng.start.line,
                    column: rng.start.column,
                };
                let ghost nv = nr.deep_view();
                out.push(nr);
                proof {
                    assert(out.deep_view() =~= o0.push(nv));
                }
            },
            _ => {},
        }
        j = j + 1;
    }
    proof {
        assert(links.deep_view().subrange(0, links@.len() as int) =~= links.deep_view());
    }
    out
}

/// The given backlinks reshaped as references.
fn backlink_refs_of(bls: &Vec<BackLink>) -> (r: Vec<VaultReference>)
    ensures
        r.deep_view() == backlink_refs(bls.deep_view()),
{
    let mut out: Vec<VaultReference> = Vec::new();
    let mut i: usize = 0;
    while i < bls.len()
        invariant
            0 <= i <= bls@.len(),
            out@.len() == i,
            forall|k: int|
                0 <= k < i ==> (#[trigger] out.deep_view()[k]) == backlink_refs(bls.deep_view())[k],
        decreases bls@.len() - i,
    {
        let ghost o0 = out.deep_view();
        proof {
            assert(bls.deep_view()[i as int] == bls@[i as int].deep_view());
        }
        let b = &bls[i];
        let rng = b.range();
        let nr = VaultReference {
            file: b.source().clone(),
            line: rng.start.line,
            column: rng.start.column,
        };
        let ghost nv = nr.deep_view();
        out.push(nr);
        proof {
            assert(out.deep_view() =~= o0.push(nv));
            assert forall|k: int|
                0 <= k < i + 1 implies (#[trigger] out.deep_view()[k]) == backlink_refs(
                bls.deep_view(),
            )[k] by {
                if k < i {
                    assert(out.deep_view()[k] == o0[k]);
                } else {
                    assert(out.deep_view()[k] == nv);
                }
            }
        }
        i = i + 1;
    }
    proof {
        assert(out.deep_view() =~= backlink_refs(bls.deep_view()));
    }
    out
}

/// The names of the dependency targets of the given links.
fn dep_children_of(links: &Vec<Link>, all: &Vec<Note>) -> (r: Vec<String>)
    ensures
        r.deep_view() == dep_children(links.deep_view(), all.deep_view()),
{
    let all_len: usize = all.len();
    let edges = crate::tasks::dep_edges_of(links, all);
    proof {
        assert(all_len == all@.len());
        assert(all.deep_view().len() == all@.len());
        lemma_dep_edges_bounded(links.deep_view(), all.deep_view());
    }
    let mut out: Vec<String> = Vec::new();
    let mut i: usize = 0;
    while i < edges.len()
        invariant
            0 <= i <= edges@.len(),
            edges@ == dep_edges(links.deep_view(), all.deep_view()),
            forall|x: int|
                0 <= x < edges@.len() ==> (#[trigger] edges@[x] as int) < all@.len(),
            all.deep_view().len() == all@.len(),
            out@.len() == i,
            forall|k: int|
                0 <= k < i ==> (#[trigger] out.deep_view()[k]) == dep_children(
                    links.deep_view(),
                    all.deep_view(),
                )[k],
        decreases edges@.len() - i,
    {
        let ghost o0 = out.deep_view();
        let ix = edges[i];
        proof {
            assert(all.deep_view()[ix as int] == all@[ix as int].deep_view());
        }
        let nm = all[ix].name().clone();
        let ghost nv = nm@;
        out.push(nm);
        proof {
            assert(out.deep_view() =~= o0.push(nv));
            assert forall|k: int|
                0 <= k < i + 1 implies (#[trigger] out.deep_view()[k]) == dep_children(
                links.deep_view(),
                all.deep_view(),
            )[k] by {
                if k < i {
                    assert(out.deep_view()[k] == o0[k]);
                } else {
                    assert(out.deep_view()[k] == nv);
                }
            }
        }
        i = i + 1;
    }
    proof {
        assert(out.deep_view() =~= dep_children(links.deep_view(), all.deep_view()));
    }
    out
}

/// Whether the name stands in the vector.
fn names_contain(names: &Vec<String>, name: &Vec<char>) -> (r: bool)
    ensures
        r == names.deep_view().contains(name@),
{
    let mut i: usize = 0;
    while i < names.len()
        invariant
            0 <= i <= names@.len(),
            forall|k: int| 0 <= k < i ==> names.deep_view()[k] != name@,
        decreases names@.len() - i,
    {
        proof {
            assert(names.deep_view()[i as int] == names@[i as int]@);
        }
        if chars_eq_str(name, names[i].as_str()) {
            proof {
                assert(names.deep_view()[i as int] == name@);
            }
            return true;
        }
        i = i + 1;
    }
    proof {
        if names.deep_view().contains(name@) {
            let k = choose|k: int| 0 <= k < names.deep_view().len() && names.deep_view()[k]
                == name@;
            assert(false);
        }
    }
    false
}

/// A derived snapshot of one document's place in the link graph: its
/// name, its resolved outgoing references and its backlinks.
pub struct RefBucket {
    pub name: String,
    pub refs: Vec<VaultReference>,
}

/// Mathematical image of a [`RefBucket`].
pub ghost struct RefBucketView {
    pub name: Seq<char>,
    pub refs: Seq<RefView>,
}

impl DeepView for RefBucket {
    type V = RefBucketView;

    open spec fn deep_view(&self) -> RefBucketView {
        RefBucketView { name: self.name@, refs: self.refs.deep_view() }
    }
}

/// A full derived snapshot of the link graph: per document, its
/// outgoing resolved references and its backlinks. Built from one
/// consistent snapshot of documents; a caller that mutates the index
/// afterwards simply builds a fresh one.
pub struct NotebookIndex {
    pub link_sources: Vec<RefBucket>,
    pub link_targets: Vec<RefBucket>,
}

/// Per document, its resolved dependency targets: the task graph as
/// names.
pub struct DepsEntry {
    pub task: String,
    pub depends_on: Vec<String>,
}

/// Mathematical image of a [`DepsEntry`].
pub ghost struct DepsEntryView {
    pub task: Seq<char>,
    pub depends_on: Seq<Seq<char>>,
}

impl DeepView for DepsEntry {
    type V = DepsEntryView;

    open spec fn deep_view(&self) -> DepsEntryView {
        DepsEntryView { task: self.task@, depends_on: self.depends_on.deep_view() }
    }
}

/// A derived snapshot of the task dependency graph, one entry per
/// document in document order.
pub struct DocketIndex {
    pub task_graph: Vec<DepsEntry>,
}

/// The in-memory document cache of a vault: parsed notes under distinct
/// names, with every derived query computed from the current snapshot.
pub struct VaultIndex {
    documents: Vec<Note>,
}

impl VaultIndex {
    /// The documents as the contracts see them.
    pub closed spec fn model(&self) -> Seq<NoteView> {
        self.documents.deep_view()
    }

    /// Document names are pairwise distinct.
    pub open spec fn wf(&self) -> bool {
        wf_notes(self.model())
    }

    /// An empty cache.
    pub fn new() -> (r: VaultIndex)
        ensures
            r.wf(),
            r.model() == Seq::<NoteView>::empty(),
    {
        let r = VaultIndex { documents: Vec::new() };
        proof {
            assert(r.model() =~= Seq::<NoteView>::empty());
        }
        r
    }

    /// Puts an already-parsed document into the cache, replacing any
    /// document of the same name.
    pub fn load_document(&mut self, note: Note)
        requires
            old(self).wf(),
        ensures
            final(self).wf(),
            final(self).model() == upsert_spec(old(self).model(), note.deep_view()),
    {
        proof {
            lemma_upsert_wf(self.model(), note.deep_view());
            lemma_note_index(self.model(), note.deep_view().name);
        }
        let name = chars_vec(note.name().as_str());
        match find_note(&self.documents, &name) {
            Some(i) => {
                let ghost m0 = self.model();
                let ghost nv = note.deep_view();
                let _ = self.documents.remove(i);
                self.documents.insert(i, note);
                proof {
                    assert(self.model() =~= m0.update(i as int, nv));
                }
            },
            None => {
                let ghost m0 = self.model();
                let ghost nv = note.deep_view();
                self.documents.push(note);
                proof {
                    assert(self.model() =~= m0.push(nv));
                }
            },
        }
    }

    /// Applies an edit: parses the new text and replaces the named
    /// document. A text that fails to parse leaves the cache exactly as
    /// it was — no partial replacement.
    pub fn update_document(&mut self, name: &str, contents: &str) -> (r: Result<
        (),
        NotebookError,
    >)
        requires
            old(self).wf(),
        ensures
            final(self).wf(),
            match r {
                Ok(_) => parse_note_spec(name@, contents@) matches Some(n) && final(self).model()
                    == upsert_spec(old(self).model(), n),
                Err(e) => parse_note_spec(name@, contents@) is None && e
                    == NotebookError::ErrorParsingNote && final(self).model() == old(self).model(),
            },
    {
        match Note::new(name, contents) {
            Ok(n) => {
                self.load_document(n);
                Ok(())
            },
            Err(e) => Err(e),
        }
    }

    /// Drops the named document from the cache; an unknown name is a
    /// no-op.
    pub fn remove_document(&mut self, name: &str)
        requires
            old(self).wf(),
        ensures
            final(self).wf(),
            final(self).model() == remove_spec(old(self).model(), name@),
    {
        proof {
            lemma_remove_wf(self.model(), name@);
            lemma_note_index(self.model(), name@);
        }
        let nv = chars_vec(name);
        match find_note(&self.documents, &nv) {
            Some(i) => {
                let ghost m0 = self.model();
                let _ = self.documents.remove(i);
                proof {
                    assert(self.model() =~= m0.remove(i as int));
                }
            },
            None => {},
        }
    }

    /// The named document's resolved outgoing references, in link
    /// order; empty when the document is unknown or links nowhere.
    pub fn links_from(&self, name: &str) -> (r: Vec<VaultReference>)
        ensures
            r.deep_view() == match lookup_note(self.model(), name@) {
                Some(n) => source_refs(n.links, self.model()),
                None => Seq::<RefView>::empty(),
            },
    {
        let nv = chars_vec(name);
        match find_note(&self.documents, &nv) {
            Some(i) => {
                proof {
                    lemma_note_index(self.model(), name@);
                    assert(self.model()[i as int] == self.documents@[i as int].deep_view());
                }
                source_refs_of(self.documents[i].links(), &self.documents)
            },
            None => {
                let r: Vec<VaultReference> = Vec::new();
                proof {
                    assert(r.deep_view() =~= Seq::<RefView>::empty());
                }
                r
            },
        }
    }

    /// All backlinks whose resolved target is the named document,
    /// reshaped as references, in document order then link order.
    pub fn links_to(&self, name: &str) -> (r: Vec<VaultReference>)
        ensures
            r.deep_view() == backlink_refs(backlinks_spec(self.model(), name@)),
    {
        let bls = collect_backlinks(&self.documents, name);
        backlink_refs_of(&bls)
    }

    /// The dependency targets of the named document, as task names;
    /// empty when the document is unknown or depends on nothing.
    pub fn children_of(&self, name: &str) -> (r: Vec<String>)
        ensures
            r.deep_view() == match lookup_note(self.model(), name@) {
                Some(n) => dep_children(n.links, self.model()),
                None => Seq::<Seq<char>>::empty(),
            },
    {
        let nv = chars_vec(name);
        match find_note(&self.documents, &nv) {
            Some(i) => {
                proof {
                    lemma_note_index(self.model(), name@);
                    assert(self.model()[i as int] == self.documents@[i as int].deep_view());
                }
                dep_children_of(self.documents[i].links(), &self.documents)
            },
            None => {
                let r: Vec<String> = Vec::new();
                proof {
                    assert(r.deep_view() =~= Seq::<Seq<char>>::empty());
                }
                r
            },
        }
    }

    /// The documents that depend on the named task, in document order.
    pub fn parents_of(&self, name: &str) -> (r: Vec<String>)
        ensures
            r.deep_view() == parents_spec(self.model(), self.model(), name@),
    {
        let nv = chars_vec(name);
        let mut out: Vec<String> = Vec::new();
        proof {
            assert(out.deep_view() =~= Seq::<Seq<char>>::empty());
            assert(self.model().subrange(0, 0) =~= Seq::<NoteView>::empty());
        }
        let mut i: usize = 0;
        while i < self.documents.len()
            invariant
                0 <= i <= self.documents@.len(),
                nv@ == name@,
                out.deep_view() == parents_spec(
                    self.model().subrange(0, i as int),
                    self.model(),
                    name@,
                ),
            decreases self.documents@.len() - i,
        {
            proof {
                assert(self.model()[i as int] == self.documents@[i as int].deep_view());
                assert(self.model().subrange(0, i + 1 as int).drop_last() =~= self.model().subrange(
                    0,
                    i as int,
                ));
                assert(self.model().subrange(0, i + 1 as int).last() == self.model()[i as int]);
            }
            let doc = &self.documents[i];
            let children = dep_children_of(doc.links(), &self.documents);
            if names_contain(&children, &nv) {
                let ghost o0 = out.deep_view();
                let nm = doc.name().clone();
                let ghost nmv = nm@;
                out.push(nm);
                proof {
                    assert(out.deep_view() =~= o0.push(nmv));
                }
            }
            i = i + 1;
        }
        proof {
            assert(self.model().subrange(0, self.documents@.len() as int) =~= self.model());
        }
        out
    }

    /// The possible link anchors inside the named document: its heading
    /// texts in document order; empty when the document is unknown.
    pub fn targets_in(&self, name: &str) -> (r: Vec<String>)
        ensures
            r.deep_view() == match lookup_note(self.model(), name@) {
                Some(n) => Seq::new(n.headings.len(), |i: int| n.headings[i].text),
                None => Seq::<Seq<char>>::empty(),
            },
    {
        let nv = chars_vec(name);
        match find_note(&self.documents, &nv) {
            Some(i) => {
                proof {
                    lemma_note_index(self.model(), name@);
                    assert(self.model()[i as int] == self.documents@[i as int].deep_view());
                }
                let hs = self.documents[i].headings();
                let mut out: Vec<String> = Vec::new();
                let mut j: usize = 0;
                while j < hs.len()
                    invariant
                        0 <= j <= hs@.len(),
                        out@.len() == j,
                        forall|k: int|
                            0 <= k < j ==> (#[trigger] out.deep_view()[k]) == hs.deep_view()[
                                k
                            ].text,
                    decreases hs@.len() - j,
                {
                    let ghost o0 = out.deep_view();
                    proof {
                        assert(hs.deep_view()[j as int] == hs@[j as int].deep_view());
                    }
                    let t = hs[j].text().clone();
                    let ghost tv = t@;
                    out.push(t);
                    proof {
                        assert(out.deep_view() =~= o0.push(tv));
                        assert forall|k: int|
                            0 <= k < j + 1 implies (#[trigger] out.deep_view()[k])
                            == hs.deep_view()[k].text by {
                            if k < j {
                                assert(out.deep_view()[k] == o0[k]);
                            } else {
                                assert(out.deep_view()[k] == tv);
                            }
                        }
                    }
                    j = j + 1;
                }
                proof {
                    assert(out.deep_view() =~= Seq::new(
                        lookup_note(self.model(), name@).unwrap().headings.len(),
                        |k: int| lookup_note(self.model(), name@).unwrap().headings[k].text,
                    ));
                }
                out
            },
            None => {
                let r: Vec<String> = Vec::new();
                proof {
                    assert(r.deep_view() =~= Seq::<Seq<char>>::empty());
                }
                r
            },
        }
    }

    /// A full derived snapshot of the link graph over the current
    /// documents.
    pub fn notebook_index(&self) -> (r: NotebookIndex)
        ensures
            r.link_sources.deep_view() == Seq::new(
                self.model().len(),
                |i: int|
                    RefBucketView {
                        name: self.model()[i].name,
                        refs: source_refs(self.model()[i].links, self.model()),
                    },
            ),
            r.link_targets.deep_view() == Seq::new(
                self.model().len(),
                |i: int|
                    RefBucketView {
                        name: self.model()[i].name,
                        refs: backlink_refs(backlinks_spec(self.model(), self.model()[i].name)),
                    },
            ),
    {
        let mut link_sources: Vec<RefBucket> = Vec::new();
        let mut link_targets: Vec<RefBucket> = Vec::new();
        let mut i: usize = 0;
        while i < self.documents.len()
            invariant
                0 <= i <= self.documents@.len(),
                link_sources@.len() == i,
                link_targets@.len() == i,
                forall|k: int|
                    0 <= k < i ==> (#[trigger] link_sources.deep_view()[k]) == (RefBucketView {
                        name: self.model()[k].name,
                        refs: source_refs(self.model()[k].links, self.model()),
                    }),
                forall|k: int|
                    0 <= k < i ==> (#[trigger] link_targets.deep_view()[k]) == (RefBucketView {
                        name: self.model()[k].name,
                        refs: backlink_refs(backlinks_spec(self.model(), self.model()[k].name)),
                    }),
            decreases self.documents@.len() - i,
        {
            proof {
                assert(self.model()[i as int] == self.documents@[i as int].deep_view());
            }
            let doc = &self.documents[i];
            let ghost s0 = link_sources.deep_view();
            let ghost t0 = link_targets.deep_view();
            let srefs = source_refs_of(doc.links(), &self.documents);
            let sb = RefBucket { name: doc.name().clone(), refs: srefs };
            let ghost sbv = sb.deep_view();
            link_sources.push(sb);
            let bls = collect_backlinks(&self.documents, doc.name().as_str());
            let trefs = backlink_refs_of(&bls);
            let tb = RefBucket { name: doc.name().clone(), refs: trefs };
            let ghost tbv = tb.deep_view();
            link_targets.push(tb);
            proof {
                assert(link_sources.deep_view() =~= s0.push(sbv));
                assert(link_targets.deep_view() =~= t0.push(tbv));
                assert forall|k: int|
                    0 <= k < i + 1 implies (#[trigger] link_sources.deep_view()[k])
                    == (RefBucketView {
                    name: self.model()[k].name,
                    refs: source_refs(self.model()[k].links, self.model()),
                }) by {
                    if k < i {
                        assert(link_sources.deep_view()[k] == s0[k]);
                    } else {
                        assert(link_sources.deep_view()[k] == sbv);
                    }
                }
                assert forall|k: int|
                    0 <= k < i + 1 implies (#[trigger] link_targets.deep_view()[k])
                    == (RefBucketView {
                    name: self.model()[k].name,
                    refs: backlink_refs(backlinks_spec(self.model(), self.model()[k].name)),
                }) by {
                    if k < i {
                        assert(link_targets.deep_view()[k] == t0[k]);
                    } else {
                        assert(link_targets.deep_view()[k] == tbv);
                    }
                }
            }
            i = i + 1;
        }
        proof {
            assert(link_sources.deep_view() =~= Seq::new(
                self.model().len(),
                |i: int|
                    RefBucketView {
                        name: self.model()[i].name,
                        refs: source_refs(self.model()[i].links, self.model()),
                    },
            ));
            assert(link_targets.deep_view() =~= Seq::new(
                self.model().len(),
                |i: int|
                    RefBucketView {
                        name: self.model()[i].name,
                        refs: backlink_refs(backlinks_spec(self.model(), self.model()[i].name)),
                    },
            ));
        }
        NotebookIndex { link_sources, link_targets }
    }

    /// A derived snapshot of the task dependency graph over the current
    /// documents.
    pub fn docket_index(&self) -> (r: DocketIndex)
        ensures
            r.task_graph.deep_view() == Seq::new(
                self.model().len(),
                |i: int|
                    DepsEntryView {
                        task: self.model()[i].name,
                        depends_on: dep_children(self.model()[i].links, self.model()),
                    },
            ),
    {
        let mut task_graph: Vec<DepsEntry> = Vec::new();
        let mut i: usize = 0;
        while i < self.documents.len()
            invariant
                0 <= i <= self.documents@.len(),
                task_graph@.len() == i,
                forall|k: int|
                    0 <= k < i ==> (#[trigger] task_graph.deep_view()[k]) == (DepsEntryView {
                        task: self.model()[k].name,
                        depends_on: dep_children(self.model()[k].links, self.model()),
                    }),
            decreases self.documents@.len() - i,
        {
            proof {
                assert(self.model()[i as int] == self.documents@[i as int].deep_view());
            }
            let doc = &self.documents[i];
            let ghost g0 = task_graph.deep_view();
            let deps = dep_children_of(doc.links(), &self.documents);
            let e = DepsEntry { task: doc.name().clone(), depends_on: deps };
            let ghost ev = e.deep_view();
            task_graph.push(e);
            proof {
                assert(task_graph.deep_view() =~= g0.push(ev));
                assert forall|k: int|
                    0 <= k < i + 1 implies (#[trigger] task_graph.deep_view()[k])
                    == (DepsEntryView {
                    task: self.model()[k].name,
                    depends_on: dep_children(self.model()[k].links, self.model()),
                }) by {
                    if k < i {
                        assert(task_graph.deep_view()[k] == g0[k]);
                    } else {
                        assert(task_graph.deep_view()[k] == ev);
                    }
                }
            }
            i = i + 1;
        }
        proof {
            assert(task_graph.deep_view() =~= Seq::new(
                self.model().len(),
                |i: int|
                    DepsEntryView {
                        task: self.model()[i].name,
                        depends_on: dep_children(self.model()[i].links, self.model()),
                    },
            ));
        }
        DocketIndex { task_graph }
    }
}

} // verus!
