//! A notebook: the notes of one directory, keyed by name, with the
//! derived link and backlink queries over them.
//!
//! The notes live in a vector whose names are pairwise distinct; that
//! well-formedness is established by the constructors and preserved by
//! every mutation. Names collide by "last parsed wins": upserting a note
//! under an existing name replaces that note in place. The backlink query
//! is computed from the current snapshot on demand, a full pass over all
//! links; that cost is deliberate — the notebook never holds a stale
//! derived index, and [`crate::index::VaultIndex`] offers the maintained
//! variant.

use crate::note::BackLink;
use crate::note::BackLinkView;
use crate::note::Heading;
use crate::note::HeadingView;
use crate::note::Link;
use crate::note::LinkView;
use crate::note::Note;
use crate::note::NoteView;
use crate::note::clone_headings;
use crate::note::clone_links;
use crate::note::parse_note_spec;
use crate::resolve::ResolutionView;
use crate::resolve::find_note;
use crate::resolve::has_note;
use crate::resolve::lemma_note_index;
use crate::resolve::lookup_note;
use crate::resolve::note_index;
use crate::resolve::resolve;
use crate::resolve::resolve_spec;
use crate::resolve::LinkResolution;
use crate::strutil::chars_eq_str;
use crate::strutil::chars_vec;
use vstd::prelude::*;

verus! {

/// A rule for deriving a note's file name from caller-supplied arguments.
pub trait NoteTemplate {
    /// What the rule consumes: at least a free name and a point in time.
    type Args;

    /// What rendering yields for these arguments, if anything.
    spec fn rendered(&self, args: &Self::Args) -> Option<Seq<char>>;

    /// Renders a note name; `None` when the template or the arguments
    /// cannot be rendered.
    fn format_note_name(&self, args: &Self::Args) -> (r: Option<String>)
        ensures
            r.deep_view() == self.rendered(args),
    ;
}

/// One note source: the note's name and its raw markdown text.
pub struct SourceFile {
    pub name: String,
    pub contents: String,
}

/// Mathematical image of a [`SourceFile`].
pub ghost struct SourceFileView {
    pub name: Seq<char>,
    pub contents: Seq<char>,
}

impl DeepView for SourceFile {
    type V = SourceFileView;

    open spec fn deep_view(&self) -> SourceFileView {
        SourceFileView { name: self.name@, contents: self.contents@ }
    }
}

/// Note names are pairwise distinct.
pub open spec fn wf_notes(notes: Seq<NoteView>) -> bool {
    forall|i: int, j: int| 0 <= i < j < notes.len() ==> notes[i].name != notes[j].name
}

/// Upserting replaces the note of the same name in place, or appends the
/// note when its name is new.
pub open spec fn upsert_spec(notes: Seq<NoteView>, note: NoteView) -> Seq<NoteView> {
    match note_index(notes, note.name) {
        Some(i) => notes.update(i, note),
        None => notes.push(note),
    }
}

/// Removing deletes the note of that name; removing an unknown name
/// changes nothing.
pub open spec fn remove_spec(notes: Seq<NoteView>, name: Seq<char>) -> Seq<NoteView> {
    match note_index(notes, name) {
        Some(i) => notes.remove(i),
        None => notes,
    }
}

/// The notes that parsing a file list yields: files parse left to right,
/// a file that fails to parse is skipped, and a later file under an
/// already-seen name replaces the earlier note.
pub open spec fn notes_of_files(files: Seq<SourceFileView>) -> Seq<NoteView>
    decreases files.len(),
{
    if files.len() == 0 {
        Seq::empty()
    } else {
        let rest = notes_of_files(files.drop_last());
        match parse_note_spec(files.last().name, files.last().contents) {
            Some(n) => upsert_spec(rest, n),
            None => rest,
        }
    }
}

pub proof fn lemma_upsert_wf(notes: Seq<NoteView>, note: NoteView)
    requires
        wf_notes(notes),
    ensures
        wf_notes(upsert_spec(notes, note)),
{
    lemma_note_index(notes, note.name);
    match note_index(notes, note.name) {
        Some(i) => {
            let s = notes.update(i, note);
            assert forall|p: int, q: int| 0 <= p < q < s.len() implies s[p].name != s[q].name by {
                if p != i && q != i {
                    assert(s[p] == notes[p] && s[q] == notes[q]);
                } else if p == i {
                    assert(s[p].name == notes[i].name && s[q] == notes[q]);
                } else {
                    assert(s[q].name == notes[i].name && s[p] == notes[p]);
                }
            }
        },
        None => {
            let s = notes.push(note);
            assert forall|p: int, q: int| 0 <= p < q < s.len() implies s[p].name != s[q].name by {
                if q < notes.len() {
                    assert(s[p] == notes[p] && s[q] == notes[q]);
                } else {
                    assert(s[q] == note && s[p] == notes[p]);
                }
            }
        },
    }
}

pub proof fn lemma_remove_wf(notes: Seq<NoteView>, name: Seq<char>)
    requires
        wf_notes(notes),
    ensures
        wf_notes(remove_spec(notes, name)),
{
    match note_index(notes, name) {
        Some(i) => {
            lemma_note_index(notes, name);
            let s = notes.remove(i);
            assert forall|p: int, q: int| 0 <= p < q < s.len() implies s[p].name != s[q].name by {
                let p0: int = if p < i {
                    p
                } else {
                    p + 1
                };
                let q0: int = if q < i {
                    q
                } else {
                    q + 1
                };
                assert(s[p] == notes[p0] && s[q] == notes[q0]);
            }
        },
        None => {},
    }
}

/// A named collection of parsed notes together with its naming rule.
pub struct Notebook<T: NoteTemplate> {
    template: T,
    notes: Vec<Note>,
}

impl<T: NoteTemplate> Notebook<T> {
    /// The notes as the contracts see them.
    pub closed spec fn model(&self) -> Seq<NoteView> {
        self.notes.deep_view()
    }

    /// The naming rule as the contracts see it.
    pub closed spec fn spec_template(&self) -> T {
        self.template
    }

    /// Note names are pairwise distinct.
    pub open spec fn wf(&self) -> bool {
        wf_notes(self.model())
    }

    /// Builds a notebook by parsing every given file; a file that fails
    /// to parse is skipped, never aborting the rest.
    pub fn new(files: &Vec<SourceFile>, template: T) -> (r: Notebook<T>)
        ensures
            r.wf(),
            r.model() == notes_of_files(files.deep_view()),
            r.spec_template() == template,
    {
        let mut nb = Notebook { template, notes: Vec::new() };
        proof {
            assert(nb.model() =~= Seq::<NoteView>::empty());
        }
        nb.refresh(files);
        nb
    }

    /// Replaces the whole note set by reparsing the given files: the
    /// fallback consistency mechanism after changes made outside the
    /// indexed mutation path.
    pub fn refresh(&mut self, files: &Vec<SourceFile>)
        ensures
            final(self).wf(),
            final(self).model() == notes_of_files(files.deep_view()),
            final(self).spec_template() == old(self).spec_template(),
    {
        self.notes = Vec::new();
        proof {
            assert(self.model() =~= Seq::<NoteView>::empty());
        }
        let mut i: usize = 0;
        while i < files.len()
            invariant
                0 <= i <= files@.len(),
                self.wf(),
                self.model() == notes_of_files(files.deep_view().subrange(0, i as int)),
                self.spec_template() == old(self).spec_template(),
            decreases files@.len() - i,
        {
            let ghost pre = files.deep_view().subrange(0, i as int);
            let ghost cur = files.deep_view().subrange(0, i + 1 as int);
            proof {
                assert(cur.drop_last() =~= pre);
                assert(cur.last() == files.deep_view()[i as int]);
                assert(files.deep_view()[i as int] == files@[i as int].deep_view());
            }
            let f = &files[i];
            match Note::new(f.name.as_str(), f.contents.as_str()) {
                Ok(n) => {
                    self.upsert(n);
                },
                Err(_) => {},
            }
            i = i + 1;
        }
        proof {
            assert(files.deep_view().subrange(0, files@.len() as int) =~= files.deep_view());
        }
    }

    /// Replaces any existing note of the same name, else adds the note.
    pub fn upsert(&mut self, note: Note)
        requires
            old(self).wf(),
        ensures
            final(self).wf(),
            final(self).model() == upsert_spec(old(self).model(), note.deep_view()),
            final(self).spec_template() == old(self).spec_template(),
    {
        proof {
            lemma_upsert_wf(self.model(), note.deep_view());
            lemma_note_index(self.model(), note.deep_view().name);
        }
        let name = chars_vec(note.name().as_str());
        match find_note(&self.notes, &name) {
            Some(i) => {
                let ghost m0 = self.model();
                let ghost nv = note.deep_view();
                let _ = self.notes.remove(i);
                self.notes.insert(i, note);
                proof {
                    assert(self.model() =~= m0.update(i as int, nv));
                }
            },
            None => {
                let ghost m0 = self.model();
                let ghost nv = note.deep_view();
                self.notes.push(note);
                proof {
                    assert(self.model() =~= m0.push(nv));
                }
            },
        }
    }

    /// Deletes the note of that name; removing an unknown name is a
    /// no-op, not an error.
    pub fn remove(&mut self, name: &str)
        requires
            old(self).wf(),
        ensures
            final(self).wf(),
            final(self).model() == remove_spec(old(self).model(), name@),
            final(self).spec_template() == old(self).spec_template(),
    {
        proof {
            lemma_remove_wf(self.model(), name@);
            lemma_note_index(self.model(), name@);
        }
        let nv = chars_vec(name);
        match find_note(&self.notes, &nv) {
            Some(i) => {
                let ghost m0 = self.model();
                let _ = self.notes.remove(i);
                proof {
                    assert(self.model() =~= m0.remove(i as int));
                }
            },
            None => {},
        }
    }

    /// Deletes and hands back the note of that name, if present.
    pub fn take(&mut self, name: &str) -> (r: Option<Note>)
        requires
            old(self).wf(),
        ensures
            final(self).wf(),
            final(self).model() == remove_spec(old(self).model(), name@),
            final(self).spec_template() == old(self).spec_template(),
            r.deep_view() == lookup_note(old(self).model(), name@),
    {
        proof {
            lemma_remove_wf(self.model(), name@);
            lemma_note_index(self.model(), name@);
        }
        let nv = chars_vec(name);
        match find_note(&self.notes, &nv) {
            Some(i) => {
                let ghost m0 = self.model();
                let n = self.notes.remove(i);
                proof {
                    assert(self.model() =~= m0.remove(i as int));
                }
                Some(n)
            },
            None => None,
        }
    }

    /// Renders a note name from this notebook's naming rule.
    pub fn get_name(&self, args: &T::Args) -> (r: Option<String>)
        ensures
            r.deep_view() == self.spec_template().rendered(args),
    {
        self.template.format_note_name(args)
    }
}

/// The backlinks that one note's links contribute to `target`: one entry
/// per link whose target resolves to the note named `target`, in link
/// order.
pub open spec fn links_backlinks(
    links: Seq<LinkView>,
    source: Seq<char>,
    all: Seq<NoteView>,
    target: Seq<char>,
) -> Seq<BackLinkView>
    decreases links.len(),
{
    if links.len() == 0 {
        Seq::empty()
    } else {
        let rest = links_backlinks(links.drop_last(), source, all, target);
        let l = links.last();
        if resolve_spec(l.target, all) == ResolutionView::Note(target) {
            rest.push(BackLinkView { text: l.text, source: source, range: l.range })
        } else {
            rest
        }
    }
}

/// The backlinks to `target` contributed by the notes of `docs`, resolved
/// against the snapshot `all`, in note order then link order.
pub open spec fn backlinks_acc(
    docs: Seq<NoteView>,
    all: Seq<NoteView>,
    target: Seq<char>,
) -> Seq<BackLinkView>
    decreases docs.len(),
{
    if docs.len() == 0 {
        Seq::empty()
    } else {
        backlinks_acc(docs.drop_last(), all, target) + links_backlinks(
            docs.last().links,
            docs.last().name,
            all,
            target,
        )
    }
}

/// All backlinks to `target` in the snapshot `all`.
pub open spec fn backlinks_spec(all: Seq<NoteView>, target: Seq<char>) -> Seq<BackLinkView> {
    backlinks_acc(all, all, target)
}

/// The links of all notes, in note order then document order.
pub open spec fn all_links(docs: Seq<NoteView>) -> Seq<LinkView>
    decreases docs.len(),
{
    if docs.len() == 0 {
        Seq::empty()
    } else {
        all_links(docs.drop_last()) + docs.last().links
    }
}

/// The headings of all notes, in note order then document order.
pub open spec fn all_headings(docs: Seq<NoteView>) -> Seq<HeadingView>
    decreases docs.len(),
{
    if docs.len() == 0 {
        Seq::empty()
    } else {
        all_headings(docs.drop_last()) + docs.last().headings
    }
}

impl<T: NoteTemplate> Notebook<T> {
    /// The named note's outgoing links in document order; empty when the
    /// note is unknown.
    pub fn links_from(&self, name: &str) -> (r: Vec<Link>)
        ensures
            r.deep_view() == match lookup_note(self.model(), name@) {
                Some(n) => n.links,
                None => Seq::<LinkView>::empty(),
            },
    {
        let nv = chars_vec(name);
        match find_note(&self.notes, &nv) {
            Some(i) => {
                proof {
                    lemma_note_index(self.model(), name@);
                    assert(self.model()[i as int] == self.notes@[i as int].deep_view());
                }
                clone_links(self.notes[i].links())
            },
            None => {
                let r: Vec<Link> = Vec::new();
                proof {
                    assert(r.deep_view() =~= Seq::<LinkView>::empty());
                }
                r
            },
        }
    }

    /// All backlinks whose resolved target is the named note, across all
    /// notes, in note order then link order within each note. Computed
    /// from the current snapshot, so it is never stale.
    pub fn links_to(&self, name: &str) -> (r: Vec<BackLink>)
        ensures
            r.deep_view() == backlinks_spec(self.model(), name@),
    {
        collect_backlinks(&self.notes, name)
    }

    /// Whether a note of that name is present.
    pub fn contains(&self, name: &str) -> (r: bool)
        ensures
            r == has_note(self.model(), name@),
    {
        let nv = chars_vec(name);
        let r = find_note(&self.notes, &nv);
        r.is_some()
    }

    /// A value-equal copy of all notes, in index order.
    pub fn notes_all(&self) -> (r: Vec<Note>)
        ensures
            r.deep_view() == self.model(),
    {
        clone_notes(&self.notes)
    }

    /// All links of all notes, in note order then document order.
    pub fn links(&self) -> (r: Vec<Link>)
        ensures
            r.deep_view() == all_links(self.model()),
    {
        let mut out: Vec<Link> = Vec::new();
        proof {
            assert(out.deep_view() =~= Seq::<LinkView>::empty());
            assert(self.model().subrange(0, 0) =~= Seq::<NoteView>::empty());
        }
        let mut i: usize = 0;
        while i < self.notes.len()
            invariant
                0 <= i <= self.notes@.len(),
                out.deep_view() == all_links(self.model().subrange(0, i as int)),
            decreases self.notes@.len() - i,
        {
            proof {
                assert(self.model()[i as int] == self.notes@[i as int].deep_view());
                assert(self.model().subrange(0, i + 1 as int).drop_last() =~= self.model().subrange(
                    0,
                    i as int,
                ));
                assert(self.model().subrange(0, i + 1 as int).last() == self.model()[i as int]);
            }
            let ghost o0 = out.deep_view();
            let mut part = clone_links(self.notes[i].links());
            let ghost pv = part.deep_view();
            out.append(&mut part);
            proof {
                assert(out.deep_view() =~= o0 + pv);
            }
            i = i + 1;
        }
        proof {
            assert(self.model().subrange(0, self.notes@.len() as int) =~= self.model());
        }
        out
    }

    /// All headings of all notes: the anchors that links may target.
    pub fn link_targets(&self) -> (r: Vec<Heading>)
        ensures
            r.deep_view() == all_headings(self.model()),
    {
        let mut out: Vec<Heading> = Vec::new();
        proof {
            assert(out.deep_view() =~= Seq::<HeadingView>::empty());
            assert(self.model().subrange(0, 0) =~= Seq::<NoteView>::empty());
        }
        let mut i: usize = 0;
        while i < self.notes.len()
            invariant
                0 <= i <= self.notes@.len(),
                out.deep_view() == all_headings(self.model().subrange(0, i as int)),
            decreases self.notes@.len() - i,
        {
            proof {
                assert(self.model()[i as int] == self.notes@[i as int].deep_view());
                assert(self.model().subrange(0, i + 1 as int).drop_last() =~= self.model().subrange(
                    0,
                    i as int,
                ));
                assert(self.model().subrange(0, i + 1 as int).last() == self.model()[i as int]);
            }
            let ghost o0 = out.deep_view();
            let mut part = clone_headings(self.notes[i].headings());
            let ghost pv = part.deep_view();
            out.append(&mut part);
            proof {
                assert(out.deep_view() =~= o0 + pv);
            }
            i = i + 1;
        }
        proof {
            assert(self.model().subrange(0, self.notes@.len() as int) =~= self.model());
        }
        out
    }
}

/// All backlinks whose resolved target is the named note, across the
/// given notes, in note order then link order within each note.
/// Computed from the given snapshot, so it is never stale.
pub fn collect_backlinks(notes: &Vec<Note>, name: &str) -> (r: Vec<BackLink>)
ensures
    r.deep_view() == backlinks_spec(notes.deep_view(), name@),
{
let nv = chars_vec(name);
    let mut out: Vec<BackLink> = Vec::new();
    proof {
        assert(out.deep_view() =~= Seq::<BackLinkView>::empty());
        assert(notes.deep_view().subrange(0, 0) =~= Seq::<NoteView>::empty());
    }
    let mut i: usize = 0;
    while i < notes.len()
        invariant
            0 <= i <= notes@.len(),
            nv@ == name@,
            out.deep_view() == backlinks_acc(
                notes.deep_view().subrange(0, i as int),
                notes.deep_view(),
                name@,
            ),
        decreases notes@.len() - i,
    {
        let note = &notes[i];
        proof {
            assert(notes.deep_view()[i as int] == notes@[i as int].deep_view());
        }
        let links = note.links();
        let mut j: usize = 0;
        while j < links.len()
            invariant
                0 <= j <= links@.len(),
                0 <= i < notes@.len(),
                nv@ == name@,
                note.deep_view() == notes.deep_view()[i as int],
                links.deep_view() == notes.deep_view()[i as int].links,
                out.deep_view() == backlinks_acc(
                    notes.deep_view().subrange(0, i as int),
                    notes.deep_view(),
                    name@,
                ) + links_backlinks(
                    notes.deep_view()[i as int].links.subrange(0, j as int),
                    notes.deep_view()[i as int].name,
                    notes.deep_view(),
                    name@,
                ),
            decreases links@.len() - j,
        {
            let ghost lv = notes.deep_view()[i as int].links;
            proof {
                assert(links.deep_view()[j as int] == links@[j as int].deep_view());
                assert(lv.subrange(0, j + 1 as int).drop_last() =~= lv.subrange(0, j as int));
                assert(lv.subrange(0, j + 1 as int).last() == lv[j as int]);
            }
            let l = &links[j];
            let res = resolve(l.target().as_str(), &notes);
            let is_match = match &res {
                LinkResolution::ResolvedNote(m) => chars_eq_str(&nv, m.as_str()),
                _ => false,
            };
            proof {
                assert(is_match == (resolve_spec(lv[j as int].target, notes.deep_view())
                    == ResolutionView::Note(name@)));
            }
            if is_match {
                let ghost o0 = out.deep_view();
                let bl = BackLink::from_link(note.name(), l);
                let ghost blv = bl.deep_view();
                out.push(bl);
                proof {
                    assert(out.deep_view() =~= o0.push(blv));
                }
            }
            j = j + 1;
        }
        proof {
            assert(notes.deep_view()[i as int].links.subrange(
                0,
                notes.deep_view()[i as int].links.len() as int,
            ) =~= notes.deep_view()[i as int].links);
            assert(notes.deep_view().subrange(0, i + 1 as int).drop_last() =~= notes.deep_view().subrange(
                0,
                i as int,
            ));
            assert(notes.deep_view().subrange(0, i + 1 as int).last() == notes.deep_view()[i as int]);
        }
        i = i + 1;
    }
    proof {
        assert(notes.deep_view().subrange(0, notes@.len() as int) =~= notes.deep_view());
    }
    out
}


/// A value-equal copy of a note vector.
pub fn clone_notes(notes: &Vec<Note>) -> (r: Vec<Note>)
    ensures
        r.deep_view() == notes.deep_view(),
{
    let mut out: Vec<Note> = Vec::new();
    let mut i: usize = 0;
    while i < notes.len()
        invariant
            0 <= i <= notes@.len(),
            out@.len() == i,
            forall|k: int| 0 <= k < i ==> out.deep_view()[k] == notes.deep_view()[k],
        decreases notes@.len() - i,
    {
        let ghost d0 = out.deep_view();
        let n = notes[i].duplicate();
        let ghost nv = n.deep_view();
        proof {
            assert(nv == notes.deep_view()[i as int]);
        }
        out.push(n);
        proof {
            assert(out.deep_view() =~= d0.push(nv));
            assert forall|k: int|
                0 <= k < i + 1 implies out.deep_view()[k] == notes.deep_view()[k] by {
                if k < i {
                    assert(out.deep_view()[k] == d0[k]);
                } else {
                    assert(out.deep_view()[k] == nv);
                }
            }
        }
        i = i + 1;
    }
    proof {
        assert(out.deep_view() =~= notes.deep_view());
    }
    out
}

} // verus!
