//! Link resolution: classifying a raw link target against the notes that a
//! notebook currently knows.
//!
//! The target grammar is the library's own. A target opening with `dep:`
//! is a dependency reference to another note; a target containing `:`
//! anywhere else carries a scheme and is external; otherwise the target is
//! a note name, optionally followed by `#` and a heading anchor inside
//! that note. Resolution is a pure function of the target and the current
//! snapshot of notes: it reads no file and reparses nothing.

use crate::note::Note;
use crate::note::NoteView;
use crate::note::HeadingView;
use crate::strutil::chars_vec;
use crate::strutil::chars_eq_str;
use crate::strutil::find_char;
use crate::strutil::head_until;
use crate::strutil::spec_find;
use crate::strutil::tail_from;
use vstd::prelude::*;

verus! {

/// What a link target resolves to.
pub enum LinkResolution {
    /// A note in the current notebook, by name.
    ResolvedNote(String),
    /// A heading anchor: the note's name and the heading's text.
    ResolvedHeading(String, String),
    /// A target with a scheme: outside the notebook altogether.
    External,
    /// A target that matches no known note or heading.
    Dangling,
}

/// Mathematical image of a [`LinkResolution`].
pub ghost enum ResolutionView {
    Note(Seq<char>),
    Heading(Seq<char>, Seq<char>),
    External,
    Dangling,
}

impl DeepView for LinkResolution {
    type V = ResolutionView;

    open spec fn deep_view(&self) -> ResolutionView {
        match self {
            LinkResolution::ResolvedNote(n) => ResolutionView::Note(n@),
            LinkResolution::ResolvedHeading(n, h) => ResolutionView::Heading(n@, h@),
            LinkResolution::External => ResolutionView::External,
            LinkResolution::Dangling => ResolutionView::Dangling,
        }
    }
}

/// Whether the target opens with the dependency scheme `dep:`.
pub open spec fn is_dep(target: Seq<char>) -> bool {
    target.len() >= 4 && target[0] == 'd' && target[1] == 'e' && target[2] == 'p' && target[3]
        == ':'
}

/// The note name behind the dependency scheme.
pub open spec fn dep_name(target: Seq<char>) -> Seq<char> {
    target.subrange(4, target.len() as int)
}

/// Whether the target carries a scheme separator and so points outside
/// the notebook.
pub open spec fn is_external(target: Seq<char>) -> bool {
    spec_find(target, ':') is Some
}

/// The first position whose note is called `name`, if any.
pub open spec fn note_index(notes: Seq<NoteView>, name: Seq<char>) -> Option<int>
    decreases notes.len(),
{
    if notes.len() == 0 {
        None
    } else if notes[0].name == name {
        Some(0int)
    } else {
        match note_index(notes.drop_first(), name) {
            Some(i) => Some(i + 1),
            None => None,
        }
    }
}

/// The first note called `name`, if any.
pub open spec fn lookup_note(notes: Seq<NoteView>, name: Seq<char>) -> Option<NoteView> {
    match note_index(notes, name) {
        Some(i) => Some(notes[i]),
        None => None,
    }
}

/// Whether some note is called `name`.
pub open spec fn has_note(notes: Seq<NoteView>, name: Seq<char>) -> bool {
    note_index(notes, name) is Some
}

pub proof fn lemma_note_index(notes: Seq<NoteView>, name: Seq<char>)
    ensures
        match note_index(notes, name) {
            Some(i) => 0 <= i < notes.len() && notes[i].name == name && forall|k: int|
                0 <= k < i ==> notes[k].name != name,
            None => forall|k: int| 0 <= k < notes.len() ==> notes[k].name != name,
        },
    decreases notes.len(),
{
    if notes.len() > 0 && notes[0].name != name {
        lemma_note_index(notes.drop_first(), name);
        let t = notes.drop_first();
        assert(forall|k: int| 1 <= k < notes.len() ==> notes[k] == t[k - 1]);
    }
}

/// The first position of a heading with the given text, if any.
pub open spec fn heading_index(headings: Seq<HeadingView>, text: Seq<char>) -> Option<int>
    decreases headings.len(),
{
    if headings.len() == 0 {
        None
    } else if headings[0].text == text {
        Some(0int)
    } else {
        match heading_index(headings.drop_first(), text) {
            Some(i) => Some(i + 1),
            None => None,
        }
    }
}

pub proof fn lemma_heading_index(headings: Seq<HeadingView>, text: Seq<char>)
    ensures
        match heading_index(headings, text) {
            Some(i) => 0 <= i < headings.len() && headings[i].text == text && forall|k: int|
                0 <= k < i ==> headings[k].text != text,
            None => forall|k: int| 0 <= k < headings.len() ==> headings[k].text != text,
        },
    decreases headings.len(),
{
    if headings.len() > 0 && headings[0].text != text {
        lemma_heading_index(headings.drop_first(), text);
        let t = headings.drop_first();
        assert(forall|k: int| 1 <= k < headings.len() ==> headings[k] == t[k - 1]);
    }
}

/// What the target resolves to against the given snapshot of notes: the
/// dependency scheme resolves as a note name, any other scheme is
/// external, and a bare name (with an optional `#` heading anchor) must
/// match a known note, else the link dangles.
pub open spec fn resolve_spec(target: Seq<char>, notes: Seq<NoteView>) -> ResolutionView {
    if is_dep(target) {
        if has_note(notes, dep_name(target)) {
            ResolutionView::Note(dep_name(target))
        } else {
            ResolutionView::Dangling
        }
    } else if is_external(target) {
        ResolutionView::External
    } else {
        match spec_find(target, '#') {
            None => if has_note(notes, target) {
                ResolutionView::Note(target)
            } else {
                ResolutionView::Dangling
            },
            Some(h) => {
                let name = target.subrange(0, h);
                let frag = target.subrange(h + 1, target.len() as int);
                match lookup_note(notes, name) {
                    Some(n) => if heading_index(n.headings, frag) is Some {
                        ResolutionView::Heading(name, frag)
                    } else {
                        ResolutionView::Dangling
                    },
                    None => ResolutionView::Dangling,
                }
            },
        }
    }
}

/// Scans for the first note called `name`.
pub fn find_note(notes: &Vec<Note>, name: &Vec<char>) -> (r: Option<usize>)
    ensures
        match r {
            Some(i) => note_index(notes.deep_view(), name@) == Some(i as int),
            None => note_index(notes.deep_view(), name@) is None,
        },
{
    proof {
        lemma_note_index(notes.deep_view(), name@);
    }
    let mut i: usize = 0;
    while i < notes.len()
        invariant
            0 <= i <= notes@.len(),
            notes.deep_view().len() == notes@.len(),
            forall|k: int| 0 <= k < i ==> notes.deep_view()[k].name != name@,
            match note_index(notes.deep_view(), name@) {
                Some(k) => 0 <= k < notes@.len() && notes.deep_view()[k].name == name@
                    && forall|m: int| 0 <= m < k ==> notes.deep_view()[m].name != name@,
                None => forall|m: int|
                    0 <= m < notes@.len() ==> notes.deep_view()[m].name != name@,
            },
        decreases notes@.len() - i,
    {
        proof {
            assert(notes.deep_view()[i as int] == notes@[i as int].deep_view());
        }
        if chars_eq_str(name, notes[i].name().as_str()) {
            proof {
                if let Some(k) = note_index(notes.deep_view(), name@) {
                    assert(!(k < i) && !(i < k));
                }
            }
            return Some(i);
        }
        i = i + 1;
    }
    None
}

/// Scans a note's headings for the first with the given text.
pub fn find_heading(note: &Note, text: &Vec<char>) -> (r: Option<usize>)
    ensures
        match r {
            Some(j) => heading_index(note.deep_view().headings, text@) == Some(j as int),
            None => heading_index(note.deep_view().headings, text@) is None,
        },
{
    proof {
        lemma_heading_index(note.deep_view().headings, text@);
    }
    let headings = note.headings();
    let mut j: usize = 0;
    while j < headings.len()
        invariant
            0 <= j <= headings@.len(),
            headings.deep_view() == note.deep_view().headings,
            forall|k: int| 0 <= k < j ==> headings.deep_view()[k].text != text@,
            match heading_index(note.deep_view().headings, text@) {
                Some(k) => 0 <= k < headings@.len() && headings.deep_view()[k].text == text@
                    && forall|m: int| 0 <= m < k ==> headings.deep_view()[m].text != text@,
                None => forall|m: int|
                    0 <= m < headings@.len() ==> headings.deep_view()[m].text != text@,
            },
        decreases headings@.len() - j,
    {
        proof {
            assert(headings.deep_view()[j as int] == headings@[j as int].deep_view());
        }
        if chars_eq_str(text, headings[j].text().as_str()) {
            proof {
                if let Some(k) = heading_index(note.deep_view().headings, text@) {
                    assert(!(k < j) && !(j < k));
                }
            }
            return Some(j);
        }
        j = j + 1;
    }
    None
}

/// Classifies a raw link target against the current notes. Pure: reads
/// nothing but its arguments, so it is safe to call during index
/// maintenance.
pub fn resolve(target: &str, notes: &Vec<Note>) -> (r: LinkResolution)
    ensures
        r.deep_view() == resolve_spec(target@, notes.deep_view()),
{
    let t = chars_vec(target);
    if t.len() >= 4 && t[0] == 'd' && t[1] == 'e' && t[2] == 'p' && t[3] == ':' {
        let name = tail_from(&t, 4);
        match find_note(notes, &name) {
            Some(i) => {
                proof {
                    lemma_note_index(notes.deep_view(), name@);
                    assert(notes.deep_view()[i as int] == notes@[i as int].deep_view());
                }
                LinkResolution::ResolvedNote(notes[i].name().clone())
            },
            None => LinkResolution::Dangling,
        }
    } else {
        let colon = find_char(&t, ':');
        if colon.is_some() {
            LinkResolution::External
        } else {
            match find_char(&t, '#') {
                None => {
                    match find_note(notes, &t) {
                        Some(i) => {
                            proof {
                                lemma_note_index(notes.deep_view(), t@);
                                assert(notes.deep_view()[i as int] == notes@[
                                    i as int
                                ].deep_view());
                            }
                            LinkResolution::ResolvedNote(notes[i].name().clone())
                        },
                        None => LinkResolution::Dangling,
                    }
                },
                Some(h) => {
                    proof {
                        crate::strutil::lemma_spec_find(t@, '#');
                    }
                    let name = head_until(&t, h);
                    let frag = tail_from(&t, h + 1);
                    match find_note(notes, &name) {
                        Some(i) => {
                            proof {
                                lemma_note_index(notes.deep_view(), name@);
                                assert(notes.deep_view()[i as int] == notes@[
                                    i as int
                                ].deep_view());
                            }
                            let n = &notes[i];
                            match find_heading(n, &frag) {
                                Some(j) => {
                                    proof {
                                        lemma_heading_index(n.deep_view().headings, frag@);
                                    }
                                    let hs = n.headings();
                                    proof {
                                        assert(hs.deep_view()[j as int] == hs@[
                                            j as int
                                        ].deep_view());
                                    }
                                    LinkResolution::ResolvedHeading(
                                        n.name().clone(),
                                        hs[j].text().clone(),
                                    )
                                },
                                None => LinkResolution::Dangling,
                            }
                        },
                        None => LinkResolution::Dangling,
                    }
                },
            }
        }
    }
}

} // verus!
