//! The library's laws: properties that hold of the index as a whole,
//! stated over the same models that the operations' contracts use, and
//! proved once and for all.

use crate::note::BackLinkView;
use crate::note::LinkView;
use crate::note::NoteView;
use crate::notebook::SourceFileView;
use crate::notebook::backlinks_acc;
use crate::notebook::backlinks_spec;
use crate::notebook::links_backlinks;
use crate::notebook::notes_of_files;
use crate::notebook::remove_spec;
use crate::notebook::upsert_spec;
use crate::notebook::wf_notes;
use crate::resolve::ResolutionView;
use crate::resolve::has_note;
use crate::resolve::lemma_note_index;
use crate::resolve::note_index;
use crate::resolve::resolve_spec;
use vstd::prelude::*;

verus! {

/// Refreshing is idempotent: two refreshes from the same unchanged
/// files yield the same note set, and therefore the same backlink
/// buckets for every target.
pub proof fn lemma_refresh_idempotent(
    files: Seq<SourceFileView>,
    m1: Seq<NoteView>,
    m2: Seq<NoteView>,
)
    requires
        m1 == notes_of_files(files),
        m2 == notes_of_files(files),
    ensures
        m1 == m2,
        forall|t: Seq<char>| backlinks_spec(m1, t) == backlinks_spec(m2, t),
{
}

proof fn lemma_note_index_push_absent(notes: Seq<NoteView>, note: NoteView)
    requires
        !has_note(notes, note.name),
    ensures
        note_index(notes.push(note), note.name) == Some(notes.len() as int),
    decreases notes.len(),
{
    lemma_note_index(notes, note.name);
    let s = notes.push(note);
    if notes.len() == 0 {
        assert(s[0] == note);
    } else {
        assert(s[0] == notes[0]);
        assert(notes[0].name != note.name);
        let tail = notes.drop_first();
        assert(s.drop_first() =~= tail.push(note));
        lemma_note_index(tail, note.name);
        if has_note(tail, note.name) {
            let i = note_index(tail, note.name).unwrap();
            assert(notes[i + 1] == tail[i]);
        }
        lemma_note_index_push_absent(tail, note);
    }
}

/// Upserting a note whose name is new and then removing that name
/// restores the note set — and with it every derived backlink bucket —
/// exactly. (A note whose name was already present is replaced by the
/// upsert, so the earlier note cannot come back: the law holds for
/// fresh names.)
pub proof fn lemma_upsert_remove_symmetry(notes: Seq<NoteView>, note: NoteView)
    requires
        wf_notes(notes),
        !has_note(notes, note.name),
    ensures
        remove_spec(upsert_spec(notes, note), note.name) == notes,
        forall|t: Seq<char>|
            backlinks_spec(remove_spec(upsert_spec(notes, note), note.name), t) == backlinks_spec(
                notes,
                t,
            ),
{
    lemma_note_index(notes, note.name);
    let s = notes.push(note);
    assert(upsert_spec(notes, note) == s);
    lemma_note_index_push_absent(notes, note);
    assert(s.remove(notes.len() as int) =~= notes);
}

/// Resolution to a present note does not depend on which other notes
/// exist: any two snapshots that both hold `t` agree on whether a
/// target resolves to the note `t`.
pub proof fn lemma_resolve_note_stable(
    s: Seq<char>,
    a: Seq<NoteView>,
    b: Seq<NoteView>,
    t: Seq<char>,
)
    requires
        has_note(a, t),
        has_note(b, t),
    ensures
        (resolve_spec(s, a) == ResolutionView::Note(t)) == (resolve_spec(s, b)
            == ResolutionView::Note(t)),
{
    if crate::resolve::is_dep(s) {
        let d = crate::resolve::dep_name(s);
        if d == t {
        } else {
            assert(resolve_spec(s, a) != ResolutionView::Note(t));
            assert(resolve_spec(s, b) != ResolutionView::Note(t));
        }
    } else if crate::resolve::is_external(s) {
    } else {
        match crate::strutil::spec_find(s, '#') {
            None => {
                if s == t {
                } else {
                    assert(resolve_spec(s, a) != ResolutionView::Note(t));
                    assert(resolve_spec(s, b) != ResolutionView::Note(t));
                }
            },
            Some(_) => {
                assert(resolve_spec(s, a) != ResolutionView::Note(t));
                assert(resolve_spec(s, b) != ResolutionView::Note(t));
            },
        }
    }
}

proof fn lemma_links_backlinks_stable(
    links: Seq<LinkView>,
    src: Seq<char>,
    a: Seq<NoteView>,
    b: Seq<NoteView>,
    t: Seq<char>,
)
    requires
        has_note(a, t),
        has_note(b, t),
    ensures
        links_backlinks(links, src, a, t) == links_backlinks(links, src, b, t),
    decreases links.len(),
{
    if links.len() > 0 {
        lemma_links_backlinks_stable(links.drop_last(), src, a, b, t);
        lemma_resolve_note_stable(links.last().target, a, b, t);
    }
}

proof fn lemma_acc_stable(
    docs: Seq<NoteView>,
    a: Seq<NoteView>,
    b: Seq<NoteView>,
    t: Seq<char>,
)
    requires
        has_note(a, t),
        has_note(b, t),
    ensures
        backlinks_acc(docs, a, t) == backlinks_acc(docs, b, t),
    decreases docs.len(),
{
    if docs.len() > 0 {
        lemma_acc_stable(docs.drop_last(), a, b, t);
        lemma_links_backlinks_stable(docs.last().links, docs.last().name, a, b, t);
    }
}

proof fn lemma_links_backlinks_sources(
    links: Seq<LinkView>,
    src: Seq<char>,
    all: Seq<NoteView>,
    t: Seq<char>,
)
    ensures
        forall|x: int|
            0 <= x < links_backlinks(links, src, all, t).len() ==> (#[trigger] links_backlinks(
                links,
                src,
                all,
                t,
            )[x]).source == src,
    decreases links.len(),
{
    if links.len() > 0 {
        lemma_links_backlinks_sources(links.drop_last(), src, all, t);
        let rest = links_backlinks(links.drop_last(), src, all, t);
        let cur = links_backlinks(links, src, all, t);
        assert forall|x: int| 0 <= x < cur.len() implies (#[trigger] cur[x]).source == src by {
            if x < rest.len() {
                assert(cur[x] == rest[x]);
            }
        }
    }
}

proof fn lemma_filter_id(s: Seq<BackLinkView>, n: Seq<char>)
    requires
        forall|x: int| 0 <= x < s.len() ==> (#[trigger] s[x]).source != n,
    ensures
        s.filter(|b: BackLinkView| b.source != n) == s,
    decreases s.len(),
{
    reveal(Seq::filter);
    if s.len() > 0 {
        lemma_filter_id(s.drop_last(), n);
        assert(s.last().source != n);
        assert(s.filter(|b: BackLinkView| b.source != n) =~= s.drop_last().push(s.last()));
        assert(s.drop_last().push(s.last()) =~= s);
    }
}

proof fn lemma_filter_empty(s: Seq<BackLinkView>, n: Seq<char>)
    requires
        forall|x: int| 0 <= x < s.len() ==> (#[trigger] s[x]).source == n,
    ensures
        s.filter(|b: BackLinkView| b.source != n) == Seq::<BackLinkView>::empty(),
    decreases s.len(),
{
    reveal(Seq::filter);
    if s.len() > 0 {
        lemma_filter_empty(s.drop_last(), n);
    }
}

proof fn lemma_acc_filter_id(docs: Seq<NoteView>, all: Seq<NoteView>, t: Seq<char>, n: Seq<char>)
    requires
        forall|k: int| 0 <= k < docs.len() ==> (#[trigger] docs[k]).name != n,
    ensures
        backlinks_acc(docs, all, t).filter(|b: BackLinkView| b.source != n) == backlinks_acc(
            docs,
            all,
            t,
        ),
    decreases docs.len(),
{
    broadcast use vstd::seq_lib::group_seq_lib_default;

    if docs.len() == 0 {
        lemma_filter_id(backlinks_acc(docs, all, t), n);
    } else {
        lemma_acc_filter_id(docs.drop_last(), all, t, n);
        let part = links_backlinks(docs.last().links, docs.last().name, all, t);
        lemma_links_backlinks_sources(docs.last().links, docs.last().name, all, t);
        assert(docs.last().name != n);
        lemma_filter_id(part, n);
        Seq::filter_distributes_over_add(
            backlinks_acc(docs.drop_last(), all, t),
            part,
            |b: BackLinkView| b.source != n,
        );
    }
}

proof fn lemma_acc_remove(
    docs: Seq<NoteView>,
    i: int,
    all: Seq<NoteView>,
    keep: Seq<NoteView>,
    t: Seq<char>,
    n: Seq<char>,
)
    requires
        0 <= i < docs.len(),
        docs[i].name == n,
        forall|k: int| 0 <= k < docs.len() && k != i ==> (#[trigger] docs[k]).name != n,
        has_note(all, t),
        has_note(keep, t),
    ensures
        backlinks_acc(docs.remove(i), keep, t) == backlinks_acc(docs, all, t).filter(
            |b: BackLinkView| b.source != n,
        ),
    decreases docs.len(),
{
    broadcast use vstd::seq_lib::group_seq_lib_default;

    let pred = |b: BackLinkView| b.source != n;
    let part = links_backlinks(docs.last().links, docs.last().name, all, t);
    if i == docs.len() - 1 {
        assert(docs.remove(i) =~= docs.drop_last());
        lemma_acc_stable(docs.drop_last(), keep, all, t);
        lemma_links_backlinks_sources(docs.last().links, docs.last().name, all, t);
        lemma_filter_empty(part, n);
        Seq::filter_distributes_over_add(backlinks_acc(docs.drop_last(), all, t), part, pred);
        assert(forall|k: int|
            0 <= k < docs.drop_last().len() ==> (#[trigger] docs.drop_last()[k]).name != n);
        lemma_acc_filter_id(docs.drop_last(), all, t, n);
        assert(backlinks_acc(docs.drop_last(), all, t) + Seq::<BackLinkView>::empty()
            =~= backlinks_acc(docs.drop_last(), all, t));
    } else {
        let shorter = docs.drop_last();
        assert(docs.remove(i).drop_last() =~= shorter.remove(i));
        assert(docs.remove(i).last() == docs.last());
        assert(forall|k: int|
            0 <= k < shorter.len() && k != i ==> (#[trigger] shorter[k]).name != n);
        lemma_acc_remove(shorter, i, all, keep, t, n);
        lemma_links_backlinks_stable(docs.last().links, docs.last().name, keep, all, t);
        lemma_links_backlinks_sources(docs.last().links, docs.last().name, all, t);
        assert(docs.last().name != n);
        lemma_filter_id(part, n);
        Seq::filter_distributes_over_add(backlinks_acc(shorter, all, t), part, pred);
        assert(backlinks_acc(docs.remove(i), keep, t) == backlinks_acc(shorter.remove(i), keep, t)
            + links_backlinks(docs.last().links, docs.last().name, keep, t));
    }
}

/// Removing a note removes exactly the backlinks it contributed:
/// against any target still present, the backlink bucket after the
/// removal is the old bucket with the removed note's entries filtered
/// out, and no others. (Removing the target itself instead empties its
/// bucket: see [`lemma_backlinks_gone`].)
pub proof fn lemma_backlinks_remove(all: Seq<NoteView>, n: Seq<char>, t: Seq<char>)
    requires
        wf_notes(all),
        has_note(all, n),
        has_note(remove_spec(all, n), t),
    ensures
        backlinks_spec(remove_spec(all, n), t) == backlinks_spec(all, t).filter(
            |b: BackLinkView| b.source != n,
        ),
{
    lemma_note_index(all, n);
    let i = note_index(all, n).unwrap();
    let keep = all.remove(i);
    assert(remove_spec(all, n) == keep);
    // `t` is still present, so it was present before the removal too.
    lemma_note_index(keep, t);
    let j = note_index(keep, t).unwrap();
    let j0: int = if j < i {
        j
    } else {
        j + 1
    };
    assert(all[j0] == keep[j]);
    lemma_note_index(all, t);
    if !has_note(all, t) {
        assert(false);
    }
    assert(forall|k: int| 0 <= k < all.len() && k != i ==> (#[trigger] all[k]).name != n);
    lemma_acc_remove(all, i, all, keep, t, n);
}

/// A target that no note carries has no backlinks at all: a dangling
/// link contributes nothing to any bucket.
pub proof fn lemma_backlinks_gone(all: Seq<NoteView>, t: Seq<char>)
    requires
        !has_note(all, t),
    ensures
        backlinks_spec(all, t) == Seq::<BackLinkView>::empty(),
{
    lemma_backlinks_gone_rec(all, all, t);
}

proof fn lemma_backlinks_gone_rec(docs: Seq<NoteView>, all: Seq<NoteView>, t: Seq<char>)
    requires
        !has_note(all, t),
    ensures
        backlinks_acc(docs, all, t) == Seq::<BackLinkView>::empty(),
    decreases docs.len(),
{
    if docs.len() > 0 {
        lemma_backlinks_gone_rec(docs.drop_last(), all, t);
        lemma_links_backlinks_none(docs.last().links, docs.last().name, all, t);
        assert(backlinks_acc(docs, all, t) =~= Seq::<BackLinkView>::empty());
    }
}

proof fn lemma_links_backlinks_none(
    links: Seq<LinkView>,
    src: Seq<char>,
    all: Seq<NoteView>,
    t: Seq<char>,
)
    requires
        !has_note(all, t),
    ensures
        links_backlinks(links, src, all, t) == Seq::<BackLinkView>::empty(),
    decreases links.len(),
{
    if links.len() > 0 {
        lemma_links_backlinks_none(links.drop_last(), src, all, t);
        let s = links.last().target;
        if resolve_spec(s, all) == ResolutionView::Note(t) {
            if crate::resolve::is_dep(s) {
                assert(has_note(all, crate::resolve::dep_name(s)));
            } else if crate::resolve::is_external(s) {
            } else {
                match crate::strutil::spec_find(s, '#') {
                    None => {
                        assert(has_note(all, s));
                    },
                    Some(_) => {},
                }
            }
            assert(false);
        }
    }
}

/// Every link of every note that resolves to the note named `t`
/// contributes its backlink to `t`'s bucket: nothing resolving to a
/// present note is lost.
pub proof fn lemma_backlink_present(all: Seq<NoteView>, t: Seq<char>, i: int, j: int)
    requires
        0 <= i < all.len(),
        0 <= j < all[i].links.len(),
        resolve_spec(all[i].links[j].target, all) == ResolutionView::Note(t),
    ensures
        backlinks_spec(all, t).contains(
            BackLinkView {
                text: all[i].links[j].text,
                source: all[i].name,
                range: all[i].links[j].range,
            },
        ),
{
    lemma_links_backlinks_present(all[i].links, all[i].name, all, t, j);
    lemma_acc_present(all, all, t, i, j);
}

proof fn lemma_links_backlinks_present(
    links: Seq<LinkView>,
    src: Seq<char>,
    all: Seq<NoteView>,
    t: Seq<char>,
    j: int,
)
    requires
        0 <= j < links.len(),
        resolve_spec(links[j].target, all) == ResolutionView::Note(t),
    ensures
        links_backlinks(links, src, all, t).contains(
            BackLinkView { text: links[j].text, source: src, range: links[j].range },
        ),
    decreases links.len(),
{
    let b = BackLinkView { text: links[j].text, source: src, range: links[j].range };
    let cur = links_backlinks(links, src, all, t);
    let rest = links_backlinks(links.drop_last(), src, all, t);
    if j == links.len() - 1 {
        assert(cur == rest.push(b));
        assert(cur[cur.len() - 1] == b);
    } else {
        assert(links.drop_last()[j] == links[j]);
        lemma_links_backlinks_present(links.drop_last(), src, all, t, j);
        let x = choose|x: int| 0 <= x < rest.len() && rest[x] == b;
        assert(cur[x] == b);
    }
}

proof fn lemma_acc_present(
    docs: Seq<NoteView>,
    all: Seq<NoteView>,
    t: Seq<char>,
    i: int,
    j: int,
)
    requires
        0 <= i < docs.len(),
        0 <= j < docs[i].links.len(),
        resolve_spec(docs[i].links[j].target, all) == ResolutionView::Note(t),
    ensures
        backlinks_acc(docs, all, t).contains(
            BackLinkView {
                text: docs[i].links[j].text,
                source: docs[i].name,
                range: docs[i].links[j].range,
            },
        ),
    decreases docs.len(),
{
    let b = BackLinkView {
        text: docs[i].links[j].text,
        source: docs[i].name,
        range: docs[i].links[j].range,
    };
    let cur = backlinks_acc(docs, all, t);
    let left = backlinks_acc(docs.drop_last(), all, t);
    let right = links_backlinks(docs.last().links, docs.last().name, all, t);
    if i == docs.len() - 1 {
        lemma_links_backlinks_present(docs.last().links, docs.last().name, all, t, j);
        let x = choose|x: int| 0 <= x < right.len() && right[x] == b;
        assert(cur[left.len() + x] == b);
    } else {
        assert(docs.drop_last()[i] == docs[i]);
        lemma_acc_present(docs.drop_last(), all, t, i, j);
        let x = choose|x: int| 0 <= x < left.len() && left[x] == b;
        assert(cur[x] == b);
    }
}

/// Parsing is deterministic: the same name and text always yield the
/// same note, headings and links included, in the same order.
pub proof fn lemma_parser_deterministic(
    name: Seq<char>,
    contents: Seq<char>,
    a: NoteView,
    b: NoteView,
)
    requires
        crate::note::parse_note_spec(name, contents) == Some(a),
        crate::note::parse_note_spec(name, contents) == Some(b),
    ensures
        a == b,
{
}

} // verus!
