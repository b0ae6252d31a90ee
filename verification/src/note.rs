//! Parsed notes: headings and links extracted from markdown text.
//!
//! The markdown crate turns raw text into a syntax tree; a trusted
//! conversion reshapes that tree, one node for one node, into the
//! library-owned [`MdTree`]. Everything after that point is verified: a
//! depth-first walk collects headings and links in document order, and a
//! missing source position on either is a hard error for the whole note,
//! since ranges are load-bearing for later text-edit mapping.

use crate::TextPoint;
use crate::TextRange;
use vstd::prelude::*;

verus! {

/// Failure of turning a file into a note.
#[derive(Clone, Copy, PartialEq, Eq, Structural, Debug)]
pub enum NotebookError {
    /// The text could not be parsed into a note: malformed markdown, a
    /// heading or link without source position, or an unreadable file.
    ErrorParsingNote,
    /// The host offers no home directory to resolve defaults against.
    UnsupportedPlatform,
}

/// One markdown heading: its inner text and where it stands in the source.
pub struct Heading {
    text: String,
    range: TextRange,
}

/// One markdown link: its inner text, its raw unresolved target, and where
/// it stands in the source.
pub struct Link {
    text: String,
    target: String,
    range: TextRange,
}

/// A link seen from its resolution target: the text and range of the link
/// together with the name of the note that contains it.
pub struct BackLink {
    text: String,
    source: String,
    range: TextRange,
}

/// A parsed note: its name (the stem of its source file) and its headings
/// and links in document order.
pub struct Note {
    name: String,
    headings: Vec<Heading>,
    links: Vec<Link>,
}

/// Mathematical image of a [`Heading`].
pub ghost struct HeadingView {
    pub text: Seq<char>,
    pub range: TextRange,
}

/// Mathematical image of a [`Link`].
pub ghost struct LinkView {
    pub text: Seq<char>,
    pub target: Seq<char>,
    pub range: TextRange,
}

/// Mathematical image of a [`BackLink`].
pub ghost struct BackLinkView {
    pub text: Seq<char>,
    pub source: Seq<char>,
    pub range: TextRange,
}

/// Mathematical image of a [`Note`].
pub ghost struct NoteView {
    pub name: Seq<char>,
    pub headings: Seq<HeadingView>,
    pub links: Seq<LinkView>,
}

impl DeepView for Heading {
    type V = HeadingView;

    closed spec fn deep_view(&self) -> HeadingView {
        HeadingView { text: self.text@, range: self.range }
    }
}

impl DeepView for Link {
    type V = LinkView;

    closed spec fn deep_view(&self) -> LinkView {
        LinkView { text: self.text@, target: self.target@, range: self.range }
    }
}

impl DeepView for BackLink {
    type V = BackLinkView;

    closed spec fn deep_view(&self) -> BackLinkView {
        BackLinkView { text: self.text@, source: self.source@, range: self.range }
    }
}

impl DeepView for Note {
    type V = NoteView;

    closed spec fn deep_view(&self) -> NoteView {
        NoteView {
            name: self.name@,
            headings: self.headings.deep_view(),
            links: self.links.deep_view(),
        }
    }
}

/// The library's image of a markdown syntax tree. Headings and links are
/// leaves that keep their inner text (and, for links, their target); every
/// other node keeps only its children, folded into nested groups in
/// document order.
pub enum MdTree {
    Empty,
    Heading { text: String, range: Option<TextRange> },
    Link { text: String, target: String, range: Option<TextRange> },
    Group(Box<MdTree>, Box<MdTree>),
}

/// The markdown syntax tree that the text parses to. The markdown crate's
/// parse is a function of the text alone, so the tree can be named; nothing
/// further is assumed about its shape.
pub uninterp spec fn md_tree_of(s: Seq<char>) -> MdTree;

#[verifier::external_type_specification]
#[verifier::external_body]
pub struct ExMdNode(markdown::mdast::Node);

/// Relies on markdown::to_mdast with the default options, which its
/// documentation states never fails for plain markdown; the tree it
/// returns depends on the text alone.
#[verifier::external_body]
fn md_tree_from(text: &str) -> (r: MdTree)
    ensures
        r == md_tree_of(text@),
{
    let ast = markdown::to_mdast(text, &markdown::ParseOptions::default()).expect(
        "plain markdown always parses",
    );
    node_tree(ast)
}

/// Relies on the mdast accessors `position`, `to_string`, `children_mut`
/// and on the `Heading` and `Link` node fields: converts one node (and,
/// through recursion, its children) into the library's tree, one for one.
#[verifier::external_body]
fn node_tree(mut node: markdown::mdast::Node) -> MdTree {
    let range = node.position().map(|p| TextRange {
        start: TextPoint { line: p.start.line, column: p.start.column },
        end: TextPoint { line: p.end.line, column: p.end.column },
    });
    match &node {
        markdown::mdast::Node::Heading(_) => MdTree::Heading { text: node.to_string(), range },
        markdown::mdast::Node::Link(l) => {
            MdTree::Link { text: node.to_string(), target: l.url.clone(), range }
        },
        _ => node.children_mut().map_or(MdTree::Empty, |cs| cs.drain(..).rev().fold(
            MdTree::Empty, |acc, c| MdTree::Group(Box::new(node_tree(c)), Box::new(acc)))),
    }
}

/// The headings and links of a markdown tree, in document order, or `None`
/// if some heading or link carries no source position.
pub open spec fn tree_parts(t: MdTree) -> Option<(Seq<HeadingView>, Seq<LinkView>)>
    decreases t,
{
    match t {
        MdTree::Empty => Some((Seq::empty(), Seq::empty())),
        MdTree::Heading { text, range } => match range {
            Some(r) => Some((seq![HeadingView { text: text@, range: r }], Seq::empty())),
            None => None,
        },
        MdTree::Link { text, target, range } => match range {
            Some(r) => Some(
                (Seq::empty(), seq![LinkView { text: text@, target: target@, range: r }]),
            ),
            None => None,
        },
        MdTree::Group(a, b) => match (tree_parts(*a), tree_parts(*b)) {
            (Some(pa), Some(pb)) => Some(((pa.0 + pb.0), (pa.1 + pb.1))),
            _ => None,
        },
    }
}

/// What parsing a note yields: its name together with the headings and
/// links of its markdown tree, or `None` when a heading or link lacks its
/// source position.
pub open spec fn parse_note_spec(name: Seq<char>, contents: Seq<char>) -> Option<NoteView> {
    match tree_parts(md_tree_of(contents)) {
        Some(p) => Some(NoteView { name: name, headings: p.0, links: p.1 }),
        None => None,
    }
}

/// Depth-first collection of headings and links, appending to the given
/// vectors in document order; `false` when a heading or link lacks its
/// source position.
fn collect_parts(t: &MdTree, headings: &mut Vec<Heading>, links: &mut Vec<Link>) -> (ok: bool)
    ensures
        match tree_parts(*t) {
            Some(p) => ok && final(headings).deep_view() == old(headings).deep_view() + p.0
                && final(links).deep_view() == old(links).deep_view() + p.1,
            None => !ok,
        },
    decreases *t,
{
    match t {
        MdTree::Empty => {
            proof {
                assert(final(headings).deep_view() =~= old(headings).deep_view()
                    + Seq::<HeadingView>::empty());
                assert(final(links).deep_view() =~= old(links).deep_view()
                    + Seq::<LinkView>::empty());
            }
            true
        },
        MdTree::Heading { text, range } => {
            match range {
                Some(r) => {
                    headings.push(Heading { text: text.clone(), range: *r });
                    proof {
                        assert(final(headings).deep_view() =~= old(headings).deep_view() + seq![
                            HeadingView { text: text@, range: *r },
                        ]);
                        assert(final(links).deep_view() =~= old(links).deep_view()
                            + Seq::<LinkView>::empty());
                    }
                    true
                },
                None => false,
            }
        },
        MdTree::Link { text, target, range } => {
            match range {
                Some(r) => {
                    links.push(Link { text: text.clone(), target: target.clone(), range: *r });
                    proof {
                        assert(final(links).deep_view() =~= old(links).deep_view() + seq![
                            LinkView { text: text@, target: target@, range: *r },
                        ]);
                        assert(final(headings).deep_view() =~= old(headings).deep_view()
                            + Seq::<HeadingView>::empty());
                    }
                    true
                },
                None => false,
            }
        },
        MdTree::Group(a, b) => {
            let ghost h0 = headings.deep_view();
            let ghost l0 = links.deep_view();
            if !collect_parts(&**a, headings, links) {
                return false;
            }
            let ghost h1 = headings.deep_view();
            let ghost l1 = links.deep_view();
            if !collect_parts(&**b, headings, links) {
                return false;
            }
            proof {
                let pa = tree_parts(**a).unwrap();
                let pb = tree_parts(**b).unwrap();
                assert(final(headings).deep_view() =~= h0 + (pa.0 + pb.0));
                assert(final(links).deep_view() =~= l0 + (pa.1 + pb.1));
            }
            true
        },
    }
}

impl Note {
    /// Parses markdown text into a note named `name`. Headings and links
    /// come out in document order; a heading or link without source
    /// position fails the whole note, and nothing is substituted for it.
    pub fn new(name: &str, contents: &str) -> (r: Result<Note, NotebookError>)
        ensures
            match r {
                Ok(n) => parse_note_spec(name@, contents@) == Some(n.deep_view()),
                Err(e) => parse_note_spec(name@, contents@) is None && e
                    == NotebookError::ErrorParsingNote,
            },
    {
        let tree = md_tree_from(contents);
        let mut headings: Vec<Heading> = Vec::new();
        let mut links: Vec<Link> = Vec::new();
        if collect_parts(&tree, &mut headings, &mut links) {
            Ok(Note { name: name.to_owned(), headings, links })
        } else {
            Err(NotebookError::ErrorParsingNote)
        }
    }

    /// The note's name: the stem of the file it came from.
    pub fn name(&self) -> (r: &String)
        ensures
            r@ == self.deep_view().name,
    {
        &self.name
    }

    /// The note's headings, in document order.
    pub fn headings(&self) -> (r: &Vec<Heading>)
        ensures
            r.deep_view() == self.deep_view().headings,
    {
        &self.headings
    }

    /// The note's links, in document order.
    pub fn links(&self) -> (r: &Vec<Link>)
        ensures
            r.deep_view() == self.deep_view().links,
    {
        &self.links
    }

    /// A value-equal copy of the note.
    pub fn duplicate(&self) -> (r: Note)
        ensures
            r.deep_view() == self.deep_view(),
    {
        Note {
            name: self.name.clone(),
            headings: clone_headings(&self.headings),
            links: clone_links(&self.links),
        }
    }
}

/// A value-equal copy of a heading vector.
pub fn clone_headings(headings: &Vec<Heading>) -> (r: Vec<Heading>)
    ensures
        r.deep_view() == headings.deep_view(),
{
    let mut out: Vec<Heading> = Vec::new();
    let mut i: usize = 0;
    while i < headings.len()
        invariant
            0 <= i <= headings@.len(),
            out@.len() == i,
            forall|k: int| 0 <= k < i ==> out.deep_view()[k] == headings.deep_view()[k],
        decreases headings@.len() - i,
    {
        let ghost d0 = out.deep_view();
        let h = &headings[i];
        let nh = Heading { text: h.text.clone(), range: h.range };
        let ghost nhv = nh.deep_view();
        proof {
            assert(nhv == headings.deep_view()[i as int]);
        }
        out.push(nh);
        proof {
            assert(out.deep_view() =~= d0.push(nhv));
            assert forall|k: int|
                0 <= k < i + 1 implies out.deep_view()[k] == headings.deep_view()[k] by {
                if k < i {
                    assert(out.deep_view()[k] == d0[k]);
                } else {
                    assert(out.deep_view()[k] == nhv);
                }
            }
        }
        i = i + 1;
    }
    proof {
        assert(out.deep_view() =~= headings.deep_view());
    }
    out
}

/// A value-equal copy of a link vector.
pub fn clone_links(links: &Vec<Link>) -> (r: Vec<Link>)
    ensures
        r.deep_view() == links.deep_view(),
{
    let mut out: Vec<Link> = Vec::new();
    let mut i: usize = 0;
    while i < links.len()
        invariant
            0 <= i <= links@.len(),
            out@.len() == i,
            forall|k: int| 0 <= k < i ==> out.deep_view()[k] == links.deep_view()[k],
        decreases links@.len() - i,
    {
        let ghost d0 = out.deep_view();
        let l = &links[i];
        let nl = Link { text: l.text.clone(), target: l.target.clone(), range: l.range };
        let ghost nlv = nl.deep_view();
        proof {
            assert(nlv == links.deep_view()[i as int]);
        }
        out.push(nl);
        proof {
            assert(out.deep_view() =~= d0.push(nlv));
            assert forall|k: int|
                0 <= k < i + 1 implies out.deep_view()[k] == links.deep_view()[k] by {
                if k < i {
                    assert(out.deep_view()[k] == d0[k]);
                } else {
                    assert(out.deep_view()[k] == nlv);
                }
            }
        }
        i = i + 1;
    }
    proof {
        assert(out.deep_view() =~= links.deep_view());
    }
    out
}


impl Heading {
    /// The heading's inner text.
    pub fn text(&self) -> (r: &String)
        ensures
            r@ == self.deep_view().text,
    {
        &self.text
    }

    /// Where the heading stands in the source.
    pub fn range(&self) -> (r: TextRange)
        ensures
            r == self.deep_view().range,
    {
        self.range
    }
}

impl Link {
    /// The link's inner text.
    pub fn text(&self) -> (r: &String)
        ensures
            r@ == self.deep_view().text,
    {
        &self.text
    }

    /// The link's raw, unresolved target.
    pub fn target(&self) -> (r: &String)
        ensures
            r@ == self.deep_view().target,
    {
        &self.target
    }

    /// Where the link stands in the source.
    pub fn range(&self) -> (r: TextRange)
        ensures
            r == self.deep_view().range,
    {
        self.range
    }
}

impl BackLink {
    /// The linking text, as it stands in the source note.
    pub fn text(&self) -> (r: &String)
        ensures
            r@ == self.deep_view().text,
    {
        &self.text
    }

    /// The name of the note that contains the link.
    pub fn source(&self) -> (r: &String)
        ensures
            r@ == self.deep_view().source,
    {
        &self.source
    }

    /// Where the link stands in the source note.
    pub fn range(&self) -> (r: TextRange)
        ensures
            r == self.deep_view().range,
    {
        self.range
    }

    /// A backlink is derived from a source note's name and one of its
    /// links, never built freely.
    pub fn from_link(source: &String, link: &Link) -> (r: BackLink)
        ensures
            r.deep_view() == (BackLinkView {
                text: link.deep_view().text,
                source: source@,
                range: link.deep_view().range,
            }),
    {
        BackLink { text: link.text.clone(), source: source.clone(), range: link.range }
    }
}

} // verus!

