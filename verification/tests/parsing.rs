use notable_vault::note::Note;
use notable_vault::resolve::LinkResolution;
use notable_vault::resolve::resolve;

fn sample() -> &'static str {
    "# Title\n\nSome text with a [link](other) here.\n\n## Section\n\nAnd a [web link](https://example.com/page).\n"
}

#[test]
fn parse_extracts_headings_in_order() {
    let note = Note::new("sample", sample()).unwrap();
    let headings = note.headings();
    assert_eq!(headings.len(), 2);
    assert_eq!(headings[0].text().as_str(), "Title");
    assert_eq!(headings[1].text().as_str(), "Section");
    assert_eq!(headings[0].range().start.line, 1);
    assert_eq!(headings[0].range().start.column, 1);
    assert_eq!(headings[1].range().start.line, 5);
}

#[test]
fn parse_extracts_links_in_order() {
    let note = Note::new("sample", sample()).unwrap();
    let links = note.links();
    assert_eq!(links.len(), 2);
    assert_eq!(links[0].text().as_str(), "link");
    assert_eq!(links[0].target().as_str(), "other");
    assert_eq!(links[1].text().as_str(), "web link");
    assert_eq!(links[1].target().as_str(), "https://example.com/page");
    assert_eq!(links[0].range().start.line, 3);
}

#[test]
fn parse_same_text_twice_is_identical() {
    let a = Note::new("n", sample()).unwrap();
    let b = Note::new("n", sample()).unwrap();
    assert_eq!(a.name().as_str(), b.name().as_str());
    assert_eq!(a.headings().len(), b.headings().len());
    assert_eq!(a.links().len(), b.links().len());
    for (ha, hb) in a.headings().iter().zip(b.headings().iter()) {
        assert_eq!(ha.text(), hb.text());
        assert_eq!(ha.range(), hb.range());
    }
    for (la, lb) in a.links().iter().zip(b.links().iter()) {
        assert_eq!(la.text(), lb.text());
        assert_eq!(la.target(), lb.target());
        assert_eq!(la.range(), lb.range());
    }
}

#[test]
fn parse_empty_text_yields_empty_note() {
    let note = Note::new("empty", "").unwrap();
    assert_eq!(note.headings().len(), 0);
    assert_eq!(note.links().len(), 0);
    assert_eq!(note.name().as_str(), "empty");
}

#[test]
fn duplicate_copies_everything() {
    let a = Note::new("n", sample()).unwrap();
    let b = a.duplicate();
    assert_eq!(a.name(), b.name());
    assert_eq!(a.headings().len(), b.headings().len());
    assert_eq!(a.links().len(), b.links().len());
    assert_eq!(a.links()[0].target(), b.links()[0].target());
}

fn notes_named(names: &[&str]) -> Vec<Note> {
    names.iter().map(|n| Note::new(n, "body").unwrap()).collect()
}

#[test]
fn resolve_known_name_is_note() {
    let notes = notes_named(&["alpha", "beta"]);
    match resolve("alpha", &notes) {
        LinkResolution::ResolvedNote(n) => assert_eq!(n.as_str(), "alpha"),
        _ => panic!("expected a resolved note"),
    }
}

#[test]
fn resolve_unknown_name_is_dangling() {
    let notes = notes_named(&["alpha", "beta"]);
    assert!(matches!(resolve("gamma", &notes), LinkResolution::Dangling));
}

#[test]
fn resolve_scheme_is_external() {
    let notes = notes_named(&["alpha"]);
    assert!(matches!(
        resolve("https://example.com", &notes),
        LinkResolution::External
    ));
}

#[test]
fn resolve_dep_scheme_targets_note() {
    let notes = notes_named(&["alpha", "beta"]);
    match resolve("dep:beta", &notes) {
        LinkResolution::ResolvedNote(n) => assert_eq!(n.as_str(), "beta"),
        _ => panic!("expected a resolved note"),
    }
    assert!(matches!(resolve("dep:gamma", &notes), LinkResolution::Dangling));
}

#[test]
fn resolve_heading_anchor() {
    let mut notes = notes_named(&["alpha"]);
    notes.push(Note::new("doc", "# Intro\n\n## Usage\n").unwrap());
    match resolve("doc#Usage", &notes) {
        LinkResolution::ResolvedHeading(n, h) => {
            assert_eq!(n.as_str(), "doc");
            assert_eq!(h.as_str(), "Usage");
        }
        _ => panic!("expected a resolved heading"),
    }
    assert!(matches!(resolve("doc#Missing", &notes), LinkResolution::Dangling));
    assert!(matches!(resolve("nodoc#Usage", &notes), LinkResolution::Dangling));
}
