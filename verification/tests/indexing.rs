use notable_vault::index::VaultIndex;
use notable_vault::note::Note;
use notable_vault::notebook::Notebook;
use notable_vault::notebook::SourceFile;
use notable_vault::vault::Template;

fn file(name: &str, contents: &str) -> SourceFile {
    SourceFile { name: name.to_owned(), contents: contents.to_owned() }
}

fn template() -> Template {
    Template::new("%Y-%m-%d".to_owned(), "{name}".to_owned())
}

fn small_book() -> Notebook<Template> {
    let files = vec![
        file("alpha", "# Alpha\n\nSee [beta note](beta) and [gone](missing).\n"),
        file("beta", "# Beta\n\nBack to [alpha](alpha).\n"),
        file("gamma", "plain text, no links\n"),
    ];
    Notebook::new(&files, template())
}

#[test]
fn notebook_builds_from_files() {
    let nb = small_book();
    let notes = nb.notes_all();
    let names: Vec<&str> = notes.iter().map(|n| n.name().as_str()).collect();
    assert_eq!(names, vec!["alpha", "beta", "gamma"]);
}

#[test]
fn notebook_skips_nothing_for_plain_markdown_and_keeps_last_of_same_name() {
    let files = vec![file("dup", "# First\n"), file("dup", "# Second\n")];
    let nb = Notebook::new(&files, template());
    let notes = nb.notes_all();
    assert_eq!(notes.len(), 1);
    assert_eq!(notes[0].headings()[0].text().as_str(), "Second");
}

#[test]
fn links_from_returns_document_order() {
    let nb = small_book();
    let links = nb.links_from("alpha");
    assert_eq!(links.len(), 2);
    assert_eq!(links[0].target().as_str(), "beta");
    assert_eq!(links[1].target().as_str(), "missing");
    assert_eq!(nb.links_from("gamma").len(), 0);
    assert_eq!(nb.links_from("nope").len(), 0);
}

#[test]
fn links_to_collects_backlinks() {
    let nb = small_book();
    let to_beta = nb.links_to("beta");
    assert_eq!(to_beta.len(), 1);
    assert_eq!(to_beta[0].source().as_str(), "alpha");
    assert_eq!(to_beta[0].text().as_str(), "beta note");
    let to_alpha = nb.links_to("alpha");
    assert_eq!(to_alpha.len(), 1);
    assert_eq!(to_alpha[0].source().as_str(), "beta");
}

#[test]
fn dangling_target_has_no_backlinks() {
    let nb = small_book();
    // "missing" is the target of a link but no note carries the name,
    // so it resolves nowhere and owns no backlink bucket.
    assert_eq!(nb.links_to("missing").len(), 0);
}

#[test]
fn upsert_then_remove_restores_index() {
    let mut nb = small_book();
    let before_names: Vec<String> =
        nb.notes_all().iter().map(|n| n.name().to_owned()).collect();
    let before_beta = nb.links_to("beta").len();
    let note = Note::new("delta", "A [link](beta).\n").unwrap();
    nb.upsert(note);
    assert_eq!(nb.links_to("beta").len(), before_beta + 1);
    nb.remove("delta");
    let after_names: Vec<String> =
        nb.notes_all().iter().map(|n| n.name().to_owned()).collect();
    assert_eq!(before_names, after_names);
    assert_eq!(nb.links_to("beta").len(), before_beta);
}

#[test]
fn upsert_replaces_and_remove_unknown_is_noop() {
    let mut nb = small_book();
    let note = Note::new("alpha", "# Replaced\n").unwrap();
    nb.upsert(note);
    let notes = nb.notes_all();
    assert_eq!(notes.len(), 3);
    assert_eq!(notes[0].headings()[0].text().as_str(), "Replaced");
    nb.remove("not-there");
    assert_eq!(nb.notes_all().len(), 3);
}

#[test]
fn refresh_twice_is_identical() {
    let files = vec![
        file("a", "[x](b)\n"),
        file("b", "# B\n"),
    ];
    let mut nb = Notebook::new(&files, template());
    nb.refresh(&files);
    let first: Vec<String> = nb.notes_all().iter().map(|n| n.name().to_owned()).collect();
    let first_bl = nb.links_to("b").len();
    nb.refresh(&files);
    let second: Vec<String> = nb.notes_all().iter().map(|n| n.name().to_owned()).collect();
    assert_eq!(first, second);
    assert_eq!(nb.links_to("b").len(), first_bl);
}

#[test]
fn notebook_links_and_targets() {
    let nb = small_book();
    let links = nb.links();
    assert_eq!(links.len(), 3);
    let targets = nb.link_targets();
    assert_eq!(targets.len(), 2);
    assert_eq!(targets[0].text().as_str(), "Alpha");
    assert_eq!(targets[1].text().as_str(), "Beta");
}

fn small_index() -> VaultIndex {
    let mut idx = VaultIndex::new();
    idx.load_document(Note::new("alpha", "See [b](beta) and [t](dep:todo).\n").unwrap());
    idx.load_document(Note::new("beta", "# Head\n\nBack [a](alpha).\n").unwrap());
    idx.load_document(Note::new("todo", "Needs [other](dep:beta).\n").unwrap());
    idx
}

#[test]
fn index_links_from_and_to() {
    let idx = small_index();
    let from_alpha = idx.links_from("alpha");
    assert_eq!(from_alpha.len(), 2);
    assert_eq!(from_alpha[0].file().as_str(), "beta");
    assert_eq!(from_alpha[1].file().as_str(), "todo");
    let to_alpha = idx.links_to("alpha");
    assert_eq!(to_alpha.len(), 1);
    assert_eq!(to_alpha[0].file().as_str(), "beta");
    assert_eq!(to_alpha[0].line(), 3);
}

#[test]
fn index_update_document_applies_edit() {
    let mut idx = small_index();
    idx.update_document("alpha", "now links [only here](todo).\n").unwrap();
    let from_alpha = idx.links_from("alpha");
    assert_eq!(from_alpha.len(), 1);
    assert_eq!(from_alpha[0].file().as_str(), "todo");
}

#[test]
fn index_remove_document_drops_backlinks() {
    let mut idx = small_index();
    assert_eq!(idx.links_to("alpha").len(), 1);
    idx.remove_document("beta");
    assert_eq!(idx.links_to("alpha").len(), 0);
    // Removing an unknown name changes nothing.
    idx.remove_document("beta");
    assert_eq!(idx.links_from("alpha").len(), 1);
}

#[test]
fn index_parents_and_children() {
    let idx = small_index();
    let children = idx.children_of("alpha");
    assert_eq!(children.len(), 1);
    assert_eq!(children[0].as_str(), "todo");
    let parents = idx.parents_of("todo");
    assert_eq!(parents.len(), 1);
    assert_eq!(parents[0].as_str(), "alpha");
    assert_eq!(idx.parents_of("alpha").len(), 0);
}

#[test]
fn index_targets_in_lists_headings() {
    let idx = small_index();
    let targets = idx.targets_in("beta");
    assert_eq!(targets.len(), 1);
    assert_eq!(targets[0].as_str(), "Head");
    assert_eq!(idx.targets_in("missing").len(), 0);
}

#[test]
fn index_snapshots_are_consistent() {
    let idx = small_index();
    let nbi = idx.notebook_index();
    assert_eq!(nbi.link_sources.len(), 3);
    assert_eq!(nbi.link_targets.len(), 3);
    assert_eq!(nbi.link_sources[0].name.as_str(), "alpha");
    assert_eq!(nbi.link_sources[0].refs.len(), 2);
    assert_eq!(nbi.link_targets[0].refs.len(), 1);
    assert_eq!(nbi.link_targets[0].refs[0].file().as_str(), "beta");
    let di = idx.docket_index();
    assert_eq!(di.task_graph.len(), 3);
    assert_eq!(di.task_graph[0].task.as_str(), "alpha");
    assert_eq!(di.task_graph[0].depends_on.len(), 1);
    assert_eq!(di.task_graph[0].depends_on[0].as_str(), "todo");
}
