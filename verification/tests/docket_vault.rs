use notable_vault::config::Config;
use notable_vault::config::Notebook as NotebookSettings;
use notable_vault::config::NotebookEntry;
use notable_vault::graph::topo_order;
use notable_vault::notebook::Notebook;
use notable_vault::notebook::SourceFile;
use notable_vault::tasks::Docket;
use notable_vault::tasks::DocketError;
use notable_vault::tasks::StructuralConflict;
use notable_vault::tasks::TaskState;
use notable_vault::vault::DateStamp;
use notable_vault::vault::NamedDocket;
use notable_vault::vault::NotebookSource;
use notable_vault::vault::Template;
use notable_vault::vault::TemplateArgs;
use notable_vault::vault::Vault;
use notable_vault::vault::VaultError;

fn file(name: &str, contents: &str) -> SourceFile {
    SourceFile { name: name.to_owned(), contents: contents.to_owned() }
}

fn template() -> Template {
    Template::new("%Y-%m-%d".to_owned(), "{name}".to_owned())
}

fn state(name: &str, files: Vec<SourceFile>) -> TaskState<Template> {
    TaskState::new(name.to_owned(), Notebook::new(&files, template()))
}

#[test]
fn move_task_between_states() {
    let mut docket = Docket::new(vec![
        state("open", vec![file("x", "task body\n")]),
        state("doing", vec![]),
    ]);
    assert!(docket.move_task("x", "open", "doing").is_ok());
    assert_eq!(docket.tasks_in("open").unwrap().len(), 0);
    let doing = docket.tasks_in("doing").unwrap();
    assert_eq!(doing.len(), 1);
    assert_eq!(doing[0].as_str(), "x");
}

#[test]
fn move_task_unknown_state_or_task_is_not_found() {
    let mut docket = Docket::new(vec![
        state("open", vec![file("x", "body\n")]),
        state("closed", vec![]),
    ]);
    assert!(matches!(
        docket.move_task("x", "nowhere", "closed"),
        Err(DocketError::NotFound)
    ));
    assert!(matches!(
        docket.move_task("x", "open", "nowhere"),
        Err(DocketError::NotFound)
    ));
    assert!(matches!(
        docket.move_task("y", "open", "closed"),
        Err(DocketError::NotFound)
    ));
    assert_eq!(docket.tasks_in("open").unwrap(), vec!["x".to_owned()]);
}

#[test]
fn move_task_into_occupied_state_fails_and_changes_nothing() {
    let mut docket = Docket::new(vec![
        state("open", vec![file("x", "# Open copy\n")]),
        state("closed", vec![file("x", "# Closed copy\n")]),
    ]);
    let r = docket.move_task("x", "open", "closed");
    assert!(matches!(
        r,
        Err(DocketError::Conflict(StructuralConflict::DestinationOccupied(_)))
    ));
    // The task stays present and unchanged in its original state.
    assert_eq!(docket.tasks_in("open").unwrap(), vec!["x".to_owned()]);
    assert_eq!(docket.tasks_in("closed").unwrap(), vec!["x".to_owned()]);
}

#[test]
fn cycle_is_rejected_with_its_members() {
    let docket = Docket::new(vec![state(
        "open",
        vec![
            file("a", "[next](dep:b)\n"),
            file("b", "[next](dep:c)\n"),
            file("c", "[next](dep:a)\n"),
        ],
    )]);
    match docket.check_dag() {
        Err(DocketError::Conflict(StructuralConflict::TaskCycle(members))) => {
            let mut names: Vec<String> = members;
            names.sort();
            assert_eq!(names, vec!["a".to_owned(), "b".to_owned(), "c".to_owned()]);
        }
        _ => panic!("expected a task cycle"),
    }
}

#[test]
fn acyclic_chain_orders_dependencies_first() {
    let docket = Docket::new(vec![state(
        "open",
        vec![
            file("a", "[next](dep:b)\n"),
            file("b", "[next](dep:c)\n"),
            file("c", "done\n"),
        ],
    )]);
    let order = docket.check_dag().unwrap();
    let pos = |n: &str| order.iter().position(|s| s.as_str() == n).unwrap();
    assert_eq!(order.len(), 3);
    assert!(pos("c") < pos("b"));
    assert!(pos("b") < pos("a"));
}

#[test]
fn duplicate_task_across_states_is_a_conflict() {
    let docket = Docket::new(vec![
        state("open", vec![file("x", "body\n")]),
        state("closed", vec![file("x", "body\n")]),
    ]);
    match docket.check_dag() {
        Err(DocketError::Conflict(StructuralConflict::DuplicateTask(nm))) => {
            assert_eq!(nm.as_str(), "x");
        }
        _ => panic!("expected a duplicate task conflict"),
    }
}

#[test]
fn dependencies_cross_states() {
    let docket = Docket::new(vec![
        state("open", vec![file("a", "[needs](dep:b)\n")]),
        state("doing", vec![file("b", "working\n")]),
    ]);
    let g = docket.dependency_graph();
    assert_eq!(g.tasks.len(), 2);
    assert_eq!(g.dangling.len(), 0);
    let order = docket.check_dag().unwrap();
    let pos = |n: &str| order.iter().position(|s| s.as_str() == n).unwrap();
    assert!(pos("b") < pos("a"));
}

#[test]
fn dangling_dependency_is_reported() {
    let docket = Docket::new(vec![state(
        "open",
        vec![file("a", "[needs](dep:ghost)\n")],
    )]);
    let g = docket.dependency_graph();
    assert_eq!(g.dangling.len(), 1);
    assert_eq!(g.dangling[0].source.as_str(), "a");
    assert_eq!(g.dangling[0].target.as_str(), "dep:ghost");
    // A dangling dependency is not an edge: the graph itself stays
    // acyclic and the check passes.
    assert!(docket.check_dag().is_ok());
}

#[test]
fn topo_order_on_plain_adjacency() {
    // 0 -> 1 -> 2, plus 0 -> 2.
    let adj: Vec<Vec<usize>> = vec![vec![1, 2], vec![2], vec![]];
    let order = topo_order(&adj).unwrap();
    assert_eq!(order.len(), 3);
    let pos = |v: usize| order.iter().position(|&x| x == v).unwrap();
    assert!(pos(2) < pos(1));
    assert!(pos(1) < pos(0));
    let cyclic: Vec<Vec<usize>> = vec![vec![1], vec![0]];
    let cycle = topo_order(&cyclic).unwrap_err();
    let mut members = cycle;
    members.sort();
    assert_eq!(members, vec![0, 1]);
}

fn sample_config() -> Config {
    Config {
        root_path: "/vault".to_owned(),
        notebooks: vec![NotebookEntry {
            name: "journal".to_owned(),
            settings: NotebookSettings {
                location: "journal".to_owned(),
                date_format: Some("%Y-%m-%d".to_owned()),
                note_template: Some("{name}_{date}".to_owned()),
            },
        }],
        dockets: vec![],
    }
}

fn march_first() -> DateStamp {
    DateStamp { year: 2024, month: 3, day: 1, hour: 0, minute: 0, second: 0 }
}

#[test]
fn get_path_renders_name_and_date() {
    let vault = Vault::new(sample_config(), &Vec::new(), Vec::new());
    let args = TemplateArgs { name: "abc".to_owned(), when: march_first() };
    let path = vault.get_path("journal", &args).unwrap();
    assert_eq!(path.as_str(), "/vault/journal/abc_2024-03-01.md");
}

#[test]
fn get_path_unknown_notebook_is_bad_notebook() {
    let vault = Vault::new(sample_config(), &Vec::new(), Vec::new());
    let args = TemplateArgs { name: "abc".to_owned(), when: march_first() };
    assert_eq!(vault.get_path("work", &args), Err(VaultError::BadNotebook));
}

#[test]
fn get_path_bad_template_is_reported() {
    let mut config = sample_config();
    config.notebooks[0].settings.note_template = Some("{name}_{unknown}".to_owned());
    let vault = Vault::new(config, &Vec::new(), Vec::new());
    let args = TemplateArgs { name: "abc".to_owned(), when: march_first() };
    assert_eq!(vault.get_path("journal", &args), Err(VaultError::BadTemplate));
}

#[test]
fn get_path_bad_date_is_reported() {
    let vault = Vault::new(sample_config(), &Vec::new(), Vec::new());
    let bad = DateStamp { year: 2024, month: 13, day: 1, hour: 0, minute: 0, second: 0 };
    let args = TemplateArgs { name: "abc".to_owned(), when: bad };
    assert_eq!(vault.get_path("journal", &args), Err(VaultError::BadTemplate));
}

#[test]
fn vault_indexes_offered_files() {
    let config = sample_config();
    let sources = vec![NotebookSource {
        notebook: "journal".to_owned(),
        files: vec![file("today", "# Today\n\nSee [yesterday](yesterday).\n")],
    }];
    let vault = Vault::new(config, &sources, Vec::new());
    let args = TemplateArgs { name: "x".to_owned(), when: march_first() };
    assert!(vault.get_path("journal", &args).is_ok());
}

#[test]
fn vault_carries_dockets() {
    let docket = Docket::new(vec![
        state("open", vec![file("x", "body\n")]),
        state("closed", vec![]),
    ]);
    let vault = Vault::new(
        sample_config(),
        &Vec::new(),
        vec![NamedDocket::new("work".to_owned(), docket)],
    );
    let d = vault.get_docket("work").unwrap();
    assert_eq!(d.tasks_in("open").unwrap(), vec!["x".to_owned()]);
    assert!(vault.get_docket("play").is_none());
}
