//! The vault: one notebook index per configured notebook, and the path
//! computation for new notes.
//!
//! `get_path` is pure path computation: it resolves the notebook, renders
//! a file name through the notebook's naming template, and joins
//! root/notebook/name with the fixed note extension. It never touches the
//! note index, and does not care whether the file exists yet.

use crate::config::Config;
use crate::note::NoteView;
use crate::notebook::NoteTemplate;
use crate::notebook::Notebook;
use crate::notebook::SourceFile;
use crate::notebook::notes_of_files;
use crate::tasks::Docket;
use crate::tasks::TaskStateView;
use core::fmt::Write;
use vstd::prelude::*;
use vstd::string::StringExecFns;

verus! {

/// Failure of a vault operation.
#[derive(Clone, Copy, PartialEq, Eq, Structural, Debug)]
pub enum VaultError {
    /// The named notebook is not configured.
    BadNotebook,
    /// The notebook's naming template could not render the arguments.
    BadTemplate,
}

/// A point in time, as plain calendar and clock fields.
#[derive(Clone, Copy, PartialEq, Eq, Structural, Debug)]
pub struct DateStamp {
    pub year: i32,
    pub month: u32,
    pub day: u32,
    pub hour: u32,
    pub minute: u32,
    pub second: u32,
}

/// What the date formatter yields for a stamp and a strftime format
/// string: `None` for an invalid date or a malformed format. The result
/// depends on the stamp and the format alone.
pub uninterp spec fn date_rendered(stamp: DateStamp, fmt: Seq<char>) -> Option<Seq<char>>;

/// Relies on chrono's NaiveDate::from_ymd_opt, NaiveDate::and_hms_opt and
/// NaiveDateTime::format: renders the stamp per the strftime format;
/// `None` when the stamp is no valid date and time or the format string
/// is malformed.
#[verifier::external_body]
fn chrono_render(stamp: &DateStamp, fmt: &str) -> (r: Option<String>)
    ensures
        r.deep_view() == date_rendered(*stamp, fmt@),
{
    let date = match chrono::NaiveDate::from_ymd_opt(stamp.year, stamp.month, stamp.day) {
        Some(d) => d,
        None => return None,
    };
    let time = match date.and_hms_opt(stamp.hour, stamp.minute, stamp.second) {
        Some(t) => t,
        None => return None,
    };
    let mut out = String::new();
    match write!(out, "{}", time.format(fmt)) {
        Ok(_) => Some(out),
        Err(_) => None,
    }
}

/// What the naming template yields for a template string, a name value
/// and a date value: `None` for a malformed template or an unknown key.
/// The result depends on the three strings alone.
pub uninterp spec fn rendered_template(
    tpl: Seq<char>,
    name: Seq<char>,
    date: Seq<char>,
) -> Option<Seq<char>>;

/// Relies on leon::Template::parse and leon::Template::render:
/// substitutes the name and date values for the `{name}` and `{date}`
/// keys of the template; `None` when the template does not parse or
/// references another key.
#[verifier::external_body]
fn leon_render(tpl: &str, name: &str, date: &str) -> (r: Option<String>)
    ensures
        r.deep_view() == rendered_template(tpl@, name@, date@),
{
    let t = match leon::Template::parse(tpl) {
        Ok(t) => t,
        Err(_) => return None,
    };
    t.render(&[("name", name), ("date", date)]).ok()
}

/// A configurable naming rule: a strftime date format and a template with
/// `{name}` and `{date}` slots.
pub struct Template {
    date_format: String,
    note_format: String,
}

/// Mathematical image of a [`Template`].
pub ghost struct TemplateView {
    pub date_format: Seq<char>,
    pub note_format: Seq<char>,
}

/// The arguments a naming rule consumes: a free name and a point in
/// time.
pub struct TemplateArgs {
    pub name: String,
    pub when: DateStamp,
}

impl Template {
    /// The rule as the contracts see it.
    pub closed spec fn model(&self) -> TemplateView {
        TemplateView { date_format: self.date_format@, note_format: self.note_format@ }
    }

    pub fn new(date_format: String, note_format: String) -> (r: Template)
        ensures
            r.model() == (TemplateView { date_format: date_format@, note_format: note_format@ }),
    {
        Template { date_format, note_format }
    }
}

/// What rendering a [`Template`] yields for the given arguments.
pub open spec fn template_rendered(tpl: TemplateView, name: Seq<char>, when: DateStamp) -> Option<
    Seq<char>,
> {
    match date_rendered(when, tpl.date_format) {
        Some(d) => rendered_template(tpl.note_format, name, d),
        None => None,
    }
}

impl NoteTemplate for Template {
    type Args = TemplateArgs;

    closed spec fn rendered(&self, args: &TemplateArgs) -> Option<Seq<char>> {
        template_rendered(self.model(), args.name@, args.when)
    }

    fn format_note_name(&self, args: &TemplateArgs) -> (r: Option<String>)
        ensures
            r.deep_view() == self.rendered(args),
    {
        match chrono_render(&args.when, self.date_format.as_str()) {
            Some(d) => leon_render(
                self.note_format.as_str(),
                args.name.as_str(),
                d.as_str(),
            ),
            None => None,
        }
    }
}

/// The files offered for one notebook, by notebook name.
pub struct NotebookSource {
    pub notebook: String,
    pub files: Vec<SourceFile>,
}

struct NamedNotebook {
    name: String,
    notebook: Notebook<Template>,
}

/// One configured docket, by name.
pub struct NamedDocket {
    name: String,
    docket: Docket<Template>,
}

/// Mathematical image of one docket of a vault.
pub ghost struct VaultDocketView {
    pub name: Seq<char>,
    pub states: Seq<TaskStateView>,
}

impl NamedDocket {
    /// The docket as the contracts see it.
    pub closed spec fn model(&self) -> VaultDocketView {
        VaultDocketView { name: self.name@, states: self.docket.model() }
    }

    pub closed spec fn wf(&self) -> bool {
        self.docket.wf()
    }

    pub fn new(name: String, docket: Docket<Template>) -> (r: NamedDocket)
        requires
            docket.wf(),
        ensures
            r.wf(),
            r.model() == (VaultDocketView { name: name@, states: docket.model() }),
    {
        NamedDocket { name, docket }
    }
}

/// Mathematical image of one notebook of a vault.
pub ghost struct VaultNotebookView {
    pub name: Seq<char>,
    pub template: TemplateView,
    pub notes: Seq<NoteView>,
}

/// The top-level registry: a root path, one notebook index per
/// configured notebook, and one docket per configured docket.
pub struct Vault {
    root: String,
    notebooks: Vec<NamedNotebook>,
    dockets: Vec<NamedDocket>,
}

/// The first position of a notebook with the given name, if any.
pub open spec fn vault_nb_index(nbs: Seq<VaultNotebookView>, name: Seq<char>) -> Option<int>
    decreases nbs.len(),
{
    if nbs.len() == 0 {
        None
    } else if nbs[0].name == name {
        Some(0int)
    } else {
        match vault_nb_index(nbs.drop_first(), name) {
            Some(i) => Some(i + 1),
            None => None,
        }
    }
}

pub proof fn lemma_vault_nb_index(nbs: Seq<VaultNotebookView>, name: Seq<char>)
    ensures
        match vault_nb_index(nbs, name) {
            Some(i) => 0 <= i < nbs.len() && nbs[i].name == name && forall|k: int|
                0 <= k < i ==> nbs[k].name != name,
            None => forall|k: int| 0 <= k < nbs.len() ==> nbs[k].name != name,
        },
    decreases nbs.len(),
{
    if nbs.len() > 0 && nbs[0].name != name {
        lemma_vault_nb_index(nbs.drop_first(), name);
        let t = nbs.drop_first();
        assert(forall|k: int| 1 <= k < nbs.len() ==> nbs[k] == t[k - 1]);
    }
}

/// The first position of a source set for the given notebook, if any.
pub open spec fn source_index(
    sources: Seq<crate::vault::NotebookSourceView>,
    name: Seq<char>,
) -> Option<int>
    decreases sources.len(),
{
    if sources.len() == 0 {
        None
    } else if sources[0].notebook == name {
        Some(0int)
    } else {
        match source_index(sources.drop_first(), name) {
            Some(i) => Some(i + 1),
            None => None,
        }
    }
}

/// Mathematical image of a [`NotebookSource`].
pub ghost struct NotebookSourceView {
    pub notebook: Seq<char>,
    pub files: Seq<crate::notebook::SourceFileView>,
}

impl DeepView for NotebookSource {
    type V = NotebookSourceView;

    open spec fn deep_view(&self) -> NotebookSourceView {
        NotebookSourceView { notebook: self.notebook@, files: self.files.deep_view() }
    }
}

pub proof fn lemma_source_index(sources: Seq<NotebookSourceView>, name: Seq<char>)
    ensures
        match source_index(sources, name) {
            Some(i) => 0 <= i < sources.len() && sources[i].notebook == name && forall|k: int|
                0 <= k < i ==> sources[k].notebook != name,
            None => forall|k: int| 0 <= k < sources.len() ==> sources[k].notebook != name,
        },
    decreases sources.len(),
{
    if sources.len() > 0 && sources[0].notebook != name {
        lemma_source_index(sources.drop_first(), name);
        let t = sources.drop_first();
        assert(forall|k: int| 1 <= k < sources.len() ==> sources[k] == t[k - 1]);
    }
}

/// The files offered for the named notebook: those of its first source
/// set, or none.
pub open spec fn files_for(sources: Seq<NotebookSourceView>, name: Seq<char>) -> Seq<
    crate::notebook::SourceFileView,
> {
    match source_index(sources, name) {
        Some(i) => sources[i].files,
        None => Seq::empty(),
    }
}

/// The template of a configured notebook: its settings, with the default
/// date format and note template filled in.
pub open spec fn template_of_settings(s: crate::config::NotebookSettingsView) -> TemplateView {
    TemplateView {
        date_format: match s.date_format {
            Some(d) => d,
            None => "%Y-%m-%d"@,
        },
        note_format: match s.note_template {
            Some(t) => t,
            None => "{ name }"@,
        },
    }
}

/// What building a vault from a configuration and the offered files
/// yields, notebook by notebook.
pub open spec fn vault_notebooks_spec(
    entries: Seq<crate::config::NotebookEntryView>,
    sources: Seq<NotebookSourceView>,
) -> Seq<VaultNotebookView> {
    Seq::new(
        entries.len(),
        |i: int|
            VaultNotebookView {
                name: entries[i].name,
                template: template_of_settings(entries[i].settings),
                notes: notes_of_files(files_for(sources, entries[i].name)),
            },
    )
}

/// Scans for the first source set offered under the given notebook name.
fn find_source(sources: &Vec<NotebookSource>, name: &String) -> (r: Option<usize>)
    ensures
        match r {
            Some(i) => source_index(sources.deep_view(), name@) == Some(i as int),
            None => source_index(sources.deep_view(), name@) is None,
        },
{
    proof {
        lemma_source_index(sources.deep_view(), name@);
    }
    let mut j: usize = 0;
    while j < sources.len()
        invariant
            0 <= j <= sources@.len(),
            forall|k: int| 0 <= k < j ==> sources.deep_view()[k].notebook != name@,
            match source_index(sources.deep_view(), name@) {
                Some(k) => 0 <= k < sources@.len() && sources.deep_view()[k].notebook == name@
                    && forall|m: int| 0 <= m < k ==> sources.deep_view()[m].notebook != name@,
                None => forall|m: int|
                    0 <= m < sources@.len() ==> sources.deep_view()[m].notebook != name@,
            },
        decreases sources@.len() - j,
    {
        proof {
            assert(sources.deep_view()[j as int] == sources@[j as int].deep_view());
        }
        if sources[j].notebook.eq(name) {
            proof {
                if let Some(k) = source_index(sources.deep_view(), name@) {
                    assert(!(k < j) && !(j < k));
                }
            }
            return Some(j);
        }
        j = j + 1;
    }
    None
}

/// Scans for the first notebook under the given name.
fn find_named(notebooks: &Vec<NamedNotebook>, name: &Vec<char>) -> (r: Option<usize>)
    ensures
        match r {
            Some(i) => i < notebooks@.len() && notebooks@[i as int].name@ == name@ && forall|k: int|
                0 <= k < i ==> notebooks@[k].name@ != name@,
            None => forall|k: int| 0 <= k < notebooks@.len() ==> notebooks@[k].name@ != name@,
        },
{
    let mut i: usize = 0;
    while i < notebooks.len()
        invariant
            0 <= i <= notebooks@.len(),
            forall|k: int| 0 <= k < i ==> notebooks@[k].name@ != name@,
        decreases notebooks@.len() - i,
    {
        if crate::strutil::chars_eq_str(name, notebooks[i].name.as_str()) {
            return Some(i);
        }
        i = i + 1;
    }
    None
}

impl Vault {
    /// The root path as the contracts see it.
    pub closed spec fn spec_root(&self) -> Seq<char> {
        self.root@
    }

    /// The notebooks as the contracts see them.
    pub closed spec fn model(&self) -> Seq<VaultNotebookView> {
        Seq::new(
            self.notebooks@.len(),
            |i: int|
                VaultNotebookView {
                    name: self.notebooks@[i].name@,
                    template: self.notebooks@[i].notebook.spec_template().model(),
                    notes: self.notebooks@[i].notebook.model(),
                },
        )
    }

    /// The dockets as the contracts see them.
    pub closed spec fn dockets_model(&self) -> Seq<VaultDocketView> {
        Seq::new(self.dockets@.len(), |i: int| self.dockets@[i].model())
    }

    /// Every notebook and every docket is well-formed.
    pub closed spec fn wf(&self) -> bool {
        &&& forall|i: int| 0 <= i < self.notebooks@.len() ==> self.notebooks@[i].notebook.wf()
        &&& forall|i: int| 0 <= i < self.dockets@.len() ==> (#[trigger] self.dockets@[i]).wf()
    }

    /// Builds one notebook index per configured notebook, parsing the
    /// files offered for it; a notebook with no offered files starts
    /// empty.
    pub fn new(config: Config, sources: &Vec<NotebookSource>, dockets: Vec<NamedDocket>) -> (r:
        Vault)
        requires
            forall|i: int| 0 <= i < dockets@.len() ==> (#[trigger] dockets@[i]).wf(),
        ensures
            r.wf(),
            r.spec_root() == config.root_path@,
            r.model() == vault_notebooks_spec(config.notebooks.deep_view(), sources.deep_view()),
            r.dockets_model() == Seq::new(dockets@.len(), |i: int| dockets@[i].model()),
    {
        let ghost entries = config.notebooks.deep_view();
        let mut notebooks: Vec<NamedNotebook> = Vec::new();
        let empty_files: Vec<SourceFile> = Vec::new();
        let mut i: usize = 0;
        while i < config.notebooks.len()
            invariant
                0 <= i <= config.notebooks@.len(),
                entries == config.notebooks.deep_view(),
                empty_files.deep_view() =~= Seq::<crate::notebook::SourceFileView>::empty(),
                notebooks@.len() == i,
                forall|k: int| #![trigger notebooks@[k]]
                    0 <= k < i ==> notebooks@[k].notebook.wf() && notebooks@[k].name@
                        == entries[k].name && notebooks@[k].notebook.spec_template().model()
                        == template_of_settings(entries[k].settings)
                        && notebooks@[k].notebook.model() == notes_of_files(
                        files_for(sources.deep_view(), entries[k].name),
                    ),
            decreases config.notebooks@.len() - i,
        {
            let entry = &config.notebooks[i];
            proof {
                assert(entries[i as int] == config.notebooks@[i as int].deep_view());
            }
            let date_format = match &entry.settings.date_format {
                Some(s) => s.clone(),
                None => "%Y-%m-%d".to_owned(),
            };
            let note_format = match &entry.settings.note_template {
                Some(s) => s.clone(),
                None => "{ name }".to_owned(),
            };
            let template = Template::new(date_format, note_format);
            let found = find_source(sources, &entry.name);
            proof {
                lemma_source_index(sources.deep_view(), entries[i as int].name);
            }
            let nb = match found {
                Some(j2) => {
                    proof {
                        assert(sources.deep_view()[j2 as int] == sources@[j2 as int].deep_view());
                    }
                    Notebook::new(&sources[j2].files, template)
                },
                None => Notebook::new(&empty_files, template),
            };
            let ghost nbm = nb.model();
            let ghost nbs0 = notebooks@;
            let nm = entry.name.clone();
            proof {
                assert(nm@ == entries[i as int].name);
            }
            notebooks.push(NamedNotebook { name: nm, notebook: nb });
            proof {
                assert forall|k: int| #![trigger notebooks@[k]]
                    0 <= k < i + 1 implies notebooks@[k].notebook.wf() && notebooks@[k].name@
                        == entries[k].name && notebooks@[k].notebook.spec_template().model()
                        == template_of_settings(entries[k].settings)
                        && notebooks@[k].notebook.model() == notes_of_files(
                        files_for(sources.deep_view(), entries[k].name),
                    ) by {
                    if k < i {
                        assert(nbs0[k].notebook.wf() && nbs0[k].name@ == entries[k].name
                            && nbs0[k].notebook.spec_template().model() == template_of_settings(
                            entries[k].settings,
                        ) && nbs0[k].notebook.model() == notes_of_files(
                            files_for(sources.deep_view(), entries[k].name),
                        ));
                        assert(notebooks@[k] == nbs0[k]);
                    } else {
                        assert(notebooks@[k].name@ == entries[k].name);
                        assert(notebooks@[k].notebook.wf());
                        assert(notebooks@[k].notebook.spec_template().model()
                            == template_of_settings(entries[k].settings));
                        assert(notebooks@[k].notebook.model() == notes_of_files(
                            files_for(sources.deep_view(), entries[k].name),
                        ));
                    }
                }
            }
            i = i + 1;
        }
        let r = Vault { root: config.root_path, notebooks, dockets };
        proof {
            assert(r.model() =~= vault_notebooks_spec(entries, sources.deep_view()));
            assert(r.dockets_model() =~= Seq::new(
                r.dockets@.len(),
                |i: int| r.dockets@[i].model(),
            ));
        }
        r
    }

    /// The first configured docket of that name, if any.
    pub fn get_docket(&self, name: &str) -> (r: Option<&Docket<Template>>)
        ensures
            match r {
                Some(d) => exists|i: int|
                    0 <= i < self.dockets_model().len() && (#[trigger] self.dockets_model()[
                        i
                    ]).name == name@ && self.dockets_model()[i].states == d.model(),
                None => forall|i: int|
                    0 <= i < self.dockets_model().len() ==> (#[trigger] self.dockets_model()[
                        i
                    ]).name != name@,
            },
    {
        let nv = crate::strutil::chars_vec(name);
        let mut i: usize = 0;
        while i < self.dockets.len()
            invariant
                0 <= i <= self.dockets@.len(),
                nv@ == name@,
                forall|k: int| 0 <= k < i ==> (#[trigger] self.dockets_model()[k]).name != name@,
            decreases self.dockets@.len() - i,
        {
            proof {
                assert(self.dockets_model()[i as int] == self.dockets@[i as int].model());
            }
            if crate::strutil::chars_eq_str(&nv, self.dockets[i].name.as_str()) {
                return Some(&self.dockets[i].docket);
            }
            i = i + 1;
        }
        None
    }

    /// The path a new note in the named notebook would live at:
    /// root/notebook/rendered-name with the fixed `.md` extension.
    /// `BadNotebook` when the notebook is not configured; `BadTemplate`
    /// when its naming template cannot render the arguments.
    pub fn get_path(&self, notebook_name: &str, args: &TemplateArgs) -> (r: Result<
        String,
        VaultError,
    >)
        ensures
            match vault_nb_index(self.model(), notebook_name@) {
                None => r == Err::<String, VaultError>(VaultError::BadNotebook),
                Some(i) => match template_rendered(
                    self.model()[i].template,
                    args.name@,
                    args.when,
                ) {
                    None => r == Err::<String, VaultError>(VaultError::BadTemplate),
                    Some(f) => r matches Ok(p) && p@ == self.spec_root() + "/"@ + notebook_name@
                        + "/"@ + f + ".md"@,
                },
            },
    {
        proof {
            lemma_vault_nb_index(self.model(), notebook_name@);
        }
        let nv = crate::strutil::chars_vec(notebook_name);
        let found = find_named(&self.notebooks, &nv);
        match found {
            None => {
                proof {
                    if let Some(k) = vault_nb_index(self.model(), notebook_name@) {
                        assert(self.model()[k].name == notebook_name@);
                    }
                }
                Err(VaultError::BadNotebook)
            },
            Some(idx) => {
                proof {
                    assert(self.model()[idx as int].name == notebook_name@);
                    if let Some(k) = vault_nb_index(self.model(), notebook_name@) {
                        assert(!(k < idx) && !(idx < k));
                    }
                }
                let nb = &self.notebooks[idx];
                proof {
                    assert(nb.notebook.spec_template().model() == self.model()[
                        idx as int
                    ].template);
                }
                match nb.notebook.get_name(args) {
                    None => Err(VaultError::BadTemplate),
                    Some(file) => {
                        let mut p = String::new();
                        p.append(self.root.as_str());
                        p.append("/");
                        p.append(notebook_name);
                        p.append("/");
                        p.append(file.as_str());
                        p.append(".md");
                        Ok(p)
                    },
                }
            },
        }
    }
}

} // verus!
