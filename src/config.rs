//! The configuration model: the live values, the packaged defaults with their
//! choices, the search paths, and the edits staged by the user. The library
//! reads what the configuration tool printed; running the tool is left to
//! the caller, who hands over its output or the way it failed.

use crate::catalog::{lemma_pairs_to_map_keys, pairs_model, Catalog};
use crate::dialect::{
    collect_options, copy_strings, dialect_json, dialect_lines, json_of_lines, line_views,
    option_lists, parse_dialect, texts_map, DialectLine, LineModel, line_models, line_model,
    is_assignment, compact, infer,
};
use crate::field::{texts, DefaultEntry, DefaultModel, FieldModel, FieldValue};
use crate::json::{json_members, parse_layers, parse_object};
use crate::layers::{
    layer_keys, layers_model, lemma_merged_keys, merge_layers, merged, some_layer_has, LayerKeys,
    LayerModel,
};
use crate::scope::{in_scope, opt_view, retain_scope, scoped};
use crate::text::{after, before, split_on, trim};
use vstd::prelude::*;

verus! {

/// Where the packaged defaults are installed.
pub const TEMPLATE_DIR: &'static str = "/usr/share/pipewire";

/// A sub-section of the stream properties, or all of them.
pub enum PwPulseSectionSub {
    Channelmix,
    All,
}

/// A section of the pulse server's configuration file.
pub enum PwPulseSection {
    StreamProperties(PwPulseSectionSub),
}

/// A configuration file and the part of it to model.
pub enum PwConfigFile {
    PipewirePulse(PwPulseSection),
}

/// The sub-section that a file choice narrows to, if any.
pub open spec fn subsection_of(f: PwConfigFile) -> Option<Seq<char>> {
    match f {
        PwConfigFile::PipewirePulse(PwPulseSection::StreamProperties(sub)) => match sub {
            PwPulseSectionSub::Channelmix => Some("channelmix"@),
            PwPulseSectionSub::All => None,
        },
    }
}

fn owned(s: &str) -> (r: String)
    ensures
        r@ == s@,
{
    String::from_str(s)
}

/// The arguments that ask the tool for the live values of a section.
pub fn current_query(file: &str, section: &str) -> (r: Vec<String>)
    ensures
        texts(r@) == seq!["--name"@, file@, "list"@, "-LNr"@, section@],
{
    let mut r: Vec<String> = Vec::new();
    r.push(owned("--name"));
    r.push(owned(file));
    r.push(owned("list"));
    r.push(owned("-LNr"));
    r.push(owned(section));
    assert(texts(r@) =~= seq!["--name"@, file@, "list"@, "-LNr"@, section@]);
    r
}

/// The arguments that ask the tool for the packaged defaults of a section.
pub fn default_query(file: &str, section: &str) -> (r: Vec<String>)
    ensures
        texts(r@) == seq!["--name"@, file@, "list"@, "-N"@, "-p"@, TEMPLATE_DIR@, section@],
{
    let mut r: Vec<String> = Vec::new();
    r.push(owned("--name"));
    r.push(owned(file));
    r.push(owned("list"));
    r.push(owned("-N"));
    r.push(owned("-p"));
    r.push(owned(TEMPLATE_DIR));
    r.push(owned(section));
    assert(texts(r@) =~= seq!["--name"@, file@, "list"@, "-N"@, "-p"@, TEMPLATE_DIR@, section@]);
    r
}

/// The arguments that ask the tool for the files that make up a configuration.
pub fn paths_query(file: &str) -> (r: Vec<String>)
    ensures
        texts(r@) == seq!["--name"@, file@, "paths"@, "-LNr"@],
{
    let mut r: Vec<String> = Vec::new();
    r.push(owned("--name"));
    r.push(owned(file));
    r.push(owned("paths"));
    r.push(owned("-LNr"));
    assert(texts(r@) =~= seq!["--name"@, file@, "paths"@, "-LNr"@]);
    r
}

/// How running the configuration tool failed.
#[derive(Clone, Debug, PartialEq)]
pub enum FetchFailure {
    /// The tool could not be started or its output not read.
    Io(String),
    /// The tool ended with a non-zero exit status; `None` when a signal ended it.
    ExitStatus(Option<i32>),
}

/// One of the catalogs a configuration model is built from.
#[derive(Clone, Copy, Debug, PartialEq, Eq)]
pub enum CatalogKind {
    Current,
    Default,
    Paths,
}

/// Why a configuration model could not be built.
#[derive(Clone, Debug, PartialEq)]
pub enum ConfigError {
    /// Running the tool for the catalog failed.
    ProcessInvocation { catalog: CatalogKind, failure: FetchFailure },
    /// The tool's output for the catalog is not of the expected form.
    OutputParse { catalog: CatalogKind },
    /// The requested sub-section has no property in the catalog.
    MissingSubsection { catalog: CatalogKind },
}

/// Why an edit was not staged.
#[derive(Clone, Copy, Debug, PartialEq, Eq)]
pub enum StageError {
    /// The key names no packaged default.
    UnknownKey,
}

/// The value each key is given last among the statements.
pub open spec fn value_map(ms: Seq<LineModel>) -> Map<Seq<char>, FieldModel>
    decreases ms.len(),
{
    if ms.len() == 0 {
        Map::empty()
    } else {
        value_map(ms.drop_last()).insert(ms.last().key, ms.last().value)
    }
}

/// The packaged defaults that the statements give: each key with its last
/// value and, where some statement lists choices for it, the last such list.
pub open spec fn defaults_of(ms: Seq<LineModel>) -> Map<Seq<char>, DefaultModel> {
    Map::new(
        |k: Seq<char>| value_map(ms).contains_key(k),
        |k: Seq<char>|
            DefaultModel {
                value: value_map(ms)[k],
                options: if option_lists(ms).contains_key(k) {
                    Some(option_lists(ms)[k])
                } else {
                    None
                },
            },
    )
}

/// What each packaged default of a catalog is.
pub open spec fn default_views(m: Map<Seq<char>, DefaultEntry>) -> Map<Seq<char>, DefaultModel> {
    m.map_values(|e: DefaultEntry| e@)
}

/// What each value of a catalog is.
pub open spec fn value_views(m: Map<Seq<char>, FieldValue>) -> Map<Seq<char>, FieldModel> {
    m.map_values(|v: FieldValue| v@)
}

/// The packaged defaults that a dialect text gives, in the sub-section if one is given.
pub open spec fn dialect_defaults(text: Seq<char>, section: Option<Seq<char>>) -> Map<
    Seq<char>,
    DefaultModel,
> {
    scoped(defaults_of(dialect_lines(text)), section)
}

/// The text a value is written with.
pub open spec fn value_text(v: FieldModel) -> Seq<char> {
    match v {
        FieldModel::Number(n) => n,
        FieldModel::Text(t) => t,
        FieldModel::Boolean(b) => if b {
            seq!['t', 'r', 'u', 'e']
        } else {
            seq!['f', 'a', 'l', 's', 'e']
        },
    }
}

proof fn lemma_choices_lead(lines: Seq<Seq<char>>)
    ensures
        forall|k: Seq<char>| #[trigger]
            option_lists(line_models(lines)).contains_key(k) ==> {
                &&& value_map(line_models(lines)).contains_key(k)
                &&& option_lists(line_models(lines))[k].len() >= 1
                &&& option_lists(line_models(lines))[k][0] == value_text(
                    value_map(line_models(lines))[k],
                )
            },
    decreases lines.len(),
{
    if lines.len() > 0 {
        let p = lines.drop_last();
        lemma_choices_lead(p);
        let ms = line_models(lines);
        if is_assignment(trim(lines.last())) {
            assert(ms.drop_last() == line_models(p));
            let m = line_model(lines.last());
            assert(ms.last() == m);
            let c = compact(lines.last());
            let v = before(after(c, '='), '#');
            assert(value_text(infer(v)) == v);
            assert(m.value == infer(v));
            if m.options is Some {
                assert(m.options->Some_0[0] == v);
            }
            let ol = option_lists(ms);
            let vm = value_map(ms);
            assert(vm == value_map(line_models(p)).insert(m.key, m.value));
            assert forall|k: Seq<char>| #[trigger] ol.contains_key(k) implies vm.contains_key(k)
                && ol[k].len() >= 1 && ol[k][0] == value_text(vm[k]) by {
                if k != m.key {
                    assert(option_lists(line_models(p)).contains_key(k));
                }
            }
        } else {
            assert(ms == line_models(p));
        }
    }
}

/// A packaged default that lists its choices lists its own value first.
pub proof fn law_choices_start_with_value(
    text: Seq<char>,
    section: Option<Seq<char>>,
    k: Seq<char>,
)
    requires
        dialect_defaults(text, section).contains_key(k),
        dialect_defaults(text, section)[k].options is Some,
    ensures
        ({
            let d = dialect_defaults(text, section)[k];
            &&& d.options->Some_0.len() >= 1
            &&& d.options->Some_0[0] == value_text(d.value)
        }),
{
    lemma_choices_lead(split_on(text, '\n'));
}

/// The catalog of packaged defaults that the statements give.
pub fn build_defaults(lines: Vec<DialectLine>) -> (r: Catalog<DefaultEntry>)
    ensures
        default_views(r@) == defaults_of(line_views(lines@)),
{
    let ghost views = line_views(lines@);
    let options = collect_options(&lines);
    let n = lines.len();
    let mut rest = lines;
    let mut r: Catalog<DefaultEntry> = Catalog::new();
    let mut i: usize = 0;
    assert(rest@ =~= lines@.skip(0));
    assert(views.take(0) =~= Seq::<LineModel>::empty());
    while rest.len() > 0
        invariant
            views == line_views(lines@),
            texts_map(options@) == option_lists(views),
            lines@.len() == n,
            i + rest.len() == n,
            rest@ == lines@.skip(i as int),
            forall|k: Seq<char>| #[trigger]
                r@.contains_key(k) == value_map(views.take(i as int)).contains_key(k),
            forall|k: Seq<char>| #[trigger]
                r@.contains_key(k) ==> r@[k]@.options == (if option_lists(views).contains_key(k) {
                    Some(option_lists(views)[k])
                } else {
                    None
                }) && r@[k]@.value == value_map(views.take(i as int))[k],
        decreases rest.len(),
    {
        let d = rest.remove(0);
        assert(lines@[i as int] == d);
        assert(views.take(i + 1).drop_last() =~= views.take(i as int));
        assert(views.take(i + 1).last() == d@);
        let opts = match options.get(d.key.as_str()) {
            Some(o) => Some(copy_strings(o)),
            None => None,
        };
        let ghost kk = d.key@;
        let DialectLine { key, value, options: _ } = d;
        let entry = DefaultEntry { value, options: opts };
        proof {
            assert(texts_map(options@).contains_key(kk) == options@.contains_key(kk));
            if options@.contains_key(kk) {
                assert(texts_map(options@)[kk] == texts(options@[kk]@));
            }
        }
        r.insert(key, entry);
        i = i + 1;
    }
    assert(views.take(n as int) =~= views);
    assert(default_views(r@) =~= defaults_of(views));
    r
}

/// The error that reading the packaged defaults from `raw` ends with, if any.
pub open spec fn default_failure(raw: Result<String, FetchFailure>, section: Option<Seq<char>>) -> Option<
    ConfigError,
> {
    match raw {
        Err(f) => Some(ConfigError::ProcessInvocation { catalog: CatalogKind::Default, failure: f }),
        Ok(t) => if json_members(dialect_json(t@)) is None {
            Some(ConfigError::OutputParse { catalog: CatalogKind::Default })
        } else if section is Some && dialect_defaults(t@, section) == Map::<
            Seq<char>,
            DefaultModel,
        >::empty() {
            Some(ConfigError::MissingSubsection { catalog: CatalogKind::Default })
        } else {
            None
        },
    }
}

/// The error that reading the live values from `raw` ends with, if any.
pub open spec fn current_failure(raw: Result<String, FetchFailure>) -> Option<ConfigError> {
    match raw {
        Err(f) => Some(ConfigError::ProcessInvocation { catalog: CatalogKind::Current, failure: f }),
        Ok(t) => if json_members(t@) is None {
            Some(ConfigError::OutputParse { catalog: CatalogKind::Current })
        } else {
            None
        },
    }
}

/// The error that reading the search paths from `raw` ends with, if any.
pub open spec fn paths_failure(raw: Result<String, FetchFailure>) -> Option<ConfigError> {
    match raw {
        Err(f) => Some(ConfigError::ProcessInvocation { catalog: CatalogKind::Paths, failure: f }),
        Ok(t) => if json_members(t@) is None {
            Some(ConfigError::OutputParse { catalog: CatalogKind::Paths })
        } else {
            None
        },
    }
}

/// The keys of the live catalog that a dump holds: those some file's
/// object sets, in the sub-section if one is given.
pub open spec fn current_keys(t: Seq<char>, section: Option<Seq<char>>) -> Set<Seq<char>> {
    Set::new(
        |k: Seq<char>| in_scope(k, section) && some_layer_has(json_members(t)->Some_0, k),
    )
}

/// The keys of the search-path object that a text holds.
pub open spec fn paths_keys(t: Seq<char>) -> Set<Seq<char>> {
    Set::new(
        |k: Seq<char>| json_members(t)->Some_0.map_values(|l: LayerKeys| l.0).contains(k),
    )
}

/// Reads the packaged defaults from the tool's output: the dialect text is
/// turned into its JSON object text, which serde_json must read as an
/// object, and into the catalog of its statements, narrowed to the
/// sub-section if one is given. A sub-section without any default is
/// refused. Keys and values are those of the statements, so that a list of
/// choices always starts with the value; the JSON text only decides whether
/// the defaults are accepted.
pub fn read_default(raw: Result<String, FetchFailure>, section: Option<&str>) -> (r: Result<
    Catalog<DefaultEntry>,
    ConfigError,
>)
    ensures
        r is Err == default_failure(raw, opt_view(section)) is Some,
        r matches Err(e) ==> default_failure(raw, opt_view(section)) == Some(e),
        r matches Ok(c) ==> raw matches Ok(t) && default_views(c@) == dialect_defaults(
            t@,
            opt_view(section),
        ),
{
    let text = match raw {
        Err(f) => {
            return Err(ConfigError::ProcessInvocation { catalog: CatalogKind::Default, failure: f });
        },
        Ok(t) => t,
    };
    let lines = parse_dialect(text.as_str());
    assert(line_views(lines@) =~= dialect_lines(text@));
    let json = json_of_lines(&lines);
    if parse_object(json.as_str()).is_none() {
        return Err(ConfigError::OutputParse { catalog: CatalogKind::Default });
    }
    let all = build_defaults(lines);
    let c = retain_scope(all, section);
    let ghost d = dialect_defaults(text@, opt_view(section));
    assert(default_views(c@) =~= d);
    if section.is_some() && c.is_empty() {
        assert(d =~= Map::<Seq<char>, DefaultModel>::empty());
        return Err(ConfigError::MissingSubsection { catalog: CatalogKind::Default });
    }
    proof {
        if section is Some && d == Map::<Seq<char>, DefaultModel>::empty() {
            assert forall|k: Seq<char>| !c@.contains_key(k) by {
                if c@.contains_key(k) {
                    assert(default_views(c@).contains_key(k));
                }
            }
            assert(c@ =~= Map::<Seq<char>, DefaultEntry>::empty());
        }
    }
    Ok(c)
}

/// The live catalog from the layers of a dump, each given as its name and,
/// where it is an object, its members: their union as `merge_layers` says,
/// narrowed to the sub-section if one is given.
pub fn current_from_layers<V>(
    layers: Vec<(String, Option<Vec<(String, V)>>)>,
    section: Option<&str>,
) -> (r: Catalog<V>)
    ensures
        r@ == scoped(merged(layers_model(layers@)), opt_view(section)),
{
    let all = merge_layers(layers);
    retain_scope(all, section)
}

/// Reads the live values from the tool's output: a JSON object with one
/// object per contributing file, merged as `merge_layers` says and narrowed
/// to the sub-section if one is given. An empty result is no error here:
/// the live configuration need not set any key of the sub-section.
pub fn read_current(raw: Result<String, FetchFailure>, section: Option<&str>) -> (r: Result<
    Catalog<serde_json::Value>,
    ConfigError,
>)
    ensures
        r is Err == current_failure(raw) is Some,
        r matches Err(e) ==> current_failure(raw) == Some(e),
        r matches Ok(c) ==> raw matches Ok(t) && c@.dom() == current_keys(t@, opt_view(section)),
        r matches Ok(c) ==> exists|ls: Seq<LayerModel<serde_json::Value>>|
            c@ == scoped(merged(ls), opt_view(section)) && layer_keys(ls) == json_members(
                raw->Ok_0@,
            )->Some_0,
{
    let text = match raw {
        Err(f) => {
            return Err(ConfigError::ProcessInvocation { catalog: CatalogKind::Current, failure: f });
        },
        Ok(t) => t,
    };
    let layers = match parse_layers(text.as_str()) {
        Some(l) => l,
        None => {
            return Err(ConfigError::OutputParse { catalog: CatalogKind::Current });
        },
    };
    let ghost ls = layers_model(layers@);
    let c = current_from_layers(layers, section);
    proof {
        lemma_merged_keys(ls);
        assert(c@.dom() =~= current_keys(text@, opt_view(section)));
    }
    Ok(c)
}

/// Reads the search paths from the tool's output: a JSON object, kept as it is.
pub fn read_paths(raw: Result<String, FetchFailure>) -> (r: Result<
    Catalog<serde_json::Value>,
    ConfigError,
>)
    ensures
        r is Err == paths_failure(raw) is Some,
        r matches Err(e) ==> paths_failure(raw) == Some(e),
        r matches Ok(c) ==> raw matches Ok(t) && c@.dom() == paths_keys(t@),
{
    let text = match raw {
        Err(f) => {
            return Err(ConfigError::ProcessInvocation { catalog: CatalogKind::Paths, failure: f });
        },
        Ok(t) => t,
    };
    match parse_object(text.as_str()) {
        Some(m) => {
            let c = Catalog::from_pairs(m);
            proof {
                lemma_pairs_to_map_keys(pairs_model(m@));
                assert(c@.dom() =~= paths_keys(text@));
            }
            Ok(c)
        },
        None => Err(ConfigError::OutputParse { catalog: CatalogKind::Paths }),
    }
}

/// The error that building a model from the three outputs ends with, if
/// any: the first of paths, live values and defaults that fails.
pub open spec fn first_failure(
    paths: Result<String, FetchFailure>,
    current: Result<String, FetchFailure>,
    default: Result<String, FetchFailure>,
    section: Option<Seq<char>>,
) -> Option<ConfigError> {
    if paths_failure(paths) is Some {
        paths_failure(paths)
    } else if current_failure(current) is Some {
        current_failure(current)
    } else {
        default_failure(default, section)
    }
}

/// A configuration model: built once from what the tool reported, after
/// which only the staged edits change.
pub struct PwConfig {
    current: Catalog<serde_json::Value>,
    default: Catalog<DefaultEntry>,
    staged: Catalog<FieldValue>,
    paths: Catalog<serde_json::Value>,
}

impl PwConfig {
    /// The live values.
    pub closed spec fn current_view(&self) -> Map<Seq<char>, serde_json::Value> {
        self.current@
    }

    /// The packaged defaults.
    pub closed spec fn default_view(&self) -> Map<Seq<char>, DefaultEntry> {
        self.default@
    }

    /// The staged edits.
    pub closed spec fn staged_view(&self) -> Map<Seq<char>, FieldValue> {
        self.staged@
    }

    /// The search paths.
    pub closed spec fn paths_view(&self) -> Map<Seq<char>, serde_json::Value> {
        self.paths@
    }

    /// The file name, section name and sub-section name of a file choice.
    pub fn get_config_file_and_sections(file: &PwConfigFile) -> (r: (
        &'static str,
        &'static str,
        Option<&'static str>,
    ))
        ensures
            r.0@ == "pipewire-pulse.conf"@,
            r.1@ == "stream.properties"@,
            opt_view(r.2) == subsection_of(*file),
    {
        match file {
            PwConfigFile::PipewirePulse(section) => match section {
                PwPulseSection::StreamProperties(sub) => {
                    let s = match sub {
                        PwPulseSectionSub::Channelmix => Some("channelmix"),
                        PwPulseSectionSub::All => None,
                    };
                    ("pipewire-pulse.conf", "stream.properties", s)
                },
            },
        }
    }

    /// Builds the model of a file choice from the tool's three outputs, read
    /// in the order paths, live values, defaults; the first that fails ends
    /// the construction with its error. No edit is staged yet.
    pub fn new(
        config_file: &PwConfigFile,
        paths: Result<String, FetchFailure>,
        current: Result<String, FetchFailure>,
        default: Result<String, FetchFailure>,
    ) -> (r: Result<PwConfig, ConfigError>)
        ensures
            r is Err == first_failure(paths, current, default, subsection_of(*config_file)) is Some,
            r matches Err(e) ==> first_failure(paths, current, default, subsection_of(*config_file))
                == Some(e),
            paths is Err || current is Err || default is Err ==> r is Err,
            paths matches Err(f) ==> r == Err::<PwConfig, ConfigError>(
                ConfigError::ProcessInvocation { catalog: CatalogKind::Paths, failure: f },
            ),
            r matches Ok(m) ==> {
                &&& default_views(m.default_view()) == dialect_defaults(
                    default->Ok_0@,
                    subsection_of(*config_file),
                )
                &&& m.current_view().dom() == current_keys(current->Ok_0@, subsection_of(*config_file))
                &&& m.paths_view().dom() == paths_keys(paths->Ok_0@)
                &&& m.staged_view() == Map::<Seq<char>, FieldValue>::empty()
            },
    {
        let (_file, _section, sub) = PwConfig::get_config_file_and_sections(config_file);
        let paths = read_paths(paths)?;
        let current = read_current(current, sub)?;
        let default = read_default(default, sub)?;
        Ok(PwConfig { current, default, staged: Catalog::new(), paths })
    }

    /// The live values.
    pub fn current(&self) -> (r: &Catalog<serde_json::Value>)
        ensures
            r@ == self.current_view(),
    {
        &self.current
    }

    /// The packaged defaults.
    pub fn default(&self) -> (r: &Catalog<DefaultEntry>)
        ensures
            r@ == self.default_view(),
    {
        &self.default
    }

    /// The staged edits.
    pub fn staged(&self) -> (r: &Catalog<FieldValue>)
        ensures
            r@ == self.staged_view(),
    {
        &self.staged
    }

    /// The search paths.
    pub fn paths(&self) -> (r: &Catalog<serde_json::Value>)
        ensures
            r@ == self.paths_view(),
    {
        &self.paths
    }

    /// Stages `value` for `key`, replacing an edit staged for it before. A
    /// key without a packaged default is refused and nothing changes. The
    /// value is not held to the default's list of choices.
    pub fn stage_edit(&mut self, key: String, value: FieldValue) -> (r: Result<(), StageError>)
        ensures
            r is Ok == old(self).default_view().contains_key(key@),
            r is Ok ==> final(self).staged_view() == old(self).staged_view().insert(key@, value),
            r is Err ==> final(self).staged_view() == old(self).staged_view(),
            r is Err ==> r == Err::<(), StageError>(StageError::UnknownKey),
            final(self).default_view() == old(self).default_view(),
            final(self).current_view() == old(self).current_view(),
            final(self).paths_view() == old(self).paths_view(),
    {
        if !self.default.contains_key(key.as_str()) {
            return Err(StageError::UnknownKey);
        }
        self.staged.insert(key, value);
        Ok(())
    }
}

} // verus!
