use pwconf::catalog::Catalog;
use pwconf::config::{
    current_query, default_query, paths_query, CatalogKind, ConfigError, FetchFailure,
    PwConfig, PwConfigFile, PwPulseSection, PwPulseSectionSub, StageError,
};
use pwconf::field::{DefaultEntry, FieldValue};
use pwconf::layers::merge_layers;
use pwconf::pages::{page_from_index, Init, InitTrait, Page, PageState};
use pwconf::sections::{arrange_sections, group_sections};

const DEFAULTS: &str = "{\n  \"0-/usr/share/pipewire/pipewire-pulse.conf\": {\n    #channelmix.normalize  = false\n    #channelmix.upmix      = true\n    #channelmix.upmix-method = psd  # none, simple\n    #dither.noise = 0\n  }\n}\n";

fn entry(v: FieldValue) -> DefaultEntry {
    DefaultEntry { value: v, options: None }
}

fn all_pulse() -> PwConfigFile {
    PwConfigFile::PipewirePulse(PwPulseSection::StreamProperties(PwPulseSectionSub::All))
}

fn channelmix() -> PwConfigFile {
    PwConfigFile::PipewirePulse(PwPulseSection::StreamProperties(PwPulseSectionSub::Channelmix))
}

#[test]
fn it_should_get_current() {
    let file = channelmix();
    let (file_name, section_name, subsection_name) =
        PwConfig::get_config_file_and_sections(&file);
    assert_eq!(file_name, "pipewire-pulse.conf");
    assert_eq!(section_name, "stream.properties");
    assert_eq!(subsection_name, Some("channelmix"));
    let output = r#"{"0-/usr/share/pipewire/pipewire-pulse.conf":{"channelmix.upmix":true,"node.latency":"1024/48000"}}"#;
    let current = pwconf::config::read_current(Ok(output.to_string()), subsection_name).unwrap();
    assert!(current.contains_key("channelmix.upmix"));
    assert!(!current.contains_key("node.latency"));
}

#[test]
fn query_arguments() {
    assert_eq!(
        current_query("pipewire-pulse.conf", "stream.properties"),
        vec!["--name", "pipewire-pulse.conf", "list", "-LNr", "stream.properties"]
    );
    assert_eq!(
        default_query("pipewire-pulse.conf", "stream.properties"),
        vec!["--name", "pipewire-pulse.conf", "list", "-N", "-p", "/usr/share/pipewire", "stream.properties"]
    );
    assert_eq!(
        paths_query("pipewire-pulse.conf"),
        vec!["--name", "pipewire-pulse.conf", "paths", "-LNr"]
    );
}

#[test]
fn missing_tool_fails_construction() {
    let gone = || Err(FetchFailure::Io("No such file or directory".to_string()));
    let r = PwConfig::new(&all_pulse(), gone(), gone(), gone());
    match r {
        Err(ConfigError::ProcessInvocation { catalog, failure }) => {
            assert_eq!(catalog, CatalogKind::Paths);
            assert_eq!(failure, FetchFailure::Io("No such file or directory".to_string()));
        }
        _ => panic!("expected a process invocation error"),
    }
}

#[test]
fn later_fetch_failure_is_named() {
    let r = PwConfig::new(
        &all_pulse(),
        Ok("{}".to_string()),
        Err(FetchFailure::ExitStatus(Some(1))),
        Ok(DEFAULTS.to_string()),
    );
    assert!(matches!(
        r,
        Err(ConfigError::ProcessInvocation { catalog: CatalogKind::Current, failure: FetchFailure::ExitStatus(Some(1)) })
    ));
}

#[test]
fn malformed_outputs_are_parse_errors() {
    let r = PwConfig::new(&all_pulse(), Ok("{".to_string()), Ok("{}".to_string()), Ok(DEFAULTS.to_string()));
    assert!(matches!(r, Err(ConfigError::OutputParse { catalog: CatalogKind::Paths })));
    let r = PwConfig::new(&all_pulse(), Ok("[1]".to_string()), Ok("{}".to_string()), Ok(DEFAULTS.to_string()));
    assert!(matches!(r, Err(ConfigError::OutputParse { catalog: CatalogKind::Paths })));
    let r = PwConfig::new(&all_pulse(), Ok("{}".to_string()), Ok("{}".to_string()), Ok("#a = \"x\"".to_string()));
    assert!(matches!(r, Err(ConfigError::OutputParse { catalog: CatalogKind::Default })));
}

#[test]
fn missing_subsection_is_refused() {
    let r = PwConfig::new(&channelmix(), Ok("{}".to_string()), Ok("{}".to_string()), Ok("#node.latency = 1\n".to_string()));
    assert!(matches!(r, Err(ConfigError::MissingSubsection { catalog: CatalogKind::Default })));
}

#[test]
fn builds_model_and_stages_edits() {
    let paths = r#"{"config.path":["/usr/share/pipewire/pipewire-pulse.conf"]}"#;
    let current = r#"{"0-/usr/share/pipewire/pipewire-pulse.conf":{"channelmix.upmix":true}}"#;
    let mut m = PwConfig::new(&channelmix(), Ok(paths.to_string()), Ok(current.to_string()), Ok(DEFAULTS.to_string())).unwrap();
    assert!(m.paths().contains_key("config.path"));
    assert!(m.current().contains_key("channelmix.upmix"));
    let d = m.default();
    assert!(d.get("dither.noise").is_none());
    let method = d.get("channelmix.upmix-method").unwrap();
    assert_eq!(method.value, FieldValue::Text("psd".to_string()));
    assert_eq!(
        method.options,
        Some(vec!["psd".to_string(), "none".to_string(), "simple".to_string()])
    );
    assert_eq!(d.get("channelmix.upmix").unwrap().value, FieldValue::Boolean(true));
    assert!(m.staged().is_empty());
    assert_eq!(
        m.stage_edit("channelmix.upmix".to_string(), FieldValue::Boolean(false)),
        Ok(())
    );
    assert_eq!(
        m.stage_edit("nothing.here".to_string(), FieldValue::Boolean(false)),
        Err(StageError::UnknownKey)
    );
    assert_eq!(m.staged().get("channelmix.upmix"), Some(&FieldValue::Boolean(false)));
    assert!(!m.staged().contains_key("nothing.here"));
}

#[test]
fn later_layer_overrides_earlier() {
    let current = r#"{"1-/etc/pipewire/pipewire-pulse.conf":{"x":2,"y":3},"0-/usr/share/pipewire/pipewire-pulse.conf":{"x":1,"z":4},"2-note":5}"#;
    let c = pwconf::config::read_current(Ok(current.to_string()), None).unwrap();
    assert_eq!(c.get("x").unwrap(), &serde_json::Value::from(2));
    assert_eq!(c.get("y").unwrap(), &serde_json::Value::from(3));
    assert_eq!(c.get("z").unwrap(), &serde_json::Value::from(4));
    assert!(!c.contains_key("2-note"));
}

#[test]
fn current_layers_are_merged_then_narrowed() {
    let layers = vec![
        ("1-etc".to_string(), Some(vec![("channelmix.upmix".to_string(), 2), ("node.rate".to_string(), 8)])),
        ("0-usr".to_string(), Some(vec![("channelmix.upmix".to_string(), 1), ("channelmix.lfe".to_string(), 5)])),
    ];
    let c = pwconf::config::current_from_layers(layers, Some("channelmix"));
    assert_eq!(c.get("channelmix.upmix"), Some(&2));
    assert_eq!(c.get("channelmix.lfe"), Some(&5));
    assert!(!c.contains_key("node.rate"));
}

#[test]
fn malformed_current_output_is_a_parse_error() {
    let r = pwconf::config::read_current(Ok("not json".to_string()), None);
    assert!(matches!(r, Err(ConfigError::OutputParse { catalog: CatalogKind::Current })));
    let r = pwconf::config::read_current(Ok("[]".to_string()), None);
    assert!(matches!(r, Err(ConfigError::OutputParse { catalog: CatalogKind::Current })));
}

#[test]
fn merge_prefers_later_name() {
    let layers = vec![
        ("b".to_string(), Some(vec![("k".to_string(), 2), ("j".to_string(), 7)])),
        ("a".to_string(), Some(vec![("k".to_string(), 1), ("k".to_string(), 9), ("m".to_string(), 5)])),
        ("c".to_string(), None),
    ];
    let c = merge_layers(layers);
    assert_eq!(c.get("k"), Some(&2));
    assert_eq!(c.get("j"), Some(&7));
    assert_eq!(c.get("m"), Some(&5));
    let layers = vec![("a".to_string(), Some(vec![("k".to_string(), 1), ("k".to_string(), 9)]))];
    assert_eq!(merge_layers(layers).get("k"), Some(&9));
}

fn sample_defaults() -> Catalog<DefaultEntry> {
    let mut c = Catalog::new();
    c.insert("channelmix.upmix".to_string(), entry(FieldValue::Boolean(true)));
    c.insert("channelmix.normalize".to_string(), entry(FieldValue::Boolean(false)));
    c.insert("dither.noise".to_string(), entry(FieldValue::Number("0".to_string())));
    c
}

#[test]
fn groups_by_section_in_order() {
    let groups = group_sections(&sample_defaults());
    assert_eq!(groups.len(), 2);
    assert_eq!(groups[0].title, "Channelmix");
    assert_eq!(groups[0].section.as_deref(), Some("channelmix"));
    let names: Vec<&str> = groups[0].entries.iter().map(|(p, _)| p.as_str()).collect();
    assert_eq!(names, vec!["normalize", "upmix"]);
    assert_eq!(groups[0].entries[1].1.value, FieldValue::Boolean(true));
    assert_eq!(groups[1].title, "Dither");
    assert_eq!(groups[1].entries.len(), 1);
    assert_eq!(groups[1].entries[0].0, "noise");
}

#[test]
fn undotted_key_is_unscoped() {
    let mut c = sample_defaults();
    c.insert("foo".to_string(), entry(FieldValue::Text("bar".to_string())));
    let groups = group_sections(&c);
    assert_eq!(groups.len(), 3);
    assert_eq!(groups[0].section, None);
    assert_eq!(groups[0].title, "");
    assert_eq!(groups[0].entries[0].0, "foo");
}

#[test]
fn titles_render_hyphenated_names() {
    let mut c = Catalog::new();
    c.insert("stream-props.rate.max".to_string(), entry(FieldValue::Number("1".to_string())));
    let groups = group_sections(&c);
    assert_eq!(groups[0].title, "Stream Props");
    assert_eq!(groups[0].entries[0].0, "rate.max");
    assert_eq!(groups[0].section.as_deref(), Some("stream-props"));
}

#[test]
fn arrange_uses_given_titles() {
    let titles = vec![
        ("dither".to_string(), "A dither".to_string()),
        ("channelmix".to_string(), "Z mix".to_string()),
    ];
    let groups = arrange_sections(&sample_defaults(), titles);
    assert_eq!(groups[0].title, "A dither");
    assert_eq!(groups[1].title, "Z mix");
    let groups = arrange_sections(&sample_defaults(), vec![]);
    assert_eq!(groups[0].title, "channelmix");
    assert_eq!(groups[1].title, "dither");
}

#[test]
fn page_state_flags() {
    let mut s = PageState::new();
    assert!(!s.get_init());
    assert!(s.get_page_enabled());
    s.get_mut().set_init(true);
    s.set_page_enabled(false);
    assert!(s.get_init());
    assert!(!s.get_page_enabled());
    let mut i = Init::new();
    assert!(!i.get_state());
    i.set_state(true);
    assert!(i.get_state());
    assert_ne!(Page::Main, Page::Surround);
}

#[test]
fn repeated_key_keeps_last_statement() {
    let text = "#a.x = 1 # 1, 2\n#a.x = 3\n#b.y = 4\n#b.y = 5 # 6, 7\n";
    let r = PwConfig::new(&all_pulse(), Ok("{}".to_string()), Ok("{}".to_string()), Ok(text.to_string())).unwrap();
    let e = r.default().get("a.x").unwrap();
    assert_eq!(e.value, FieldValue::Number("3".to_string()));
    assert_eq!(e.options, None);
    let e = r.default().get("b.y").unwrap();
    assert_eq!(e.value, FieldValue::Number("5".to_string()));
    assert_eq!(e.options, Some(vec!["5".to_string(), "6".to_string(), "7".to_string()]));
}

#[test]
fn page_positions() {
    assert_eq!(page_from_index(0), Some(Page::Main));
    assert_eq!(page_from_index(1), Some(Page::Surround));
    assert_eq!(page_from_index(2), None);
    assert_eq!(page_from_index(-1), None);
}
