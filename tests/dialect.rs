use pwconf::dialect::{parse_dialect, parse_spa_json};
use pwconf::field::FieldValue;
use pwconf::literal::{is_bool_literal, is_float_literal};

fn chars(s: &str) -> Vec<char> {
    s.chars().collect()
}

#[test]
fn it_should_parse_pwconfig_output() {
    let spa_json = String::from(
        r#"
                {
                    "0-/usr/share/pipewire/pipewire-pulse.conf": {
                        #node.latency          = 1024/48000
                        #node.autoconnect      = true
                        #resample.quality      = 4
                        #channelmix.normalize  = false
                        #channelmix.mix-lfe    = true
                        #channelmix.upmix      = true
                        #channelmix.upmix-method = psd  # none, simple
                        #channelmix.lfe-cutoff = 150
                        #channelmix.fc-cutoff  = 12000
                        #channelmix.rear-delay = 12.0
                        #channelmix.stereo-widen = 0.0
                        #channelmix.hilbert-taps = 0
                        #dither.noise = 0
                    }
                }
            "#,
    );
    let json_expected = String::from(
        r#"{"node.latency":"1024/48000","node.autoconnect":true,"resample.quality":4,"channelmix.normalize":false,"channelmix.mix-lfe":true,"channelmix.upmix":true,"channelmix.upmix-method":"psd","channelmix.lfe-cutoff":150,"channelmix.fc-cutoff":12000,"channelmix.rear-delay":12.0,"channelmix.stereo-widen":0.0,"channelmix.hilbert-taps":0,"dither.noise":0}"#,
    );
    let (json, options) = parse_spa_json(spa_json);

    assert_eq!(json, json_expected);
    // The parsed value leads the list of choices.
    assert_eq!(
        options
            .unwrap()
            .get("channelmix.upmix-method")
            .unwrap()
            .join(","),
        "psd,none,simple"
    )
}

#[test]
fn round_trip_of_commented_defaults() {
    let text = "#node.latency          = 1024/48000\n#node.autoconnect      = true\n#resample.quality      = 4\n#channelmix.normalize  = false\n#channelmix.upmix-method = psd  # none, simple\n";
    let (json, options) = parse_spa_json(text.to_string());
    assert_eq!(
        json,
        r#"{"node.latency":"1024/48000","node.autoconnect":true,"resample.quality":4,"channelmix.normalize":false,"channelmix.upmix-method":"psd"}"#
    );
    let options = options.unwrap();
    assert_eq!(
        options.get("channelmix.upmix-method").unwrap(),
        &vec!["psd".to_string(), "none".to_string(), "simple".to_string()]
    );
    assert!(options.get("node.latency").is_none());
}

#[test]
fn one_field_per_annotated_line() {
    let (json, _) = parse_spa_json("a.b = 5 # note".to_string());
    assert_eq!(json, r#"{"a.b":5}"#);
    let (json, _) = parse_spa_json("a.b = yes # note".to_string());
    assert_eq!(json, r#"{"a.b":"yes"}"#);
    let (json, _) = parse_spa_json("a.b = true # note".to_string());
    assert_eq!(json, r#"{"a.b":true}"#);
    let (json, options) = parse_spa_json("a.b = -1.5e3 # single".to_string());
    assert_eq!(json, r#"{"a.b":-1.5e3}"#);
    assert!(options.is_none());
}

#[test]
fn own_output_parses_to_empty_object() {
    let (json, _) = parse_spa_json("#x.y = 1\n z = two # a, b\n".to_string());
    assert_eq!(json, r#"{"x.y":1,"z":"two"}"#);
    let (again, options) = parse_spa_json(json);
    assert_eq!(again, "{}");
    assert!(options.is_none());
}

#[test]
fn lines_without_spaced_equals_are_skipped() {
    let (json, _) = parse_spa_json("a=1\nb =2\nc= 3\n{\n}\n".to_string());
    assert_eq!(json, "{}");
}

#[test]
fn later_statement_without_choices_drops_them() {
    let (_, options) = parse_spa_json("#a = 1 # x, y\n#a = 2\n".to_string());
    assert!(options.is_none());
    let (_, options) = parse_spa_json("#a = 1 # x, y\n#a = 2\n#b = 3 # p, q\n".to_string());
    let options = options.unwrap();
    assert!(options.get("a").is_none());
    assert_eq!(options.get("b").unwrap(), &vec!["3".to_string(), "p".to_string(), "q".to_string()]);
}

#[test]
fn only_first_equals_splits() {
    let (json, _) = parse_spa_json("k = a=b".to_string());
    assert_eq!(json, r#"{"k":"a=b"}"#);
}

#[test]
fn statements_keep_their_types() {
    let lines = parse_dialect("#a = 1\nb = false\n#c = x # p, q\n");
    assert_eq!(lines.len(), 3);
    assert_eq!(lines[0].key, "a");
    assert_eq!(lines[0].value, FieldValue::Number("1".to_string()));
    assert_eq!(lines[1].value, FieldValue::Boolean(false));
    assert_eq!(lines[2].value, FieldValue::Text("x".to_string()));
    assert_eq!(
        lines[2].options,
        Some(vec!["x".to_string(), "p".to_string(), "q".to_string()])
    );
}

#[test]
fn float_literals_follow_f64_parsing() {
    for s in ["4", "12.0", "1.", ".5", "+3", "-0", "1e5", "2E-3", "inf", "-Infinity", "NaN"] {
        assert_eq!(is_float_literal(&chars(s)), s.parse::<f64>().is_ok(), "{}", s);
        assert!(is_float_literal(&chars(s)), "{}", s);
    }
    for s in ["", ".", "e5", "1e", "1.2.3", "0x10", "1_0", "infx", "1/2", "--1"] {
        assert_eq!(is_float_literal(&chars(s)), s.parse::<f64>().is_ok(), "{}", s);
        assert!(!is_float_literal(&chars(s)), "{}", s);
    }
}

#[test]
fn bool_literals_are_exact_words() {
    assert!(is_bool_literal(&chars("true")));
    assert!(is_bool_literal(&chars("false")));
    assert!(!is_bool_literal(&chars("True")));
    assert!(!is_bool_literal(&chars("yes")));
}
