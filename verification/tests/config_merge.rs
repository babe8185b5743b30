use input_synth::config::ConfigError;
use input_synth::overrides::{merge_nodes, overrides_are_blank, parse_overrides, YamlNode};
use serde_yaml::Value;

/// The minimal config as the service holds it: the document's own keys
/// with the documented defaults of the sections the overrides touch.
const MINIMAL: &str = r#"
version: 1
kind: experiment_config
experiment_id: exp-test
model: pad
button_alphabet:
  name: console16-12btn-v1
  buttons:
    [ {name: A, bit: 0}, {name: B, bit: 1} ]
generator_mix: { weighted_random: 0.45, macro: 0.35, mutation: 0.20, policy: 0.0 }
burst_len: { distribution: lognormal, mean_frames: 300, sigma: 0.35, min_frames: 16, max_frames: 1800 }
"#;

fn to_node(v: Value, leaves: &mut Vec<Option<Value>>) -> YamlNode {
    match v {
        Value::Mapping(m) => YamlNode::Mapping(
            m.into_iter()
                .map(|(k, v)| match k {
                    Value::String(s) => (Some(s), to_node(v, leaves)),
                    other => panic!("test documents use string keys, got {other:?}"),
                })
                .collect(),
        ),
        other => {
            leaves.push(Some(other));
            YamlNode::Leaf((leaves.len() - 1) as u64)
        }
    }
}

fn from_node(n: YamlNode, leaves: &mut Vec<Option<Value>>) -> Value {
    match n {
        YamlNode::Leaf(i) => leaves[i as usize].take().unwrap(),
        YamlNode::Mapping(entries) => {
            let mut m = serde_yaml::Mapping::new();
            for (k, node) in entries {
                let v = from_node(node, leaves);
                m.insert(Value::String(k.unwrap()), v);
            }
            Value::Mapping(m)
        }
    }
}

fn deep_merge(base: &str, overrides: &[u8]) -> Result<Value, ConfigError> {
    let base_value: Value = serde_yaml::from_str(base).unwrap();
    match parse_overrides(overrides)? {
        None => Ok(base_value),
        Some(over) => {
            let mut leaves = Vec::new();
            let b = to_node(base_value, &mut leaves);
            let o = to_node(over, &mut leaves);
            Ok(from_node(merge_nodes(b, o), &mut leaves))
        }
    }
}

#[test]
fn maps_merge_scalars_replace() {
    let merged = deep_merge(
        MINIMAL,
        b"generator_mix: { weighted_random: 1.0, macro: 0.0 }\nburst_len: { mean_frames: 100 }",
    )
    .unwrap();
    assert_eq!(merged["generator_mix"]["weighted_random"].as_f64(), Some(1.0));
    assert_eq!(merged["generator_mix"]["macro"].as_f64(), Some(0.0));
    // untouched sibling key in a merged map keeps base value
    assert_eq!(merged["generator_mix"]["mutation"].as_f64(), Some(0.20));
    assert_eq!(merged["burst_len"]["mean_frames"].as_u64(), Some(100));
    assert_eq!(merged["burst_len"]["max_frames"].as_u64(), Some(1800));
    assert_eq!(merged["model"].as_str(), Some("pad"));
}

#[test]
fn lists_replace_entirely() {
    let merged = deep_merge(MINIMAL, b"button_alphabet: { buttons: [ {name: X, bit: 2} ] }").unwrap();
    let buttons = merged["button_alphabet"]["buttons"].as_sequence().unwrap();
    assert_eq!(buttons.len(), 1);
    assert_eq!(buttons[0]["name"].as_str(), Some("X"));
    // sibling scalar under the same map is preserved
    assert_eq!(merged["button_alphabet"]["name"].as_str(), Some("console16-12btn-v1"));
}

#[test]
fn empty_overrides_are_a_noop() {
    assert!(overrides_are_blank(b"  \n"));
    assert!(matches!(parse_overrides(b"  \n"), Ok(None)));
    let base: Value = serde_yaml::from_str(MINIMAL).unwrap();
    assert_eq!(deep_merge(MINIMAL, b"  \n").unwrap(), base);
}

#[test]
fn malformed_overrides_error_names_the_source() {
    let err = deep_merge(MINIMAL, b"{ not yaml").unwrap_err();
    assert!(err.message().contains("config_overrides_yaml"));
}

#[test]
fn new_keys_go_last_and_present_keys_merge_in_place() {
    let base = YamlNode::Mapping(vec![
        (Some("a".to_owned()), YamlNode::Leaf(0)),
        (Some("b".to_owned()), YamlNode::Mapping(vec![(Some("x".to_owned()), YamlNode::Leaf(1))])),
        (None, YamlNode::Leaf(2)),
    ]);
    let over = YamlNode::Mapping(vec![
        (Some("c".to_owned()), YamlNode::Leaf(3)),
        (Some("b".to_owned()), YamlNode::Mapping(vec![(Some("y".to_owned()), YamlNode::Leaf(4))])),
        (None, YamlNode::Leaf(5)),
        (Some("a".to_owned()), YamlNode::Mapping(vec![])),
    ]);
    assert_eq!(
        merge_nodes(base, over),
        YamlNode::Mapping(vec![
            (Some("a".to_owned()), YamlNode::Mapping(vec![])),
            (
                Some("b".to_owned()),
                YamlNode::Mapping(vec![
                    (Some("x".to_owned()), YamlNode::Leaf(1)),
                    (Some("y".to_owned()), YamlNode::Leaf(4)),
                ])
            ),
            (None, YamlNode::Leaf(2)),
            (Some("c".to_owned()), YamlNode::Leaf(3)),
            (None, YamlNode::Leaf(5)),
        ])
    );
    assert_eq!(merge_nodes(YamlNode::Leaf(0), YamlNode::Mapping(vec![])), YamlNode::Mapping(vec![]));
    assert_eq!(merge_nodes(YamlNode::Mapping(vec![]), YamlNode::Leaf(7)), YamlNode::Leaf(7));
    assert!(!overrides_are_blank(b" x"));
    assert!(overrides_are_blank(b""));
    assert!(overrides_are_blank(b"\t\r\n\x0c "));
    assert!(!overrides_are_blank(b"\x0b"));
}

#[test]
fn overrides_parse_when_serde_yaml_reads_them() {
    assert!(matches!(parse_overrides(b"burst_len: { mean_frames: 100 }"), Ok(Some(Value::Mapping(_)))));
    assert!(matches!(parse_overrides(b"42"), Ok(Some(Value::Number(_)))));
    assert!(matches!(parse_overrides(b"{ not yaml"), Err(ConfigError::Parse { .. })));
}
