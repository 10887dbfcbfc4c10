use std::collections::BTreeMap;

use cargo_depgate::config::load;
use cargo_depgate::config::FeatureValue;
use cargo_depgate::error::Error;
use serde::de::{Deserialize, Deserializer, MapAccess, SeqAccess, Visitor};
use toml::Spanned;

/// Values of every type that a document can hold.
const VALUES: [&str; 20] = [
    "\"text\"",
    "\"a \\\"quoted\\\" text\"",
    "1",
    "-1",
    "0x10",
    "1_000",
    "4294967295",
    "4294967296",
    "9223372036854775807",
    "1.5",
    "-0.25",
    "inf",
    "true",
    "false",
    "1979-05-27",
    "1979-05-27T07:32:00Z",
    "[]",
    "[1, 2]",
    "[\"a\", true]",
    "{ a = 1 }",
];

/// What `load` says of the document, when it refuses it.
fn refusal(text: &str) -> Option<String> {
    match load("depgate.toml", Ok(text)) {
        Ok(_) => None,
        Err(Error::Configuration { message, .. }) => Some(message),
        Err(error) => panic!("a configuration error is expected, got {error:?}"),
    }
}

#[test]
fn a_flag_is_refused_in_the_words_of_the_parser() {
    for value in VALUES {
        let text = format!("schema = 1\n[internal]\nmembers = {value}\n");
        let alone = text.replacen("schema = 1", "          ", 1);
        let expected = toml::from_str::<BTreeMap<String, BTreeMap<String, bool>>>(&alone)
            .err()
            .map(|error| error.to_string());
        assert_eq!(refusal(&text), expected, "{value}");
    }
}

#[test]
fn a_list_is_refused_in_the_words_of_the_parser() {
    for value in VALUES {
        let text = format!("schema = 1\n[internal]\npatterns = {value}\n");
        let alone = text.replacen("schema = 1", "          ", 1);
        let expected = toml::from_str::<BTreeMap<String, BTreeMap<String, Vec<String>>>>(&alone)
            .err()
            .map(|error| error.to_string());
        assert_eq!(refusal(&text), expected, "{value}");
    }
}

#[test]
fn a_schema_is_refused_in_the_words_of_the_parser() {
    for value in VALUES {
        let text = format!("schema = {value}\n");
        let expected =
            toml::from_str::<BTreeMap<String, u32>>(&text).err().map(|error| error.to_string());
        assert_eq!(refusal(&text), expected, "{value}");
    }
}

#[test]
fn a_rule_is_refused_in_the_words_of_the_parser() {
    for value in VALUES {
        let text = format!("schema = 1\n[rules.app]\nleaf = {value}\n");
        let alone = text.replacen("schema = 1", "          ", 1);
        let expected =
            toml::from_str::<BTreeMap<String, BTreeMap<String, BTreeMap<String, bool>>>>(&alone)
                .err()
                .map(|error| error.to_string());
        assert_eq!(refusal(&text), expected, "{value}");
    }
}

#[test]
fn a_syntax_error_is_the_parsers() {
    for text in ["schema = = 1\n", "schema = 1\nschema = 2\n", "[rules\n", "schema = \"open\n"] {
        let expected = toml::from_str::<BTreeMap<String, u32>>(text).err().map(|e| e.to_string());
        assert_eq!(refusal(text), expected, "{text}");
    }
}

/// The keys of the table that [`Internal`] reads.
const INTERNAL: &[&str] = &["members", "patterns"];

/// A key of that table.
enum InternalKey {
    Members,
    Patterns,
}

impl<'de> Deserialize<'de> for InternalKey {
    fn deserialize<D: Deserializer<'de>>(deserializer: D) -> Result<Self, D::Error> {
        deserializer.deserialize_identifier(KeyVisitor)
    }
}

struct KeyVisitor;

impl Visitor<'_> for KeyVisitor {
    type Value = InternalKey;

    fn expecting(&self, formatter: &mut std::fmt::Formatter<'_>) -> std::fmt::Result {
        formatter.write_str("field identifier")
    }

    fn visit_str<E: serde::de::Error>(self, value: &str) -> Result<Self::Value, E> {
        match value {
            "members" => Ok(InternalKey::Members),
            "patterns" => Ok(InternalKey::Patterns),
            other => Err(E::unknown_field(other, INTERNAL)),
        }
    }
}

/// The `[internal]` table, read by the parser itself.
struct Internal;

impl<'de> Deserialize<'de> for Internal {
    fn deserialize<D: Deserializer<'de>>(deserializer: D) -> Result<Self, D::Error> {
        deserializer.deserialize_struct("RawInternal", INTERNAL, InternalVisitor)
    }
}

struct InternalVisitor;

impl<'de> Visitor<'de> for InternalVisitor {
    type Value = Internal;

    fn expecting(&self, formatter: &mut std::fmt::Formatter<'_>) -> std::fmt::Result {
        formatter.write_str("struct RawInternal")
    }

    fn visit_seq<A: SeqAccess<'de>>(self, mut seq: A) -> Result<Self::Value, A::Error> {
        seq.next_element::<Spanned<bool>>()?;
        seq.next_element::<Spanned<Vec<String>>>()?;
        Ok(Internal)
    }

    fn visit_map<A: MapAccess<'de>>(self, mut map: A) -> Result<Self::Value, A::Error> {
        while let Some(key) = map.next_key::<InternalKey>()? {
            match key {
                InternalKey::Members => {
                    map.next_value::<Spanned<bool>>()?;
                }
                InternalKey::Patterns => {
                    map.next_value::<Spanned<Vec<String>>>()?;
                }
            }
        }
        Ok(Internal)
    }
}

#[test]
fn a_table_is_refused_in_the_words_of_the_parser() {
    let more = [
        "[true]",
        "[false, [\"a\"]]",
        "[true, [\"a\"], 5]",
        "[true, 5]",
        "[true, [1]]",
        "[[]]",
        "{ members = true, patterns = [] }",
        "{ patterns = 1 }",
        "1979-05-27 07:32:00Z",
        "07:32:00.5",
    ];
    for value in VALUES.into_iter().chain(more) {
        let text = format!("schema = 1\ninternal = {value}\n");
        let alone = text.replacen("schema = 1", "          ", 1);
        let expected = toml::from_str::<BTreeMap<String, Internal>>(&alone)
            .err()
            .map(|error| error.to_string());
        assert_eq!(refusal(&text), expected, "{value}");
    }
}

#[test]
fn rules_are_refused_in_the_words_of_the_parser() {
    let more = ["1979-05-27 07:32:00Z", "07:32:00.5", "1979-05-27t00:00:00+01:30"];
    for value in VALUES.into_iter().chain(more) {
        if value == "{ a = 1 }" {
            continue;
        }
        let text = format!("schema = 1\nrules = {value}\n");
        let alone = text.replacen("schema = 1", "          ", 1);
        let expected =
            toml::from_str::<BTreeMap<String, BTreeMap<String, Spanned<Internal>>>>(&alone)
                .err()
                .map(|error| error.to_string());
        assert_eq!(refusal(&text), expected, "{value}");
    }
}

#[test]
fn an_array_gives_the_values_of_a_table_in_order() {
    let text = "schema = 1\ngraph = [[\"app/tls\"]]\ninternal = [false, [\"acme-*\"], 9]\n\
                manifest = []\n[rules]\napp = [\"none\", [\"openssl\"]]\n";
    let config = load("depgate.toml", Ok(text)).expect("arrays stand for tables");

    assert_eq!(config.graph.features.value, FeatureValue::List(vec!["app/tls".to_owned()]));
    assert!(!config.internal.members.value);
    assert_eq!(config.internal.patterns.value, ["acme-*"]);
    assert!(config.manifest.versions_in_root.value);
    let rule = &config.rules[0].table.value;
    assert_eq!(
        rule.features.as_ref().map(|features| &features.value),
        Some(&FeatureValue::Named("none".to_owned()))
    );
    let deny = rule.deny.as_ref().expect("the second value is `deny`");
    assert_eq!(deny.value, ["openssl"]);
    assert_eq!(&text[deny.start..deny.end], "[\"openssl\"]");
    assert!(rule.require.is_none());
}

#[test]
fn a_datetime_is_no_table() {
    let refused = refusal("schema = 1\ngraph = 1979-05-27\n").expect("a datetime has no keys");
    assert!(
        refused.contains("unknown field `$__toml_private_datetime`, expected `features` or `platform`"),
        "{refused}"
    );
}
