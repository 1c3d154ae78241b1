use secret_env::error::VaultError;
use secret_env::field::{present_fields, Secret, Vault, VaultField};
use secret_env::format::Format;
use secret_env::json::{json_outcome, output_json};
use secret_env::order::{chars_le, chars_of, sort_by_key, sort_by_label};
use secret_env::render::{export_secrets, output_dotenv, output_shell};

fn field(label: &str, value: Option<&str>) -> VaultField {
    VaultField { label: label.to_string(), value: value.map(|v| v.to_string()) }
}

fn secret(label: &str, value: &str) -> Secret {
    Secret { label: label.to_string(), value: value.to_string() }
}

fn labels(secrets: &[Secret]) -> Vec<String> {
    secrets.iter().map(|s| s.label.clone()).collect()
}

#[test]
fn absent_values_are_dropped() {
    let fields = vec![field("API_KEY", Some("abc123")), field("debug", None)];
    let secrets = present_fields(&fields);
    assert_eq!(secrets.len(), 1);
    assert_eq!(secrets[0].label, "API_KEY");
    assert_eq!(secrets[0].value, "abc123");
}

#[test]
fn empty_value_is_present() {
    let fields = vec![field("EMPTY", Some("")), field("GONE", None)];
    let secrets = present_fields(&fields);
    assert_eq!(labels(&secrets), vec!["EMPTY".to_string()]);
    assert_eq!(secrets[0].value, "");
}

#[test]
fn dotenv_drops_absent_field() {
    let vault = Vault { fields: vec![field("API_KEY", Some("abc123")), field("debug", None)] };
    assert_eq!(export_secrets(Format::Dotenv, &vault), Ok("API_KEY=abc123\n".to_string()));
}

#[test]
fn absent_field_is_in_no_format() {
    let with = Vault {
        fields: vec![field("API_KEY", Some("abc123")), field("debug", None), field("z", Some("1"))],
    };
    let without = Vault { fields: vec![field("API_KEY", Some("abc123")), field("z", Some("1"))] };
    for format in [Format::Json, Format::Dotenv, Format::Shell] {
        let text = export_secrets(format, &with).unwrap();
        assert_eq!(text, export_secrets(format, &without).unwrap());
        assert!(!text.contains("debug"));
    }
}

#[test]
fn dotenv_sorts_without_regard_to_case() {
    let secrets = vec![secret("b", "2"), secret("A", "1")];
    assert_eq!(output_dotenv(&secrets), "A=1\nb=2\n");
}

#[test]
fn sorting_lowers_the_labels() {
    // By code points alone "B" would come before "a".
    let secrets = vec![secret("B", "2"), secret("a", "1"), secret("C", "3")];
    assert_eq!(output_dotenv(&secrets), "a=1\nB=2\nC=3\n");
    assert_eq!(output_shell(&secrets), "export a=1\nexport B=2\nexport C=3\n");
}

#[test]
fn sorting_is_stable() {
    let secrets =
        vec![secret("key", "1"), secret("KEY", "2"), secret("Key", "3"), secret("a", "0")];
    let sorted = sort_by_label(&secrets);
    assert_eq!(
        labels(&sorted),
        vec!["a".to_string(), "key".to_string(), "KEY".to_string(), "Key".to_string()]
    );
    assert_eq!(sorted[1].value, "1");
    assert_eq!(sorted[2].value, "2");
    assert_eq!(sorted[3].value, "3");
}

#[test]
fn sorting_keeps_every_secret() {
    let secrets = vec![
        secret("delta", "4"),
        secret("Alpha", "1"),
        secret("charlie", "3"),
        secret("Bravo", "2"),
        secret("alpha", "1b"),
    ];
    let sorted = sort_by_label(&secrets);
    assert_eq!(
        labels(&sorted),
        vec![
            "Alpha".to_string(),
            "alpha".to_string(),
            "Bravo".to_string(),
            "charlie".to_string(),
            "delta".to_string()
        ]
    );
    assert_eq!(sorted[0].value, "1");
    assert_eq!(sorted[1].value, "1b");
}

#[test]
fn sorting_goes_by_unicode_lower_case() {
    let secrets = vec![secret("é", "2"), secret("É", "1"), secret("z", "0")];
    let sorted = sort_by_label(&secrets);
    assert_eq!(labels(&sorted), vec!["z".to_string(), "é".to_string(), "É".to_string()]);
}

#[test]
fn a_prefix_comes_first() {
    let secrets = vec![secret("ab", "2"), secret("a", "1"), secret("", "0")];
    let sorted = sort_by_label(&secrets);
    assert_eq!(labels(&sorted), vec!["".to_string(), "a".to_string(), "ab".to_string()]);
}

#[test]
fn chars_are_read_in_order() {
    assert_eq!(chars_of("aé\n"), vec!['a', 'é', '\n']);
    assert_eq!(chars_of(""), Vec::<char>::new());
}

#[test]
fn chars_compare_by_code_point() {
    let le = |a: &str, b: &str| chars_le(&chars_of(a), &chars_of(b));
    assert!(le("", ""));
    assert!(le("", "a"));
    assert!(!le("a", ""));
    assert!(le("a", "a"));
    assert!(le("a", "ab"));
    assert!(!le("ab", "a"));
    assert!(le("B", "a"));
    assert!(!le("a", "B"));
    assert!(le("ab", "b"));
    assert!(le("z", "é"));
    assert!(!le("é", "z"));
}

#[test]
fn shell_quotes_a_single_quote() {
    let secrets = vec![secret("MSG", "it's a test")];
    assert_eq!(output_shell(&secrets), "export MSG='it'\\''s a test'\n");
}

#[test]
fn shell_and_dotenv_differ_by_the_prefix() {
    let secrets = vec![secret("b", "two words"), secret("A", "1")];
    assert_eq!(output_dotenv(&secrets), "A=1\nb='two words'\n");
    assert_eq!(output_shell(&secrets), "export A=1\nexport b='two words'\n");
}

#[test]
fn quoting_of_special_characters() {
    let one = |v: &str| output_dotenv(&vec![secret("K", v)]);
    assert_eq!(one(""), "K=''\n");
    assert_eq!(one("plain-_=/,.+09azAZ"), "K=plain-_=/,.+09azAZ\n");
    assert_eq!(one("a b"), "K='a b'\n");
    assert_eq!(one("a\tb"), "K='a\tb'\n");
    assert_eq!(one("a\nb"), "K='a\nb'\n");
    assert_eq!(one("$HOME"), "K='$HOME'\n");
    assert_eq!(one("`id`"), "K='`id`'\n");
    assert_eq!(one("say \"hi\""), "K='say \"hi\"'\n");
    assert_eq!(one("back\\slash"), "K='back\\slash'\n");
    assert_eq!(one("wow!"), "K='wow'\\!''\n");
    assert_eq!(one("'"), "K=''\\'''\n");
    assert_eq!(one("é"), "K='é'\n");
    assert_eq!(one("a:b"), "K='a:b'\n");
}

#[test]
fn labels_are_quoted_too() {
    let secrets = vec![secret("my label", "v")];
    assert_eq!(output_dotenv(&secrets), "'my label'=v\n");
    assert_eq!(output_shell(&secrets), "export 'my label'=v\n");
}

#[test]
fn nothing_to_write_gives_no_line() {
    let none: Vec<Secret> = Vec::new();
    assert_eq!(output_dotenv(&none), "");
    assert_eq!(output_shell(&none), "");
    assert_eq!(output_json(&none), Ok("{}".to_string()));
    let vault = Vault { fields: vec![field("only", None)] };
    assert_eq!(export_secrets(Format::Dotenv, &vault), Ok(String::new()));
    assert_eq!(export_secrets(Format::Shell, &vault), Ok(String::new()));
    assert_eq!(export_secrets(Format::Json, &vault), Ok("{}\n".to_string()));
}

#[test]
fn json_of_one_field() {
    let secrets = vec![secret("X", "1")];
    assert_eq!(output_json(&secrets), Ok("{\n  \"X\": \"1\"\n}".to_string()));
}

#[test]
fn json_export_ends_with_a_line_feed() {
    let vault = Vault { fields: vec![field("X", Some("1")), field("Y", None)] };
    assert_eq!(export_secrets(Format::Json, &vault), Ok("{\n  \"X\": \"1\"\n}\n".to_string()));
}

#[test]
fn json_keeps_the_order_given() {
    let secrets = vec![secret("b", "2"), secret("A", "1"), secret("c", "3")];
    assert_eq!(
        output_json(&secrets),
        Ok("{\n  \"b\": \"2\",\n  \"A\": \"1\",\n  \"c\": \"3\"\n}".to_string())
    );
}

#[test]
fn json_last_value_wins_and_label_keeps_its_place() {
    let secrets = vec![secret("k", "old"), secret("other", "x"), secret("k", "new")];
    assert_eq!(
        output_json(&secrets),
        Ok("{\n  \"k\": \"new\",\n  \"other\": \"x\"\n}".to_string())
    );
}

#[test]
fn json_escapes_what_json_must() {
    let secrets = vec![secret("q\"k", "line\nbreak \\ \"x\"")];
    let text = output_json(&secrets).unwrap();
    assert_eq!(text, "{\n  \"q\\\"k\": \"line\\nbreak \\\\ \\\"x\\\"\"\n}");
    let back: serde_json::Value = serde_json::from_str(&text).unwrap();
    assert_eq!(back.get("q\"k").and_then(|v| v.as_str()), Some("line\nbreak \\ \"x\""));
}

#[test]
fn json_outcome_passes_text_on() {
    assert_eq!(json_outcome(Ok("{}".to_string())), Ok("{}".to_string()));
}

#[test]
fn json_outcome_turns_failure_into_serialization_error() {
    let failure = serde_json::from_str::<serde_json::Value>("{").unwrap_err();
    let described = failure.to_string();
    match json_outcome(Err(failure)) {
        Err(VaultError::Serialization(text)) => assert_eq!(text, described),
        other => panic!("unexpected outcome: {:?}", other),
    }
}

#[test]
fn rendering_twice_gives_the_same_text() {
    let vault = Vault {
        fields: vec![
            field("b", Some("2 3")),
            field("gone", None),
            field("A", Some("it's")),
            field("a", Some("")),
        ],
    };
    for format in [Format::Json, Format::Dotenv, Format::Shell] {
        assert_eq!(export_secrets(format, &vault), export_secrets(format, &vault));
    }
}

#[test]
fn format_names() {
    assert_eq!(Format::from_name("json"), Some(Format::Json));
    assert_eq!(Format::from_name("dotenv"), Some(Format::Dotenv));
    assert_eq!(Format::from_name("shell"), Some(Format::Shell));
    assert_eq!(Format::from_name("JSON"), None);
    assert_eq!(Format::from_name(""), None);
    assert_eq!(Format::from_name("yaml"), None);
    assert_eq!(Format::from_name(" shell"), None);
}

#[test]
fn error_messages() {
    assert_eq!(VaultError::ExternalTool("op failed".to_string()).message(), "op failed");
    assert_eq!(VaultError::InvalidResponse("bad json".to_string()).message(), "bad json");
    assert_eq!(VaultError::Serialization("no".to_string()).message(), "no");
    assert_eq!(
        VaultError::Parse("line 3".to_string()).message(),
        "Unable to parse dotenv file: line 3"
    );
}

#[test]
fn answer_of_the_tool() {
    assert_eq!(
        secret_env::tool::fetched_item(true, "{}".to_string(), "warn".to_string()),
        Ok("{}".to_string())
    );
    assert_eq!(
        secret_env::tool::fetched_item(false, "{}".to_string(), "no such item".to_string()),
        Err(VaultError::ExternalTool("no such item".to_string()))
    );
}

#[test]
fn sorting_goes_by_the_keys_given() {
    let keyed = vec![
        ("m".to_string(), secret("first", "1")),
        ("b".to_string(), secret("second", "2")),
        ("z".to_string(), secret("third", "3")),
        ("a".to_string(), secret("fourth", "4")),
    ];
    let sorted = sort_by_key(&keyed);
    assert_eq!(
        labels(&sorted),
        vec!["fourth".to_string(), "second".to_string(), "first".to_string(), "third".to_string()]
    );
    assert_eq!(sorted[0].value, "4");
    assert_eq!(sorted[3].value, "3");
}

#[test]
fn sorting_by_keys_does_not_look_at_the_labels() {
    // The keys are taken as they are: upper case comes before lower case.
    let keyed = vec![("b".to_string(), secret("A", "1")), ("B".to_string(), secret("a", "2"))];
    let sorted = sort_by_key(&keyed);
    assert_eq!(labels(&sorted), vec!["a".to_string(), "A".to_string()]);
}

#[test]
fn sorting_by_keys_keeps_ties_in_order() {
    let keyed = vec![
        ("k".to_string(), secret("one", "1")),
        ("a".to_string(), secret("zero", "0")),
        ("k".to_string(), secret("two", "2")),
        ("k".to_string(), secret("three", "3")),
        ("".to_string(), secret("none", "")),
    ];
    let sorted = sort_by_key(&keyed);
    assert_eq!(
        labels(&sorted),
        vec![
            "none".to_string(),
            "zero".to_string(),
            "one".to_string(),
            "two".to_string(),
            "three".to_string()
        ]
    );
    assert!(sort_by_key(&Vec::new()).is_empty());
}

#[test]
fn json_is_always_written() {
    let secrets = vec![secret("", ""), secret("nul", "\u{0}\u{1f}"), secret("é", "\u{10ffff}")];
    assert!(output_json(&secrets).is_ok());
    let vault = Vault { fields: vec![field("ctrl", Some("\u{7}\u{8}\u{c}\r"))] };
    assert_eq!(
        export_secrets(Format::Json, &vault),
        Ok("{\n  \"ctrl\": \"\\u0007\\b\\f\\r\"\n}\n".to_string())
    );
}
