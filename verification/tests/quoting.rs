use secret_env::field::Secret;
use secret_env::import::import_secrets;
use secret_env::render::{output_dotenv, output_shell};

fn secret(label: &str, value: &str) -> Secret {
    Secret { label: label.to_string(), value: value.to_string() }
}

/// Reads one shell word by the rules of quote removal for single quotes and
/// backslashes. Gives nothing where quotes stay open, a backslash ends the
/// word, or a character that the shell treats specially stands unquoted.
fn read_word(word: &str) -> Option<String> {
    let mut out = String::new();
    let mut quoted = false;
    let mut chars = word.chars();
    while let Some(c) = chars.next() {
        if quoted {
            if c == '\'' {
                quoted = false;
            } else {
                out.push(c);
            }
        } else if c == '\'' {
            quoted = true;
        } else if c == '\\' {
            match chars.next() {
                Some('\n') | None => return None,
                Some(next) => out.push(next),
            }
        } else if c.is_ascii_alphanumeric() || "-_=/,.+".contains(c) {
            out.push(c);
        } else {
            return None;
        }
    }
    if quoted {
        None
    } else {
        Some(out)
    }
}

/// The quoted form of a value: what stands behind `K=` in its dotenv line.
fn quoted(value: &str) -> String {
    let line = output_dotenv(&vec![secret("K", value)]);
    line.strip_prefix("K=").and_then(|rest| rest.strip_suffix('\n')).unwrap().to_string()
}

#[test]
fn a_shell_reads_back_what_was_quoted() {
    let values = [
        "",
        "plain",
        "it's a test",
        "say \"hi\"",
        "$HOME and ${HOME}",
        "back\\slash",
        "trailing\\",
        "a b",
        "a\tb",
        "a\nb",
        "'",
        "''",
        "!",
        "wow!!",
        "`id`",
        "a;b|c&d>e<f(g)h*i?j[k]l~m#n",
        "é ü 漢字",
        "' \" $ \\ \t \n",
    ];
    for value in values {
        assert_eq!(read_word(&quoted(value)), Some(value.to_string()), "value {:?}", value);
    }
}

#[test]
fn a_shell_reads_back_quoted_labels() {
    let line = output_shell(&vec![secret("it's", "v")]);
    assert_eq!(line, "export 'it'\\''s'=v\n");
    assert_eq!(read_word("'it'\\''s'"), Some("it's".to_string()));
}

#[test]
fn the_importer_reads_back_what_was_quoted() {
    let values = ["plain", "it's a test", "say \"hi\"", "$HOME", "back\\slash", "a b", "a\tb", "a\nb"];
    for value in values {
        let text = output_dotenv(&vec![secret("KEY", value)]);
        let run = import_secrets(text.as_bytes()).unwrap();
        let read = run.secrets();
        assert_eq!(read.len(), 1, "value {:?}", value);
        assert_eq!(read[0].label, "KEY");
        assert_eq!(read[0].value, value, "value {:?}", value);
    }
}

#[test]
fn the_importer_reads_back_every_special_character_at_once() {
    let value = "' \" $ \\ \t \n end";
    let text = output_shell(&vec![secret("KEY", value)]);
    let run = import_secrets(text.as_bytes()).unwrap();
    assert_eq!(run.secrets().len(), 1);
    assert_eq!(run.secrets()[0].label, "KEY");
    assert_eq!(run.secrets()[0].value, value);
}
