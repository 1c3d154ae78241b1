//! Secrets as text: dotenv lines, shell `export` statements, or JSON.

use vstd::prelude::*;
use vstd::string::*;
use crate::error::VaultError;
use crate::escape::{shell_quote, shell_quoted};
use crate::field::{present, present_fields, Entry, FieldView, Secret, Vault};
use crate::format::Format;
use crate::json::{json_pretty_text, output_json};
use crate::merge::{labels_of, lemma_merged_of_distinct, merged};
use crate::order::{
    is_ordered, lemma_sorted_is_ordered, lemma_sorted_is_permutation, lemma_sorted_is_stable,
    sort_by_label, sorted_by_label, with_key,
};

verus! {

/// The word that starts each line of the shell format, with its blank.
pub open spec fn export_prefix() -> Seq<char> {
    seq!['e', 'x', 'p', 'o', 'r', 't', ' ']
}

/// One line for one secret: the prefix, the label as a shell word, `=`, the
/// value as a shell word, and a line feed.
pub open spec fn line_of(prefix: Seq<char>, e: Entry) -> Seq<char> {
    prefix + shell_quoted(e.0) + seq!['='] + shell_quoted(e.1) + seq!['\n']
}

/// The lines of the entries, one after the other.
pub open spec fn lines_of(prefix: Seq<char>, entries: Seq<Entry>) -> Seq<char>
    decreases entries.len(),
{
    if entries.len() == 0 {
        Seq::empty()
    } else {
        lines_of(prefix, entries.drop_last()) + line_of(prefix, entries.last())
    }
}

/// The dotenv text of secrets: a line `LABEL=VALUE` for each, in ascending
/// order of the labels without regard to case.
pub open spec fn dotenv_text(secrets: Seq<Entry>) -> Seq<char> {
    lines_of(Seq::empty(), sorted_by_label(secrets))
}

/// The shell text of secrets: the dotenv text with `export ` before each
/// line.
pub open spec fn shell_text(secrets: Seq<Entry>) -> Seq<char> {
    lines_of(export_prefix(), sorted_by_label(secrets))
}

/// The JSON text of secrets: the pretty-printed object of their merged
/// entries.
pub open spec fn json_text(secrets: Seq<Entry>) -> Seq<char> {
    json_pretty_text(merged(secrets))
}

/// Writes one line for each secret, in the order given.
fn write_lines(prefix: &str, secrets: &Vec<Secret>) -> (text: String)
    ensures
        text@ == lines_of(prefix@, secrets.deep_view()),
{
    let mut text = String::new();
    let mut i: usize = 0;
    while i < secrets.len()
        invariant
            i <= secrets.len(),
            text@ == lines_of(prefix@, secrets.deep_view().take(i as int)),
        decreases secrets.len() - i,
    {
        let secret = &secrets[i];
        proof {
            let all = secrets.deep_view();
            assert(all.take(i + 1).drop_last() =~= all.take(i as int));
            assert(all.take(i + 1).last() == secret@);
            reveal_strlit("=");
            reveal_strlit("\n");
            assert("="@ =~= seq!['=']);
            assert("\n"@ =~= seq!['\n']);
        }
        let label = shell_quote(secret.label.as_str());
        let value = shell_quote(secret.value.as_str());
        let ghost before = text@;
        text.append(prefix);
        text.append(label.as_str());
        text.append("=");
        text.append(value.as_str());
        text.append("\n");
        assert(text@ =~= before + line_of(prefix@, secret@));
        i += 1;
    }
    proof {
        assert(secrets.deep_view().take(secrets.len() as int) =~= secrets.deep_view());
    }
    text
}

/// Writes the secrets as dotenv lines, `LABEL=VALUE`, each ended by a line
/// feed. The lines stand in ascending order of the labels without regard to
/// case; label and value are quoted for a POSIX shell where they need it.
pub fn output_dotenv(secrets: &Vec<Secret>) -> (text: String)
    ensures
        text@ == dotenv_text(secrets.deep_view()),
{
    let sorted = sort_by_label(secrets);
    proof {
        reveal_strlit("");
        assert(""@ =~= Seq::<char>::empty());
    }
    write_lines("", &sorted)
}

/// Writes the secrets as statements for a POSIX shell, `export LABEL=VALUE`,
/// each ended by a line feed: the dotenv lines with `export ` before each.
pub fn output_shell(secrets: &Vec<Secret>) -> (text: String)
    ensures
        text@ == shell_text(secrets.deep_view()),
{
    let sorted = sort_by_label(secrets);
    proof {
        reveal_strlit("export ");
        assert("export "@ =~= export_prefix());
    }
    write_lines("export ", &sorted)
}

/// What goes to standard output when the secrets are exported in a format:
/// the lines as they are, the JSON object with a line feed behind it.
pub open spec fn export_text(format: Format, secrets: Seq<Entry>) -> Seq<char> {
    match format {
        Format::Json => json_text(secrets) + seq!['\n'],
        Format::Dotenv => dotenv_text(secrets),
        Format::Shell => shell_text(secrets),
    }
}

/// The text to print for an item in a format: its fields without a value
/// are left out, the others are written in the format, and the text ends
/// with a line feed unless it is empty. Every format always gives a text.
pub fn export_secrets(format: Format, vault: &Vault) -> (out: Result<String, VaultError>)
    ensures
        out matches Ok(text) && text@ == export_text(format, present(vault@)),
{
    let secrets = present_fields(&vault.fields);
    match format {
        Format::Json => {
            match output_json(&secrets) {
                Ok(mut text) => {
                    proof {
                        reveal_strlit("\n");
                        assert("\n"@ =~= seq!['\n']);
                    }
                    text.append("\n");
                    Ok(text)
                },
                Err(e) => Err(e),
            }
        },
        Format::Dotenv => Ok(output_dotenv(&secrets)),
        Format::Shell => Ok(output_shell(&secrets)),
    }
}

/// A field without a value counts for nothing: the secrets of a collection
/// are those of the collection without that field.
pub proof fn lemma_absent_field_is_dropped(fields: Seq<FieldView>, i: int)
    requires
        0 <= i < fields.len(),
        fields[i].value is None,
    ensures
        present(fields.remove(i)) == present(fields),
    decreases fields.len(),
{
    let front = fields.drop_last();
    if i == fields.len() - 1 {
        assert(fields.remove(i) =~= front);
    } else {
        lemma_absent_field_is_dropped(front, i);
        assert(fields.remove(i).drop_last() =~= front.remove(i));
        assert(fields.remove(i).last() == fields.last());
    }
}

/// Every secret of a collection is the label and the value of one of its
/// fields, and that field has a value.
pub proof fn lemma_secrets_have_values(fields: Seq<FieldView>, j: int)
    requires
        0 <= j < present(fields).len(),
    ensures
        exists|i: int|
            0 <= i < fields.len() && (#[trigger] fields[i]).label == present(fields)[j].0
                && fields[i].value == Some(present(fields)[j].1),
    decreases fields.len(),
{
    let front = fields.drop_last();
    let last = fields.last();
    if last.value is Some && j == present(fields).len() - 1 {
        assert(fields[fields.len() - 1] == last);
    } else {
        lemma_secrets_have_values(front, j);
        let i = choose|i: int|
            0 <= i < front.len() && (#[trigger] front[i]).label == present(front)[j].0
                && front[i].value == Some(present(front)[j].1);
        assert(fields[i] == front[i]);
    }
}

/// A field without a value shows in no output: in every format, the text
/// for a collection is the text for the collection without that field.
pub proof fn lemma_absent_field_never_shows(fields: Seq<FieldView>, i: int, format: Format)
    requires
        0 <= i < fields.len(),
        fields[i].value is None,
    ensures
        export_text(format, present(fields.remove(i))) == export_text(format, present(fields)),
{
    lemma_absent_field_is_dropped(fields, i);
}

/// The text is a matter of the secrets alone: collections with the same
/// secrets give the same text in every format, and so does one collection
/// whenever it is written.
pub proof fn lemma_same_secrets_same_text(a: Seq<FieldView>, b: Seq<FieldView>, format: Format)
    requires
        present(a) == present(b),
    ensures
        export_text(format, present(a)) == export_text(format, present(b)),
{
}

/// The lines of the dotenv and shell texts stand in ascending order of the
/// labels in lower case, whatever the order in which the secrets came: each
/// text is the lines of a sequence that is ordered, that holds the secrets
/// given and no others, and in which secrets of one key stand as they came.
pub proof fn lemma_lines_are_sorted(secrets: Seq<Entry>, key: Seq<char>)
    ensures
        dotenv_text(secrets) == lines_of(Seq::empty(), sorted_by_label(secrets)),
        shell_text(secrets) == lines_of(export_prefix(), sorted_by_label(secrets)),
        is_ordered(sorted_by_label(secrets)),
        sorted_by_label(secrets).to_multiset() == secrets.to_multiset(),
        with_key(sorted_by_label(secrets), key) == with_key(secrets, key),
{
    lemma_sorted_is_ordered(secrets);
    lemma_sorted_is_permutation(secrets);
    lemma_sorted_is_stable(secrets, key);
}

/// The JSON text holds the secrets in the order in which they came: where
/// no label stands twice, it is the text of the secrets as they are.
pub proof fn lemma_json_keeps_order(secrets: Seq<Entry>)
    requires
        labels_of(secrets).no_duplicates(),
    ensures
        json_text(secrets) == json_pretty_text(secrets),
{
    lemma_merged_of_distinct(secrets);
}

} // verus!
