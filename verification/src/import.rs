//! Importing a dotenv file into an item: reading the file's assignments, and
//! deciding, one answer of the secrets manager after the other, what to ask
//! of it next.
//!
//! The file is read to its end before anything is asked. The assignments are
//! then sent in the order in which their keys first stood in the file, a key
//! that stood more than once with the value that it had last. The first
//! failure ends the import; what was sent before it stays.

use vstd::prelude::*;
use vstd::string::*;
use crate::error::{ErrorView, VaultError};
use crate::field::{Entry, Secret};
use crate::merge::{
    first_of, labels_of, lemma_merged_labels, lemma_merged_labels_distinct,
    lemma_merged_labels_known, merge_secrets, merged,
};

verus! {

/// A character with which a key of a dotenv file may start: an ASCII letter
/// or `_`.
pub open spec fn is_key_start(c: char) -> bool {
    ||| 'a' <= c <= 'z'
    ||| 'A' <= c <= 'Z'
    ||| c == '_'
}

/// A character of which a key of a dotenv file may be made: an ASCII letter
/// or digit, `_` or `.`.
pub open spec fn is_key_char(c: char) -> bool {
    ||| is_key_start(c)
    ||| '0' <= c <= '9'
    ||| c == '.'
}

/// A key as a dotenv file can hold it.
pub open spec fn is_env_key(s: Seq<char>) -> bool {
    &&& s.len() > 0
    &&& is_key_start(s[0])
    &&& forall|i: int| 0 <= i < s.len() ==> is_key_char(#[trigger] s[i])
}

/// The keys that `dotenvy` reads from the bytes of a dotenv file, one for
/// each assignment and in the order of the lines, where the whole of it
/// parses; nothing where some line does not.
pub uninterp spec fn dotenv_keys(text: Seq<u8>) -> Option<Seq<Seq<char>>>;

/// Calls `dotenvy::from_read_iter` on the bytes and gathers the pairs of
/// key and value that it yields, up to its first error. Whether the bytes
/// parse, and which keys they give, is a matter of the bytes alone and goes
/// by the name `dotenv_keys`. What the values are is left open: the parser
/// fills in `$NAME` from the environment of the process, which changes the
/// values and nothing else. Of the keys the contract also says what the
/// parser's own test says: a key starts with an ASCII letter or `_` and goes
/// on with ASCII letters, digits, `_` and `.`.
#[verifier::external_body]
pub(crate) fn dotenv_pairs(text: &[u8]) -> (parsed: Result<Vec<(String, String)>, dotenvy::Error>)
    ensures
        parsed matches Ok(pairs) ==> dotenv_keys(text@) == Some(labels_of(pairs.deep_view())),
        parsed is Err ==> dotenv_keys(text@) is None,
        parsed matches Ok(pairs) ==> forall|i: int|
            0 <= i < pairs.len() ==> is_env_key(#[trigger] pairs.deep_view()[i].0),
{
    dotenvy::from_read_iter(text).collect()
}

/// Calls the `Display` of `dotenvy::Error` for the description of an error.
/// Nothing is claimed of the text.
#[verifier::external_body]
pub(crate) fn dotenv_error_text(e: &dotenvy::Error) -> String {
    e.to_string()
}

/// Where an import stands.
#[derive(Debug, Clone, Copy, PartialEq, Eq)]
pub enum Phase {
    /// Nothing has been asked yet.
    Ready,
    /// An assignment has been sent and its answer is awaited.
    Waiting,
    /// Every assignment has been applied.
    Finished,
    /// The secrets manager failed, and nothing more is sent.
    Failed,
}

/// What the caller reports to an import.
#[derive(Debug, Clone, PartialEq, Eq)]
pub enum ImportEvent {
    /// The import may begin.
    Start,
    /// The secrets manager applied the assignment that was sent.
    Applied,
    /// The secrets manager ran and reported a failure.
    Rejected,
    /// The secrets manager could not be run; the reason is given.
    Unavailable(String),
}

/// What an import asks of the caller.
#[derive(Debug, Clone, PartialEq, Eq)]
pub enum ImportAction {
    /// Send this assignment, `KEY=VALUE`, to the secrets manager.
    Invoke(String),
    /// Report that all secrets were imported.
    Finish,
    /// Give up with this error.
    Fail(VaultError),
    /// The event does not fit where the import stands: do nothing.
    Ignore,
}

/// An event as a mathematical value.
pub enum EventView {
    Start,
    Applied,
    Rejected,
    Unavailable(Seq<char>),
}

/// An action as a mathematical value.
pub enum ActionView {
    Invoke(Seq<char>),
    Finish,
    Fail(ErrorView),
    Ignore,
}

impl View for ImportEvent {
    type V = EventView;

    open spec fn view(&self) -> EventView {
        match self {
            ImportEvent::Start => EventView::Start,
            ImportEvent::Applied => EventView::Applied,
            ImportEvent::Rejected => EventView::Rejected,
            ImportEvent::Unavailable(why) => EventView::Unavailable(why@),
        }
    }
}

impl View for ImportAction {
    type V = ActionView;

    open spec fn view(&self) -> ActionView {
        match self {
            ImportAction::Invoke(argument) => ActionView::Invoke(argument@),
            ImportAction::Finish => ActionView::Finish,
            ImportAction::Fail(e) => ActionView::Fail(e@),
            ImportAction::Ignore => ActionView::Ignore,
        }
    }
}

/// An import as a mathematical value: the secrets to set, how many of them
/// have been applied, and the phase.
pub struct RunView {
    pub secrets: Seq<Entry>,
    pub cursor: nat,
    pub phase: Phase,
}

/// An import under way.
#[derive(Debug)]
pub struct ImportRun {
    secrets: Vec<Secret>,
    cursor: usize,
    phase: Phase,
}

/// The assignment that sets a secret: the label, `=`, the value.
pub open spec fn assignment(e: Entry) -> Seq<char> {
    e.0 + seq!['='] + e.1
}

/// The description of the failure to set the secret of a label.
pub open spec fn rejection_text(label: Seq<char>) -> Seq<char> {
    "Failed to import secret: "@ + label
}

/// An import of `secrets` of which nothing has been asked yet.
pub open spec fn fresh_run(secrets: Seq<Entry>) -> RunView {
    RunView { secrets, cursor: 0, phase: Phase::Ready }
}

/// What follows when the secrets before `at` are applied: the secret at `at`
/// is sent, or, where there is none, the import is finished.
pub open spec fn proceed(run: RunView, at: nat) -> (RunView, ActionView) {
    if at < run.secrets.len() {
        (
            RunView { secrets: run.secrets, cursor: at, phase: Phase::Waiting },
            ActionView::Invoke(assignment(run.secrets[at as int])),
        )
    } else {
        (RunView { secrets: run.secrets, cursor: at, phase: Phase::Finished }, ActionView::Finish)
    }
}

/// The import after an event, and what it asks for. A start sends the first
/// secret; an applied assignment sends the next; a rejection fails with an
/// error that names the key; a secrets manager that cannot be run fails with
/// the reason given. With nothing left to send the import finishes. An event
/// that does not fit the phase changes nothing.
pub open spec fn step_of(run: RunView, event: EventView) -> (RunView, ActionView) {
    match (run.phase, event) {
        (Phase::Ready, EventView::Start) => proceed(run, 0),
        (Phase::Waiting, EventView::Applied) => proceed(run, run.cursor + 1),
        (Phase::Waiting, EventView::Rejected) => (
            RunView { secrets: run.secrets, cursor: run.cursor, phase: Phase::Failed },
            ActionView::Fail(
                ErrorView::ExternalTool(rejection_text(run.secrets[run.cursor as int].0)),
            ),
        ),
        (Phase::Waiting, EventView::Unavailable(why)) => (
            RunView { secrets: run.secrets, cursor: run.cursor, phase: Phase::Failed },
            ActionView::Fail(ErrorView::ExternalTool(why)),
        ),
        _ => (run, ActionView::Ignore),
    }
}

impl View for ImportRun {
    type V = RunView;

    closed spec fn view(&self) -> RunView {
        RunView {
            secrets: self.secrets.deep_view(),
            cursor: self.cursor as nat,
            phase: self.phase,
        }
    }
}

impl ImportRun {
    #[verifier::type_invariant]
    spec fn well_formed(self) -> bool {
        &&& self.cursor <= self.secrets.len()
        &&& self.phase is Waiting ==> self.cursor < self.secrets.len()
        &&& labels_of(self.secrets.deep_view()).no_duplicates()
    }

    /// An import of the given secrets, merged, with nothing asked yet.
    pub fn new(secrets: &Vec<Secret>) -> (run: ImportRun)
        ensures
            run@ == fresh_run(merged(secrets.deep_view())),
    {
        proof {
            lemma_merged_labels_distinct(secrets.deep_view());
        }
        ImportRun { secrets: merge_secrets(secrets), cursor: 0, phase: Phase::Ready }
    }

    /// Where the import stands.
    pub fn phase(&self) -> (phase: Phase)
        ensures
            phase == self@.phase,
    {
        self.phase
    }

    /// How many secrets have been applied.
    pub fn applied(&self) -> (n: usize)
        ensures
            n == self@.cursor,
    {
        self.cursor
    }

    /// The secrets that the import sets, in the order in which it sends them.
    /// No label stands among them twice.
    pub fn secrets(&self) -> (secrets: &Vec<Secret>)
        ensures
            secrets.deep_view() == self@.secrets,
            labels_of(secrets.deep_view()).no_duplicates(),
    {
        proof {
            use_type_invariant(self);
        }
        &self.secrets
    }

    /// Sends the secret at `at`, or finishes where there is none.
    fn advance(self, at: usize) -> (out: (ImportRun, ImportAction))
        requires
            at <= self.secrets.len(),
        ensures
            (out.0@, out.1@) == proceed(self@, at as nat),
    {
        proof {
            use_type_invariant(&self);
        }
        if at < self.secrets.len() {
            let secret = &self.secrets[at];
            let mut argument = secret.label.clone();
            proof {
                reveal_strlit("=");
                assert("="@ =~= seq!['=']);
                assert(self.secrets.deep_view()[at as int] == secret@);
            }
            argument.append("=");
            argument.append(secret.value.as_str());
            (
                ImportRun { secrets: self.secrets, cursor: at, phase: Phase::Waiting },
                ImportAction::Invoke(argument),
            )
        } else {
            (
                ImportRun { secrets: self.secrets, cursor: at, phase: Phase::Finished },
                ImportAction::Finish,
            )
        }
    }

    /// Takes an event and says what to do next.
    pub fn step(self, event: ImportEvent) -> (out: (ImportRun, ImportAction))
        ensures
            (out.0@, out.1@) == step_of(self@, event@),
    {
        proof {
            use_type_invariant(&self);
        }
        match (self.phase, event) {
            (Phase::Ready, ImportEvent::Start) => self.advance(0),
            (Phase::Waiting, ImportEvent::Applied) => {
                let next = self.cursor + 1;
                self.advance(next)
            },
            (Phase::Waiting, ImportEvent::Rejected) => {
                let secret = &self.secrets[self.cursor];
                let mut text = String::from_str("Failed to import secret: ");
                text.append(secret.label.as_str());
                proof {
                    assert(self.secrets.deep_view()[self.cursor as int] == secret@);
                }
                (
                    ImportRun { secrets: self.secrets, cursor: self.cursor, phase: Phase::Failed },
                    ImportAction::Fail(VaultError::ExternalTool(text)),
                )
            },
            (Phase::Waiting, ImportEvent::Unavailable(why)) => (
                ImportRun { secrets: self.secrets, cursor: self.cursor, phase: Phase::Failed },
                ImportAction::Fail(VaultError::ExternalTool(why)),
            ),
            _ => (self, ImportAction::Ignore),
        }
    }
}

/// The pairs of key and value as secrets, each key as the label.
fn secrets_of(pairs: &Vec<(String, String)>) -> (secrets: Vec<Secret>)
    ensures
        secrets.deep_view() == pairs.deep_view(),
{
    let mut secrets: Vec<Secret> = Vec::new();
    let mut i: usize = 0;
    while i < pairs.len()
        invariant
            i <= pairs.len(),
            secrets.deep_view() == pairs.deep_view().take(i as int),
        decreases pairs.len() - i,
    {
        let pair = &pairs[i];
        let ghost before = secrets.deep_view();
        secrets.push(Secret { label: pair.0.clone(), value: pair.1.clone() });
        assert(secrets.deep_view() =~= before.push((pair.0@, pair.1@)));
        assert(pairs.deep_view().take(i + 1) =~= pairs.deep_view().take(i as int).push(
            (pair.0@, pair.1@),
        ));
        i += 1;
    }
    assert(pairs.deep_view().take(pairs.len() as int) =~= pairs.deep_view());
    secrets
}

/// What becomes of a file that was read: an import of its assignments,
/// merged, where it parsed, and a parse error with the parser's description
/// where it did not.
pub fn import_plan(parsed: Result<Vec<(String, String)>, dotenvy::Error>) -> (out: Result<
    ImportRun,
    VaultError,
>)
    ensures
        parsed matches Ok(pairs) ==> (out matches Ok(run) && run@ == fresh_run(
            merged(pairs.deep_view()),
        )),
        parsed is Err ==> out matches Err(VaultError::Parse(_)),
{
    match parsed {
        Ok(pairs) => Ok(ImportRun::new(&secrets_of(&pairs))),
        Err(e) => Err(VaultError::Parse(dotenv_error_text(&e))),
    }
}

/// Reads the text of a dotenv file and plans its import. The whole text is
/// parsed first: a text that does not parse gives a parse error and no
/// import. Where it parses, the import is ready to start and holds the keys
/// of the file, each once and in the order in which it first stood there;
/// every key is one that a dotenv file can hold.
pub fn import_secrets(text: &[u8]) -> (out: Result<ImportRun, VaultError>)
    ensures
        out is Ok <==> dotenv_keys(text@) is Some,
        out matches Ok(run) ==> {
            &&& run@.phase == Phase::Ready
            &&& run@.cursor == 0
            &&& dotenv_keys(text@) matches Some(keys) && labels_of(run@.secrets) == first_of(keys)
            &&& labels_of(run@.secrets).no_duplicates()
            &&& forall|i: int| 0 <= i < run@.secrets.len() ==> is_env_key(#[trigger] run@.secrets[i].0)
        },
        out matches Err(e) ==> e is Parse,
{
    let parsed = dotenv_pairs(text);
    proof {
        if let Ok(ref pairs) = parsed {
            let given = pairs.deep_view();
            lemma_merged_labels(given);
            lemma_merged_labels_distinct(given);
            assert forall|i: int| 0 <= i < merged(given).len() implies is_env_key(
                #[trigger] merged(given)[i].0,
            ) by {
                lemma_merged_labels_known(given, i);
                let k = choose|k: int| 0 <= k < labels_of(given).len() && labels_of(given)[k]
                    == merged(given)[i].0;
                assert(given[k].0 == merged(given)[i].0);
            }
        }
    }
    import_plan(parsed)
}

/// The import of `secrets` after a start and `k` applied assignments, and
/// what it asked for last.
pub open spec fn after_applied(secrets: Seq<Entry>, k: nat) -> (RunView, ActionView)
    decreases k,
{
    if k == 0 {
        step_of(fresh_run(secrets), EventView::Start)
    } else {
        step_of(after_applied(secrets, (k - 1) as nat).0, EventView::Applied)
    }
}

/// While the secrets manager applies what it is sent, every secret is sent,
/// one at a time and in order: after the start and `k` applied assignments
/// the import has just sent secret `k`, and when none is left it has
/// finished.
pub proof fn lemma_every_secret_is_sent(secrets: Seq<Entry>, k: nat)
    requires
        k <= secrets.len(),
    ensures
        after_applied(secrets, k) == proceed(fresh_run(secrets), k),
        k < secrets.len() ==> after_applied(secrets, k).1 == ActionView::Invoke(
            assignment(secrets[k as int]),
        ),
        k == secrets.len() ==> after_applied(secrets, k).1 == ActionView::Finish,
    decreases k,
{
    if k > 0 {
        lemma_every_secret_is_sent(secrets, (k - 1) as nat);
    }
}

/// An import that has failed or finished sends nothing more, whatever it is
/// told.
pub proof fn lemma_import_halts(run: RunView, event: EventView)
    requires
        run.phase == Phase::Failed || run.phase == Phase::Finished,
    ensures
        step_of(run, event) == (run, ActionView::Ignore),
{
}

/// The assignment of a secret whose label is a key of a dotenv file can be
/// taken apart again: its first `=` stands right behind the label, and the
/// value is what follows.
pub proof fn lemma_assignment_splits(e: Entry)
    requires
        is_env_key(e.0),
    ensures
        forall|i: int| 0 <= i < e.0.len() ==> assignment(e)[i] != '=',
        assignment(e)[e.0.len() as int] == '=',
        assignment(e).take(e.0.len() as int) == e.0,
        assignment(e).skip(e.0.len() as int + 1) == e.1,
{
    let a = assignment(e);
    assert forall|i: int| 0 <= i < e.0.len() implies a[i] != '=' by {
        assert(a[i] == e.0[i]);
        assert(is_key_char(e.0[i]));
    }
    assert(a.take(e.0.len() as int) =~= e.0);
    assert(a.skip(e.0.len() as int + 1) =~= e.1);
}

} // verus!
