//! Secrets under one label: the label keeps the place where it first stood,
//! and the value that was given last.

use vstd::prelude::*;
use crate::field::{Entry, Secret};

verus! {

/// The labels of `s`, in order.
pub open spec fn labels_of(s: Seq<Entry>) -> Seq<Seq<char>> {
    s.map_values(|e: Entry| e.0)
}

/// `entries` with `value` under `label` wherever that label stands.
pub open spec fn replaced(entries: Seq<Entry>, label: Seq<char>, value: Seq<char>) -> Seq<Entry> {
    entries.map_values(
        |e: Entry|
            if e.0 == label {
                (label, value)
            } else {
                e
            },
    )
}

/// `entries` after `value` has been put under `label`. Where the label is
/// there already, its value is replaced and it keeps its place; where it is
/// not, the new entry comes last.
pub open spec fn put(entries: Seq<Entry>, label: Seq<char>, value: Seq<char>) -> Seq<Entry> {
    if labels_of(entries).contains(label) {
        replaced(entries, label, value)
    } else {
        entries.push((label, value))
    }
}

/// What is left when the entries of `s` are put, one after the other, into
/// nothing.
pub open spec fn merged(s: Seq<Entry>) -> Seq<Entry>
    decreases s.len(),
{
    if s.len() == 0 {
        Seq::empty()
    } else {
        put(merged(s.drop_last()), s.last().0, s.last().1)
    }
}

/// The strings of `labels` in the order in which each occurs first.
pub open spec fn first_of(labels: Seq<Seq<char>>) -> Seq<Seq<char>>
    decreases labels.len(),
{
    if labels.len() == 0 {
        Seq::empty()
    } else {
        let before = first_of(labels.drop_last());
        if before.contains(labels.last()) {
            before
        } else {
            before.push(labels.last())
        }
    }
}

/// The labels of `s` in the order in which each occurs first.
pub open spec fn first_labels(s: Seq<Entry>) -> Seq<Seq<char>> {
    first_of(labels_of(s))
}

/// The value that `s` gives last under `label`, if it gives one.
pub open spec fn last_value(s: Seq<Entry>, label: Seq<char>) -> Option<Seq<char>>
    decreases s.len(),
{
    if s.len() == 0 {
        None
    } else if s.last().0 == label {
        Some(s.last().1)
    } else {
        last_value(s.drop_last(), label)
    }
}

/// Among entries whose labels all differ, putting a value under the label
/// that stands at `at` replaces the entry at `at`.
proof fn lemma_put_replaces(entries: Seq<Entry>, label: Seq<char>, value: Seq<char>, at: int)
    requires
        labels_of(entries).no_duplicates(),
        0 <= at < entries.len(),
        entries[at].0 == label,
    ensures
        put(entries, label, value) == entries.update(at, (label, value)),
{
    assert(labels_of(entries)[at] == label);
    assert forall|j: int| 0 <= j < entries.len() && j != at implies entries[j].0 != label by {
        assert(labels_of(entries)[j] != labels_of(entries)[at]);
    }
    assert(replaced(entries, label, value) =~= entries.update(at, (label, value)));
}

/// Putting a value under a label that stands nowhere adds the entry at the
/// end.
proof fn lemma_put_appends(entries: Seq<Entry>, label: Seq<char>, value: Seq<char>)
    requires
        forall|j: int| 0 <= j < entries.len() ==> (#[trigger] entries[j]).0 != label,
    ensures
        put(entries, label, value) == entries.push((label, value)),
{
    if labels_of(entries).contains(label) {
        let k = choose|k: int| 0 <= k < labels_of(entries).len() && labels_of(entries)[k] == label;
        assert(entries[k].0 == label);
    }
}

/// Putting a value under a label adds the label at the end where it is new,
/// and leaves the labels as they are where it is not.
pub proof fn lemma_put_labels(entries: Seq<Entry>, label: Seq<char>, value: Seq<char>)
    ensures
        labels_of(put(entries, label, value)) == if labels_of(entries).contains(label) {
            labels_of(entries)
        } else {
            labels_of(entries).push(label)
        },
{
    let out = put(entries, label, value);
    if labels_of(entries).contains(label) {
        assert(labels_of(out) =~= labels_of(entries));
    } else {
        assert(labels_of(out) =~= labels_of(entries).push(label));
    }
}

/// Replacing the value under a label changes what stands under that label,
/// and under no other.
proof fn lemma_replaced_values(
    entries: Seq<Entry>,
    label: Seq<char>,
    value: Seq<char>,
    other: Seq<char>,
)
    ensures
        last_value(replaced(entries, label, value), other) == if other != label {
            last_value(entries, other)
        } else if labels_of(entries).contains(label) {
            Some(value)
        } else {
            None
        },
    decreases entries.len(),
{
    let out = replaced(entries, label, value);
    if entries.len() > 0 {
        let front = entries.drop_last();
        lemma_replaced_values(front, label, value, other);
        assert(out.drop_last() =~= replaced(front, label, value));
        assert(labels_of(front) =~= labels_of(entries).drop_last());
        if entries.last().0 == label {
            assert(labels_of(entries)[entries.len() - 1] == label);
        } else if labels_of(entries).contains(label) {
            let k = choose|k: int| 0 <= k < labels_of(entries).len() && labels_of(entries)[k] == label;
            assert(labels_of(front)[k] == label);
        } else if labels_of(front).contains(label) {
            let k = choose|k: int| 0 <= k < labels_of(front).len() && labels_of(front)[k] == label;
            assert(labels_of(entries)[k] == label);
        }
    }
}

/// Putting a value under a label changes what stands under that label, and
/// under no other.
pub proof fn lemma_put_values(
    entries: Seq<Entry>,
    label: Seq<char>,
    value: Seq<char>,
    other: Seq<char>,
)
    ensures
        last_value(put(entries, label, value), other) == if other == label {
            Some(value)
        } else {
            last_value(entries, other)
        },
{
    if labels_of(entries).contains(label) {
        lemma_replaced_values(entries, label, value, other);
    } else {
        assert(entries.push((label, value)).drop_last() =~= entries);
    }
}

/// After merging, the labels stand in the order in which each occurred
/// first.
pub proof fn lemma_merged_labels(s: Seq<Entry>)
    ensures
        labels_of(merged(s)) == first_labels(s),
    decreases s.len(),
{
    if s.len() == 0 {
        assert(labels_of(merged(s)) =~= Seq::<Seq<char>>::empty());
    } else {
        lemma_merged_labels(s.drop_last());
        lemma_put_labels(merged(s.drop_last()), s.last().0, s.last().1);
        assert(labels_of(s).drop_last() =~= labels_of(s.drop_last()));
        assert(labels_of(s).last() == s.last().0);
    }
}

/// Strings in the order in which each occurs first: none stands twice.
pub proof fn lemma_first_of_distinct(labels: Seq<Seq<char>>)
    ensures
        first_of(labels).no_duplicates(),
    decreases labels.len(),
{
    if labels.len() > 0 {
        lemma_first_of_distinct(labels.drop_last());
    }
}

/// After merging, no label stands twice.
pub proof fn lemma_merged_labels_distinct(s: Seq<Entry>)
    ensures
        first_labels(s).no_duplicates(),
        labels_of(merged(s)).no_duplicates(),
{
    lemma_merged_labels(s);
    lemma_first_of_distinct(labels_of(s));
}

/// A string that occurs first somewhere occurs.
proof fn lemma_first_of_known(labels: Seq<Seq<char>>, label: Seq<char>)
    requires
        first_of(labels).contains(label),
    ensures
        labels.contains(label),
    decreases labels.len(),
{
    if labels.len() > 0 {
        let front = labels.drop_last();
        if first_of(front).contains(label) {
            lemma_first_of_known(front, label);
            let k = choose|k: int| 0 <= k < front.len() && front[k] == label;
            assert(labels[k] == label);
        } else {
            assert(first_of(labels) == first_of(front).push(labels.last()));
            assert(label == labels.last());
            assert(labels[labels.len() - 1] == label);
        }
    }
}

/// Every label that is left after merging was a label before.
pub proof fn lemma_merged_labels_known(s: Seq<Entry>, i: int)
    requires
        0 <= i < merged(s).len(),
    ensures
        labels_of(s).contains(merged(s)[i].0),
{
    lemma_merged_labels(s);
    assert(labels_of(merged(s))[i] == merged(s)[i].0);
    assert(first_labels(s).contains(merged(s)[i].0));
    lemma_first_of_known(labels_of(s), merged(s)[i].0);
}

/// After merging, each label has the value that was given last under it:
/// the last one wins.
pub proof fn lemma_merged_values(s: Seq<Entry>, label: Seq<char>)
    ensures
        last_value(merged(s), label) == last_value(s, label),
    decreases s.len(),
{
    if s.len() > 0 {
        lemma_merged_values(s.drop_last(), label);
        lemma_put_values(merged(s.drop_last()), s.last().0, s.last().1, label);
    }
}

/// Entries whose labels all differ are merged into themselves: order and
/// values stay.
pub proof fn lemma_merged_of_distinct(s: Seq<Entry>)
    requires
        labels_of(s).no_duplicates(),
    ensures
        merged(s) == s,
    decreases s.len(),
{
    if s.len() == 0 {
        assert(s =~= Seq::<Entry>::empty());
    } else {
        let front = s.drop_last();
        assert forall|i: int, j: int|
            0 <= i < front.len() && 0 <= j < front.len() && i != j implies labels_of(front)[i]
            != labels_of(front)[j] by {
            assert(labels_of(s)[i] != labels_of(s)[j]);
        }
        lemma_merged_of_distinct(front);
        assert forall|j: int| 0 <= j < front.len() implies (#[trigger] front[j]).0 != s.last().0 by {
            assert(labels_of(s)[j] != labels_of(s)[s.len() - 1]);
        }
        lemma_put_appends(front, s.last().0, s.last().1);
        assert(front.push(s.last()) =~= s);
    }
}

/// Merges secrets that share a label: each label stays where it first
/// stood and gets the value that was given last under it.
pub fn merge_secrets(secrets: &Vec<Secret>) -> (out: Vec<Secret>)
    ensures
        out.deep_view() == merged(secrets.deep_view()),
{
    let mut out: Vec<Secret> = Vec::new();
    let mut i: usize = 0;
    while i < secrets.len()
        invariant
            i <= secrets.len(),
            out.deep_view() == merged(secrets.deep_view().take(i as int)),
        decreases secrets.len() - i,
    {
        let secret = &secrets[i];
        let ghost before = out.deep_view();
        proof {
            let all = secrets.deep_view();
            assert(all.take(i + 1).drop_last() =~= all.take(i as int));
            assert(all.take(i + 1).last() == secret@);
            lemma_merged_labels_distinct(all.take(i as int));
        }
        let mut at: usize = 0;
        while at < out.len() && !(out[at].label == secret.label)
            invariant
                at <= out.len(),
                out.deep_view() == before,
                forall|j: int| 0 <= j < at ==> (#[trigger] before[j]).0 != secret.label@,
            decreases out.len() - at,
        {
            assert(before[at as int] == out[at as int]@);
            at += 1;
        }
        let fresh = Secret { label: secret.label.clone(), value: secret.value.clone() };
        if at < out.len() {
            proof {
                assert(before[at as int] == out[at as int]@);
                lemma_put_replaces(before, secret.label@, secret.value@, at as int);
            }
            out.set(at, fresh);
            assert(out.deep_view() =~= before.update(at as int, secret@));
        } else {
            proof {
                lemma_put_appends(before, secret.label@, secret.value@);
            }
            out.push(fresh);
            assert(out.deep_view() =~= before.push(secret@));
        }
        i += 1;
    }
    proof {
        assert(secrets.deep_view().take(secrets.len() as int) =~= secrets.deep_view());
    }
    out
}

} // verus!
