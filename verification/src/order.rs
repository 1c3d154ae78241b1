//! Ordering secrets by their labels without regard to case.

use vstd::prelude::*;
use crate::field::{Entry, Secret};

verus! {

/// The lower-case form of a string, as `str::to_lowercase` gives it.
pub uninterp spec fn lowercase_of(s: Seq<char>) -> Seq<char>;

/// Calls `str::to_lowercase`, which maps each character to its Unicode
/// lower-case form. The result depends on the string alone and is named
/// `lowercase_of`; nothing else is claimed of it.
#[verifier::external_body]
pub(crate) fn lowercase(s: &str) -> (lower: String)
    ensures
        lower@ == lowercase_of(s@),
{
    s.to_lowercase()
}

/// The key by which a secret is ordered: its label in lower case.
pub open spec fn sort_key(e: Entry) -> Seq<char> {
    lowercase_of(e.0)
}

/// `a` comes before `b` or equals it, character by character: the first
/// place at which they differ decides by the characters' code points, and a
/// string comes before everything that it starts.
pub open spec fn lex_le(a: Seq<char>, b: Seq<char>) -> bool
    decreases a.len(),
{
    if a.len() == 0 {
        true
    } else if b.len() == 0 {
        false
    } else if a[0] != b[0] {
        a[0] < b[0]
    } else {
        lex_le(a.drop_first(), b.drop_first())
    }
}

/// Every string comes before or equals itself.
pub proof fn lemma_lex_le_reflexive(a: Seq<char>)
    ensures
        lex_le(a, a),
    decreases a.len(),
{
    if a.len() > 0 {
        lemma_lex_le_reflexive(a.drop_first());
    }
}

/// Of two strings one comes before the other, or they are equal.
pub proof fn lemma_lex_le_total(a: Seq<char>, b: Seq<char>)
    ensures
        lex_le(a, b) || lex_le(b, a),
    decreases a.len(),
{
    if a.len() > 0 && b.len() > 0 && a[0] == b[0] {
        lemma_lex_le_total(a.drop_first(), b.drop_first());
    }
}

/// What comes before something that comes before a third comes before the
/// third.
pub proof fn lemma_lex_le_transitive(a: Seq<char>, b: Seq<char>, c: Seq<char>)
    requires
        lex_le(a, b),
        lex_le(b, c),
    ensures
        lex_le(a, c),
    decreases a.len(),
{
    if a.len() > 0 && b.len() > 0 && c.len() > 0 && a[0] == b[0] && b[0] == c[0] {
        lemma_lex_le_transitive(a.drop_first(), b.drop_first(), c.drop_first());
    }
}

/// The characters of a string, one by one.
pub fn chars_of(s: &str) -> (chars: Vec<char>)
    ensures
        chars@ == s@,
{
    let mut chars: Vec<char> = Vec::new();
    for c in it: s.chars()
        invariant
            it.seq() == s@,
            chars@ == s@.take(it.index()),
    {
        proof {
            assert(s@.take(it.index() + 1) =~= s@.take(it.index()).push(c));
        }
        chars.push(c);
    }
    proof {
        assert(s@.take(s@.len() as int) =~= s@);
    }
    chars
}

/// Decides `lex_le` on two strings given as characters.
pub fn chars_le(a: &Vec<char>, b: &Vec<char>) -> (le: bool)
    ensures
        le == lex_le(a@, b@),
{
    let mut i: usize = 0;
    proof {
        assert(a@.skip(0) =~= a@);
        assert(b@.skip(0) =~= b@);
    }
    while i < a.len() && i < b.len()
        invariant
            i <= a.len(),
            i <= b.len(),
            lex_le(a@, b@) == lex_le(a@.skip(i as int), b@.skip(i as int)),
        decreases a.len() - i,
    {
        let x = a[i];
        let y = b[i];
        proof {
            let ra = a@.skip(i as int);
            let rb = b@.skip(i as int);
            assert(ra[0] == x && rb[0] == y);
            assert(ra.drop_first() =~= a@.skip(i + 1));
            assert(rb.drop_first() =~= b@.skip(i + 1));
        }
        if x != y {
            return x < y;
        }
        i += 1;
    }
    i == a.len()
}

/// A secret together with the key by which it is ordered: the key, then the
/// secret.
pub type Keyed = (Seq<char>, Entry);

/// `sorted` with `x` put in behind the last of its members whose key comes
/// before the key of `x` or equals it.
pub open spec fn insert_by_key(sorted: Seq<Keyed>, x: Keyed) -> Seq<Keyed>
    decreases sorted.len(),
{
    if sorted.len() == 0 {
        seq![x]
    } else if lex_le(sorted.last().0, x.0) {
        sorted.push(x)
    } else {
        insert_by_key(sorted.drop_last(), x).push(sorted.last())
    }
}

/// The members of `s` in ascending order of their keys, members of one key
/// in the order that they have in `s`.
pub open spec fn sorted_by_key(s: Seq<Keyed>) -> Seq<Keyed>
    decreases s.len(),
{
    if s.len() == 0 {
        Seq::empty()
    } else {
        insert_by_key(sorted_by_key(s.drop_last()), s.last())
    }
}

/// No member stands before one whose key comes strictly before its own.
pub open spec fn keys_ordered(s: Seq<Keyed>) -> bool {
    forall|i: int, j: int| 0 <= i <= j < s.len() ==> lex_le((#[trigger] s[i]).0, (#[trigger] s[j]).0)
}

/// The members of `s` that have the key `k`, in their order.
pub open spec fn of_key(s: Seq<Keyed>, k: Seq<char>) -> Seq<Keyed>
    decreases s.len(),
{
    if s.len() == 0 {
        Seq::empty()
    } else if s.last().0 == k {
        of_key(s.drop_last(), k).push(s.last())
    } else {
        of_key(s.drop_last(), k)
    }
}

/// The secrets of `s`, without their keys.
pub open spec fn entries_of(s: Seq<Keyed>) -> Seq<Entry> {
    s.map_values(|x: Keyed| x.1)
}

/// The entries of `s`, each with its label in lower case as its key.
pub open spec fn keyed_by_label(s: Seq<Entry>) -> Seq<Keyed> {
    s.map_values(|e: Entry| (sort_key(e), e))
}

/// The entries of `s` in ascending order of their labels in lower case,
/// entries whose labels agree in lower case in the order that they have in
/// `s`.
pub open spec fn sorted_by_label(s: Seq<Entry>) -> Seq<Entry> {
    entries_of(sorted_by_key(keyed_by_label(s)))
}

/// No entry stands before one whose label in lower case comes strictly
/// before its own.
pub open spec fn is_ordered(s: Seq<Entry>) -> bool {
    forall|i: int, j: int|
        0 <= i <= j < s.len() ==> lex_le(sort_key(#[trigger] s[i]), sort_key(#[trigger] s[j]))
}

/// The entries of `s` whose label in lower case is `k`, in their order.
pub open spec fn with_key(s: Seq<Entry>, k: Seq<char>) -> Seq<Entry>
    decreases s.len(),
{
    if s.len() == 0 {
        Seq::empty()
    } else if sort_key(s.last()) == k {
        with_key(s.drop_last(), k).push(s.last())
    } else {
        with_key(s.drop_last(), k)
    }
}

/// Every member has the lower-case form of its label as its key.
pub open spec fn keyed_by_labels(s: Seq<Keyed>) -> bool {
    forall|i: int| 0 <= i < s.len() ==> (#[trigger] s[i]).0 == sort_key(s[i].1)
}

/// Where every member from `pos` on has a key strictly behind that of `x`,
/// and the member before `pos`, if there is one, has not, `x` is put in at
/// `pos`.
proof fn lemma_insert_position(sorted: Seq<Keyed>, x: Keyed, pos: int)
    requires
        0 <= pos <= sorted.len(),
        forall|j: int| pos <= j < sorted.len() ==> !lex_le((#[trigger] sorted[j]).0, x.0),
        pos > 0 ==> lex_le(sorted[pos - 1].0, x.0),
    ensures
        insert_by_key(sorted, x) == sorted.insert(pos, x),
    decreases sorted.len(),
{
    if sorted.len() == 0 {
        assert(sorted.insert(pos, x) =~= seq![x]);
    } else if pos == sorted.len() {
        assert(sorted.insert(pos, x) =~= sorted.push(x));
    } else {
        let front = sorted.drop_last();
        assert(!lex_le(sorted[sorted.len() - 1].0, x.0));
        assert forall|j: int| pos <= j < front.len() implies !lex_le(
            (#[trigger] front[j]).0,
            x.0,
        ) by {
            assert(front[j] == sorted[j]);
        }
        lemma_insert_position(front, x, pos);
        assert(front.insert(pos, x).push(sorted.last()) =~= sorted.insert(pos, x));
    }
}

/// Putting a member in adds that member and nothing else.
pub proof fn lemma_insert_adds_one(sorted: Seq<Keyed>, x: Keyed)
    ensures
        insert_by_key(sorted, x).len() == sorted.len() + 1,
        insert_by_key(sorted, x).to_multiset() == sorted.to_multiset().insert(x),
    decreases sorted.len(),
{
    broadcast use vstd::seq_lib::group_to_multiset_ensures;

    if sorted.len() == 0 {
        assert(seq![x] =~= sorted.push(x));
    } else if lex_le(sorted.last().0, x.0) {
    } else {
        let front = sorted.drop_last();
        lemma_insert_adds_one(front, x);
        assert(sorted =~= front.push(sorted.last()));
        assert(front.to_multiset().insert(x).insert(sorted.last()) =~= front.to_multiset().insert(
            sorted.last(),
        ).insert(x));
    }
}

/// Putting a member into an ordered sequence leaves it ordered.
pub proof fn lemma_insert_keeps_order(sorted: Seq<Keyed>, x: Keyed)
    requires
        keys_ordered(sorted),
    ensures
        keys_ordered(insert_by_key(sorted, x)),
    decreases sorted.len(),
{
    let out = insert_by_key(sorted, x);
    if sorted.len() == 0 {
        lemma_lex_le_reflexive(x.0);
    } else if lex_le(sorted.last().0, x.0) {
        assert forall|i: int, j: int| 0 <= i <= j < out.len() implies lex_le(
            (#[trigger] out[i]).0,
            (#[trigger] out[j]).0,
        ) by {
            if j < sorted.len() {
                assert(out[i] == sorted[i] && out[j] == sorted[j]);
            } else if i < sorted.len() {
                assert(out[i] == sorted[i]);
                assert(lex_le(sorted[i].0, sorted[sorted.len() - 1].0));
                lemma_lex_le_transitive(sorted[i].0, sorted.last().0, x.0);
            } else {
                lemma_lex_le_reflexive(x.0);
            }
        }
    } else {
        let front = sorted.drop_last();
        let last = sorted.last();
        let inner = insert_by_key(front, x);
        assert forall|i: int, j: int| 0 <= i <= j < front.len() implies lex_le(
            (#[trigger] front[i]).0,
            (#[trigger] front[j]).0,
        ) by {
            assert(front[i] == sorted[i] && front[j] == sorted[j]);
        }
        lemma_insert_keeps_order(front, x);
        lemma_insert_adds_one(front, x);
        assert forall|i: int, j: int| 0 <= i <= j < out.len() implies lex_le(
            (#[trigger] out[i]).0,
            (#[trigger] out[j]).0,
        ) by {
            if j < inner.len() {
                assert(out[i] == inner[i] && out[j] == inner[j]);
            } else if i < inner.len() {
                assert(out[i] == inner[i] && out[j] == last);
                assert(inner.to_multiset().count(inner[i]) > 0) by {
                    inner.to_multiset_ensures();
                    assert(inner.contains(inner[i]));
                }
                if inner[i] == x {
                    lemma_lex_le_total(last.0, x.0);
                } else {
                    assert(front.to_multiset().count(inner[i]) > 0);
                    front.to_multiset_ensures();
                    assert(front.contains(inner[i]));
                    let k = choose|k: int| 0 <= k < front.len() && front[k] == inner[i];
                    assert(front[k] == sorted[k]);
                    assert(lex_le(sorted[k].0, sorted[sorted.len() - 1].0));
                }
            } else {
                lemma_lex_le_reflexive(last.0);
            }
        }
    }
}

/// Putting a member in adds it behind the members of its own key and leaves
/// the members of every key in their order.
pub proof fn lemma_insert_is_stable(sorted: Seq<Keyed>, x: Keyed, k: Seq<char>)
    ensures
        of_key(insert_by_key(sorted, x), k) == if x.0 == k {
            of_key(sorted, k).push(x)
        } else {
            of_key(sorted, k)
        },
    decreases sorted.len(),
{
    let out = insert_by_key(sorted, x);
    if sorted.len() == 0 {
        assert(out.drop_last() =~= sorted);
    } else if lex_le(sorted.last().0, x.0) {
        assert(out.drop_last() =~= sorted);
    } else {
        let front = sorted.drop_last();
        let last = sorted.last();
        lemma_insert_is_stable(front, x, k);
        assert(out.drop_last() =~= insert_by_key(front, x));
        assert(out.last() == last);
        if x.0 == last.0 {
            lemma_lex_le_reflexive(x.0);
        }
    }
}

/// Sorting by key gives ascending keys.
pub proof fn lemma_sorted_keys_ordered(s: Seq<Keyed>)
    ensures
        keys_ordered(sorted_by_key(s)),
    decreases s.len(),
{
    if s.len() > 0 {
        lemma_sorted_keys_ordered(s.drop_last());
        lemma_insert_keeps_order(sorted_by_key(s.drop_last()), s.last());
    }
}

/// Sorting by key keeps the members that were given, each as often as it
/// was given.
pub proof fn lemma_sorted_keeps_members(s: Seq<Keyed>)
    ensures
        sorted_by_key(s).len() == s.len(),
        sorted_by_key(s).to_multiset() == s.to_multiset(),
    decreases s.len(),
{
    broadcast use vstd::seq_lib::group_to_multiset_ensures;

    if s.len() == 0 {
        assert(s =~= Seq::<Keyed>::empty());
    } else {
        lemma_sorted_keeps_members(s.drop_last());
        lemma_insert_adds_one(sorted_by_key(s.drop_last()), s.last());
        assert(s =~= s.drop_last().push(s.last()));
    }
}

/// Sorting by key is stable: the members of any one key stand in the sorted
/// sequence in the order in which they were given.
pub proof fn lemma_sorted_keeps_ties(s: Seq<Keyed>, k: Seq<char>)
    ensures
        of_key(sorted_by_key(s), k) == of_key(s, k),
    decreases s.len(),
{
    if s.len() > 0 {
        lemma_sorted_keeps_ties(s.drop_last(), k);
        lemma_insert_is_stable(sorted_by_key(s.drop_last()), s.last(), k);
    }
}

/// Entries that are keyed by their labels stay so when they are sorted.
proof fn lemma_sorted_keyed_by_labels(s: Seq<Entry>)
    ensures
        keyed_by_labels(sorted_by_key(keyed_by_label(s))),
{
    let given = keyed_by_label(s);
    let sorted = sorted_by_key(given);
    lemma_sorted_keeps_members(given);
    assert forall|i: int| 0 <= i < sorted.len() implies (#[trigger] sorted[i]).0 == sort_key(
        sorted[i].1,
    ) by {
        sorted.to_multiset_ensures();
        given.to_multiset_ensures();
        assert(sorted.contains(sorted[i]));
        assert(sorted.to_multiset().count(sorted[i]) > 0);
        assert(given.to_multiset().count(sorted[i]) > 0);
        assert(given.contains(sorted[i]));
        let j = choose|j: int| 0 <= j < given.len() && given[j] == sorted[i];
        assert(given[j] == (sort_key(s[j]), s[j]));
    }
}

/// Among members keyed by their labels, those of one key are the entries
/// whose label in lower case is that key.
proof fn lemma_entries_of_key(s: Seq<Keyed>, k: Seq<char>)
    requires
        keyed_by_labels(s),
    ensures
        entries_of(of_key(s, k)) == with_key(entries_of(s), k),
    decreases s.len(),
{
    if s.len() == 0 {
        assert(entries_of(of_key(s, k)) =~= Seq::<Entry>::empty());
    } else {
        let front = s.drop_last();
        assert forall|i: int| 0 <= i < front.len() implies (#[trigger] front[i]).0 == sort_key(
            front[i].1,
        ) by {
            assert(front[i] == s[i]);
        }
        lemma_entries_of_key(front, k);
        assert(entries_of(s).drop_last() =~= entries_of(front));
        assert(entries_of(s).last() == s.last().1);
        assert(s[s.len() - 1].0 == sort_key(s[s.len() - 1].1));
        if s.last().0 == k {
            assert(entries_of(of_key(front, k).push(s.last())) =~= entries_of(of_key(front, k)).push(
                s.last().1,
            ));
        }
    }
}

/// The secrets of a sequence and of another with the same members are the
/// same, each as often.
proof fn lemma_entries_of_members(a: Seq<Keyed>, b: Seq<Keyed>)
    requires
        a.to_multiset() == b.to_multiset(),
    ensures
        entries_of(a).to_multiset() == entries_of(b).to_multiset(),
    decreases a.len(),
{
    broadcast use vstd::seq_lib::group_to_multiset_ensures;

    a.to_multiset_ensures();
    b.to_multiset_ensures();
    if a.len() == 0 {
        assert(b.len() == 0);
        assert(entries_of(a) =~= entries_of(b));
    } else {
        let x = a.last();
        assert(a.contains(x));
        assert(b.to_multiset().count(x) > 0);
        assert(b.contains(x));
        let j = choose|j: int| 0 <= j < b.len() && b[j] == x;
        let rest = b.remove(j);
        assert(a =~= a.drop_last().push(x));
        assert(a.drop_last().to_multiset().insert(x) =~= a.to_multiset());
        vstd::seq_lib::to_multiset_remove(b, j);
        assert(rest.to_multiset() =~= b.to_multiset().remove(x));
        assert(a.drop_last().to_multiset() =~= a.to_multiset().remove(x));
        lemma_entries_of_members(a.drop_last(), rest);
        assert(entries_of(a) =~= entries_of(a.drop_last()).push(x.1));
        assert(entries_of(rest) =~= entries_of(b).remove(j));
        vstd::seq_lib::to_multiset_remove(entries_of(b), j);
        assert(entries_of(b)[j] == x.1);
        assert(entries_of(b).to_multiset() =~= entries_of(rest).to_multiset().insert(x.1));
    }
}

/// The sorted sequence is in ascending order of the labels in lower case.
pub proof fn lemma_sorted_is_ordered(s: Seq<Entry>)
    ensures
        is_ordered(sorted_by_label(s)),
{
    let sorted = sorted_by_key(keyed_by_label(s));
    lemma_sorted_keys_ordered(keyed_by_label(s));
    lemma_sorted_keyed_by_labels(s);
    assert forall|i: int, j: int| 0 <= i <= j < sorted_by_label(s).len() implies lex_le(
        sort_key(#[trigger] sorted_by_label(s)[i]),
        sort_key(#[trigger] sorted_by_label(s)[j]),
    ) by {
        assert(sorted_by_label(s)[i] == sorted[i].1);
        assert(sorted_by_label(s)[j] == sorted[j].1);
        assert(lex_le(sorted[i].0, sorted[j].0));
    }
}

/// The sorted sequence holds the entries that were given, each as often as
/// it was given.
pub proof fn lemma_sorted_is_permutation(s: Seq<Entry>)
    ensures
        sorted_by_label(s).len() == s.len(),
        sorted_by_label(s).to_multiset() == s.to_multiset(),
{
    let given = keyed_by_label(s);
    lemma_sorted_keeps_members(given);
    lemma_entries_of_members(sorted_by_key(given), given);
    assert(entries_of(given) =~= s);
}

/// Sorting is stable: the entries whose labels agree in lower case stand in
/// the sorted sequence in the order in which they were given.
pub proof fn lemma_sorted_is_stable(s: Seq<Entry>, k: Seq<char>)
    ensures
        with_key(sorted_by_label(s), k) == with_key(s, k),
{
    let given = keyed_by_label(s);
    lemma_sorted_keeps_ties(given, k);
    lemma_sorted_keyed_by_labels(s);
    lemma_entries_of_key(sorted_by_key(given), k);
    lemma_entries_of_key(given, k);
    assert(entries_of(given) =~= s);
}

/// Orders secrets by the keys given with them, ascending by the code points
/// of the characters, and hands the secrets back without the keys. Secrets
/// of one key keep the order in which they came.
pub fn sort_by_key(keyed: &Vec<(String, Secret)>) -> (sorted: Vec<Secret>)
    ensures
        sorted.deep_view() == entries_of(sorted_by_key(keyed.deep_view())),
{
    let mut work: Vec<(Vec<char>, Secret)> = Vec::new();
    let mut i: usize = 0;
    while i < keyed.len()
        invariant
            i <= keyed.len(),
            work.deep_view() == sorted_by_key(keyed.deep_view().take(i as int)),
        decreases keyed.len() - i,
    {
        let pair = &keyed[i];
        let key = chars_of(pair.0.as_str());
        let ghost before = work.deep_view();
        let mut pos: usize = work.len();
        while pos > 0 && !chars_le(&work[pos - 1].0, &key)
            invariant
                pos <= work.len(),
                work.deep_view() == before,
                forall|j: int| pos <= j < before.len() ==> !lex_le((#[trigger] before[j]).0, key@),
            decreases pos,
        {
            assert(before[pos - 1].0 =~= work[pos - 1].0@);
            pos -= 1;
        }
        proof {
            let all = keyed.deep_view();
            assert(all.take(i + 1).drop_last() =~= all.take(i as int));
            assert(all.take(i + 1).last() == (pair.0@, pair.1@));
            if pos > 0 {
                assert(before[pos - 1].0 =~= work[pos - 1].0@);
            }
            lemma_insert_position(before, (key@, pair.1@), pos as int);
        }
        work.insert(pos, (key, Secret { label: pair.1.label.clone(), value: pair.1.value.clone() }));
        proof {
            assert(work[pos as int].0.deep_view() =~= key@);
            assert(work.deep_view() =~= before.insert(pos as int, (key@, pair.1@)));
        }
        i += 1;
    }
    proof {
        assert(keyed.deep_view().take(keyed.len() as int) =~= keyed.deep_view());
    }
    let mut sorted: Vec<Secret> = Vec::new();
    let mut j: usize = 0;
    while j < work.len()
        invariant
            j <= work.len(),
            sorted.deep_view() == entries_of(work.deep_view()).take(j as int),
        decreases work.len() - j,
    {
        let ghost before = sorted.deep_view();
        let secret = &work[j].1;
        sorted.push(Secret { label: secret.label.clone(), value: secret.value.clone() });
        proof {
            assert(sorted.deep_view() =~= before.push(secret@));
            assert(entries_of(work.deep_view()).take(j + 1) =~= entries_of(work.deep_view()).take(
                j as int,
            ).push(secret@));
        }
        j += 1;
    }
    proof {
        assert(entries_of(work.deep_view()).take(work.len() as int) =~= entries_of(work.deep_view()));
    }
    sorted
}

/// Orders secrets by their labels in lower case, ascending, by the code
/// points of the characters. Secrets whose labels agree in lower case keep
/// the order in which they came.
pub fn sort_by_label(secrets: &Vec<Secret>) -> (sorted: Vec<Secret>)
    ensures
        sorted.deep_view() == sorted_by_label(secrets.deep_view()),
{
    let mut keyed: Vec<(String, Secret)> = Vec::new();
    let mut i: usize = 0;
    while i < secrets.len()
        invariant
            i <= secrets.len(),
            keyed.deep_view() == keyed_by_label(secrets.deep_view().take(i as int)),
        decreases secrets.len() - i,
    {
        let secret = &secrets[i];
        let ghost before = keyed.deep_view();
        let key = lowercase(secret.label.as_str());
        keyed.push((key, Secret { label: secret.label.clone(), value: secret.value.clone() }));
        proof {
            let all = secrets.deep_view();
            assert(keyed.deep_view() =~= before.push((sort_key(secret@), secret@)));
            assert(keyed_by_label(all.take(i + 1)) =~= keyed_by_label(all.take(i as int)).push(
                (sort_key(secret@), secret@),
            ));
        }
        i += 1;
    }
    proof {
        assert(secrets.deep_view().take(secrets.len() as int) =~= secrets.deep_view());
    }
    sort_by_key(&keyed)
}

} // verus!
