//! Quoting a string so that a POSIX shell reads it back as one word.

use vstd::prelude::*;

verus! {

/// A character that a shell takes literally wherever it stands: an ASCII
/// letter or digit, or one of `- _ = / , . +`.
pub open spec fn is_plain_char(c: char) -> bool {
    ||| 'a' <= c <= 'z'
    ||| 'A' <= c <= 'Z'
    ||| '0' <= c <= '9'
    ||| c == '-'
    ||| c == '_'
    ||| c == '='
    ||| c == '/'
    ||| c == ','
    ||| c == '.'
    ||| c == '+'
}

/// A string that needs no quoting: not empty, and plain characters only.
pub open spec fn is_plain_word(s: Seq<char>) -> bool {
    s.len() > 0 && forall|i: int| 0 <= i < s.len() ==> is_plain_char(#[trigger] s[i])
}

/// What one character becomes between single quotes. A single quote and an
/// exclamation mark close the quotes, stand behind a backslash, and open the
/// quotes again; every other character stands for itself.
pub open spec fn quoted_char(c: char) -> Seq<char> {
    if c == '\'' || c == '!' {
        seq!['\'', '\\', c, '\'']
    } else {
        seq![c]
    }
}

/// The characters of `s`, each as `quoted_char` gives it, in order.
pub open spec fn quoted_body(s: Seq<char>) -> Seq<char>
    decreases s.len(),
{
    if s.len() == 0 {
        Seq::empty()
    } else {
        quoted_char(s.first()) + quoted_body(s.drop_first())
    }
}

/// The shell word for `s`: `s` itself where it is a plain word, else its
/// quoted body between single quotes. The empty string becomes `''`.
pub open spec fn shell_quoted(s: Seq<char>) -> Seq<char> {
    if is_plain_word(s) {
        s
    } else {
        seq!['\''] + quoted_body(s) + seq!['\'']
    }
}

/// Calls `shell_escape::unix::escape`. The contract writes out what that
/// function does: a non-empty string of characters on its list of safe ones
/// comes back as it is; any other string is put between single quotes, with
/// `'\` before and `'` behind each single quote and exclamation mark.
#[verifier::external_body]
pub(crate) fn shell_quote(s: &str) -> (quoted: String)
    ensures
        quoted@ == shell_quoted(s@),
{
    shell_escape::unix::escape(std::borrow::Cow::Borrowed(s)).into_owned()
}

/// Puts a character before what was read, where something was read.
pub open spec fn read_after(c: char, rest: Option<Seq<char>>) -> Option<Seq<char>> {
    match rest {
        Some(r) => Some(seq![c] + r),
        None => None,
    }
}

/// The string that a POSIX shell takes the word `w` for, by the rules of
/// quote removal: between single quotes every character stands for itself;
/// outside them a backslash makes the next character stand for itself, and a
/// plain character does so anyway. `quoted` says whether the reading starts
/// between single quotes. The result is `None` where the quotes are left
/// open, where a backslash ends the word or stands before a line feed, and
/// where a character outside quotes is not plain, so that the shell might
/// split or expand the word there.
pub open spec fn shell_reads(w: Seq<char>, quoted: bool) -> Option<Seq<char>>
    decreases w.len(),
{
    if w.len() == 0 {
        if quoted {
            None
        } else {
            Some(Seq::empty())
        }
    } else if quoted {
        if w[0] == '\'' {
            shell_reads(w.drop_first(), false)
        } else {
            read_after(w[0], shell_reads(w.drop_first(), true))
        }
    } else if w[0] == '\'' {
        shell_reads(w.drop_first(), true)
    } else if w[0] == '\\' {
        if w.len() >= 2 && w[1] != '\n' {
            read_after(w[1], shell_reads(w.skip(2), false))
        } else {
            None
        }
    } else if is_plain_char(w[0]) {
        read_after(w[0], shell_reads(w.drop_first(), false))
    } else {
        None
    }
}

/// A plain word is read as itself.
pub proof fn lemma_plain_word_reads_back(s: Seq<char>)
    requires
        forall|i: int| 0 <= i < s.len() ==> is_plain_char(#[trigger] s[i]),
    ensures
        shell_reads(s, false) == Some(s),
    decreases s.len(),
{
    if s.len() > 0 {
        let rest = s.drop_first();
        assert forall|i: int| 0 <= i < rest.len() implies is_plain_char(#[trigger] rest[i]) by {
            assert(rest[i] == s[i + 1]);
        }
        lemma_plain_word_reads_back(rest);
        assert(is_plain_char(s[0]));
        assert(seq![s[0]] + rest =~= s);
    }
}

/// Read from between single quotes, a quoted body and the quote that closes
/// it give the string back.
pub proof fn lemma_quoted_body_reads_back(s: Seq<char>)
    ensures
        shell_reads(quoted_body(s) + seq!['\''], true) == Some(s),
    decreases s.len(),
{
    let close = seq!['\''];
    let w = quoted_body(s) + close;
    if s.len() == 0 {
        assert(w =~= close);
        assert(w.drop_first() =~= Seq::<char>::empty());
        assert(shell_reads(w.drop_first(), false) == Some(Seq::<char>::empty()));
        assert(shell_reads(w, true) == shell_reads(w.drop_first(), false));
        assert(s =~= Seq::<char>::empty());
    } else {
        let c = s.first();
        let rest = s.drop_first();
        let tail = quoted_body(rest) + close;
        lemma_quoted_body_reads_back(rest);
        assert(seq![c] + rest =~= s);
        if c == '\'' || c == '!' {
            assert(w =~= seq!['\'', '\\', c, '\''] + tail);
            let w1 = w.drop_first();
            assert(w1 =~= seq!['\\', c, '\''] + tail);
            let w2 = w1.skip(2);
            assert(w2 =~= seq!['\''] + tail);
            assert(w2.drop_first() =~= tail);
            assert(w[0] == '\'');
            assert(shell_reads(w, true) == shell_reads(w1, false));
            assert(w1[0] == '\\' && w1[1] == c && w1.len() >= 2);
            assert(shell_reads(w1, false) == read_after(c, shell_reads(w2, false)));
            assert(w2[0] == '\'');
            assert(shell_reads(w2, false) == shell_reads(tail, true));
        } else {
            assert(w =~= seq![c] + tail);
            assert(w.drop_first() =~= tail);
            assert(w[0] == c);
            assert(shell_reads(w, true) == read_after(c, shell_reads(tail, true)));
        }
    }
}

/// Quoting loses nothing: a shell that reads the quoted form of any string
/// as one word gets exactly that string, whatever it holds (quotes, `$`,
/// backslashes, blanks, line feeds, nothing at all).
pub proof fn lemma_quoting_round_trip(s: Seq<char>)
    ensures
        shell_reads(shell_quoted(s), false) == Some(s),
{
    if is_plain_word(s) {
        lemma_plain_word_reads_back(s);
    } else {
        let w = shell_quoted(s);
        let tail = quoted_body(s) + seq!['\''];
        assert(w =~= seq!['\''] + tail);
        assert(w.drop_first() =~= tail);
        assert(w[0] == '\'');
        lemma_quoted_body_reads_back(s);
    }
}

} // verus!
