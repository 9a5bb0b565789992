//! The line parser of the adapter protocol: one command per line,
//! words separated by single spaces.

use vstd::prelude::*;
use crate::command::Command;
use crate::text::str_eq;

verus! {

/// The index of the first space at or after `from`, or the end of the
/// text if there is none.
pub open spec fn first_space(s: Seq<char>, from: int) -> int
    decreases s.len() - from,
{
    if from >= s.len() {
        from
    } else if s[from] == ' ' {
        from
    } else {
        first_space(s, from + 1)
    }
}

proof fn lemma_first_space(s: Seq<char>, from: int)
    requires
        0 <= from <= s.len(),
    ensures
        from <= first_space(s, from) <= s.len(),
    decreases s.len() - from,
{
    if from < s.len() && s[from] != ' ' {
        lemma_first_space(s, from + 1);
    }
}

/// Where the space layout is known, the first space can be named.
proof fn lemma_first_space_at(s: Seq<char>, from: int, j: int)
    requires
        0 <= from <= j <= s.len(),
        forall|k: int| from <= k < j ==> s[k] != ' ',
        j == s.len() || s[j] == ' ',
    ensures
        first_space(s, from) == j,
    decreases j - from,
{
    if from < j {
        lemma_first_space_at(s, from + 1, j);
    }
}

/// The words of `s`, split at every single space; empty words are
/// kept, and an empty text is one empty word.
pub open spec fn split_from(s: Seq<char>, from: int) -> Seq<Seq<char>>
    decreases s.len() - from + 1,
    via split_from_decreases
{
    if !(0 <= from <= s.len()) {
        Seq::empty()
    } else {
        let j = first_space(s, from);
        if j >= s.len() {
            seq![s.subrange(from, s.len() as int)]
        } else {
            seq![s.subrange(from, j)] + split_from(s, j + 1)
        }
    }
}

#[via_fn]
proof fn split_from_decreases(s: Seq<char>, from: int) {
    if 0 <= from <= s.len() {
        lemma_first_space(s, from);
    }
}

/// The words of the whole line.
pub open spec fn words_of(s: Seq<char>) -> Seq<Seq<char>> {
    split_from(s, 0)
}

/// Whether the line is a well-formed command.
pub open spec fn parse_ok(s: Seq<char>) -> bool {
    let w = words_of(s);
    ||| (w[0] == "read"@ && w.len() == 2)
    ||| (w[0] == "write"@ && w.len() == 3)
    ||| (w[0] == "commit"@ && w.len() == 1)
    ||| (w[0] == "rollback"@ && w.len() == 1)
}

/// The command a well-formed line denotes.
pub open spec fn cmd_matches(s: Seq<char>, c: Command) -> bool {
    let w = words_of(s);
    match c {
        Command::Read { key } => w[0] == "read"@ && w.len() == 2 && key@ == w[1],
        Command::Write { key, value } => w[0] == "write"@ && w.len() == 3 && key@ == w[1]
            && value@ == w[2],
        Command::Commit => w[0] == "commit"@ && w.len() == 1,
        Command::Rollback => w[0] == "rollback"@ && w.len() == 1,
    }
}

/// The complaint an ill-formed line earns.
pub open spec fn err_msg(s: Seq<char>) -> Seq<char> {
    let w = words_of(s);
    if w[0] == "read"@ {
        "`read` takes exactly 1 argument"@
    } else if w[0] == "write"@ {
        "`write` takes exactly 2 arguments"@
    } else if w[0] == "commit"@ {
        "`commit` takes no arguments"@
    } else if w[0] == "rollback"@ {
        "`rollback` takes no arguments"@
    } else {
        "Unknown command: "@ + w[0]
    }
}

/// An ill-formed command line, with the complaint.
#[derive(Debug, Clone)]
pub struct ParseError {
    message: String,
}

impl ParseError {
    /// The complaint.
    pub closed spec fn view(&self) -> Seq<char> {
        self.message@
    }

    /// Wraps a complaint.
    pub fn new(message: String) -> (e: ParseError)
        ensures
            e@ == message@,
    {
        ParseError { message }
    }

    /// The complaint, as text.
    pub fn message(&self) -> (m: &String)
        ensures
            m@ == self@,
    {
        &self.message
    }
}

/// Splits the line at its spaces.
fn split_words<'a>(s: &'a str) -> (words: Vec<&'a str>)
    ensures
        words@.map_values(|w: &str| w@) == words_of(s@),
{
    let n = s.unicode_len();
    let mut words: Vec<&str> = Vec::new();
    let mut start: usize = 0;
    let mut i: usize = 0;
    while i < n
        invariant
            n == s@.len(),
            start <= i <= n,
            forall|k: int| start <= k < i ==> s@[k] != ' ',
            words_of(s@) == words@.map_values(|w: &str| w@) + split_from(s@, start as int),
        decreases n - i,
    {
        if s.get_char(i) == ' ' {
            let word = s.substring_char(start, i);
            let ghost before = words@.map_values(|w: &str| w@);
            words.push(word);
            proof {
                lemma_first_space_at(s@, start as int, i as int);
                assert(words@.map_values(|w: &str| w@) =~= before.push(word@));
                assert(before.push(word@) + split_from(s@, i + 1) =~= before + (seq![
                    s@.subrange(start as int, i as int),
                ] + split_from(s@, i + 1)));
            }
            start = i + 1;
        }
        i = i + 1;
    }
    let word = s.substring_char(start, n);
    let ghost before = words@.map_values(|w: &str| w@);
    words.push(word);
    proof {
        lemma_first_space_at(s@, start as int, n as int);
        assert(words@.map_values(|w: &str| w@) =~= before.push(word@));
        assert(before.push(word@) =~= before + seq![s@.subrange(start as int, n as int)]);
    }
    words
}

/// Parses one command line: the command word, then its arguments,
/// separated by single spaces.
pub fn parse(s: &str) -> (r: Result<Command, ParseError>)
    ensures
        (match r {
            Ok(c) => parse_ok(s@) && cmd_matches(s@, c),
            Err(e) => !parse_ok(s@) && e@ == err_msg(s@),
        }),
{
    let words = split_words(s);
    let ghost w = words_of(s@);
    proof {
        reveal_strlit("read");
        reveal_strlit("write");
        reveal_strlit("commit");
        reveal_strlit("rollback");
        assert(w.len() == words@.len());
        assert(forall|i: int| 0 <= i < words@.len() ==> w[i] == (#[trigger] words@[i])@);
    }
    let name = words[0];
    if str_eq(name, "read") {
        if words.len() != 2 {
            return Err(ParseError::new(String::from_str("`read` takes exactly 1 argument")));
        }
        Ok(Command::Read { key: String::from_str(words[1]) })
    } else if str_eq(name, "write") {
        if words.len() != 3 {
            return Err(ParseError::new(String::from_str("`write` takes exactly 2 arguments")));
        }
        Ok(Command::Write {
            key: String::from_str(words[1]),
            value: String::from_str(words[2]),
        })
    } else if str_eq(name, "commit") {
        if words.len() != 1 {
            return Err(ParseError::new(String::from_str("`commit` takes no arguments")));
        }
        Ok(Command::Commit)
    } else if str_eq(name, "rollback") {
        if words.len() != 1 {
            return Err(ParseError::new(String::from_str("`rollback` takes no arguments")));
        }
        Ok(Command::Rollback)
    } else {
        let mut message = String::from_str("Unknown command: ");
        message.append(name);
        Err(ParseError::new(message))
    }
}

} // verus!
