//! The command grammar: one input line is split into whitespace-separated
//! tokens and read as `GET <key>`, `SET <key> <value>` or `DELETE <key>`;
//! anything else is `Unknown`. Parsing is total and has no side effects.

use vstd::prelude::*;

use crate::strops::str_eq;

verus! {

/// The whitespace characters that separate tokens and that are stripped from
/// the ends of a line: space, tab, carriage return and newline.
pub open spec fn is_ws(c: char) -> bool {
    c == ' ' || c == '\t' || c == '\r' || c == '\n'
}

/// The position just past the token that starts at `i`: the first position at
/// or after `i` that is the end of the line or holds whitespace.
pub open spec fn token_end(s: Seq<char>, i: int) -> int
    decreases s.len() - i when 0 <= i <= s.len()
{
    if i == s.len() || is_ws(s[i]) {
        i
    } else {
        token_end(s, i + 1)
    }
}

pub proof fn lemma_token_end_bounds(s: Seq<char>, i: int)
    requires
        0 <= i <= s.len(),
    ensures
        i <= token_end(s, i) <= s.len(),
    decreases s.len() - i,
{
    if i < s.len() && !is_ws(s[i]) {
        lemma_token_end_bounds(s, i + 1);
    }
}

/// The whitespace-separated tokens of `s` from position `i` on, in order.
pub open spec fn toks(s: Seq<char>, i: int) -> Seq<Seq<char>>
    decreases s.len() - i when 0 <= i <= s.len()
{
    if i == s.len() {
        Seq::empty()
    } else if is_ws(s[i]) {
        toks(s, i + 1)
    } else {
        proof {
            lemma_token_end_bounds(s, i + 1);
        }
        seq![s.subrange(i, token_end(s, i))] + toks(s, token_end(s, i))
    }
}

/// One parsed client command.
pub enum Command {
    Get(String),
    Put(String, String),
    Delete(String),
    Unknown,
}

/// The mathematical form of a command: its keys and values as character
/// sequences.
pub enum CommandView {
    Get(Seq<char>),
    Put(Seq<char>, Seq<char>),
    Delete(Seq<char>),
    Unknown,
}

impl View for Command {
    type V = CommandView;

    open spec fn view(&self) -> CommandView {
        match self {
            Command::Get(k) => CommandView::Get(k@),
            Command::Put(k, v) => CommandView::Put(k@, v@),
            Command::Delete(k) => CommandView::Delete(k@),
            Command::Unknown => CommandView::Unknown,
        }
    }
}

/// The meaning of one input line. The grammar is fixed on whole tokens:
/// `GET` and `DELETE` take exactly two tokens, `SET` exactly three, the verb
/// is a case-sensitive exact match, and every other line is `Unknown`.
pub open spec fn spec_parse(line: Seq<char>) -> CommandView {
    let ts = toks(line, 0);
    if ts.len() == 2 && ts[0] == "GET"@ {
        CommandView::Get(ts[1])
    } else if ts.len() == 3 && ts[0] == "SET"@ {
        CommandView::Put(ts[1], ts[2])
    } else if ts.len() == 2 && ts[0] == "DELETE"@ {
        CommandView::Delete(ts[1])
    } else {
        CommandView::Unknown
    }
}

fn is_ws_exec(c: char) -> (b: bool)
    ensures
        b == is_ws(c),
{
    c == ' ' || c == '\t' || c == '\r' || c == '\n'
}

fn token_end_exec(s: &str, i: usize) -> (j: usize)
    requires
        i <= s@.len(),
    ensures
        j == token_end(s@, i as int),
        i <= j <= s@.len(),
    decreases s@.len() - i,
{
    let n = s.unicode_len();
    if i == n {
        i
    } else {
        let c = s.get_char(i);
        if is_ws_exec(c) {
            i
        } else {
            token_end_exec(s, i + 1)
        }
    }
}

fn tokenize(s: &str, i: usize) -> (r: Vec<String>)
    requires
        i <= s@.len(),
    ensures
        r@.map_values(|t: String| t@) == toks(s@, i as int),
    decreases s@.len() - i,
{
    let n = s.unicode_len();
    if i == n {
        let r: Vec<String> = Vec::new();
        proof {
            assert(r@.map_values(|t: String| t@) =~= toks(s@, i as int));
        }
        r
    } else {
        let c = s.get_char(i);
        if is_ws_exec(c) {
            tokenize(s, i + 1)
        } else {
            let j = token_end_exec(s, i);
            proof {
                lemma_token_end_bounds(s@, i as int + 1);
            }
            let t = s.substring_char(i, j);
            let tok = t.to_owned();
            let mut rest = tokenize(s, j);
            rest.insert(0, tok);
            proof {
                assert(rest@.map_values(|t: String| t@) =~= seq![
                    s@.subrange(i as int, j as int),
                ] + toks(s@, j as int));
            }
            rest
        }
    }
}

impl Command {
    /// Parse one line of client input; total, and `Unknown` on anything that
    /// is not a well-formed command.
    pub fn parse(line: &str) -> (c: Command)
        ensures
            c@ == spec_parse(line@),
    {
        let ts = tokenize(line, 0);
        proof {
            if ts@.len() >= 1 {
                assert(ts@.map_values(|t: String| t@)[0] == ts@[0]@);
            }
            if ts@.len() >= 2 {
                assert(ts@.map_values(|t: String| t@)[1] == ts@[1]@);
            }
            if ts@.len() >= 3 {
                assert(ts@.map_values(|t: String| t@)[2] == ts@[2]@);
            }
        }
        if ts.len() == 2 {
            if str_eq(ts[0].as_str(), "GET") {
                Command::Get(ts[1].clone())
            } else if str_eq(ts[0].as_str(), "DELETE") {
                Command::Delete(ts[1].clone())
            } else {
                Command::Unknown
            }
        } else if ts.len() == 3 {
            if str_eq(ts[0].as_str(), "SET") {
                Command::Put(ts[1].clone(), ts[2].clone())
            } else {
                Command::Unknown
            }
        } else {
            Command::Unknown
        }
    }
}

} // verus!
