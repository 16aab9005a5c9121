//! Per-line dispatch of the connection handler: one line of client input is
//! parsed, applied to the store, and answered with exactly one response line.
//! The surrounding read/write loop lives with the I/O; everything it decides
//! per line is here.

use vstd::prelude::*;
use vstd::string::*;

use crate::command::{spec_parse, Command, CommandView};
use crate::store::KeyValueStore;

verus! {

/// The store contents after one input line has been handled: `SET` inserts,
/// `DELETE` removes, everything else leaves the store untouched.
pub open spec fn spec_apply(m: Map<Seq<char>, Seq<char>>, line: Seq<char>) -> Map<
    Seq<char>,
    Seq<char>,
> {
    match spec_parse(line) {
        CommandView::Put(k, v) => m.insert(k, v),
        CommandView::Delete(k) => m.remove(k),
        _ => m,
    }
}

/// The one response line owed for an input line against store contents `m`.
pub open spec fn spec_response(m: Map<Seq<char>, Seq<char>>, line: Seq<char>) -> Seq<char> {
    match spec_parse(line) {
        CommandView::Get(k) => if m.contains_key(k) {
            "VALUE "@ + m[k] + "\n"@
        } else {
            "ERROR Key not found\n"@
        },
        CommandView::Put(k, v) => "OK\n"@,
        CommandView::Delete(k) => if m.contains_key(k) {
            "OK\n"@
        } else {
            "ERROR Key not found\n"@
        },
        CommandView::Unknown => "ERROR Unknown Command\n"@,
    }
}

/// Handle one line of client input: parse it, perform the one store
/// operation it asks for, and return the one response line to write back.
pub fn process_line(store: &mut KeyValueStore, line: &str) -> (resp: String)
    requires
        old(store).wf(),
    ensures
        final(store).wf(),
        final(store)@ == spec_apply(old(store)@, line@),
        resp@ == spec_response(old(store)@, line@),
{
    match Command::parse(line) {
        Command::Get(k) => match store.get(k.as_str()) {
            Some(v) => {
                let mut r = String::from_str("VALUE ");
                r.append(v.as_str());
                r.append("\n");
                r
            },
            None => String::from_str("ERROR Key not found\n"),
        },
        Command::Put(k, v) => {
            store.set(k, v);
            String::from_str("OK\n")
        },
        Command::Delete(k) => match store.delete(k.as_str()) {
            Ok(true) => String::from_str("OK\n"),
            Ok(false) => String::from_str("ERROR Key not found\n"),
            // The store's contract rules a failure out today; the arm stays
            // for the reserved error channel.
            Err(_) => String::from_str("ERROR store failure\n"),
        },
        Command::Unknown => String::from_str("ERROR Unknown Command\n"),
    }
}

/// A malformed line is harmless: whatever the store holds, a line that parses
/// to no command leaves the store exactly as it was and is answered with
/// `ERROR Unknown Command`.
pub proof fn lemma_unknown_is_harmless(m: Map<Seq<char>, Seq<char>>, line: Seq<char>)
    requires
        spec_parse(line) is Unknown,
    ensures
        spec_apply(m, line) == m,
        spec_response(m, line) == "ERROR Unknown Command\n"@,
{
}

} // verus!
