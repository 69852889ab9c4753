//! The command executor: applies one parsed command to the store, shapes the
//! reply text, and decides whether the raw line is to be recorded in the
//! persistence log.
//!
//! The executor is stateless between calls; the only lasting state is the
//! store (and, outside this module, the log). It never performs I/O itself:
//! the line to append, if any, is handed back to the caller, so that no file
//! write happens while the store is held exclusively.

use crate::lexer::{
    is_add_line, is_del_line, is_get_line, key_of, parse_ok, value_of, Command, Lexer,
};
use crate::store::Store;
use vstd::prelude::*;

verus! {

/// What executing one line hands back: the reply to send to the client, if
/// any, and the raw line to append to the persistence log, if any.
pub struct Outcome {
    pub reply: Option<String>,
    pub log_entry: Option<String>,
}

/// The store mapping after one raw line is executed against `m`: `ADD`
/// binds, `DEL` unbinds, everything else leaves the store untouched.
pub open spec fn apply_line(m: Map<Seq<char>, Seq<char>>, s: Seq<char>) -> Map<
    Seq<char>,
    Seq<char>,
> {
    if parse_ok(s) {
        if is_add_line(s) {
            m.insert(key_of(s), value_of(s))
        } else if is_del_line(s) {
            m.remove(key_of(s))
        } else {
            m
        }
    } else {
        m
    }
}

/// The reply produced for one raw line executed against store state `m`:
/// `Invalid command` for malformed input, the stored value or `Key not
/// found` for `GET`, and no reply for the mutating commands.
pub open spec fn reply_of(m: Map<Seq<char>, Seq<char>>, s: Seq<char>) -> Option<Seq<char>> {
    if !parse_ok(s) {
        Some("Invalid command"@)
    } else if is_get_line(s) {
        if m.contains_key(key_of(s)) {
            Some(m[key_of(s)])
        } else {
            Some("Key not found"@)
        }
    } else {
        None
    }
}

/// Whether an executed line belongs in the persistence log: exactly the
/// well-formed mutating commands. Malformed lines and lookups are never
/// persisted.
pub open spec fn logs_line(s: Seq<char>) -> bool {
    parse_ok(s) && (is_add_line(s) || is_del_line(s))
}

/// The store mapping after a sequence of raw lines is executed in order.
pub open spec fn run_lines(m: Map<Seq<char>, Seq<char>>, ls: Seq<Seq<char>>) -> Map<
    Seq<char>,
    Seq<char>,
>
    decreases ls.len(),
{
    if ls.len() == 0 {
        m
    } else {
        run_lines(apply_line(m, ls[0]), ls.skip(1))
    }
}

/// Executing one more line after a sequence is the sequence's result with
/// that line applied on top.
pub proof fn lemma_run_lines_push(m: Map<Seq<char>, Seq<char>>, ls: Seq<Seq<char>>, l: Seq<char>)
    ensures
        run_lines(m, ls.push(l)) == apply_line(run_lines(m, ls), l),
    decreases ls.len(),
{
    if ls.len() == 0 {
        assert(ls.push(l)[0] == l);
        assert(ls.push(l).skip(1) =~= Seq::<Seq<char>>::empty());
        assert(run_lines(m, ls.push(l)) == run_lines(apply_line(m, l), Seq::<Seq<char>>::empty()));
        assert(run_lines(apply_line(m, l), Seq::<Seq<char>>::empty()) == apply_line(m, l));
        assert(run_lines(m, ls) == m);
    } else {
        assert(ls.push(l)[0] == ls[0]);
        assert(ls.push(l).skip(1) =~= ls.skip(1).push(l));
        assert(run_lines(m, ls.push(l)) == run_lines(apply_line(m, ls[0]), ls.skip(1).push(l)));
        lemma_run_lines_push(apply_line(m, ls[0]), ls.skip(1), l);
        assert(run_lines(m, ls) == run_lines(apply_line(m, ls[0]), ls.skip(1)));
    }
}

/// Executes one raw line against the store.
///
/// The store afterwards is `apply_line` of the store before; the reply is
/// exactly `reply_of` the store before; and the raw line is handed back for
/// appending to the log exactly when persistence is asked for and the line
/// is a well-formed mutating command.
pub fn handle_command(store: &mut Store, raw_line: &str, apply_persistence: bool) -> (out: Outcome)
    requires
        old(store).wf(),
    ensures
        final(store).wf(),
        final(store)@ == apply_line(old(store)@, raw_line@),
        (out.reply is Some) == (reply_of(old(store)@, raw_line@) is Some),
        out.reply matches Some(r) ==> Some(r@) == reply_of(old(store)@, raw_line@),
        (out.log_entry is Some) == (apply_persistence && logs_line(raw_line@)),
        out.log_entry matches Some(l) ==> l@ == raw_line@,
{
    let parsed = Lexer::parse(raw_line.to_owned());
    match parsed {
        Err(_) => Outcome { reply: Some("Invalid command".to_owned()), log_entry: None },
        Ok((command, key, value)) => match command {
            Command::Add => {
                store.insert(key, value);
                let log_entry = if apply_persistence {
                    Some(raw_line.to_owned())
                } else {
                    None
                };
                Outcome { reply: None, log_entry }
            },
            Command::Get => match store.lookup(&key) {
                Some(v) => Outcome { reply: Some(v), log_entry: None },
                None => Outcome { reply: Some("Key not found".to_owned()), log_entry: None },
            },
            Command::Delete => {
                store.delete(&key);
                let log_entry = if apply_persistence {
                    Some(raw_line.to_owned())
                } else {
                    None
                };
                Outcome { reply: None, log_entry }
            },
            Command::Invalid => Outcome {
                reply: Some("Invalid command".to_owned()),
                log_entry: None,
            },
        },
    }
}

/// Replays historical log lines into the store, in order, with persistence
/// suppressed: replayed lines are never appended back to the log, and a
/// malformed line takes the parser's normal invalid-input path (a no-op on
/// the store).
pub fn replay(store: &mut Store, lines: &Vec<String>)
    requires
        old(store).wf(),
    ensures
        final(store).wf(),
        final(store)@ == run_lines(old(store)@, lines@.map_values(|l: String| l@)),
{
    let ghost m0 = store@;
    let ghost vs = lines@.map_values(|l: String| l@);
    let n = lines.len();
    let mut i: usize = 0;
    while i < n
        invariant
            store.wf(),
            n == lines@.len(),
            i <= n,
            vs == lines@.map_values(|l: String| l@),
            store@ == run_lines(m0, vs.take(i as int)),
        decreases n - i,
    {
        let _ = handle_command(store, lines[i].as_str(), false);
        proof {
            lemma_run_lines_push(m0, vs.take(i as int), vs[i as int]);
            assert(vs.take(i as int).push(vs[i as int]) =~= vs.take(i as int + 1));
        }
        i += 1;
    }
    proof {
        assert(vs.take(n as int) =~= vs);
    }
}

} // verus!
