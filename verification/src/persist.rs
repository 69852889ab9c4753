//! The persistence-log codec: how one committed command line becomes one
//! record of the append-only log file, how the file's text splits back into
//! records at startup, and the proof that replaying a decoded log rebuilds
//! the store that produced it.
//!
//! A record is the raw command line with trailing line-terminator characters
//! removed, followed by exactly one `'\n'`. Reading the file back splits at
//! each `'\n'` and drops one trailing `'\r'` per record, the way a line
//! reader does. Records are kept in strict append order: no reordering, no
//! deduplication.

use crate::executor::{apply_line, logs_line, run_lines};
use vstd::prelude::*;
use vstd::string::StrSliceExecFns;
use vstd::string::StringExecFns;

verus! {

/// A line-terminator character.
pub open spec fn is_terminator(c: char) -> bool {
    c == '\n' || c == '\r'
}

/// `s` without its trailing line-terminator characters.
pub open spec fn trimmed(s: Seq<char>) -> Seq<char>
    decreases s.len(),
{
    if s.len() > 0 && is_terminator(s.last()) {
        trimmed(s.drop_last())
    } else {
        s
    }
}

/// `trimmed(s)` is the prefix of `s` that ends at the last non-terminator
/// character.
proof fn lemma_trimmed_take(s: Seq<char>, e: int)
    requires
        0 <= e <= s.len(),
        forall|j: int| e <= j < s.len() ==> is_terminator(s[j]),
        e > 0 ==> !is_terminator(s[e - 1]),
    ensures
        trimmed(s) == s.take(e),
    decreases s.len(),
{
    if s.len() > e {
        assert(is_terminator(s.last()));
        lemma_trimmed_take(s.drop_last(), e);
        assert(s.drop_last().take(e) =~= s.take(e));
    } else {
        assert(s.take(e) =~= s);
    }
}

/// Whether `c` is a line terminator.
fn terminator(c: char) -> (b: bool)
    ensures
        b == is_terminator(c),
{
    c == '\n' || c == '\r'
}

/// Encodes one raw command line as one log record: the line with trailing
/// terminators removed, then exactly one `'\n'`.
pub fn encode_record(line: &str) -> (r: String)
    ensures
        r@ == trimmed(line@).push('\n'),
{
    let n = line.unicode_len();
    let mut e = n;
    while e > 0 && terminator(line.get_char(e - 1))
        invariant
            n == line@.len(),
            e <= n,
            forall|j: int| e <= j < n ==> is_terminator(line@[j]),
        decreases e,
    {
        e -= 1;
    }
    proof {
        lemma_trimmed_take(line@, e as int);
    }
    let mut r = line.substring_char(0, e).to_owned();
    r.append("\n");
    proof {
        reveal_strlit("\n");
        assert(r@ =~= trimmed(line@).push('\n'));
    }
    r
}

/// Index of the first `'\n'` at or after `i`, or the text's end.
pub open spec fn newline_at(s: Seq<char>, i: int) -> int
    decreases s.len() - i
        when 0 <= i <= s.len()
{
    if i >= s.len() {
        i
    } else if s[i] == '\n' {
        i
    } else {
        newline_at(s, i + 1)
    }
}

/// `newline_at(s, i)` is the unique index `j` with no `'\n'` in `[i, j)` and
/// a `'\n'` (or the text's end) at `j`.
proof fn lemma_newline_at(s: Seq<char>, i: int)
    requires
        0 <= i <= s.len(),
    ensures
        i <= newline_at(s, i) <= s.len(),
        forall|m: int| i <= m < newline_at(s, i) ==> s[m] != '\n',
        newline_at(s, i) < s.len() ==> s[newline_at(s, i)] == '\n',
    decreases s.len() - i,
{
    if i < s.len() && s[i] != '\n' {
        lemma_newline_at(s, i + 1);
    }
}

/// Converse of `lemma_newline_at`.
proof fn lemma_newline_at_unique(s: Seq<char>, i: int, j: int)
    requires
        0 <= i <= j <= s.len(),
        forall|m: int| i <= m < j ==> s[m] != '\n',
        j < s.len() ==> s[j] == '\n',
    ensures
        newline_at(s, i) == j,
    decreases j - i,
{
    if i < j {
        assert(s[i] != '\n');
        lemma_newline_at_unique(s, i + 1, j);
    }
}

/// A record with one trailing carriage return removed, as a line reader
/// removes it.
pub open spec fn drop_cr(s: Seq<char>) -> Seq<char> {
    if s.len() > 0 && s.last() == '\r' {
        s.drop_last()
    } else {
        s
    }
}

/// The records held by a log file's text: one per `'\n'`, a nonempty final
/// piece counting as a record too, each with one trailing `'\r'` removed.
pub open spec fn lines_of(s: Seq<char>) -> Seq<Seq<char>>
    decreases s.len(),
{
    if s.len() == 0 {
        Seq::empty()
    } else {
        let j = newline_at(s, 0);
        if 0 <= j < s.len() {
            seq![drop_cr(s.take(j))] + lines_of(s.skip(j + 1))
        } else {
            seq![drop_cr(s)]
        }
    }
}

/// One splitting step: the text from `pos` on starts with the record that
/// runs to the next `'\n'`.
proof fn lemma_lines_of_step(s: Seq<char>, pos: int)
    requires
        0 <= pos < s.len(),
    ensures
        newline_at(s, pos) < s.len() ==> lines_of(s.skip(pos)) == seq![
            drop_cr(s.subrange(pos, newline_at(s, pos))),
        ] + lines_of(s.skip(newline_at(s, pos) + 1)),
        newline_at(s, pos) == s.len() ==> lines_of(s.skip(pos)) == seq![
            drop_cr(s.subrange(pos, s.len() as int)),
        ],
{
    let t = s.skip(pos);
    let j = newline_at(s, pos);
    lemma_newline_at(s, pos);
    assert(forall|m: int| 0 <= m < j - pos ==> t[m] != '\n');
    lemma_newline_at_unique(t, 0, j - pos);
    assert(t.len() > 0);
    if j < s.len() {
        assert(t.take(j - pos) =~= s.subrange(pos, j));
        assert(t.skip(j - pos + 1) =~= s.skip(j + 1));
    } else {
        assert(t =~= s.subrange(pos, s.len() as int));
        assert(lines_of(t) == seq![drop_cr(t)]);
    }
}

/// Splits a log file's text back into the records it holds, in order.
pub fn decode_records(contents: &str) -> (r: Vec<String>)
    ensures
        r@.map_values(|x: String| x@) == lines_of(contents@),
{
    let ghost s = contents@;
    let n = contents.unicode_len();
    let mut out: Vec<String> = Vec::new();
    let mut pos: usize = 0;
    proof {
        assert(s.skip(0) =~= s);
        assert(out@.map_values(|x: String| x@) + lines_of(s) =~= lines_of(s));
    }
    while pos < n
        invariant
            s == contents@,
            n == s.len(),
            pos <= n,
            lines_of(s) == out@.map_values(|x: String| x@) + lines_of(s.skip(pos as int)),
        decreases n - pos,
    {
        let ghost out0 = out@;
        proof {
            lemma_lines_of_step(s, pos as int);
        }
        let j = newline_to(contents, pos, n);
        let end = if j > pos && contents.get_char(j - 1) == '\r' {
            j - 1
        } else {
            j
        };
        let piece = contents.substring_char(pos, end).to_owned();
        proof {
            assert(piece@ =~= drop_cr(s.subrange(pos as int, j as int)));
        }
        out.push(piece);
        proof {
            assert(out@.map_values(|x: String| x@) =~= out0.map_values(|x: String| x@)
                + seq![piece@]);
        }
        if j == n {
            pos = n;
            proof {
                assert(s.skip(pos as int) =~= Seq::<char>::empty());
                assert(lines_of(s) == out0.map_values(|x: String| x@) + seq![piece@]);
                assert(lines_of(s) =~= out@.map_values(|x: String| x@) + lines_of(
                    s.skip(pos as int),
                ));
            }
        } else {
            pos = j + 1;
            proof {
                assert(out0.map_values(|x: String| x@) + (seq![piece@] + lines_of(
                    s.skip(pos as int),
                )) =~= out@.map_values(|x: String| x@) + lines_of(s.skip(pos as int)));
            }
        }
    }
    proof {
        assert(s.skip(pos as int) =~= Seq::<char>::empty());
        assert(lines_of(s) =~= out@.map_values(|x: String| x@));
    }
    out
}

/// Scans from `from` to the first `'\n'` at or after it.
fn newline_to(s: &str, from: usize, n: usize) -> (j: usize)
    requires
        n == s@.len(),
        from <= n,
    ensures
        j as int == newline_at(s@, from as int),
        from <= j <= n,
{
    let mut i = from;
    while i < n
        invariant
            n == s@.len(),
            from <= i <= n,
            forall|m: int| from <= m < i ==> s@[m] != '\n',
        decreases n - i,
    {
        if s.get_char(i) == '\n' {
            proof {
                lemma_newline_at_unique(s@, from as int, i as int);
            }
            return i;
        }
        i += 1;
    }
    proof {
        lemma_newline_at_unique(s@, from as int, n as int);
    }
    n
}

/// A clean command line: free of line-terminator characters. One command
/// per line, so a line never contains one.
pub open spec fn clean_line(s: Seq<char>) -> bool {
    forall|i: int| 0 <= i < s.len() ==> !is_terminator(#[trigger] s[i])
}

/// The log records written while a sequence of lines is executed with
/// persistence on: exactly the well-formed mutating commands, in execution
/// order.
pub open spec fn log_of(ls: Seq<Seq<char>>) -> Seq<Seq<char>>
    decreases ls.len(),
{
    if ls.len() == 0 {
        Seq::empty()
    } else if logs_line(ls[0]) {
        seq![ls[0]] + log_of(ls.skip(1))
    } else {
        log_of(ls.skip(1))
    }
}

/// The full text of the log file after a sequence of records is appended.
pub open spec fn encode_all(rs: Seq<Seq<char>>) -> Seq<char>
    decreases rs.len(),
{
    if rs.len() == 0 {
        Seq::empty()
    } else {
        trimmed(rs[0]).push('\n') + encode_all(rs.skip(1))
    }
}

/// Trimming a clean line changes nothing.
proof fn lemma_trimmed_clean(s: Seq<char>)
    requires
        clean_line(s),
    ensures
        trimmed(s) == s,
{
}

/// Splitting the encoded records gives the records back, provided each is
/// clean.
proof fn lemma_decode_encode(rs: Seq<Seq<char>>)
    requires
        forall|i: int| 0 <= i < rs.len() ==> clean_line(#[trigger] rs[i]),
    ensures
        lines_of(encode_all(rs)) == rs,
    decreases rs.len(),
{
    if rs.len() > 0 {
        let r0 = rs[0];
        assert(clean_line(r0));
        lemma_trimmed_clean(r0);
        let e = encode_all(rs);
        let rest = encode_all(rs.skip(1));
        assert(e == r0.push('\n') + rest);
        assert(forall|m: int| 0 <= m < r0.len() ==> e[m] == r0[m]);
        assert(e[r0.len() as int] == '\n');
        assert(forall|m: int| 0 <= m < r0.len() ==> e[m] != '\n');
        lemma_newline_at_unique(e, 0, r0.len() as int);
        let j = newline_at(e, 0);
        assert(j == r0.len());
        assert(j < e.len());
        assert(e.take(j) =~= r0);
        assert(drop_cr(r0) == r0);
        assert(e.skip(j + 1) =~= rest);
        assert(forall|i: int|
            0 <= i < rs.skip(1).len() ==> clean_line(#[trigger] rs.skip(1)[i]));
        lemma_decode_encode(rs.skip(1));
        assert(lines_of(e) == seq![r0] + rs.skip(1));
        assert(seq![r0] + rs.skip(1) =~= rs);
    }
}

/// Replaying only the logged lines reaches the same store as executing all
/// of them: the lines that are not logged never mutate the store.
proof fn lemma_replay_logged(m: Map<Seq<char>, Seq<char>>, ls: Seq<Seq<char>>)
    ensures
        run_lines(m, log_of(ls)) == run_lines(m, ls),
    decreases ls.len(),
{
    if ls.len() > 0 {
        let l0 = ls[0];
        if logs_line(l0) {
            let rest = log_of(ls.skip(1));
            assert((seq![l0] + rest)[0] == l0);
            assert((seq![l0] + rest).skip(1) =~= rest);
            lemma_replay_logged(apply_line(m, l0), ls.skip(1));
            assert(run_lines(m, log_of(ls)) == run_lines(apply_line(m, l0), rest));
        } else {
            assert(apply_line(m, l0) == m);
            lemma_replay_logged(m, ls.skip(1));
        }
    }
}

/// When every line that gets logged is clean, so is every logged record.
proof fn lemma_log_of_clean(ls: Seq<Seq<char>>)
    requires
        forall|i: int| 0 <= i < ls.len() && logs_line(#[trigger] ls[i]) ==> clean_line(ls[i]),
    ensures
        forall|i: int| 0 <= i < log_of(ls).len() ==> clean_line(#[trigger] log_of(ls)[i]),
    decreases ls.len(),
{
    if ls.len() > 0 {
        assert(forall|i: int|
            0 <= i < ls.skip(1).len() && logs_line(#[trigger] ls.skip(1)[i]) ==> clean_line(
                ls.skip(1)[i],
            ));
        lemma_log_of_clean(ls.skip(1));
        if logs_line(ls[0]) {
            let rest = log_of(ls.skip(1));
            assert(log_of(ls) == seq![ls[0]] + rest);
            assert(clean_line(ls[0]));
            assert forall|i: int| 0 <= i < log_of(ls).len() implies clean_line(
                #[trigger] log_of(ls)[i],
            ) by {
                if i == 0 {
                    assert(log_of(ls)[0] == ls[0]);
                } else {
                    assert(log_of(ls)[i] == rest[i - 1]);
                }
            }
        }
    }
}

/// Round-trip law: run a sequence of command lines with persistence on,
/// then decode the log file's text and replay the records into an empty
/// store; for every key the rebuilt store holds the same value as the store
/// the original run produced (last writer wins, in original order). Holds
/// whenever each line that gets logged is clean — a real line never carries
/// an embedded terminator, and trimming would alter the value of one that
/// did.
pub proof fn lemma_log_round_trip(ls: Seq<Seq<char>>)
    requires
        forall|i: int| 0 <= i < ls.len() && logs_line(#[trigger] ls[i]) ==> clean_line(ls[i]),
    ensures
        run_lines(Map::<Seq<char>, Seq<char>>::empty(), lines_of(encode_all(log_of(ls))))
            == run_lines(Map::<Seq<char>, Seq<char>>::empty(), ls),
{
    lemma_log_of_clean(ls);
    lemma_decode_encode(log_of(ls));
    lemma_replay_logged(Map::<Seq<char>, Seq<char>>::empty(), ls);
}

} // verus!
