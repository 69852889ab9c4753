//! The command parser: turns one raw line of text into a structured command
//! or a parse error.
//!
//! Grammar: a line starts with one of the three-letter verbs `ADD`, `GET`,
//! `DEL` (case-sensitive, the first three characters of the line), followed
//! by whitespace-separated tokens. The key is the second whitespace-delimited
//! token of the line. For `ADD`, the value is everything after the key token
//! and its single separating character, kept verbatim (it may be empty and
//! may contain embedded spaces). For `GET` and `DEL` anything after the key
//! is ignored. Malformed input yields a typed error, never a panic.

use vstd::prelude::*;
use vstd::string::StrSliceExecFns;

verus! {

/// A parsed command verb. `Invalid` marks unrecognized input; the parser
/// reports malformed lines through `ParseError` and never returns it, but it
/// remains part of the command vocabulary for callers that represent
/// rejected input as a command value.
#[derive(Clone, Copy, Debug, PartialEq, Eq, Structural)]
pub enum Command {
    Add,
    Get,
    Delete,
    Invalid,
}

/// The typed failure returned for a line that does not follow the grammar.
#[derive(Clone, Copy, Debug, PartialEq, Eq, Structural)]
pub struct ParseError;

/// The command parser. It holds no state; parsing is a pure function of the
/// input line.
pub struct Lexer;

/// ASCII whitespace: the token separators of the protocol.
pub open spec fn is_space(c: char) -> bool {
    c == ' ' || c == '\t' || c == '\n' || c == '\r' || c == '\u{000C}'
}

/// Index of the first separator at or after `i`, or the line's end: the end
/// of the token that starts at `i`.
pub open spec fn token_end(s: Seq<char>, i: int) -> int
    decreases s.len() - i
        when 0 <= i <= s.len()
{
    if i >= s.len() {
        i
    } else if is_space(s[i]) {
        i
    } else {
        token_end(s, i + 1)
    }
}

/// Index of the first non-separator at or after `i`, or the line's end: the
/// start of the next token.
pub open spec fn spaces_end(s: Seq<char>, i: int) -> int
    decreases s.len() - i
        when 0 <= i <= s.len()
{
    if i >= s.len() {
        i
    } else if is_space(s[i]) {
        spaces_end(s, i + 1)
    } else {
        i
    }
}

/// An index `j` with no separator in `[i, j)` and a separator (or the
/// line's end) at `j` is `token_end(s, i)`.
pub proof fn lemma_token_end_unique(s: Seq<char>, i: int, j: int)
    requires
        0 <= i <= j <= s.len(),
        forall|m: int| i <= m < j ==> !is_space(s[m]),
        j < s.len() ==> is_space(s[j]),
    ensures
        token_end(s, i) == j,
    decreases j - i,
{
    if i < j {
        assert(!is_space(s[i]));
        lemma_token_end_unique(s, i + 1, j);
    }
}

/// An index `j` with only separators in `[i, j)` and a non-separator (or
/// the line's end) at `j` is `spaces_end(s, i)`.
pub proof fn lemma_spaces_end_unique(s: Seq<char>, i: int, j: int)
    requires
        0 <= i <= j <= s.len(),
        forall|m: int| i <= m < j ==> is_space(s[m]),
        j < s.len() ==> !is_space(s[j]),
    ensures
        spaces_end(s, i) == j,
    decreases j - i,
{
    if i < j {
        assert(is_space(s[i]));
        lemma_spaces_end_unique(s, i + 1, j);
    }
}

/// Start of the key: the first non-separator after the first token.
pub open spec fn key_start(s: Seq<char>) -> int {
    spaces_end(s, token_end(s, 0))
}

/// End of the key token.
pub open spec fn key_end(s: Seq<char>) -> int {
    token_end(s, key_start(s))
}

/// Whether the line has a key: a second whitespace-delimited token exists.
pub open spec fn has_key(s: Seq<char>) -> bool {
    key_start(s) < s.len()
}

/// The key: the second whitespace-delimited token of the line.
pub open spec fn key_of(s: Seq<char>) -> Seq<char> {
    s.subrange(key_start(s), key_end(s))
}

/// The value of an `ADD` line: everything after the key token and its single
/// separating character, verbatim.
pub open spec fn value_of(s: Seq<char>) -> Seq<char> {
    s.subrange(key_end(s) + 1, s.len() as int)
}

/// The line's first three characters spell `ADD`.
pub open spec fn is_add_line(s: Seq<char>) -> bool {
    s.len() >= 3 && s[0] == 'A' && s[1] == 'D' && s[2] == 'D'
}

/// The line's first three characters spell `GET`.
pub open spec fn is_get_line(s: Seq<char>) -> bool {
    s.len() >= 3 && s[0] == 'G' && s[1] == 'E' && s[2] == 'T'
}

/// The line's first three characters spell `DEL`.
pub open spec fn is_del_line(s: Seq<char>) -> bool {
    s.len() >= 3 && s[0] == 'D' && s[1] == 'E' && s[2] == 'L'
}

/// The verb a line carries, `Invalid` when none of the three matches.
pub open spec fn verb_of(s: Seq<char>) -> Command {
    if is_add_line(s) {
        Command::Add
    } else if is_get_line(s) {
        Command::Get
    } else if is_del_line(s) {
        Command::Delete
    } else {
        Command::Invalid
    }
}

/// Whether a line parses: a recognized verb, a key, and — for `ADD` — at
/// least a separating character after the key so that a (possibly empty)
/// value is present.
pub open spec fn parse_ok(s: Seq<char>) -> bool {
    if is_add_line(s) {
        has_key(s) && key_end(s) < s.len()
    } else if is_get_line(s) || is_del_line(s) {
        has_key(s)
    } else {
        false
    }
}

/// The value component of a successfully parsed line: the verbatim remainder
/// for `ADD`, empty for `GET` and `DEL`.
pub open spec fn parsed_value(s: Seq<char>) -> Seq<char> {
    if is_add_line(s) {
        value_of(s)
    } else {
        Seq::empty()
    }
}

/// Whether `c` is a token separator.
fn space(c: char) -> (b: bool)
    ensures
        b == is_space(c),
{
    c == ' ' || c == '\t' || c == '\n' || c == '\r' || c == '\u{000C}'
}

/// Scans from `from` to the end of the token starting there.
fn token_end_at(s: &str, from: usize, n: usize) -> (j: usize)
    requires
        n == s@.len(),
        from <= n,
    ensures
        j as int == token_end(s@, from as int),
        from <= j <= n,
{
    let mut i = from;
    while i < n
        invariant
            n == s@.len(),
            from <= i <= n,
            forall|m: int| from <= m < i ==> !is_space(s@[m]),
        decreases n - i,
    {
        if space(s.get_char(i)) {
            proof {
                lemma_token_end_unique(s@, from as int, i as int);
            }
            return i;
        }
        i += 1;
    }
    proof {
        lemma_token_end_unique(s@, from as int, n as int);
    }
    n
}

/// Scans from `from` past the run of separators starting there.
fn spaces_end_at(s: &str, from: usize, n: usize) -> (j: usize)
    requires
        n == s@.len(),
        from <= n,
    ensures
        j as int == spaces_end(s@, from as int),
        from <= j <= n,
{
    let mut i = from;
    while i < n
        invariant
            n == s@.len(),
            from <= i <= n,
            forall|m: int| from <= m < i ==> is_space(s@[m]),
        decreases n - i,
    {
        if !space(s.get_char(i)) {
            proof {
                lemma_spaces_end_unique(s@, from as int, i as int);
            }
            return i;
        }
        i += 1;
    }
    proof {
        lemma_spaces_end_unique(s@, from as int, n as int);
    }
    n
}

impl Lexer {
    /// Parses one raw line into `(verb, key, value)`.
    ///
    /// Succeeds exactly on well-formed lines; on success the verb is one of
    /// `Add`, `Get`, `Delete`, the key is the line's second token, and the
    /// value is the verbatim remainder for `ADD` and empty otherwise.
    /// Malformed input of any shape is reported as `ParseError`.
    pub fn parse(input: String) -> (r: Result<(Command, String, String), ParseError>)
        ensures
            r is Ok <==> parse_ok(input@),
            r matches Ok(t) ==> {
                &&& t.0 == verb_of(input@)
                &&& t.0 != Command::Invalid
                &&& t.1@ == key_of(input@)
                &&& t.2@ == parsed_value(input@)
            },
    {
        let s = input.as_str();
        let n = s.unicode_len();
        if n < 3 {
            return Err(ParseError);
        }
        let c0 = s.get_char(0);
        let c1 = s.get_char(1);
        let c2 = s.get_char(2);
        let command = if c0 == 'A' && c1 == 'D' && c2 == 'D' {
            Command::Add
        } else if c0 == 'G' && c1 == 'E' && c2 == 'T' {
            Command::Get
        } else if c0 == 'D' && c1 == 'E' && c2 == 'L' {
            Command::Delete
        } else {
            return Err(ParseError);
        };
        let verb_end = token_end_at(s, 0, n);
        let ks = spaces_end_at(s, verb_end, n);
        if ks == n {
            return Err(ParseError);
        }
        let ke = token_end_at(s, ks, n);
        let key = s.substring_char(ks, ke).to_owned();
        match command {
            Command::Add => {
                if ke == n {
                    return Err(ParseError);
                }
                let value = s.substring_char(ke + 1, n).to_owned();
                Ok((command, key, value))
            },
            _ => Ok((command, key, String::new())),
        }
    }
}

} // verus!
