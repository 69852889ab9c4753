//! Protocol-level laws: properties of executing whole command lines,
//! stated for all keys and values and proved once and for all.

use crate::executor::{apply_line, reply_of};
use crate::lexer::{
    is_add_line, is_del_line, is_get_line, is_space, key_of, lemma_spaces_end_unique,
    lemma_token_end_unique, parse_ok, value_of,
};
use vstd::prelude::*;

verus! {

/// The wire line `ADD <k> <v>`.
pub open spec fn add_line(k: Seq<char>, v: Seq<char>) -> Seq<char> {
    seq!['A', 'D', 'D', ' '] + k + seq![' '] + v
}

/// The wire line `GET <k>`.
pub open spec fn get_line(k: Seq<char>) -> Seq<char> {
    seq!['G', 'E', 'T', ' '] + k
}

/// The wire line `DEL <k>`.
pub open spec fn del_line(k: Seq<char>) -> Seq<char> {
    seq!['D', 'E', 'L', ' '] + k
}

/// A key as the protocol can carry it: nonempty and free of whitespace, so
/// that it forms a single token on the wire.
pub open spec fn plain_key(k: Seq<char>) -> bool {
    k.len() > 0 && forall|i: int| 0 <= i < k.len() ==> !is_space(#[trigger] k[i])
}

/// `ADD <k> <v>` parses: the key is `k` and the value is `v`, verbatim.
pub proof fn lemma_parse_add_line(k: Seq<char>, v: Seq<char>)
    requires
        plain_key(k),
    ensures
        parse_ok(add_line(k, v)),
        is_add_line(add_line(k, v)),
        !is_get_line(add_line(k, v)),
        !is_del_line(add_line(k, v)),
        key_of(add_line(k, v)) == k,
        value_of(add_line(k, v)) == v,
{
    let s = add_line(k, v);
    assert(s.len() == 5 + k.len() + v.len());
    assert(s[0] == 'A' && s[1] == 'D' && s[2] == 'D' && s[3] == ' ');
    assert(forall|j: int| 0 <= j < k.len() ==> s[4 + j] == k[j]);
    assert(s[4 + k.len() as int] == ' ');
    assert(forall|j: int| 0 <= j < v.len() ==> s[5 + k.len() + j] == v[j]);
    lemma_token_end_unique(s, 0, 3);
    lemma_spaces_end_unique(s, 3, 4);
    lemma_token_end_unique(s, 4, 4 + k.len() as int);
    assert(key_of(s) =~= k);
    assert(value_of(s) =~= v);
}

/// `GET <k>` parses and its key is `k`.
pub proof fn lemma_parse_get_line(k: Seq<char>)
    requires
        plain_key(k),
    ensures
        parse_ok(get_line(k)),
        is_get_line(get_line(k)),
        !is_add_line(get_line(k)),
        !is_del_line(get_line(k)),
        key_of(get_line(k)) == k,
{
    let s = get_line(k);
    assert(s.len() == 4 + k.len());
    assert(s[0] == 'G' && s[1] == 'E' && s[2] == 'T' && s[3] == ' ');
    assert(forall|j: int| 0 <= j < k.len() ==> s[4 + j] == k[j]);
    lemma_token_end_unique(s, 0, 3);
    lemma_spaces_end_unique(s, 3, 4);
    lemma_token_end_unique(s, 4, 4 + k.len() as int);
    assert(key_of(s) =~= k);
}

/// `DEL <k>` parses and its key is `k`.
pub proof fn lemma_parse_del_line(k: Seq<char>)
    requires
        plain_key(k),
    ensures
        parse_ok(del_line(k)),
        is_del_line(del_line(k)),
        !is_add_line(del_line(k)),
        !is_get_line(del_line(k)),
        key_of(del_line(k)) == k,
{
    let s = del_line(k);
    assert(s.len() == 4 + k.len());
    assert(s[0] == 'D' && s[1] == 'E' && s[2] == 'L' && s[3] == ' ');
    assert(forall|j: int| 0 <= j < k.len() ==> s[4 + j] == k[j]);
    lemma_token_end_unique(s, 0, 3);
    lemma_spaces_end_unique(s, 3, 4);
    lemma_token_end_unique(s, 4, 4 + k.len() as int);
    assert(key_of(s) =~= k);
}

/// After `ADD k v` is executed, `GET k` replies `v` — for every key and
/// every value, embedded spaces in the value included.
pub proof fn lemma_add_then_get(m: Map<Seq<char>, Seq<char>>, k: Seq<char>, v: Seq<char>)
    requires
        plain_key(k),
    ensures
        reply_of(apply_line(m, add_line(k, v)), get_line(k)) == Some(v),
{
    lemma_parse_add_line(k, v);
    lemma_parse_get_line(k);
}

/// `GET k` on a store that does not hold `k` replies `Key not found`.
pub proof fn lemma_get_missing(m: Map<Seq<char>, Seq<char>>, k: Seq<char>)
    requires
        plain_key(k),
        !m.contains_key(k),
    ensures
        reply_of(m, get_line(k)) == Some("Key not found"@),
{
    lemma_parse_get_line(k);
}

/// After `DEL k` is executed — whether or not `k` was present — `GET k`
/// replies `Key not found`.
pub proof fn lemma_del_then_get(m: Map<Seq<char>, Seq<char>>, k: Seq<char>)
    requires
        plain_key(k),
    ensures
        reply_of(apply_line(m, del_line(k)), get_line(k)) == Some("Key not found"@),
{
    lemma_parse_del_line(k);
    lemma_parse_get_line(k);
}

/// Idempotence: executing the same line twice leaves the store exactly as
/// executing it once — for every line, mutating or not.
pub proof fn lemma_apply_idempotent(m: Map<Seq<char>, Seq<char>>, s: Seq<char>)
    ensures
        apply_line(apply_line(m, s), s) == apply_line(m, s),
{
    if parse_ok(s) && is_add_line(s) {
        assert(m.insert(key_of(s), value_of(s)).insert(key_of(s), value_of(s)) =~= m.insert(
            key_of(s),
            value_of(s),
        ));
    } else if parse_ok(s) && is_del_line(s) {
        assert(m.remove(key_of(s)).remove(key_of(s)) =~= m.remove(key_of(s)));
    }
}

/// Two `ADD`s for the same key issued near-simultaneously serialize in one
/// of the two orders, since every store access is exclusive; in either
/// order the store afterwards holds for `k` exactly the value written
/// second — one of the two, never a mixture.
pub proof fn lemma_concurrent_adds(
    m: Map<Seq<char>, Seq<char>>,
    k: Seq<char>,
    v1: Seq<char>,
    v2: Seq<char>,
)
    requires
        plain_key(k),
    ensures
        apply_line(apply_line(m, add_line(k, v1)), add_line(k, v2)).contains_key(k),
        apply_line(apply_line(m, add_line(k, v1)), add_line(k, v2))[k] == v2,
        apply_line(apply_line(m, add_line(k, v2)), add_line(k, v1)).contains_key(k),
        apply_line(apply_line(m, add_line(k, v2)), add_line(k, v1))[k] == v1,
{
    lemma_parse_add_line(k, v1);
    lemma_parse_add_line(k, v2);
}

} // verus!
