//! The record codec.
//!
//! A command is written as a self-delimiting textual record, so that a
//! concatenation of records can be parsed back with a running byte
//! offset.  A `Set` of key `k` and value `v` is written as
//! `{"Set":{"key":"k","value":"v"}}`, a `Remove` of `k` as
//! `{"Remove":{"key":"k"}}`; the key and value are embedded as their
//! UTF-8 bytes with `"` and `\` escaped by a backslash.  The decoder
//! skips leading whitespace, so records may be separated by blanks.
//!
//! The grammar is expressed by the spec functions [`enc_record`] and
//! [`parse_record`]; [`lemma_parse_record_exact`] and
//! [`lemma_enc_record_parses`] prove that they are exact inverses, so a
//! stream of encoded records decodes to exactly the commands that were
//! written.

use crate::error::KvsError;
use vstd::prelude::*;
use vstd::utf8::{decode_utf8, encode_utf8, valid_utf8};

verus! {

/// A command applied to the store: set a key to a value, or remove a key.
#[derive(Debug, Clone)]
pub enum Command {
    Put { key: String, value: String },
    Remove { key: String },
}

/// The byte-level shape of one record: the key's UTF-8 bytes, and the
/// value's UTF-8 bytes for a `Set`, or `None` for a `Remove`.
pub type SpecRecord = (Seq<u8>, Option<Seq<u8>>);

impl Command {
    /// Builds a `Set` command.
    pub fn set(key: String, value: String) -> (c: Command)
        ensures
            c == (Command::Put { key, value }),
    {
        Command::Put { key, value }
    }

    /// Builds a `Remove` command.
    pub fn remove(key: String) -> (c: Command)
        ensures
            c == (Command::Remove { key }),
    {
        Command::Remove { key }
    }

    /// The byte-level record this command stands for.
    pub open spec fn spec_rec(self) -> SpecRecord {
        match self {
            Command::Put { key, value } => (encode_utf8(key@), Some(encode_utf8(value@))),
            Command::Remove { key } => (encode_utf8(key@), None),
        }
    }

    /// The key of the command, as a character sequence.
    pub open spec fn spec_key(self) -> Seq<char> {
        match self {
            Command::Put { key, value } => key@,
            Command::Remove { key } => key@,
        }
    }
}

// ---------------------------------------------------------------------
// Escaping of string contents
// ---------------------------------------------------------------------

/// The double-quote byte, which closes a string and must be escaped in it.
pub open spec fn q() -> u8 {
    0x22
}

/// The backslash byte, which introduces an escape.
pub open spec fn bs() -> u8 {
    0x5C
}

/// How one byte of a key or value appears inside a quoted string.
pub open spec fn esc_byte(b: u8) -> Seq<u8> {
    if b == q() || b == bs() {
        seq![bs(), b]
    } else {
        seq![b]
    }
}

/// How a whole byte string appears inside a quoted string.
pub open spec fn esc(s: Seq<u8>) -> Seq<u8>
    decreases s.len(),
{
    if s.len() == 0 {
        Seq::empty()
    } else {
        esc_byte(s[0]) + esc(s.drop_first())
    }
}

/// A quoted string token, without its opening quote: the escaped
/// contents followed by the closing quote.
pub open spec fn string_tok(s: Seq<u8>) -> Seq<u8> {
    esc(s) + seq![q()]
}

/// Escaping distributes over concatenation.
pub proof fn lemma_esc_concat(a: Seq<u8>, b: Seq<u8>)
    ensures
        esc(a + b) == esc(a) + esc(b),
    decreases a.len(),
{
    if a.len() == 0 {
        assert(a + b =~= b);
        assert(esc(a) + esc(b) =~= esc(b));
    } else {
        lemma_esc_concat(a.drop_first(), b);
        assert((a + b).drop_first() =~= a.drop_first() + b);
        assert(esc(a + b) =~= esc_byte((a + b)[0]) + esc((a + b).drop_first()));
        assert((a + b)[0] == a[0]);
        assert(esc_byte(a[0]) + (esc(a.drop_first()) + esc(b)) =~= (esc_byte(a[0]) + esc(
            a.drop_first(),
        )) + esc(b));
    }
}

/// Escaping a single appended byte.
pub proof fn lemma_esc_push(a: Seq<u8>, b: u8)
    ensures
        esc(a.push(b)) == esc(a) + esc_byte(b),
{
    lemma_esc_concat(a, seq![b]);
    assert(a.push(b) =~= a + seq![b]);
    assert(seq![b].drop_first() =~= Seq::<u8>::empty());
    assert(esc(seq![b]) =~= esc_byte(b) + esc(Seq::<u8>::empty()));
    assert(esc(seq![b]) =~= esc_byte(b));
}

// ---------------------------------------------------------------------
// Parsing
// ---------------------------------------------------------------------

/// True of the blank bytes the decoder skips between records.
pub open spec fn is_ws(b: u8) -> bool {
    b == 0x20 || b == 0x09 || b == 0x0A || b == 0x0D
}

/// The first position at or after `i` that does not hold a blank byte.
pub open spec fn skip_ws(d: Seq<u8>, i: int) -> int
    decreases d.len() - i,
    when 0 <= i <= d.len()
{
    if i < d.len() && is_ws(d[i]) {
        skip_ws(d, i + 1)
    } else {
        i
    }
}

pub proof fn lemma_skip_ws_bounds(d: Seq<u8>, i: int)
    requires
        0 <= i <= d.len(),
    ensures
        i <= skip_ws(d, i) <= d.len(),
        skip_ws(d, i) < d.len() ==> !is_ws(d[skip_ws(d, i)]),
    decreases d.len() - i,
{
    if i < d.len() && is_ws(d[i]) {
        lemma_skip_ws_bounds(d, i + 1);
    }
}

/// True when `pat` occurs in `d` at position `i`.
pub open spec fn match_at(d: Seq<u8>, i: int, pat: Seq<u8>) -> bool {
    0 <= i && i + pat.len() <= d.len() && d.subrange(i, i + pat.len()) == pat
}

/// Parses the rest of a quoted string starting just after the opening
/// quote: unescapes the contents and consumes the closing quote.
/// Returns the unescaped bytes and the position after the closing quote.
pub open spec fn parse_str_body(d: Seq<u8>, i: int) -> Option<(Seq<u8>, int)>
    decreases d.len() - i,
    when 0 <= i <= d.len()
{
    if i >= d.len() {
        None
    } else if d[i] == q() {
        Some((Seq::empty(), i + 1))
    } else if d[i] == bs() {
        if i + 1 < d.len() && (d[i + 1] == q() || d[i + 1] == bs()) {
            match parse_str_body(d, i + 2) {
                Some((s, j)) => Some((seq![d[i + 1]] + s, j)),
                None => None,
            }
        } else {
            None
        }
    } else {
        match parse_str_body(d, i + 1) {
            Some((s, j)) => Some((seq![d[i]] + s, j)),
            None => None,
        }
    }
}

/// A successful string-body parse consumed exactly the token of its result.
pub proof fn lemma_parse_str_body_exact(d: Seq<u8>, i: int)
    requires
        0 <= i <= d.len(),
        parse_str_body(d, i) is Some,
    ensures
        ({
            let (s, j) = parse_str_body(d, i)->Some_0;
            &&& i < j <= d.len()
            &&& j == i + string_tok(s).len()
            &&& d.subrange(i, j) == string_tok(s)
        }),
    decreases d.len() - i,
{
    let (s, j) = parse_str_body(d, i)->Some_0;
    if d[i] == q() {
        assert(string_tok(s) =~= seq![q()]);
        assert(d.subrange(i, i + 1) =~= string_tok(s));
    } else if d[i] == bs() {
        let (s2, j2) = parse_str_body(d, i + 2)->Some_0;
        lemma_parse_str_body_exact(d, i + 2);
        assert(s == seq![d[i + 1]] + s2);
        assert(s[0] == d[i + 1]);
        assert(s.drop_first() =~= s2);
        assert(esc(s) =~= seq![bs(), d[i + 1]] + esc(s2));
        assert(string_tok(s) =~= seq![bs(), d[i + 1]] + string_tok(s2));
        assert(d.subrange(i, j) =~= seq![d[i], d[i + 1]] + d.subrange(i + 2, j2));
        assert(d.subrange(i, j) =~= string_tok(s));
    } else {
        let (s2, j2) = parse_str_body(d, i + 1)->Some_0;
        lemma_parse_str_body_exact(d, i + 1);
        assert(s == seq![d[i]] + s2);
        assert(s[0] == d[i]);
        assert(s.drop_first() =~= s2);
        assert(esc(s) =~= seq![d[i]] + esc(s2));
        assert(string_tok(s) =~= seq![d[i]] + string_tok(s2));
        assert(d.subrange(i, j) =~= seq![d[i]] + d.subrange(i + 1, j2));
        assert(d.subrange(i, j) =~= string_tok(s));
    }
}

/// Wherever a string token occurs, parsing from its start succeeds and
/// yields exactly the token's contents.
pub proof fn lemma_string_tok_parses(d: Seq<u8>, i: int, s: Seq<u8>)
    requires
        0 <= i,
        i + string_tok(s).len() <= d.len(),
        d.subrange(i, i + string_tok(s).len()) == string_tok(s),
    ensures
        parse_str_body(d, i) == Some((s, i + string_tok(s).len())),
    decreases s.len(),
{
    let tok = string_tok(s);
    let j = i + tok.len();
    if s.len() == 0 {
        assert(tok =~= seq![q()]);
        assert(d[i] == tok[0]);
    } else {
        let b = s[0];
        let rest = s.drop_first();
        assert(esc(s) == esc_byte(b) + esc(rest));
        let restlen = string_tok(rest).len() as int;
        if b == q() || b == bs() {
            assert(tok =~= seq![bs(), b] + string_tok(rest));
            assert(d[i] == tok[0] && d[i + 1] == tok[1]);
            assert(d.subrange(i + 2, i + 2 + restlen) =~= string_tok(rest)) by {
                assert forall|k: int| 0 <= k < restlen implies d.subrange(
                    i + 2,
                    i + 2 + restlen,
                )[k] == string_tok(rest)[k] by {
                    assert(d.subrange(i, j)[k + 2] == tok[k + 2]);
                }
            }
            lemma_string_tok_parses(d, i + 2, rest);
            assert(seq![d[i + 1]] + rest =~= s);
        } else {
            assert(tok =~= seq![b] + string_tok(rest));
            assert(d[i] == tok[0]);
            assert(d[i] != q() && d[i] != bs());
            assert(d.subrange(i + 1, i + 1 + restlen) =~= string_tok(rest)) by {
                assert forall|k: int| 0 <= k < restlen implies d.subrange(
                    i + 1,
                    i + 1 + restlen,
                )[k] == string_tok(rest)[k] by {
                    assert(d.subrange(i, j)[k + 1] == tok[k + 1]);
                }
            }
            lemma_string_tok_parses(d, i + 1, rest);
            assert(seq![d[i]] + rest =~= s);
        }
    }
}

// ---------------------------------------------------------------------
// Records
// ---------------------------------------------------------------------

/// The opening of a `Set` record, `{"Set":{"key":"`, up to and
/// including the quote that opens the key.
pub open spec fn set_prefix() -> Seq<u8> {
    seq![0x7Bu8, 0x22, 0x53, 0x65, 0x74, 0x22, 0x3A, 0x7B, 0x22, 0x6B, 0x65, 0x79, 0x22, 0x3A, 0x22]
}

/// The middle of a `Set` record, `,"value":"`, from just after the
/// quote that closes the key up to the quote that opens the value.
pub open spec fn value_sep() -> Seq<u8> {
    seq![0x2Cu8, 0x22, 0x76, 0x61, 0x6C, 0x75, 0x65, 0x22, 0x3A, 0x22]
}

/// The opening of a `Remove` record, `{"Remove":{"key":"`.
pub open spec fn remove_prefix() -> Seq<u8> {
    seq![
        0x7Bu8,
        0x22,
        0x52,
        0x65,
        0x6D,
        0x6F,
        0x76,
        0x65,
        0x22,
        0x3A,
        0x7B,
        0x22,
        0x6B,
        0x65,
        0x79,
        0x22,
        0x3A,
        0x22,
    ]
}

/// The closing braces of either record, `}}`.
pub open spec fn record_tail() -> Seq<u8> {
    seq![0x7Du8, 0x7D]
}

/// The encoding of one record.
pub open spec fn enc_record(r: SpecRecord) -> Seq<u8> {
    match r.1 {
        Some(vb) => set_prefix() + string_tok(r.0) + value_sep() + string_tok(vb) + record_tail(),
        None => remove_prefix() + string_tok(r.0) + record_tail(),
    }
}

/// A record is well formed when its key and value are valid UTF-8.
pub open spec fn rec_valid(r: SpecRecord) -> bool {
    valid_utf8(r.0) && (r.1 is Some ==> valid_utf8(r.1->0))
}

/// Parses one record at position `i`, skipping leading blanks.  Returns
/// the record and the position just after it, or `None` on malformed
/// input.  Only well-formed records (valid UTF-8 key and value) parse.
pub open spec fn parse_record(d: Seq<u8>, i: int) -> Option<(SpecRecord, int)> {
    let j = skip_ws(d, i);
    if match_at(d, j, set_prefix()) {
        match parse_str_body(d, j + set_prefix().len()) {
            Some((kb, j1)) => if match_at(d, j1, value_sep()) {
                match parse_str_body(d, j1 + value_sep().len()) {
                    Some((vb, j2)) => if match_at(d, j2, record_tail()) && valid_utf8(kb)
                        && valid_utf8(vb) {
                        Some(((kb, Some(vb)), j2 + record_tail().len()))
                    } else {
                        None
                    },
                    None => None,
                }
            } else {
                None
            },
            None => None,
        }
    } else if match_at(d, j, remove_prefix()) {
        match parse_str_body(d, j + remove_prefix().len()) {
            Some((kb, j1)) => if match_at(d, j1, record_tail()) && valid_utf8(kb) {
                Some(((kb, None), j1 + record_tail().len()))
            } else {
                None
            },
            None => None,
        }
    } else {
        None
    }
}

/// A successful record parse consumed, after the leading blanks,
/// exactly the canonical encoding of its result.
pub proof fn lemma_parse_record_exact(d: Seq<u8>, i: int)
    requires
        0 <= i <= d.len(),
        parse_record(d, i) is Some,
    ensures
        ({
            let (r, j) = parse_record(d, i)->Some_0;
            let w = skip_ws(d, i);
            &&& i <= w < j <= d.len()
            &&& j == w + enc_record(r).len()
            &&& d.subrange(w, j) == enc_record(r)
            &&& rec_valid(r)
        }),
{
    let (r, j) = parse_record(d, i)->Some_0;
    let w = skip_ws(d, i);
    lemma_skip_ws_bounds(d, i);
    if match_at(d, w, set_prefix()) {
        let p = set_prefix().len() as int;
        let (kb, j1) = parse_str_body(d, w + p)->Some_0;
        lemma_parse_str_body_exact(d, w + p);
        let s = value_sep().len() as int;
        let (vb, j2) = parse_str_body(d, j1 + s)->Some_0;
        lemma_parse_str_body_exact(d, j1 + s);
        assert(d.subrange(w, j) =~= d.subrange(w, w + p) + d.subrange(w + p, j1) + d.subrange(
            j1,
            j1 + s,
        ) + d.subrange(j1 + s, j2) + d.subrange(j2, j2 + 2));
        assert(d.subrange(w, j) == enc_record(r));
    } else {
        let p = remove_prefix().len() as int;
        let (kb, j1) = parse_str_body(d, w + p)->Some_0;
        lemma_parse_str_body_exact(d, w + p);
        assert(d.subrange(w, j) =~= d.subrange(w, w + p) + d.subrange(w + p, j1) + d.subrange(
            j1,
            j1 + 2,
        ));
        assert(d.subrange(w, j) == enc_record(r));
    }
}

/// If a pattern occurs in `d2` wherever it occurs in `d1`, matching is
/// preserved; helper for sliding a record window.
pub(crate) proof fn lemma_match_window(d: Seq<u8>, i: int, w: Seq<u8>, a: int, pat: Seq<u8>)
    requires
        0 <= i,
        i + w.len() <= d.len(),
        d.subrange(i, i + w.len()) == w,
        0 <= a,
        a + pat.len() <= w.len(),
        w.subrange(a, a + pat.len()) == pat,
    ensures
        match_at(d, i + a, pat),
{
    assert(d.subrange(i + a, i + a + pat.len()) =~= pat) by {
        assert forall|k: int| 0 <= k < pat.len() implies d.subrange(i + a, i + a + pat.len())[k]
            == pat[k] by {
            assert(d.subrange(i, i + w.len())[a + k] == w[a + k]);
            assert(w.subrange(a, a + pat.len())[k] == pat[k]);
        }
    }
}

/// Wherever the canonical encoding of a well-formed record occurs, a
/// parse from its start succeeds and consumes exactly the encoding.
pub proof fn lemma_enc_record_parses(d: Seq<u8>, i: int, r: SpecRecord)
    requires
        0 <= i,
        i + enc_record(r).len() <= d.len(),
        d.subrange(i, i + enc_record(r).len()) == enc_record(r),
        rec_valid(r),
    ensures
        parse_record(d, i) == Some((r, i + enc_record(r).len())),
{
    let e = enc_record(r);
    assert(d[i] == e[0]);
    assert(e[0] == 0x7B);
    assert(skip_ws(d, i) == i);
    match r.1 {
        Some(vb) => {
            let kb = r.0;
            let p = set_prefix().len() as int;
            let ktok = string_tok(kb).len() as int;
            let s = value_sep().len() as int;
            let vtok = string_tok(vb).len() as int;
            assert(e.subrange(0, p) =~= set_prefix());
            lemma_match_window(d, i, e, 0, set_prefix());
            assert(e.subrange(p, p + ktok) =~= string_tok(kb));
            assert(d.subrange(i + p, i + p + ktok) =~= string_tok(kb)) by {
                assert forall|k: int| 0 <= k < ktok implies d.subrange(i + p, i + p + ktok)[k]
                    == string_tok(kb)[k] by {
                    assert(d.subrange(i, i + e.len())[p + k] == e[p + k]);
                }
            }
            lemma_string_tok_parses(d, i + p, kb);
            let j1 = i + p + ktok;
            assert(e.subrange(p + ktok, p + ktok + s) =~= value_sep());
            lemma_match_window(d, i, e, p + ktok, value_sep());
            assert(e.subrange(p + ktok + s, p + ktok + s + vtok) =~= string_tok(vb));
            assert(d.subrange(j1 + s, j1 + s + vtok) =~= string_tok(vb)) by {
                assert forall|k: int| 0 <= k < vtok implies d.subrange(j1 + s, j1 + s + vtok)[k]
                    == string_tok(vb)[k] by {
                    assert(d.subrange(i, i + e.len())[p + ktok + s + k] == e[p + ktok + s + k]);
                }
            }
            lemma_string_tok_parses(d, j1 + s, vb);
            let j2 = j1 + s + vtok;
            assert(e.subrange(p + ktok + s + vtok, p + ktok + s + vtok + 2) =~= record_tail());
            lemma_match_window(d, i, e, p + ktok + s + vtok, record_tail());
            assert(j2 + 2 == i + e.len());
        },
        None => {
            let kb = r.0;
            let p = remove_prefix().len() as int;
            let ktok = string_tok(kb).len() as int;
            assert(e.subrange(0, p) =~= remove_prefix());
            lemma_match_window(d, i, e, 0, remove_prefix());
            assert(e.subrange(p, p + ktok) =~= string_tok(kb));
            assert(d.subrange(i + p, i + p + ktok) =~= string_tok(kb)) by {
                assert forall|k: int| 0 <= k < ktok implies d.subrange(i + p, i + p + ktok)[k]
                    == string_tok(kb)[k] by {
                    assert(d.subrange(i, i + e.len())[p + k] == e[p + k]);
                }
            }
            lemma_string_tok_parses(d, i + p, kb);
            let j1 = i + p + ktok;
            assert(e.subrange(p + ktok, p + ktok + 2) =~= record_tail());
            lemma_match_window(d, i, e, p + ktok, record_tail());
            assert(j1 + 2 == i + e.len());
            assert(!match_at(d, i, set_prefix())) by {
                assert(d[i + 2] == e[2]);
                assert(e[2] == 0x52);
                if match_at(d, i, set_prefix()) {
                    assert(d.subrange(i, i + set_prefix().len())[2] == 0x53);
                }
            }
        },
    }
}

// ---------------------------------------------------------------------
// Executable encoding
// ---------------------------------------------------------------------

fn set_prefix_v() -> (v: Vec<u8>)
    ensures
        v@ == set_prefix(),
{
    let v: Vec<u8> = vec![
        0x7Bu8,
        0x22,
        0x53,
        0x65,
        0x74,
        0x22,
        0x3A,
        0x7B,
        0x22,
        0x6B,
        0x65,
        0x79,
        0x22,
        0x3A,
        0x22,
    ];
    assert(v@ =~= set_prefix());
    v
}

fn value_sep_v() -> (v: Vec<u8>)
    ensures
        v@ == value_sep(),
{
    let v: Vec<u8> = vec![0x2Cu8, 0x22, 0x76, 0x61, 0x6C, 0x75, 0x65, 0x22, 0x3A, 0x22];
    assert(v@ =~= value_sep());
    v
}

fn remove_prefix_v() -> (v: Vec<u8>)
    ensures
        v@ == remove_prefix(),
{
    let v: Vec<u8> = vec![
        0x7Bu8,
        0x22,
        0x52,
        0x65,
        0x6D,
        0x6F,
        0x76,
        0x65,
        0x22,
        0x3A,
        0x7B,
        0x22,
        0x6B,
        0x65,
        0x79,
        0x22,
        0x3A,
        0x22,
    ];
    assert(v@ =~= remove_prefix());
    v
}

/// Appends the escaped form of `s` to `out`.
pub(crate) fn append_escaped(out: &mut Vec<u8>, s: &[u8])
    ensures
        final(out)@ == old(out)@ + esc(s@),
{
    let ghost base = out@;
    let mut k: usize = 0;
    while k < s.len()
        invariant
            k <= s@.len(),
            out@ == base + esc(s@.subrange(0, k as int)),
        decreases s@.len() - k,
    {
        let b = s[k];
        if b == 0x22 || b == 0x5C {
            out.push(0x5C);
            out.push(b);
        } else {
            out.push(b);
        }
        proof {
            assert(s@.subrange(0, k + 1) =~= s@.subrange(0, k as int).push(b));
            lemma_esc_push(s@.subrange(0, k as int), b);
        }
        k = k + 1;
    }
    proof {
        assert(s@.subrange(0, s@.len() as int) =~= s@);
    }
}

/// Encodes one command as a record.  The result is exactly the
/// canonical encoding of the command, so a decoder run anywhere the
/// result is written recovers the command.
pub fn encode_command(cmd: &Command) -> (out: Vec<u8>)
    ensures
        out@ == enc_record(cmd.spec_rec()),
        rec_valid(cmd.spec_rec()),
{
    proof {
        broadcast use vstd::utf8::encode_utf8_valid_utf8;

    }
    match cmd {
        Command::Put { key, value } => {
            let mut out = set_prefix_v();
            append_escaped(&mut out, key.as_str().as_bytes());
            out.push(0x22);
            let mut sep = value_sep_v();
            out.append(&mut sep);
            append_escaped(&mut out, value.as_str().as_bytes());
            out.push(0x22);
            out.push(0x7D);
            out.push(0x7D);
            proof {
                assert(out@ =~= set_prefix() + string_tok(encode_utf8(key@)) + value_sep()
                    + string_tok(encode_utf8(value@)) + record_tail());
            }
            out
        },
        Command::Remove { key } => {
            let mut out = remove_prefix_v();
            append_escaped(&mut out, key.as_str().as_bytes());
            out.push(0x22);
            out.push(0x7D);
            out.push(0x7D);
            proof {
                assert(out@ =~= remove_prefix() + string_tok(encode_utf8(key@)) + record_tail());
            }
            out
        },
    }
}

// ---------------------------------------------------------------------
// Executable decoding
// ---------------------------------------------------------------------

/// Relies on String::from_utf8: it succeeds exactly on valid UTF-8
/// input and returns the string whose characters the bytes encode.
#[verifier::external_body]
pub(crate) fn string_from_utf8(bytes: Vec<u8>) -> (r: Option<String>)
    ensures
        r is Some <==> valid_utf8(bytes@),
        r is Some ==> r->0@ == decode_utf8(bytes@),
{
    match String::from_utf8(bytes) {
        std::result::Result::Ok(s) => Some(s),
        std::result::Result::Err(_) => None,
    }
}

/// True when `pat` occurs in `d` at position `i`.
pub(crate) fn match_at_exec(d: &[u8], i: usize, pat: &[u8]) -> (b: bool)
    requires
        i <= d@.len(),
    ensures
        b == match_at(d@, i as int, pat@),
{
    if d.len() - i < pat.len() {
        return false;
    }
    let mut k: usize = 0;
    while k < pat.len()
        invariant
            i + pat@.len() <= d@.len(),
            d@.len() <= usize::MAX,
            k <= pat@.len(),
            forall|m: int| 0 <= m < k ==> d@[i + m] == pat@[m],
        decreases pat@.len() - k,
    {
        if d[i + k] != pat[k] {
            proof {
                assert(d@.subrange(i as int, i + pat@.len())[k as int] != pat@[k as int]);
            }
            return false;
        }
        k = k + 1;
    }
    proof {
        assert(d@.subrange(i as int, i + pat@.len()) =~= pat@);
    }
    true
}

fn record_tail_v() -> (v: Vec<u8>)
    ensures
        v@ == record_tail(),
{
    let v: Vec<u8> = vec![0x7Du8, 0x7D];
    assert(v@ =~= record_tail());
    v
}

/// Composes a parsed prefix with the outcome of parsing the rest of a
/// string body.
spec fn prepend_body(pre: Seq<u8>, r: Option<(Seq<u8>, int)>) -> Option<(Seq<u8>, int)> {
    match r {
        Some((s, j)) => Some((pre + s, j)),
        None => None,
    }
}

/// Unescapes a quoted string's contents starting just after its opening
/// quote; consumes the closing quote.
pub(crate) fn parse_body_exec(d: &[u8], from: usize) -> (r: Option<(Vec<u8>, usize)>)
    requires
        from <= d@.len(),
    ensures
        match r {
            Some((s, j)) => parse_str_body(d@, from as int) == Some((s@, j as int)) && from < j
                <= d@.len(),
            None => parse_str_body(d@, from as int) is None,
        },
{
    let mut acc: Vec<u8> = Vec::new();
    let mut i = from;
    loop
        invariant
            from <= i <= d@.len(),
            parse_str_body(d@, from as int) == prepend_body(acc@, parse_str_body(d@, i as int)),
        decreases d@.len() - i,
    {
        if i >= d.len() {
            return None;
        }
        let b = d[i];
        if b == 0x22 {
            proof {
                assert(acc@ + Seq::<u8>::empty() =~= acc@);
            }
            return Some((acc, i + 1));
        } else if b == 0x5C {
            if i + 1 < d.len() && (d[i + 1] == 0x22 || d[i + 1] == 0x5C) {
                let c = d[i + 1];
                let ghost prev = acc@;
                acc.push(c);
                proof {
                    match parse_str_body(d@, i + 2) {
                        Some((s, j)) => {
                            assert(parse_str_body(d@, i as int) == Some((seq![c] + s, j)));
                            assert(prev + (seq![c] + s) =~= prev.push(c) + s);
                        },
                        None => {
                            assert(parse_str_body(d@, i as int) is None);
                        },
                    }
                }
                i = i + 2;
            } else {
                return None;
            }
        } else {
            let ghost prev = acc@;
            acc.push(b);
            proof {
                match parse_str_body(d@, i + 1) {
                    Some((s, j)) => {
                        assert(parse_str_body(d@, i as int) == Some((seq![b] + s, j)));
                        assert(prev + (seq![b] + s) =~= prev.push(b) + s);
                    },
                    None => {
                        assert(parse_str_body(d@, i as int) is None);
                    },
                }
            }
            i = i + 1;
        }
    }
}

/// Skips blank bytes from `from` to the first byte of interest.
pub(crate) fn skip_blanks(d: &[u8], from: usize) -> (i: usize)
    requires
        from <= d@.len(),
    ensures
        i == skip_ws(d@, from as int),
        from <= i <= d@.len(),
        i == d@.len() || !is_ws(d@[i as int]),
{
    let n = d.len();
    let mut i = from;
    loop
        invariant
            from <= i <= d@.len(),
            n == d@.len(),
            skip_ws(d@, from as int) == skip_ws(d@, i as int),
        ensures
            from <= i <= d@.len(),
            i == d@.len() || !is_ws(d@[i as int]),
            skip_ws(d@, from as int) == skip_ws(d@, i as int),
        decreases d@.len() - i,
    {
        if i == n {
            break ;
        }
        let b = d[i];
        if b == 0x20 || b == 0x09 || b == 0x0A || b == 0x0D {
            i = i + 1;
        } else {
            break ;
        }
    }
    i
}

/// Decodes one record from `d` starting at `from`, skipping leading
/// blanks.  On success, returns the command and the offset just after
/// its record, so callers can keep a running byte offset over a stream
/// of records.  Fails with a `Serde` error exactly when no well-formed
/// record starts at `from`.
pub fn decode_command(d: &[u8], from: usize) -> (r: Result<(Command, usize), KvsError>)
    requires
        from <= d@.len(),
    ensures
        r is Ok ==> {
            &&& parse_record(d@, from as int) == Some(
                ((r->Ok_0.0).spec_rec(), r->Ok_0.1 as int),
            )
            &&& from < r->Ok_0.1 <= d@.len()
        },
        r is Err ==> parse_record(d@, from as int) is None && r->Err_0 is Serde,
{
    let n = d.len();
    assert(d@.len() <= usize::MAX);
    let mut i = from;
    loop
        invariant
            from <= i <= d@.len(),
            d@.len() <= usize::MAX,
            n == d@.len(),
            skip_ws(d@, from as int) == skip_ws(d@, i as int),
        ensures
            from <= i <= d@.len(),
            i == d@.len() || !is_ws(d@[i as int]),
            skip_ws(d@, from as int) == skip_ws(d@, i as int),
        decreases d@.len() - i,
    {
        if i == n {
            break ;
        }
        let b = d[i];
        if b == 0x20 || b == 0x09 || b == 0x0A || b == 0x0D {
            i = i + 1;
        } else {
            break ;
        }
    }
    assert(skip_ws(d@, from as int) == i);
    let spfx = set_prefix_v();
    let rpfx = remove_prefix_v();
    if match_at_exec(d, i, spfx.as_slice()) {
        match parse_body_exec(d, i + 15) {
            Some((kb, j1)) => {
                let vsep = value_sep_v();
                if match_at_exec(d, j1, vsep.as_slice()) {
                    match parse_body_exec(d, j1 + 10) {
                        Some((vb, j2)) => {
                            let tail = record_tail_v();
                            if match_at_exec(d, j2, tail.as_slice()) {
                                let ghost gkb = kb@;
                                let ghost gvb = vb@;
                                match string_from_utf8(kb) {
                                    Some(key) => match string_from_utf8(vb) {
                                        Some(value) => {
                                            proof {
                                                vstd::utf8::decode_utf8_encode_utf8(gkb);
                                                vstd::utf8::decode_utf8_encode_utf8(gvb);
                                            }
                                            Ok((Command::Put { key, value }, j2 + 2))
                                        },
                                        None => Err(
                                            KvsError::Serde("malformed record".to_owned()),
                                        ),
                                    },
                                    None => Err(KvsError::Serde("malformed record".to_owned())),
                                }
                            } else {
                                Err(KvsError::Serde("malformed record".to_owned()))
                            }
                        },
                        None => Err(KvsError::Serde("malformed record".to_owned())),
                    }
                } else {
                    Err(KvsError::Serde("malformed record".to_owned()))
                }
            },
            None => Err(KvsError::Serde("malformed record".to_owned())),
        }
    } else if match_at_exec(d, i, rpfx.as_slice()) {
        match parse_body_exec(d, i + 18) {
            Some((kb, j1)) => {
                let tail = record_tail_v();
                if match_at_exec(d, j1, tail.as_slice()) {
                    let ghost gkb = kb@;
                    match string_from_utf8(kb) {
                        Some(key) => {
                            proof {
                                vstd::utf8::decode_utf8_encode_utf8(gkb);
                            }
                            Ok((Command::Remove { key }, j1 + 2))
                        },
                        None => Err(KvsError::Serde("malformed record".to_owned())),
                    }
                } else {
                    Err(KvsError::Serde("malformed record".to_owned()))
                }
            },
            None => Err(KvsError::Serde("malformed record".to_owned())),
        }
    } else {
        Err(KvsError::Serde("malformed record".to_owned()))
    }
}

} // verus!
