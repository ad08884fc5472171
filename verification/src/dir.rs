//! Naming and ordering of segment files.
//!
//! A segment of generation `g` lives in a file named `<g>.log`, the
//! generation in decimal.  [`log_path`] builds that name and
//! [`sorted_gen_list`] recovers, from a directory's file names, the
//! ascending list of generations; names of any other shape are
//! silently ignored.

use crate::codec::string_from_utf8;
use vstd::prelude::*;
use vstd::utf8::{decode_utf8, encode_utf8, valid_utf8};

verus! {

/// The byte of the decimal digit `d`.
pub open spec fn dec_digit(d: int) -> u8 {
    (0x30 + d) as u8
}

/// The decimal digits of `n`, most significant first.
pub open spec fn dec_bytes(n: int) -> Seq<u8>
    decreases n,
    when n >= 0
{
    if n < 10 {
        seq![dec_digit(n)]
    } else {
        dec_bytes(n / 10).push(dec_digit(n % 10))
    }
}

/// The suffix `.log`.
pub open spec fn log_suffix() -> Seq<u8> {
    seq![0x2Eu8, 0x6C, 0x6F, 0x67]
}

/// The file name of the segment of generation `gen`, as bytes.
pub open spec fn log_name(gen: u64) -> Seq<u8> {
    dec_bytes(gen as int) + log_suffix()
}

/// True of the bytes of decimal digits.
pub open spec fn is_digit(b: u8) -> bool {
    0x30 <= b <= 0x39
}

/// The value of a digit string, most significant first.
pub open spec fn dec_val(s: Seq<u8>) -> int
    decreases s.len(),
{
    if s.len() == 0 {
        0
    } else {
        dec_val(s.drop_last()) * 10 + (s.last() - 0x30)
    }
}

/// The generation named by a file name: the value of `<digits>.log`,
/// or nothing for a name of any other shape or a value out of range.
pub open spec fn gen_of_name(name: Seq<char>) -> Option<u64> {
    let b = encode_utf8(name);
    let stem = b.subrange(0, b.len() - 4);
    if b.len() >= 5 && b.subrange(b.len() - 4, b.len() as int) == log_suffix() && (forall|i: int|
        0 <= i < stem.len() ==> is_digit(#[trigger] stem[i])) && dec_val(stem) <= u64::MAX {
        Some(dec_val(stem) as u64)
    } else {
        None
    }
}

/// The generations named by a list of file names, in the given order.
pub open spec fn gens_of(names: Seq<String>) -> Seq<u64>
    decreases names.len(),
{
    if names.len() == 0 {
        Seq::empty()
    } else {
        gens_of(names.drop_last()) + (match gen_of_name(names.last()@) {
            Some(g) => seq![g],
            None => Seq::empty(),
        })
    }
}

proof fn lemma_dec_bytes_digits(n: int)
    requires
        n >= 0,
    ensures
        dec_bytes(n).len() >= 1,
        forall|i: int| 0 <= i < dec_bytes(n).len() ==> is_digit(#[trigger] dec_bytes(n)[i]),
        dec_val(dec_bytes(n)) == n,
    decreases n,
{
    if n < 10 {
        assert(dec_bytes(n) =~= seq![dec_digit(n)]);
        assert(seq![dec_digit(n)].drop_last() =~= Seq::<u8>::empty());
        assert(seq![dec_digit(n)].last() == dec_digit(n));
        assert(dec_val(dec_bytes(n)) == dec_val(Seq::<u8>::empty()) * 10 + (dec_digit(n)
            - 0x30));
    } else {
        lemma_dec_bytes_digits(n / 10);
        let s = dec_bytes(n / 10).push(dec_digit(n % 10));
        assert(s.drop_last() =~= dec_bytes(n / 10));
        assert(s.last() == dec_digit(n % 10));
        assert(forall|i: int|
            0 <= i < s.len() - 1 ==> s[i] == #[trigger] dec_bytes(n / 10)[i]);
        assert(dec_val(s) == (n / 10) * 10 + (n % 10));
    }
}

/// Appending one digit multiplies the value and adds the digit.
proof fn lemma_dec_val_step(s: Seq<u8>, i: int)
    requires
        0 <= i < s.len(),
    ensures
        dec_val(s.subrange(0, i + 1)) == dec_val(s.subrange(0, i)) * 10 + (s[i] - 0x30),
{
    assert(s.subrange(0, i + 1).drop_last() =~= s.subrange(0, i));
    assert(s.subrange(0, i + 1).last() == s[i]);
}

/// The value of a digit string is at least the value of any prefix.
proof fn lemma_dec_val_mono(s: Seq<u8>, i: int)
    requires
        0 <= i <= s.len(),
        forall|k: int| 0 <= k < s.len() ==> is_digit(#[trigger] s[k]),
    ensures
        dec_val(s) >= dec_val(s.subrange(0, i)),
        dec_val(s.subrange(0, i)) >= 0,
    decreases s.len() - i,
{
    if i == s.len() {
        assert(s.subrange(0, i) =~= s);
        lemma_dec_val_nonneg(s);
    } else {
        lemma_dec_val_mono(s, i + 1);
        lemma_dec_val_step(s, i);
        lemma_dec_val_nonneg(s.subrange(0, i));
    }
}

proof fn lemma_dec_val_nonneg(s: Seq<u8>)
    requires
        forall|k: int| 0 <= k < s.len() ==> is_digit(#[trigger] s[k]),
    ensures
        dec_val(s) >= 0,
    decreases s.len(),
{
    if s.len() > 0 {
        assert(forall|k: int|
            0 <= k < s.drop_last().len() ==> s.drop_last()[k] == #[trigger] s[k]);
        lemma_dec_val_nonneg(s.drop_last());
    }
}

/// A sequence of ASCII bytes is valid UTF-8 and decodes to the
/// matching characters one for one.
proof fn lemma_ascii_valid(b: Seq<u8>)
    requires
        forall|i: int| 0 <= i < b.len() ==> #[trigger] b[i] < 0x80,
    ensures
        valid_utf8(b),
{
    assert(forall|i: int|
        0 <= i < b.len() ==> vstd::utf8::is_leading_byte_width_1(#[trigger] b[i]));
    assert(vstd::utf8::partial_valid_utf8(b, 0)) by {
        assert(b.subrange(0, 0) =~= Seq::<u8>::empty());
    }
    vstd::utf8::partial_valid_utf8_extend_ascii_block(b, 0, b.len() as int);
    assert(b.subrange(0, b.len() as int) =~= b);
}

/// Writes the decimal digits of `n` after `out`.
fn push_dec(out: &mut Vec<u8>, n: u64)
    ensures
        final(out)@ == old(out)@ + dec_bytes(n as int),
    decreases n,
{
    if n < 10 {
        out.push(0x30 + (n as u8));
        proof {
            assert(old(out)@ + dec_bytes(n as int) =~= old(out)@.push(dec_digit(n as int)));
        }
    } else {
        push_dec(out, n / 10);
        out.push(0x30 + ((n % 10) as u8));
        proof {
            assert(old(out)@ + dec_bytes(n as int) =~= (old(out)@ + dec_bytes(n as int / 10)).push(
                dec_digit(n as int % 10),
            ));
        }
    }
}

/// The file name of the segment of generation `gen`: the decimal
/// generation followed by `.log`.  Parsing the name recovers `gen`.
pub fn log_path(gen: u64) -> (s: String)
    ensures
        encode_utf8(s@) == log_name(gen),
        gen_of_name(s@) == Some(gen),
{
    let mut b: Vec<u8> = Vec::new();
    push_dec(&mut b, gen);
    b.push(0x2E);
    b.push(0x6C);
    b.push(0x6F);
    b.push(0x67);
    proof {
        assert(b@ =~= dec_bytes(gen as int) + log_suffix());
        lemma_dec_bytes_digits(gen as int);
        assert(forall|i: int| 0 <= i < b@.len() ==> #[trigger] b@[i] < 0x80);
        lemma_ascii_valid(b@);
    }
    let ghost gb = b@;
    match string_from_utf8(b) {
        Some(s) => {
            proof {
                vstd::utf8::decode_utf8_encode_utf8(gb);
                let eb = encode_utf8(s@);
                assert(eb == gb);
                assert(eb.subrange(eb.len() - 4, eb.len() as int) =~= log_suffix());
                assert(eb.subrange(0, eb.len() - 4) =~= dec_bytes(gen as int));
            }
            s
        },
        None => {
            proof {
                assert(false);
            }
            String::new()
        },
    }
}

/// Reads the generation from a file name of the shape `<decimal>.log`;
/// any other name, and any value beyond the largest generation, yields
/// nothing.
pub fn parse_gen(name: &str) -> (r: Option<u64>)
    ensures
        r == gen_of_name(name@),
{
    let b = name.as_bytes();
    assert(b@ == encode_utf8(name@));
    let n = b.len();
    if n < 5 {
        return None;
    }
    let sfx: Vec<u8> = vec![0x2Eu8, 0x6C, 0x6F, 0x67];
    assert(sfx@ =~= log_suffix());
    if !crate::codec::match_at_exec(b, n - 4, sfx.as_slice()) {
        proof {
            assert(b@.subrange(b@.len() - 4, b@.len() as int) != log_suffix());
        }
        return None;
    }
    let ghost stem = b@.subrange(0, b@.len() - 4);
    let mut val: u64 = 0;
    let mut i: usize = 0;
    while i < n - 4
        invariant
            0 <= i <= n - 4,
            5 <= n == b@.len(),
            b@ == encode_utf8(name@),
            stem == b@.subrange(0, b@.len() - 4),
            forall|k: int| 0 <= k < i ==> is_digit(#[trigger] stem[k]),
            val as int == dec_val(stem.subrange(0, i as int)),
        decreases n - 4 - i,
    {
        let c = b[i];
        if c < 0x30 || c > 0x39 {
            proof {
                assert(stem[i as int] == b@[i as int]);
                assert(!is_digit(stem[i as int]));
            }
            return None;
        }
        proof {
            lemma_dec_val_step(stem, i as int);
        }
        let next = match val.checked_mul(10) {
            Some(v) => match v.checked_add((c - 0x30) as u64) {
                Some(w) => w,
                None => {
                    proof {
                        if forall|k: int| 0 <= k < stem.len() ==> is_digit(#[trigger] stem[k]) {
                            lemma_overflow(stem, i as int, val as int, c);
                        }
                    }
                    return None;
                },
            },
            None => {
                proof {
                    if forall|k: int| 0 <= k < stem.len() ==> is_digit(#[trigger] stem[k]) {
                        lemma_overflow(stem, i as int, val as int, c);
                    }
                }
                return None;
            },
        };
        val = next;
        i = i + 1;
    }
    if n - 4 == 0 {
        return None;
    }
    proof {
        assert(stem.subrange(0, stem.len() as int) =~= stem);
    }
    Some(val)
}

/// When one more digit overflows the accumulator, the whole stem's
/// value is out of range.
proof fn lemma_overflow(stem: Seq<u8>, i: int, val: int, c: u8)
    requires
        0 <= i < stem.len(),
        forall|k: int| 0 <= k < stem.len() ==> is_digit(#[trigger] stem[k]),
        val == dec_val(stem.subrange(0, i)),
        stem[i] == c,
        val * 10 + (c - 0x30) > u64::MAX,
    ensures
        dec_val(stem) > u64::MAX,
{
    lemma_dec_val_step(stem, i);
    lemma_dec_val_mono(stem, i + 1);
}

/// The ascending list of generations named by the given file names.
/// Names that do not have the shape `<decimal>.log` are ignored; the
/// result holds exactly the named generations, in nondecreasing order.
pub fn sorted_gen_list(names: &Vec<String>) -> (r: Vec<u64>)
    ensures
        forall|i: int, j: int| 0 <= i < j < r@.len() ==> r@[i] <= r@[j],
        r@.to_multiset() == gens_of(names@).to_multiset(),
{
    proof {
        broadcast use vstd::seq_lib::group_to_multiset_ensures;

    }
    let mut r: Vec<u64> = Vec::new();
    let n = names.len();
    let mut t: usize = 0;
    while t < n
        invariant
            t <= n,
            n == names@.len(),
            forall|i: int, j: int| 0 <= i < j < r@.len() ==> r@[i] <= r@[j],
            r@.to_multiset() == gens_of(names@.subrange(0, t as int)).to_multiset(),
        decreases n - t,
    {
        proof {
            broadcast use vstd::seq_lib::group_to_multiset_ensures;

            assert(names@.subrange(0, t + 1).drop_last() =~= names@.subrange(0, t as int));
            assert(names@.subrange(0, t + 1).last() == names@[t as int]);
        }
        match parse_gen(names[t].as_str()) {
            Some(g) => {
                insert_sorted(&mut r, g);
                proof {
                    assert(gens_of(names@.subrange(0, t + 1)) =~= gens_of(
                        names@.subrange(0, t as int),
                    ).push(g));
                }
            },
            None => {
                proof {
                    assert(gens_of(names@.subrange(0, t + 1)) =~= gens_of(
                        names@.subrange(0, t as int),
                    ));
                }
            },
        }
        t = t + 1;
    }
    proof {
        assert(names@.subrange(0, n as int) =~= names@);
    }
    r
}

/// Inserts `g` into a nondecreasing list, keeping it nondecreasing.
fn insert_sorted(r: &mut Vec<u64>, g: u64)
    requires
        forall|i: int, j: int| 0 <= i < j < old(r)@.len() ==> old(r)@[i] <= old(r)@[j],
    ensures
        forall|i: int, j: int| 0 <= i < j < final(r)@.len() ==> final(r)@[i] <= final(r)@[j],
        final(r)@.to_multiset() == old(r)@.to_multiset().insert(g),
{
    proof {
        broadcast use vstd::seq_lib::group_to_multiset_ensures;

    }
    let n = r.len();
    let mut p: usize = 0;
    while p < n && r[p] <= g
        invariant
            p <= n,
            n == r@.len(),
            *r == *old(r),
            forall|k: int| 0 <= k < p ==> r@[k] <= g,
        decreases n - p,
    {
        p = p + 1;
    }
    assert(forall|k: int| 0 <= k < p ==> r@[k] <= g);
    assert(p < r@.len() ==> r@[p as int] > g);
    let ghost prev = r@;
    r.insert(p, g);
    proof {
        let s2 = r@;
        assert(s2.remove(p as int) =~= prev);
        assert(s2.remove(p as int).to_multiset() =~= s2.to_multiset().remove(s2[p as int]));
        assert(s2.to_multiset().contains(g)) by {
            assert(s2[p as int] == g);
        }
        assert(s2.to_multiset() =~= prev.to_multiset().insert(g));
        assert forall|i: int, j: int| 0 <= i < j < s2.len() implies s2[i] <= s2[j] by {
            if j < p {
            } else if i < p && j == p {
            } else if i == p {
                assert(s2[j] == prev[j - 1]);
                assert(prev[p as int] > g);
                if j - 1 > p {
                    assert(prev[p as int] <= prev[j - 1]);
                }
            } else if i > p {
                assert(s2[i] == prev[i - 1] && s2[j] == prev[j - 1]);
            } else {
                assert(s2[i] == prev[i] && s2[j] == prev[j - 1]);
                assert(prev[i] <= g);
                assert(prev[p as int] > g);
                if j - 1 > p {
                } else {
                }
                assert(prev[i] <= prev[j - 1]) by {
                    if i < j - 1 {
                    } else {
                        assert(i == j - 1);
                    }
                }
            }
        }
    }
}

} // verus!
