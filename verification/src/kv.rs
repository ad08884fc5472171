//! The log-structured storage engine.
//!
//! The engine owns a sequence of append-only segments, an in-memory
//! index from key to record location, and a counter of stale bytes.
//! Every operation appends records to the active segment and keeps the
//! index pointing at the latest `Set` record of each present key, so
//! that replaying the segments from disk rebuilds exactly the same
//! index.  When enough stale bytes accumulate, compaction rewrites the
//! live records into a fresh segment and discards the old ones.
//!
//! The engine does no I/O itself: it records the file operations a
//! caller must mirror to persistent storage as [`Effect`] values, in
//! the order they must be applied.

use crate::codec::{
    decode_command, enc_record, encode_command, is_ws, lemma_enc_record_parses,
    lemma_parse_record_exact, lemma_skip_ws_bounds, parse_record, rec_valid, skip_ws, Command,
    SpecRecord,
};
use crate::error::KvsError;
use crate::index::{lemma_map_of_index, Index};
use vstd::prelude::*;
use vstd::utf8::{decode_utf8, encode_utf8, valid_utf8};

verus! {

/// Compaction runs once more than this many stale bytes accumulate.
pub const COMPACTION_THRESHOLD: u64 = 1024 * 1024;

/// The location of one serialized record: the segment's generation, the
/// byte offset at which the record starts, and its length in bytes.
#[derive(Clone, Copy, Debug, PartialEq, Eq, Structural)]
pub struct CommandPos {
    pub gen: u64,
    pub start: u64,
    pub length: u64,
}

/// One segment: its generation number and its full contents.
pub struct Segment {
    pub gen: u64,
    pub data: Vec<u8>,
}

/// A file operation that a caller must mirror to persistent storage.
/// Effects are produced in the order they must be applied.
pub enum Effect {
    /// Create the empty segment file of this generation.
    CreateSegment { gen: u64 },
    /// Append these bytes to the segment file of this generation and
    /// flush them to durable storage.
    Append { gen: u64, bytes: Vec<u8> },
    /// Delete the segment file of this generation.
    DeleteSegment { gen: u64 },
}

// ---------------------------------------------------------------------
// The replay semantics of a segment sequence
// ---------------------------------------------------------------------

/// What one replayed record does to the index map and the stale-byte
/// count: a `Set` binds the key to the record's location and retires a
/// previous binding; a `Remove` unbinds the key, retiring both the old
/// binding and the `Remove` record itself.
pub open spec fn apply_rec(
    m: Map<Seq<char>, CommandPos>,
    unc: int,
    gen: u64,
    start: int,
    end: int,
    r: SpecRecord,
) -> (Map<Seq<char>, CommandPos>, int) {
    let k = decode_utf8(r.0);
    let stale = if m.contains_key(k) {
        m[k].length as int
    } else {
        0
    };
    match r.1 {
        Some(_) => (
            m.insert(k, CommandPos { gen, start: start as u64, length: (end - start) as u64 }),
            unc + stale,
        ),
        None => (m.remove(k), unc + stale + (end - start)),
    }
}

/// Replays one segment from offset `i`: decodes records one after the
/// other, applying each.  Fails on malformed data; a segment must end
/// exactly at a record boundary.
pub open spec fn replay_seg_from(
    d: Seq<u8>,
    gen: u64,
    i: int,
    m: Map<Seq<char>, CommandPos>,
    unc: int,
) -> Option<(Map<Seq<char>, CommandPos>, int)>
    decreases d.len() - i,
    when 0 <= i <= d.len()
{
    if i == d.len() {
        Some((m, unc))
    } else {
        match parse_record(d, i) {
            Some((r, j)) => if i < j <= d.len() {
                let (m2, unc2) = apply_rec(m, unc, gen, i, j, r);
                replay_seg_from(d, gen, j, m2, unc2)
            } else {
                None
            },
            None => None,
        }
    }
}

/// Replays a sequence of segments in order, oldest first.
pub open spec fn replay_segs(
    segs: Seq<(u64, Seq<u8>)>,
    m: Map<Seq<char>, CommandPos>,
    unc: int,
) -> Option<(Map<Seq<char>, CommandPos>, int)>
    decreases segs.len(),
{
    if segs.len() == 0 {
        Some((m, unc))
    } else {
        match replay_seg_from(segs[0].1, segs[0].0, 0, m, unc) {
            Some((m2, unc2)) => replay_segs(segs.drop_first(), m2, unc2),
            None => None,
        }
    }
}

/// The replay of a whole store, from nothing.
pub open spec fn replay_of(segs: Seq<(u64, Seq<u8>)>) -> Option<
    (Map<Seq<char>, CommandPos>, int),
> {
    replay_segs(segs, Map::empty(), 0)
}

// ---------------------------------------------------------------------
// Segment sequences
// ---------------------------------------------------------------------

/// Generation numbers strictly increase along the sequence.
pub open spec fn gens_sorted(s: Seq<(u64, Seq<u8>)>) -> bool {
    forall|i: int, j: int| 0 <= i < j < s.len() ==> s[i].0 < s[j].0
}

/// The total number of bytes held in the segments.
pub open spec fn total_of(s: Seq<(u64, Seq<u8>)>) -> int
    decreases s.len(),
{
    if s.len() == 0 {
        0
    } else {
        total_of(s.drop_last()) + s.last().1.len()
    }
}

/// The contents of the first segment of generation `gen`, if any.
pub open spec fn find_seg(s: Seq<(u64, Seq<u8>)>, gen: u64) -> Option<Seq<u8>>
    decreases s.len(),
{
    if s.len() == 0 {
        None
    } else if s[0].0 == gen {
        Some(s[0].1)
    } else {
        find_seg(s.drop_first(), gen)
    }
}

pub proof fn lemma_find_seg_at(s: Seq<(u64, Seq<u8>)>, i: int)
    requires
        gens_sorted(s),
        0 <= i < s.len(),
    ensures
        find_seg(s, s[i].0) == Some(s[i].1),
    decreases s.len(),
{
    if i > 0 {
        assert(s[0].0 < s[i].0);
        assert(gens_sorted(s.drop_first())) by {
            assert(forall|a: int|
                0 <= a < s.drop_first().len() ==> s.drop_first()[a] == s[a + 1]);
        }
        assert(s.drop_first()[i - 1] == s[i]);
        lemma_find_seg_at(s.drop_first(), i - 1);
    }
}

pub proof fn lemma_total_of_entry(s: Seq<(u64, Seq<u8>)>, i: int)
    requires
        0 <= i < s.len(),
    ensures
        total_of(s) >= s[i].1.len(),
        total_of(s) >= 0,
    decreases s.len(),
{
    lemma_total_of_nonneg(s.drop_last());
    if i < s.len() - 1 {
        assert(s.drop_last()[i] == s[i]);
        lemma_total_of_entry(s.drop_last(), i);
    }
}

pub proof fn lemma_total_of_nonneg(s: Seq<(u64, Seq<u8>)>)
    ensures
        total_of(s) >= 0,
    decreases s.len(),
{
    if s.len() > 0 {
        lemma_total_of_nonneg(s.drop_last());
    }
}

/// Appending one segment to a sequence replays the sequence first,
/// then the new segment.
pub proof fn lemma_replay_segs_snoc(
    s: Seq<(u64, Seq<u8>)>,
    x: (u64, Seq<u8>),
    m: Map<Seq<char>, CommandPos>,
    unc: int,
)
    ensures
        replay_segs(s.push(x), m, unc) == (match replay_segs(s, m, unc) {
            Some((m2, u2)) => replay_seg_from(x.1, x.0, 0, m2, u2),
            None => None,
        }),
    decreases s.len(),
{
    if s.len() == 0 {
        assert(s.push(x)[0] == x);
        assert(s.push(x).drop_first() =~= Seq::<(u64, Seq<u8>)>::empty());
        assert(replay_segs(s, m, unc) == Some((m, unc)));
        match replay_seg_from(x.1, x.0, 0, m, unc) {
            Some((m2, u2)) => {
                assert(replay_segs(s.push(x), m, unc) == replay_segs(
                    s.push(x).drop_first(),
                    m2,
                    u2,
                ));
                assert(replay_segs(s.push(x).drop_first(), m2, u2) == Some((m2, u2)));
            },
            None => {
                assert(replay_segs(s.push(x), m, unc) is None);
            },
        }
    } else {
        assert(s.push(x)[0] == s[0]);
        assert(s.push(x).drop_first() =~= s.drop_first().push(x));
        match replay_seg_from(s[0].1, s[0].0, 0, m, unc) {
            Some((m2, u2)) => {
                assert(replay_segs(s.push(x), m, unc) == replay_segs(
                    s.drop_first().push(x),
                    m2,
                    u2,
                ));
                assert(replay_segs(s, m, unc) == replay_segs(s.drop_first(), m2, u2));
                lemma_replay_segs_snoc(s.drop_first(), x, m2, u2);
            },
            None => {
                assert(replay_segs(s.push(x), m, unc) is None);
                assert(replay_segs(s, m, unc) is None);
            },
        }
    }
}

/// A failed replay stays failed when more segments follow.
pub proof fn lemma_replay_segs_none_extend(
    s: Seq<(u64, Seq<u8>)>,
    s2: Seq<(u64, Seq<u8>)>,
    m: Map<Seq<char>, CommandPos>,
    unc: int,
)
    requires
        s.len() <= s2.len(),
        s2.subrange(0, s.len() as int) == s,
        replay_segs(s, m, unc) is None,
    ensures
        replay_segs(s2, m, unc) is None,
    decreases s2.len(),
{
    if s2.len() == s.len() {
        assert(s2 =~= s);
    } else {
        assert(s2.drop_last().subrange(0, s.len() as int) =~= s2.subrange(0, s.len() as int));
        lemma_replay_segs_none_extend(s, s2.drop_last(), m, unc);
        lemma_replay_segs_snoc(s2.drop_last(), s2.last(), m, unc);
        assert(s2.drop_last().push(s2.last()) =~= s2);
    }
}

/// A segment found stays found when a segment is appended after it.
pub proof fn lemma_find_seg_push(s: Seq<(u64, Seq<u8>)>, x: (u64, Seq<u8>), gen: u64)
    requires
        find_seg(s, gen) is Some,
    ensures
        find_seg(s.push(x), gen) == find_seg(s, gen),
    decreases s.len(),
{
    assert(s.len() > 0);
    assert(s.push(x)[0] == s[0]);
    if s[0].0 != gen {
        assert(s.push(x).drop_first() =~= s.drop_first().push(x));
        lemma_find_seg_push(s.drop_first(), x, gen);
    }
}

proof fn lemma_skip_ws_prefix(d: Seq<u8>, i: int)
    requires
        0 <= i <= d.len(),
    ensures
        forall|m: int| i <= m < skip_ws(d, i) ==> is_ws(d[m]),
    decreases d.len() - i,
{
    if i < d.len() && is_ws(d[i]) {
        lemma_skip_ws_prefix(d, i + 1);
    }
}

proof fn lemma_skip_ws_exact(d: Seq<u8>, i: int, w: int)
    requires
        0 <= i <= w <= d.len(),
        forall|m: int| i <= m < w ==> is_ws(d[m]),
        w < d.len(),
        !is_ws(d[w]),
    ensures
        skip_ws(d, i) == w,
    decreases w - i,
{
    if i < w {
        lemma_skip_ws_exact(d, i + 1, w);
    }
}

/// Wherever the bytes a successful record parse consumed occur again,
/// the parse succeeds with the same record.  In particular a parse is
/// unaffected by bytes appended after it, and a copied record parses
/// at its new position.
pub proof fn lemma_parse_record_window(d1: Seq<u8>, i1: int, d2: Seq<u8>, i2: int)
    requires
        0 <= i1 <= d1.len(),
        parse_record(d1, i1) is Some,
        0 <= i2,
        i2 + (parse_record(d1, i1)->Some_0.1 - i1) <= d2.len(),
        d2.subrange(i2, i2 + (parse_record(d1, i1)->Some_0.1 - i1)) == d1.subrange(
            i1,
            parse_record(d1, i1)->Some_0.1,
        ),
    ensures
        parse_record(d2, i2) == Some(
            (parse_record(d1, i1)->Some_0.0, i2 + (parse_record(d1, i1)->Some_0.1 - i1)),
        ),
{
    let (r, j1) = parse_record(d1, i1)->Some_0;
    lemma_parse_record_exact(d1, i1);
    let w1 = skip_ws(d1, i1);
    lemma_skip_ws_bounds(d1, i1);
    lemma_skip_ws_prefix(d1, i1);
    let ll = j1 - i1;
    let wlen = w1 - i1;
    let w2 = i2 + wlen;
    let e = enc_record(r);
    assert forall|t: int| 0 <= t < ll implies #[trigger] d2[i2 + t] == d1[i1 + t] by {
        assert(d2.subrange(i2, i2 + ll)[t] == d1.subrange(i1, j1)[t]);
    }
    assert(d1[w1] == e[0]);
    assert(e[0] == 0x7B && !is_ws(0x7B));
    assert(d2[w2] == d1[w1]);
    assert forall|m: int| i2 <= m < w2 implies is_ws(d2[m]) by {
        assert(d2[i2 + (m - i2)] == d1[i1 + (m - i2)]);
        assert(is_ws(d1[i1 + (m - i2)]));
    }
    lemma_skip_ws_exact(d2, i2, w2);
    assert(d2.subrange(w2, i2 + ll) =~= e) by {
        assert forall|t: int| 0 <= t < e.len() implies #[trigger] d2.subrange(w2, i2 + ll)[t]
            == e[t] by {
            assert(d1.subrange(w1, j1)[t] == e[t]);
            assert(d2[i2 + (wlen + t)] == d1[i1 + (wlen + t)]);
        }
    }
    lemma_enc_record_parses(d2, w2, r);
    assert(skip_ws(d2, w2) == w2) by {
        lemma_skip_ws_exact(d2, w2, w2);
    }
    assert(parse_record(d2, i2) == parse_record(d2, w2));
}

/// Appending bytes to a segment does not disturb the replay of what
/// was already there: the replay continues at the old end.
pub proof fn lemma_replay_extend(
    d: Seq<u8>,
    e: Seq<u8>,
    gen: u64,
    i: int,
    m: Map<Seq<char>, CommandPos>,
    unc: int,
)
    requires
        0 <= i <= d.len(),
        replay_seg_from(d, gen, i, m, unc) is Some,
    ensures
        ({
            let (m2, u2) = replay_seg_from(d, gen, i, m, unc)->Some_0;
            replay_seg_from(d + e, gen, i, m, unc) == replay_seg_from(
                d + e,
                gen,
                d.len() as int,
                m2,
                u2,
            )
        }),
    decreases d.len() - i,
{
    if i == d.len() {
    } else {
        let (r, j) = parse_record(d, i)->Some_0;
        assert((d + e).subrange(i, j) =~= d.subrange(i, j));
        lemma_parse_record_window(d, i, d + e, i);
        let (m2, u2) = apply_rec(m, unc, gen, i, j, r);
        lemma_replay_extend(d, e, gen, j, m2, u2);
    }
}

/// Parsing the canonical encoding of a record appended at the end of a
/// segment yields exactly that record.
pub proof fn lemma_replay_append_record(
    d: Seq<u8>,
    r: SpecRecord,
    gen: u64,
    m: Map<Seq<char>, CommandPos>,
    unc: int,
)
    requires
        rec_valid(r),
        replay_seg_from(d, gen, 0, m, unc) is Some,
    ensures
        ({
            let (m2, u2) = replay_seg_from(d, gen, 0, m, unc)->Some_0;
            let e = enc_record(r);
            replay_seg_from(d + e, gen, 0, m, unc) == Some(
                apply_rec(m2, u2, gen, d.len() as int, d.len() + e.len() as int, r),
            )
        }),
{
    let (m2, u2) = replay_seg_from(d, gen, 0, m, unc)->Some_0;
    let e = enc_record(r);
    lemma_replay_extend(d, e, gen, 0, m, unc);
    assert((d + e).subrange(d.len() as int, d.len() + e.len() as int) =~= e);
    lemma_enc_record_parses(d + e, d.len() as int, r);
    assert(e.len() >= 2);
    let (m3, u3) = apply_rec(m2, u2, gen, d.len() as int, d.len() + e.len() as int, r);
    assert(replay_seg_from(d + e, gen, d.len() + e.len() as int, m3, u3) == Some((m3, u3)));
}

/// Replacing the last segment's contents changes which contents
/// `find_seg` returns for that generation, and nothing else.
pub proof fn lemma_find_seg_update_last(s: Seq<(u64, Seq<u8>)>, nd: Seq<u8>, gen: u64)
    requires
        gens_sorted(s),
        s.len() >= 1,
    ensures
        ({
            let s2 = s.update(s.len() - 1, (s.last().0, nd));
            &&& gen == s.last().0 ==> find_seg(s2, gen) == Some(nd)
            &&& gen != s.last().0 ==> find_seg(s2, gen) == find_seg(s, gen)
        }),
    decreases s.len(),
{
    let s2 = s.update(s.len() - 1, (s.last().0, nd));
    if s.len() == 1 {
        assert(s2[0] == (s.last().0, nd));
        assert(s2.drop_first() =~= Seq::<(u64, Seq<u8>)>::empty());
        assert(s.drop_first() =~= Seq::<(u64, Seq<u8>)>::empty());
        if gen != s.last().0 {
            assert(find_seg(s2, gen) is None);
            assert(find_seg(s, gen) is None);
        }
    } else {
        assert(s2[0] == s[0]);
        assert(s[0].0 < s.last().0);
        assert(gens_sorted(s.drop_first())) by {
            assert(forall|a: int|
                0 <= a < s.drop_first().len() ==> s.drop_first()[a] == s[a + 1]);
        }
        lemma_find_seg_update_last(s.drop_first(), nd, gen);
        assert(s2.drop_first() =~= s.drop_first().update(
            s.drop_first().len() - 1,
            (s.drop_first().last().0, nd),
        ));
        assert(s.drop_first().last() == s.last());
    }
}

/// Appending a record to the active segment steps the whole replay by
/// exactly that record.
pub proof fn lemma_replay_segs_append_record(s: Seq<(u64, Seq<u8>)>, r: SpecRecord)
    requires
        s.len() >= 1,
        rec_valid(r),
        replay_of(s) is Some,
    ensures
        ({
            let (m, u) = replay_of(s)->Some_0;
            let d = s.last().1;
            let e = enc_record(r);
            let s2 = s.update(s.len() - 1, (s.last().0, d + e));
            replay_of(s2) == Some(
                apply_rec(m, u, s.last().0, d.len() as int, d.len() + e.len() as int, r),
            )
        }),
{
    let d = s.last().1;
    let g = s.last().0;
    let e = enc_record(r);
    let s2 = s.update(s.len() - 1, (g, d + e));
    let pre = s.drop_last();
    assert(s =~= pre.push((g, d)));
    assert(s2 =~= pre.push((g, d + e)));
    lemma_replay_segs_snoc(pre, (g, d), Map::empty(), 0);
    lemma_replay_segs_snoc(pre, (g, d + e), Map::empty(), 0);
    match replay_segs(pre, Map::empty(), 0) {
        Some((mp, up)) => {
            lemma_replay_append_record(d, r, g, mp, up);
        },
        None => {
            assert(false);
        },
    }
}

/// Appends the bytes `src[start..end]` to `dst`.
fn copy_range(dst: &mut Vec<u8>, src: &[u8], start: usize, end: usize)
    requires
        start <= end <= src@.len(),
    ensures
        final(dst)@ == old(dst)@ + src@.subrange(start as int, end as int),
{
    let ghost base = dst@;
    let mut k = start;
    while k < end
        invariant
            start <= k <= end <= src@.len(),
            dst@ == base + src@.subrange(start as int, k as int),
        decreases end - k,
    {
        dst.push(src[k]);
        proof {
            assert(src@.subrange(start as int, k + 1) =~= src@.subrange(
                start as int,
                k as int,
            ).push(src@[k as int]));
        }
        k = k + 1;
    }
}

/// The value held by the `Set` record at `cp.start` in contents `d`.
pub open spec fn seg_value(d: Seq<u8>, cp: CommandPos) -> Seq<char> {
    match parse_record(d, cp.start as int) {
        Some((r, j)) => decode_utf8(r.1->0),
        None => Seq::empty(),
    }
}

/// True when the effect appends exactly `b` to the segment of
/// generation `gen`.
pub open spec fn is_append_of(e: Effect, gen: u64, b: Seq<u8>) -> bool {
    match e {
        Effect::Append { gen: g, bytes } => g == gen && bytes@ == b,
        _ => false,
    }
}

/// One compaction copy: appending the bytes of one live record to the
/// compaction segment's contents extends their replay by exactly that
/// fresh binding at the old end, leaves every record already copied
/// parsing unchanged, and carries the record's value over.
#[verifier::rlimit(100)]
proof fn lemma_compact_step(
    before: Seq<u8>,
    after: Seq<u8>,
    cgen: u64,
    gm: Map<Seq<char>, CommandPos>,
    src: Seq<u8>,
    cp: CommandPos,
    k: Seq<char>,
)
    requires
        entry_in_seg(src, cp.gen, cp, k),
        after == before + src.subrange(cp.start as int, cp.start + cp.length),
        replay_seg_from(before, cgen, 0, Map::empty(), 0) == Some((gm, 0int)),
        !gm.contains_key(k),
        before.len() + cp.length <= u64::MAX,
    ensures
        ({
            let ncp = CommandPos { gen: cgen, start: before.len() as u64, length: cp.length };
            &&& after.len() == before.len() + cp.length
            &&& entry_in_seg(after, cgen, ncp, k)
            &&& seg_value(after, ncp) == seg_value(src, cp)
            &&& replay_seg_from(after, cgen, 0, Map::empty(), 0) == Some(
                (gm.insert(k, ncp), 0int),
            )
        }),
        forall|cp0: CommandPos, k0: Seq<char>| #[trigger]
            entry_in_seg(before, cgen, cp0, k0) ==> entry_in_seg(after, cgen, cp0, k0)
                && seg_value(after, cp0) == seg_value(before, cp0),
{
    let np = before.len() as int;
    let j1 = parse_record(src, cp.start as int)->Some_0.1;
    assert(j1 == cp.start + cp.length);
    assert(after.subrange(np, np + cp.length) =~= src.subrange(cp.start as int, j1));
    lemma_parse_record_window(src, cp.start as int, after, np);
    let rec = parse_record(src, cp.start as int)->Some_0.0;
    lemma_replay_extend(before, src.subrange(cp.start as int, cp.start + cp.length), cgen, 0, Map::empty(), 0);
    let ncp = CommandPos { gen: cgen, start: np as u64, length: cp.length };
    let gm2 = gm.insert(k, ncp);
    assert(apply_rec(gm, 0int, cgen, np, np + cp.length, rec) == (gm2, 0int));
    assert(replay_seg_from(after, cgen, np + cp.length, gm2, 0) == Some((gm2, 0int)));
    assert forall|cp0: CommandPos, k0: Seq<char>| #[trigger]
        entry_in_seg(before, cgen, cp0, k0) implies entry_in_seg(after, cgen, cp0, k0)
        && seg_value(after, cp0) == seg_value(before, cp0) by {
        let jm = parse_record(before, cp0.start as int)->Some_0.1;
        assert(after.subrange(cp0.start as int, jm) =~= before.subrange(cp0.start as int, jm));
        lemma_parse_record_window(before, cp0.start as int, after, cp0.start as int);
    }
}

/// A prefix of the index's entries occupies at most the live total.
proof fn lemma_live_prefix(s: Seq<(String, CommandPos)>, t: int)
    requires
        0 <= t <= s.len(),
    ensures
        crate::index::live_bytes_of(s.subrange(0, t)) <= crate::index::live_bytes_of(s),
    decreases s.len() - t,
{
    if t == s.len() {
        assert(s.subrange(0, t) =~= s);
    } else {
        lemma_live_prefix(s, t + 1);
        assert(s.subrange(0, t + 1).drop_last() =~= s.subrange(0, t));
        assert(crate::index::live_bytes_of(s.subrange(0, t + 1))
            == crate::index::live_bytes_of(s.subrange(0, t)) + s[t].1.length);
    }
}

/// One full iteration of the compaction copy: all the bookkeeping of
/// [`lemma_compact_step`], carried over the index's entry sequence.
#[verifier::rlimit(100)]
proof fn lemma_compact_iter(
    pre: KvStore,
    i: int,
    nps: Seq<u64>,
    before: Seq<u8>,
    after: Seq<u8>,
    gm: Map<Seq<char>, CommandPos>,
    cgen: u64,
)
    requires
        pre.wf(),
        0 <= i < pre.index.pairs().len(),
        nps.len() == i + 1,
        before.len() == crate::index::live_bytes_of(pre.index.pairs().subrange(0, i)),
        nps[i] as int == before.len(),
        ({
            let cp = pre.index.pairs()[i].1;
            &&& find_seg(pre.segs(), cp.gen) is Some
            &&& after == before + find_seg(pre.segs(), cp.gen)->Some_0.subrange(
                cp.start as int,
                cp.start + cp.length,
            )
        }),
        replay_seg_from(before, cgen, 0, Map::empty(), 0) == Some((gm, 0int)),
        forall|k: Seq<char>| #[trigger]
            gm.contains_key(k) ==> exists|m: int|
                0 <= m < i && pre.index.pairs()[m].0@ == k,
        forall|m: int|
            0 <= m < i ==> ({
                let k = (#[trigger] pre.index.pairs()[m]).0@;
                &&& gm.contains_key(k)
                &&& gm[k] == (CommandPos {
                    gen: cgen,
                    start: nps[m],
                    length: pre.index.pairs()[m].1.length,
                })
                &&& entry_in_seg(before, cgen, gm[k], k)
                &&& seg_value(before, gm[k]) == entry_value(pre.segs(), pre.index.pairs()[m].1)
            }),
        before.len() + pre.index.pairs()[i].1.length <= u64::MAX,
    ensures
        ({
            let pairs = pre.index.pairs();
            let cp = pairs[i].1;
            let ncp = CommandPos { gen: cgen, start: before.len() as u64, length: cp.length };
            let gm2 = gm.insert(pairs[i].0@, ncp);
            &&& after.len() == crate::index::live_bytes_of(pairs.subrange(0, i + 1))
            &&& replay_seg_from(after, cgen, 0, Map::empty(), 0) == Some((gm2, 0int))
            &&& (forall|k: Seq<char>| #[trigger]
                gm2.contains_key(k) ==> exists|m: int| 0 <= m < i + 1 && pairs[m].0@ == k)
            &&& (forall|m: int|
                0 <= m < i + 1 ==> ({
                    let k = (#[trigger] pairs[m]).0@;
                    &&& gm2.contains_key(k)
                    &&& gm2[k] == (CommandPos {
                        gen: cgen,
                        start: nps[m],
                        length: pairs[m].1.length,
                    })
                    &&& entry_in_seg(after, cgen, gm2[k], k)
                    &&& seg_value(after, gm2[k]) == entry_value(pre.segs(), pairs[m].1)
                }))
        }),
{
    let pairs = pre.index.pairs();
    let cp = pairs[i].1;
    let kv = pairs[i].0@;
    let src = find_seg(pre.segs(), cp.gen)->Some_0;
    lemma_map_of_index(pairs, i);
    assert(pre.index@.contains_key(kv));
    assert(entry_ok(pre.segs(), kv, cp));
    assert(entry_in_seg(src, cp.gen, cp, kv));
    assert(!gm.contains_key(kv)) by {
        if gm.contains_key(kv) {
            let m = choose|m: int| 0 <= m < i && pairs[m].0@ == kv;
            assert(false);
        }
    }
    lemma_compact_step(before, after, cgen, gm, src, cp, kv);
    let ncp = CommandPos { gen: cgen, start: before.len() as u64, length: cp.length };
    let gm2 = gm.insert(kv, ncp);
    assert(pairs.subrange(0, i + 1).drop_last() =~= pairs.subrange(0, i));
    assert(crate::index::live_bytes_of(pairs.subrange(0, i + 1)) == crate::index::live_bytes_of(
        pairs.subrange(0, i),
    ) + cp.length);
    assert(nps[i] as int == before.len());
    assert(seg_value(after, ncp) == entry_value(pre.segs(), pairs[i].1)) by {
        assert(seg_value(src, cp) == entry_value(pre.segs(), cp));
    }
    assert forall|m: int| 0 <= m < i + 1 implies ({
        let k = (#[trigger] pairs[m]).0@;
        &&& gm2.contains_key(k)
        &&& gm2[k] == (CommandPos { gen: cgen, start: nps[m], length: pairs[m].1.length })
        &&& entry_in_seg(after, cgen, gm2[k], k)
        &&& seg_value(after, gm2[k]) == entry_value(pre.segs(), pairs[m].1)
    }) by {
        if m < i {
            let ocp = gm[pairs[m].0@];
            assert(entry_in_seg(before, cgen, ocp, pairs[m].0@));
            assert(gm2[pairs[m].0@] == ocp);
        } else {
            assert(gm2[pairs[m].0@] == ncp);
            assert(nps[m] as int == before.len());
        }
    }
}

/// One index entry points at a `Set` record of key `k` lying inside
/// segment contents `d` of generation `gen`.
pub open spec fn entry_in_seg(d: Seq<u8>, gen: u64, cp: CommandPos, k: Seq<char>) -> bool {
    &&& cp.gen == gen
    &&& cp.start + cp.length <= d.len()
    &&& match parse_record(d, cp.start as int) {
        Some((r, j)) => {
            &&& j == cp.start + cp.length
            &&& r.1 is Some
            &&& decode_utf8(r.0) == k
        },
        None => false,
    }
}

// ---------------------------------------------------------------------
// The store
// ---------------------------------------------------------------------

/// The log-structured store.  Its contracts are stated over
/// [`KvStore::as_map`], the map from each present key to its value.
pub struct KvStore {
    pub segments: Vec<Segment>,
    pub current_gen: u64,
    pub index: Index,
    pub uncompacted: u64,
    pub effects: Vec<Effect>,
}

/// One index entry is backed by the segments: its location lies within
/// the named segment and holds a `Set` record of exactly that key.
pub open spec fn entry_ok(segs: Seq<(u64, Seq<u8>)>, k: Seq<char>, cp: CommandPos) -> bool {
    match find_seg(segs, cp.gen) {
        Some(d) => entry_in_seg(d, cp.gen, cp, k),
        None => false,
    }
}

/// The (generation, contents) view of a segment sequence.
pub open spec fn segs_of(v: Seq<Segment>) -> Seq<(u64, Seq<u8>)> {
    v.map_values(|s: Segment| (s.gen, s.data@))
}

/// The key-value map that replaying a segment sequence yields.
pub open spec fn replayed_map(segs: Seq<(u64, Seq<u8>)>) -> Map<Seq<char>, Seq<char>> {
    replay_of(segs)->Some_0.0.map_values(|cp: CommandPos| entry_value(segs, cp))
}

proof fn lemma_gen_lt(s: Seq<(u64, Seq<u8>)>, i: int, j: int)
    requires
        forall|a: int| 0 <= a < s.len() - 1 ==> #[trigger] s[a].0 < s[a + 1].0,
        0 <= i < j < s.len(),
    ensures
        s[i].0 < s[j].0,
    decreases j - i,
{
    if j > i + 1 {
        lemma_gen_lt(s, i, j - 1);
        assert(s[j - 1].0 < s[j].0);
    } else {
        assert(s[i].0 < s[i + 1].0);
    }
}

/// A sequence whose adjacent generations increase is sorted.
proof fn lemma_adjacent_sorted(s: Seq<(u64, Seq<u8>)>)
    requires
        forall|a: int| 0 <= a < s.len() - 1 ==> #[trigger] s[a].0 < s[a + 1].0,
    ensures
        gens_sorted(s),
{
    assert forall|i: int, j: int| 0 <= i < j < s.len() implies s[i].0 < s[j].0 by {
        lemma_gen_lt(s, i, j);
    }
}

/// A prefix of a segment sequence holds at most as many bytes.
proof fn lemma_total_prefix(s: Seq<(u64, Seq<u8>)>, t: int)
    requires
        0 <= t <= s.len(),
    ensures
        total_of(s.subrange(0, t)) <= total_of(s),
    decreases s.len() - t,
{
    if t == s.len() {
        assert(s.subrange(0, t) =~= s);
    } else {
        lemma_total_prefix(s, t + 1);
        assert(s.subrange(0, t + 1).drop_last() =~= s.subrange(0, t));
        assert(total_of(s.subrange(0, t + 1)) == total_of(s.subrange(0, t)) + s[t].1.len());
    }
}

/// Replays one segment's contents into the index, exactly as opening a
/// store replays a segment file: each `Set` binds its key to the
/// record's location, each `Remove` unbinds it, and the superseded
/// bytes are added to the stale count.
fn load(gen: u64, data: &Vec<u8>, index: &mut Index, uncompacted: &mut u64) -> (r: Result<
    (),
    KvsError,
>)
    requires
        old(index).wf(),
        old(index).live_bytes() + *old(uncompacted) + data@.len() <= u64::MAX,
        old(index).live_bytes() >= 0,
    ensures
        final(index).wf(),
        r is Ok <==> replay_seg_from(data@, gen, 0, old(index)@, *old(uncompacted) as int)
            is Some,
        r is Ok ==> replay_seg_from(data@, gen, 0, old(index)@, *old(uncompacted) as int) == Some(
            (final(index)@, *final(uncompacted) as int),
        ),
        r is Ok ==> final(index).live_bytes() + *final(uncompacted) == old(index).live_bytes()
            + *old(uncompacted) + data@.len(),
        final(index).live_bytes() >= 0,
        r is Ok ==> forall|k: Seq<char>| #[trigger]
            final(index)@.contains_key(k) ==> (old(index)@.contains_key(k) && final(index)@[k]
                == old(index)@[k]) || entry_in_seg(data@, gen, final(index)@[k], k),
        r is Err ==> r->Err_0 is Serde,
{
    let n = data.len();
    let mut pos: usize = 0;
    loop
        invariant
            pos <= n,
            n == data@.len(),
            index.wf(),
            index.live_bytes() >= 0,
            replay_seg_from(data@, gen, 0, old(index)@, *old(uncompacted) as int)
                == replay_seg_from(data@, gen, pos as int, index@, *uncompacted as int),
            index.live_bytes() + *uncompacted == old(index).live_bytes() + *old(uncompacted)
                + pos,
            old(index).live_bytes() + *old(uncompacted) + data@.len() <= u64::MAX,
            forall|k: Seq<char>| #[trigger]
                index@.contains_key(k) ==> (old(index)@.contains_key(k) && index@[k] == old(
                    index,
                )@[k]) || entry_in_seg(data@, gen, index@[k], k),
        ensures
            pos == n,
        decreases n - pos,
    {
        if pos == n {
            break ;
        }
        match decode_command(data.as_slice(), pos) {
            Err(e) => {
                return Err(e);
            },
            Ok((cmd, next)) => {
                let ghost pre_idx = *index;
                let ghost pre_unc = *uncompacted;
                match cmd {
                    Command::Put { key, value: _ } => {
                        let ghost kview = key@;
                        let cp = CommandPos::new(gen, pos as u64, next as u64);
                        let old_cp = index.insert(key, cp);
                        proof {
                            vstd::utf8::encode_utf8_decode_utf8(kview);
                            if old_cp is Some {
                                crate::index::lemma_entry_length_le_live(pre_idx, kview);
                            }
                        }
                        match old_cp {
                            Some(o) => {
                                *uncompacted = *uncompacted + o.length;
                            },
                            None => {},
                        }
                        proof {
                            assert(apply_rec(
                                pre_idx@,
                                pre_unc as int,
                                gen,
                                pos as int,
                                next as int,
                                cmd.spec_rec(),
                            ) == (index@, *uncompacted as int));
                        }
                    },
                    Command::Remove { key } => {
                        let ghost kview = key@;
                        proof {
                            vstd::utf8::encode_utf8_decode_utf8(kview);
                            if pre_idx@.contains_key(kview) {
                                crate::index::lemma_entry_length_le_live(pre_idx, kview);
                            }
                        }
                        match index.remove(&key) {
                            Some(o) => {
                                *uncompacted = *uncompacted + o.length;
                            },
                            None => {},
                        }
                        *uncompacted = *uncompacted + ((next - pos) as u64);
                        proof {
                            assert(apply_rec(
                                pre_idx@,
                                pre_unc as int,
                                gen,
                                pos as int,
                                next as int,
                                cmd.spec_rec(),
                            ) == (index@, *uncompacted as int));
                        }
                    },
                }
                pos = next;
            },
        }
    }
    Ok(())
}

/// The stale bytes that binding `k` anew retires: the length of the
/// record the index held for it, if any.
pub open spec fn retired(m: Map<Seq<char>, CommandPos>, k: Seq<char>) -> int {
    if m.contains_key(k) {
        m[k].length as int
    } else {
        0
    }
}

/// The value stored by the record an index entry points at.
pub open spec fn entry_value(segs: Seq<(u64, Seq<u8>)>, cp: CommandPos) -> Seq<char> {
    match find_seg(segs, cp.gen) {
        Some(d) => seg_value(d, cp),
        None => Seq::empty(),
    }
}

impl KvStore {
    /// The segments as a sequence of (generation, contents) pairs.
    pub open spec fn segs(self) -> Seq<(u64, Seq<u8>)> {
        segs_of(self.segments@)
    }

    /// The total number of bytes held on disk by this store's segments.
    pub open spec fn total_bytes(self) -> int {
        total_of(self.segs())
    }

    /// The number of bytes that the live records occupy.
    pub open spec fn live_bytes(self) -> int {
        self.index.live_bytes()
    }

    /// The store's well-formedness invariant: generations strictly
    /// increase and the active segment is last; the index has distinct
    /// keys, each entry backed by a `Set` record in the segments; the
    /// index is exactly what replaying the segments yields; and the
    /// stale-byte counter never exceeds the stale bytes actually held.
    pub open spec fn wf(self) -> bool {
        &&& self.index.wf()
        &&& self.segments@.len() >= 1
        &&& gens_sorted(self.segs())
        &&& self.segs().last().0 == self.current_gen
        &&& self.current_gen >= 1
        &&& replay_of(self.segs()) is Some
        &&& replay_of(self.segs())->Some_0.0 == self.index@
        &&& forall|k: Seq<char>| #[trigger]
            self.index@.contains_key(k) ==> entry_ok(self.segs(), k, self.index@[k])
        &&& self.live_bytes() + self.uncompacted <= self.total_bytes()
        &&& self.total_bytes() <= u64::MAX
    }

    /// Stale accounting is exact: every byte is either live or counted
    /// by `uncompacted`.  This holds as long as no `remove` has been
    /// applied since the last open or compaction.
    pub open spec fn tight(self) -> bool {
        self.live_bytes() + self.uncompacted == self.total_bytes()
    }

    /// The key-value map this store holds.
    pub open spec fn as_map(self) -> Map<Seq<char>, Seq<char>> {
        self.index@.map_values(|cp: CommandPos| entry_value(self.segs(), cp))
    }

    /// Opens a store over the segment contents read from a directory,
    /// given oldest first.  Replays every segment to rebuild the index
    /// and the stale-byte count, then starts a fresh active segment
    /// with the next generation number.  Fails exactly when the
    /// segments are out of order, malformed, or beyond the size or
    /// generation limits of the store.
    #[verifier::rlimit(80)]
    pub fn open(segments: Vec<Segment>) -> (r: Result<KvStore, KvsError>)
        ensures
            r is Ok ==> {
                let st = r->Ok_0;
                &&& st.wf()
                &&& st.tight()
                &&& replay_of(segs_of(segments@)) == Some((st.index@, st.uncompacted as int))
                &&& st.as_map() == replayed_map(segs_of(segments@))
                &&& st.segs() == segs_of(segments@).push((st.current_gen, Seq::<u8>::empty()))
                &&& st.current_gen == (if segments@.len() == 0 {
                    1u64
                } else {
                    (segs_of(segments@).last().0 + 1) as u64
                })
                &&& st.effects@ == seq![Effect::CreateSegment { gen: st.current_gen }]
            },
            r is Err ==> !({
                &&& gens_sorted(segs_of(segments@))
                &&& total_of(segs_of(segments@)) <= u64::MAX
                &&& (segments@.len() > 0 ==> segs_of(segments@).last().0 < u64::MAX)
                &&& replay_of(segs_of(segments@)) is Some
            }),
    {
        let ghost gsegs = segs_of(segments@);
        let n = segments.len();
        proof {
            assert(forall|i: int| 0 <= i < n ==> gsegs[i] == (segments@[i].gen, segments@[i].data@));
        }
        // Check the ordering and bound the total size.
        let mut total: u64 = 0;
        let mut t: usize = 0;
        while t < n
            invariant
                t <= n,
                n == segments@.len(),
                gsegs == segs_of(segments@),
                forall|i: int| 0 <= i < n ==> gsegs[i] == (segments@[i].gen, segments@[i].data@),
                forall|a: int| 0 <= a < t - 1 ==> #[trigger] gsegs[a].0 < gsegs[a + 1].0,
                total == total_of(gsegs.subrange(0, t as int)),
            decreases n - t,
        {
            if t > 0 && segments[t - 1].gen >= segments[t].gen {
                return Err(KvsError::Io("segment files out of order".to_owned()));
            }
            let dlen = segments[t].data.len();
            total = match total.checked_add(dlen as u64) {
                Some(v) => v,
                None => {
                    proof {
                        lemma_total_prefix(gsegs, t + 1);
                        assert(gsegs.subrange(0, t + 1).drop_last() =~= gsegs.subrange(
                            0,
                            t as int,
                        ));
                    }
                    return Err(KvsError::Io("store too large".to_owned()));
                },
            };
            proof {
                assert(gsegs.subrange(0, t + 1).drop_last() =~= gsegs.subrange(0, t as int));
            }
            t = t + 1;
        }
        proof {
            assert(gsegs.subrange(0, n as int) =~= gsegs);
            lemma_adjacent_sorted(gsegs);
        }
        // Replay every segment in generation order.
        let mut index = Index::new();
        let mut uncompacted: u64 = 0;
        let mut t: usize = 0;
        while t < n
            invariant
                t <= n,
                n == segments@.len(),
                gsegs == segs_of(segments@),
                forall|i: int| 0 <= i < n ==> gsegs[i] == (segments@[i].gen, segments@[i].data@),
                gens_sorted(gsegs),
                total == total_of(gsegs),
                total_of(gsegs) <= u64::MAX,
                index.wf(),
                replay_segs(gsegs.subrange(0, t as int), Map::empty(), 0) == Some(
                    (index@, uncompacted as int),
                ),
                index.live_bytes() + uncompacted == total_of(gsegs.subrange(0, t as int)),
                index.live_bytes() >= 0,
                forall|k: Seq<char>| #[trigger]
                    index@.contains_key(k) ==> entry_ok(
                        gsegs.subrange(0, t as int),
                        k,
                        index@[k],
                    ),
            decreases n - t,
        {
            let ghost prefix = gsegs.subrange(0, t as int);
            let ghost prefix2 = gsegs.subrange(0, t + 1);
            let ghost pre_idx = index;
            let ghost pre_unc = uncompacted;
            proof {
                assert(prefix2.drop_last() =~= prefix);
                assert(prefix2 =~= prefix.push(gsegs[t as int]));
                lemma_total_prefix(gsegs, t + 1);
            }
            let seg = &segments[t];
            match load(seg.gen, &seg.data, &mut index, &mut uncompacted) {
                Ok(()) => {},
                Err(e) => {
                    proof {
                        lemma_replay_segs_snoc(prefix, gsegs[t as int], Map::empty(), 0);
                        assert(replay_segs(prefix2, Map::empty(), 0) is None);
                        assert(gsegs.subrange(0, prefix2.len() as int) =~= prefix2);
                        lemma_replay_segs_none_extend(prefix2, gsegs, Map::empty(), 0);
                    }
                    return Err(e);
                },
            }
            proof {
                lemma_replay_segs_snoc(prefix, gsegs[t as int], Map::empty(), 0);
                assert(replay_segs(prefix2, Map::empty(), 0) == Some(
                    (index@, uncompacted as int),
                ));
                assert forall|k: Seq<char>| #[trigger] index@.contains_key(k) implies entry_ok(
                    prefix2,
                    k,
                    index@[k],
                ) by {
                    if pre_idx@.contains_key(k) && index@[k] == pre_idx@[k] {
                        assert(entry_ok(prefix, k, index@[k]));
                        lemma_find_seg_push(prefix, gsegs[t as int], index@[k].gen);
                    } else {
                        assert(entry_in_seg(seg.data@, seg.gen, index@[k], k));
                        lemma_find_seg_at(prefix2, t as int);
                        assert(prefix2[t as int] == (seg.gen, seg.data@));
                    }
                }
            }
            t = t + 1;
        }
        proof {
            assert(gsegs.subrange(0, n as int) =~= gsegs);
        }
        // Start the fresh active segment.
        let current_gen: u64 = if n == 0 {
            1
        } else {
            let last_gen = segments[n - 1].gen;
            if last_gen == u64::MAX {
                proof {
                    assert(gsegs.last().0 == u64::MAX);
                }
                return Err(KvsError::Io("generation numbers exhausted".to_owned()));
            }
            last_gen + 1
        };
        let mut segments = segments;
        segments.push(Segment { gen: current_gen, data: Vec::new() });
        let mut effects: Vec<Effect> = Vec::new();
        effects.push(Effect::CreateSegment { gen: current_gen });
        let st = KvStore { segments, current_gen, index, uncompacted, effects };
        proof {
            assert(st.segs() =~= gsegs.push((current_gen, Seq::<u8>::empty())));
            lemma_replay_segs_snoc(gsegs, (current_gen, Seq::<u8>::empty()), Map::empty(), 0);
            assert(replay_seg_from(
                Seq::<u8>::empty(),
                current_gen,
                0,
                st.index@,
                st.uncompacted as int,
            ) == Some((st.index@, st.uncompacted as int)));
            assert(st.segs().drop_last() =~= gsegs);
            assert(total_of(st.segs()) == total_of(gsegs));
            assert(gens_sorted(st.segs())) by {
                assert forall|i: int, j: int| 0 <= i < j < st.segs().len() implies st.segs()[i].0
                    < st.segs()[j].0 by {
                    if j == st.segs().len() - 1 {
                        assert(st.segs()[j].0 == current_gen);
                        if n > 0 && i < n {
                            assert(gsegs[i].0 <= gsegs[n - 1].0);
                        }
                    }
                }
            }
            assert forall|k: Seq<char>| #[trigger] st.index@.contains_key(k) implies entry_ok(
                st.segs(),
                k,
                st.index@[k],
            ) by {
                assert(entry_ok(gsegs, k, st.index@[k]));
                lemma_find_seg_push(gsegs, (current_gen, Seq::<u8>::empty()), st.index@[k].gen);
            }
            assert(st.wf());
            assert(st.as_map() =~= replayed_map(gsegs)) by {
                assert forall|k: Seq<char>| #[trigger] st.index@.contains_key(k) implies
                    entry_value(st.segs(), st.index@[k]) == entry_value(gsegs, st.index@[k]) by {
                    assert(entry_ok(gsegs, k, st.index@[k]));
                    lemma_find_seg_push(
                        gsegs,
                        (current_gen, Seq::<u8>::empty()),
                        st.index@[k].gen,
                    );
                }
            }
            assert(st.effects@ =~= seq![Effect::CreateSegment { gen: current_gen }]);
        }
        Ok(st)
    }

    /// Appends one encoded command to the active segment and records
    /// the matching append effect.  Returns the new record's start and
    /// end offsets within the active segment.
    fn append_to_active(&mut self, cmd: &Command) -> (se: (u64, u64))
        requires
            old(self).segments@.len() >= 1,
            gens_sorted(old(self).segs()),
            old(self).segs().last().0 == old(self).current_gen,
            replay_of(old(self).segs()) is Some,
            old(self).total_bytes() + enc_record(cmd.spec_rec()).len() <= u64::MAX,
            old(self).total_bytes() >= 0,
        ensures
            ({
                let e = enc_record(cmd.spec_rec());
                let pre = old(self).segs();
                let d = pre.last().1;
                let post = final(self).segs();
                &&& se.0 == d.len() && se.1 == d.len() + e.len()
                &&& post == pre.update(pre.len() - 1, (old(self).current_gen, d + e))
                &&& final(self).index == old(self).index
                &&& final(self).uncompacted == old(self).uncompacted
                &&& final(self).current_gen == old(self).current_gen
                &&& final(self).segments@.len() == old(self).segments@.len()
                &&& gens_sorted(post)
                &&& post.last().0 == old(self).current_gen
                &&& final(self).total_bytes() == old(self).total_bytes() + e.len()
                &&& replay_of(post) == Some(
                    apply_rec(
                        replay_of(pre)->Some_0.0,
                        replay_of(pre)->Some_0.1,
                        old(self).current_gen,
                        se.0 as int,
                        se.1 as int,
                        cmd.spec_rec(),
                    ),
                )
                &&& forall|k: Seq<char>, cp: CommandPos| #[trigger]
                    entry_ok(pre, k, cp) ==> entry_ok(post, k, cp) && entry_value(post, cp)
                        == entry_value(pre, cp)
                &&& cmd matches Command::Put { key, value } ==> {
                    let cp = CommandPos {
                        gen: old(self).current_gen,
                        start: se.0,
                        length: (se.1 - se.0) as u64,
                    };
                    &&& entry_ok(post, key@, cp)
                    &&& entry_value(post, cp) == value@
                }
                &&& final(self).effects@ == old(self).effects@.push(final(self).effects@.last())
                &&& is_append_of(final(self).effects@.last(), old(self).current_gen, e)
            }),
    {
        let ghost pre = old(self).segs();
        let ghost g = self.current_gen;
        let ghost d = pre.last().1;
        let ghost e = enc_record(cmd.spec_rec());
        let li = self.segments.len() - 1;
        let enc = encode_command(cmd);
        let enc_eff = encode_command(cmd);
        proof {
            lemma_total_of_entry(pre, li as int);
        }
        let seg = &mut self.segments[li];
        let pos = seg.data.len();
        let mut tmp = enc;
        seg.data.append(&mut tmp);
        let end = seg.data.len();
        self.effects.push(Effect::Append { gen: self.current_gen, bytes: enc_eff });
        proof {
            let post = self.segs();
            assert(post =~= pre.update(pre.len() - 1, (g, d + e)));
            assert(gens_sorted(post)) by {
                assert(forall|i: int| 0 <= i < post.len() ==> post[i].0 == pre[i].0);
            }
            assert(post.drop_last() =~= pre.drop_last());
            assert(post.last() == (g, d + e));
            assert(total_of(post) == total_of(pre) + e.len());
            lemma_replay_segs_append_record(pre, cmd.spec_rec());
            assert forall|k: Seq<char>, cp: CommandPos| #[trigger]
                entry_ok(pre, k, cp) implies entry_ok(post, k, cp) && entry_value(post, cp)
                == entry_value(pre, cp) by {
                lemma_find_seg_update_last(pre, d + e, cp.gen);
                if cp.gen == g {
                    assert(find_seg(pre, cp.gen) == Some(d)) by {
                        lemma_find_seg_at(pre, pre.len() - 1);
                    }
                    let j = parse_record(d, cp.start as int)->Some_0.1;
                    assert((d + e).subrange(cp.start as int, j) =~= d.subrange(
                        cp.start as int,
                        j,
                    ));
                    lemma_parse_record_window(d, cp.start as int, d + e, cp.start as int);
                }
            }
            if let Command::Put { key, value } = cmd {
                let cp = CommandPos { gen: g, start: pos as u64, length: (end - pos) as u64 };
                lemma_find_seg_update_last(pre, d + e, g);
                assert((d + e).subrange(d.len() as int, d.len() + e.len() as int) =~= e);
                lemma_enc_record_parses(d + e, d.len() as int, cmd.spec_rec());
                vstd::utf8::encode_utf8_decode_utf8(key@);
                vstd::utf8::encode_utf8_decode_utf8(value@);
                assert(entry_ok(post, key@, cp));
            }
        }
        (pos as u64, end as u64)
    }

    /// Appends the `Set` record and rebinds the key in the index,
    /// retiring the previous record's bytes into the stale count.
    /// This is a `set` before its compaction check.
    #[verifier::rlimit(100)]
    fn write_set(&mut self, key: String, value: String)
        requires
            old(self).wf(),
            old(self).total_bytes() + enc_record(
                (encode_utf8(key@), Some(encode_utf8(value@))),
            ).len() <= u64::MAX,
        ensures
            ({
                let e = enc_record((encode_utf8(key@), Some(encode_utf8(value@))));
                &&& final(self).wf()
                &&& final(self).as_map() == old(self).as_map().insert(key@, value@)
                &&& final(self).uncompacted == old(self).uncompacted + retired(
                    old(self).index@,
                    key@,
                )
                &&& final(self).current_gen == old(self).current_gen
                &&& final(self).segs() == old(self).segs().update(
                    old(self).segs().len() - 1,
                    (old(self).current_gen, old(self).segs().last().1 + e),
                )
                &&& final(self).total_bytes() == old(self).total_bytes() + e.len()
                &&& (old(self).tight() ==> final(self).tight())
                &&& final(self).effects@ == old(self).effects@.push(
                    final(self).effects@.last(),
                )
                &&& is_append_of(final(self).effects@.last(), old(self).current_gen, e)
            }),
    {
        let ghost pre = *self;
        let ghost kview = key@;
        let ghost vview = value@;
        proof {
            lemma_total_of_nonneg(pre.segs());
        }
        let cmd = Command::set(key, value);
        let (start, end) = self.append_to_active(&cmd);
        let key = match cmd {
            Command::Put { key, value: _ } => key,
            Command::Remove { key } => key,
        };
        let cp = CommandPos::new(self.current_gen, start, end);
        proof {
            vstd::utf8::encode_utf8_decode_utf8(kview);
            if pre.index@.contains_key(kview) {
                assert(entry_ok(pre.segs(), kview, pre.index@[kview]));
                crate::index::lemma_entry_length_le_live(pre.index, kview);
            }
        }
        let old_cp = self.index.insert(key, cp);
        match old_cp {
            Some(o) => {
                self.uncompacted = self.uncompacted + o.length;
            },
            None => {},
        }
        proof {
            let post = *self;
            assert(post.index@ == replay_of(post.segs())->Some_0.0);
            assert forall|k: Seq<char>| #[trigger] post.index@.contains_key(k) implies entry_ok(
                post.segs(),
                k,
                post.index@[k],
            ) by {
                if k == kview {
                } else {
                    assert(pre.index@.contains_key(k) && post.index@[k] == pre.index@[k]);
                    assert(entry_ok(pre.segs(), k, pre.index@[k]));
                }
            }
            assert(post.wf());
            assert(post.as_map() =~= pre.as_map().insert(kview, vview)) by {
                assert(entry_value(post.segs(), cp) == vview);
                assert forall|k: Seq<char>|
                    #[trigger] pre.index@.contains_key(k) && k != kview implies entry_value(
                    post.segs(),
                    pre.index@[k],
                ) == entry_value(pre.segs(), pre.index@[k]) by {
                    assert(entry_ok(pre.segs(), k, pre.index@[k]));
                }
            }
        }
    }

    /// Sets the value of a string key to a string.  A previous value of
    /// the key is overwritten.  The new record is appended to the
    /// active segment before the index is updated, and the matching
    /// append effect is recorded, so a caller that mirrors the effects
    /// has the record durably on disk before acknowledging.
    pub fn set(&mut self, key: String, value: String) -> (r: Result<(), KvsError>)
        requires
            old(self).wf(),
            old(self).total_bytes() + enc_record(
                (encode_utf8(key@), Some(encode_utf8(value@))),
            ).len() <= u64::MAX,
            old(self).current_gen <= u64::MAX - 2,
        ensures
            r is Ok,
            final(self).wf(),
            final(self).as_map() == old(self).as_map().insert(key@, value@),
            final(self).uncompacted <= COMPACTION_THRESHOLD,
            old(self).tight() ==> final(self).tight(),
            old(self).effects@.is_prefix_of(final(self).effects@),
            old(self).effects@.len() < final(self).effects@.len(),
            is_append_of(
                final(self).effects@[old(self).effects@.len() as int],
                old(self).current_gen,
                enc_record((encode_utf8(key@), Some(encode_utf8(value@)))),
            ),
            ({
                // The stale counter grows by the replaced record's
                // length; compaction runs exactly when that pushes it
                // over the threshold, and resets it.
                let e = enc_record((encode_utf8(key@), Some(encode_utf8(value@))));
                let grown = old(self).uncompacted + retired(old(self).index@, key@);
                &&& (grown <= COMPACTION_THRESHOLD ==> {
                    &&& final(self).uncompacted == grown
                    &&& final(self).current_gen == old(self).current_gen
                    &&& final(self).segs() == old(self).segs().update(
                        old(self).segs().len() - 1,
                        (old(self).current_gen, old(self).segs().last().1 + e),
                    )
                    &&& final(self).total_bytes() == old(self).total_bytes() + e.len()
                })
                &&& (grown > COMPACTION_THRESHOLD ==> {
                    &&& final(self).uncompacted == 0
                    &&& final(self).current_gen == old(self).current_gen + 2
                    &&& final(self).total_bytes() == final(self).live_bytes()
                })
            }),
    {
        let ghost pre = *self;
        self.write_set(key, value);
        let ghost mid = *self;
        if self.uncompacted > COMPACTION_THRESHOLD {
            match self.compact() {
                Ok(()) => {
                    proof {
                        assert(mid.effects@.is_prefix_of(self.effects@));
                        assert(pre.effects@.is_prefix_of(self.effects@)) by {
                            assert(self.effects@.subrange(0, pre.effects@.len() as int)
                                =~= self.effects@.subrange(0, mid.effects@.len() as int).subrange(
                                0,
                                pre.effects@.len() as int,
                            ));
                        }
                        let plen = pre.effects@.len() as int;
                        assert(self.effects@[plen] == mid.effects@[plen]) by {
                            assert(self.effects@.subrange(0, mid.effects@.len() as int)[plen]
                                == mid.effects@[plen]);
                        }
                    }
                },
                Err(e) => {
                    proof {
                        assert(false);
                    }
                    return Err(e);
                },
            }
        }
        Ok(())
    }

    /// Removes a key.  Fails with `KeyNotFound`, changing nothing, when
    /// the key is not present; otherwise a `Remove` record is appended
    /// to the active segment before the index entry is dropped, and the
    /// matching append effect is recorded.
    pub fn remove(&mut self, key: String) -> (r: Result<(), KvsError>)
        requires
            old(self).wf(),
            old(self).as_map().contains_key(key@) ==> old(self).total_bytes() + enc_record(
                (encode_utf8(key@), None),
            ).len() <= u64::MAX,
        ensures
            final(self).wf(),
            r is Ok <==> old(self).as_map().contains_key(key@),
            r is Err ==> r->Err_0 is KeyNotFound && *final(self) == *old(self),
            r is Ok ==> final(self).as_map() == old(self).as_map().remove(key@),
            old(self).effects@.is_prefix_of(final(self).effects@),
            r is Ok ==> old(self).effects@.len() < final(self).effects@.len() && is_append_of(
                final(self).effects@[old(self).effects@.len() as int],
                old(self).current_gen,
                enc_record((encode_utf8(key@), None)),
            ),
            r is Ok ==> ({
                // The dropped record's bytes go stale; the `Remove`
                // record itself is counted only at the next replay.
                let e = enc_record((encode_utf8(key@), Option::<Seq<u8>>::None));
                &&& final(self).uncompacted == old(self).uncompacted + old(
                    self,
                ).index@[key@].length
                &&& final(self).current_gen == old(self).current_gen
                &&& final(self).segs() == old(self).segs().update(
                    old(self).segs().len() - 1,
                    (old(self).current_gen, old(self).segs().last().1 + e),
                )
                &&& final(self).total_bytes() == old(self).total_bytes() + e.len()
            }),
    {
        let ghost pre = *self;
        let ghost kview = key@;
        match self.index.get(&key) {
            None => Err(KvsError::KeyNotFound),
            Some(_) => {
                proof {
                    assert(entry_ok(pre.segs(), kview, pre.index@[kview]));
                    crate::index::lemma_entry_length_le_live(pre.index, kview);
                }
                let cmd = Command::remove(key);
                let (_start, _end) = self.append_to_active(&cmd);
                let key = match cmd {
                    Command::Put { key, value: _ } => key,
                    Command::Remove { key } => key,
                };
                proof {
                    vstd::utf8::encode_utf8_decode_utf8(kview);
                }
                let old_cp = self.index.remove(&key);
                match old_cp {
                    Some(o) => {
                        self.uncompacted = self.uncompacted + o.length;
                    },
                    None => {
                        proof {
                            assert(false);
                        }
                    },
                }
                proof {
                    let post = *self;
                    assert(post.index@ == replay_of(post.segs())->Some_0.0);
                    assert forall|k: Seq<char>| #[trigger]
                        post.index@.contains_key(k) implies entry_ok(
                        post.segs(),
                        k,
                        post.index@[k],
                    ) by {
                        assert(pre.index@.contains_key(k) && post.index@[k] == pre.index@[k]);
                        assert(entry_ok(pre.segs(), k, pre.index@[k]));
                    }
                    assert(post.wf());
                    assert(post.as_map() =~= pre.as_map().remove(kview)) by {
                        assert forall|k: Seq<char>|
                            #[trigger] pre.index@.contains_key(k) && k != kview implies
                            entry_value(post.segs(), pre.index@[k]) == entry_value(
                            pre.segs(),
                            pre.index@[k],
                        ) by {
                            assert(entry_ok(pre.segs(), k, pre.index@[k]));
                        }
                    }
                }
                Ok(())
            },
        }
    }

    /// Rewrites every live record into a fresh compaction segment,
    /// starts a new active segment two generations up, and discards all
    /// older segments.  The key-value map is unchanged; afterwards the
    /// segments hold exactly the live bytes and the stale count is
    /// zero.
    #[verifier::rlimit(100)]
    pub fn compact(&mut self) -> (r: Result<(), KvsError>)
        requires
            old(self).wf(),
            old(self).current_gen <= u64::MAX - 2,
        ensures
            r is Ok,
            final(self).wf(),
            final(self).as_map() == old(self).as_map(),
            final(self).uncompacted == 0,
            final(self).tight(),
            final(self).total_bytes() == old(self).live_bytes(),
            final(self).current_gen == old(self).current_gen + 2,
            old(self).effects@.is_prefix_of(final(self).effects@),
            // Exactly two segments remain: the compaction segment,
            // holding the live records, and the fresh empty active one.
            final(self).segs().len() == 2,
            final(self).segs()[0].0 == old(self).current_gen + 1,
            final(self).segs()[0].1.len() == old(self).live_bytes(),
            final(self).segs()[1] == (
                ((old(self).current_gen + 2) as u64),
                Seq::<u8>::empty(),
            ),
            // Every key's entry now points into the compaction
            // segment, and the copies keep their keys and lengths.
            forall|k: Seq<char>| #[trigger]
                final(self).index@.contains_key(k) ==> final(self).index@[k].gen == old(
                    self,
                ).current_gen + 1,
            final(self).index.pairs().len() == old(self).index.pairs().len(),
            forall|m: int|
                0 <= m < final(self).index.pairs().len() ==> {
                    let e = #[trigger] final(self).index.pairs()[m];
                    &&& e.0 == old(self).index.pairs()[m].0
                    &&& e.1.length == old(self).index.pairs()[m].1.length
                    &&& e.1.gen == old(self).current_gen + 1
                },
            // The recorded file operations, in order: create the new
            // active segment, create the compaction segment, append
            // the live records to it, then delete every old segment.
            final(self).effects@.len() == old(self).effects@.len() + 3 + old(
                self,
            ).segments@.len(),
            final(self).effects@[old(self).effects@.len() as int] == (Effect::CreateSegment {
                gen: ((old(self).current_gen + 2) as u64),
            }),
            final(self).effects@[old(self).effects@.len() + 1int] == (Effect::CreateSegment {
                gen: ((old(self).current_gen + 1) as u64),
            }),
            is_append_of(
                final(self).effects@[old(self).effects@.len() + 2int],
                ((old(self).current_gen + 1) as u64),
                final(self).segs()[0].1,
            ),
            forall|t: int|
                0 <= t < old(self).segments@.len() ==> final(self).effects@[old(
                    self,
                ).effects@.len() + 3int + t] == (Effect::DeleteSegment {
                    gen: old(self).segs()[t].0,
                }),
    {
        let ghost pre = *self;
        let ghost pairs = pre.index.pairs();
        let compaction_gen = self.current_gen + 1;
        let new_gen = self.current_gen + 2;
        let n = self.index.len();
        let mut cdata: Vec<u8> = Vec::new();
        let mut cdata_eff: Vec<u8> = Vec::new();
        let mut newpos: Vec<u64> = Vec::new();
        let ghost mut gm: Map<Seq<char>, CommandPos> = Map::empty();
        // Copy every live record forward, oldest index entry first.
        let mut i: usize = 0;
        while i < n
            invariant
                *self == pre,
                pre.wf(),
                pairs == pre.index.pairs(),
                compaction_gen == pre.current_gen + 1,
                pre.current_gen + 2 <= u64::MAX,
                n == pairs.len(),
                i <= n,
                newpos@.len() == i,
                cdata@ == cdata_eff@,
                cdata@.len() == crate::index::live_bytes_of(pairs.subrange(0, i as int)),
                replay_seg_from(cdata@, compaction_gen, 0, Map::empty(), 0) == Some((gm, 0int)),
                forall|k: Seq<char>| #[trigger]
                    gm.contains_key(k) ==> exists|m: int| 0 <= m < i && pairs[m].0@ == k,
                forall|m: int|
                    0 <= m < i ==> ({
                        let k = (#[trigger] pairs[m]).0@;
                        &&& gm.contains_key(k)
                        &&& gm[k] == (CommandPos {
                            gen: compaction_gen,
                            start: newpos@[m],
                            length: pairs[m].1.length,
                        })
                        &&& entry_in_seg(cdata@, compaction_gen, gm[k], k)
                        &&& seg_value(cdata@, gm[k]) == entry_value(pre.segs(), pairs[m].1)
                    }),
            decreases n - i,
        {
            let cp = self.index.pos_at(i);
            let ghost kv = pairs[i as int].0@;
            proof {
                lemma_map_of_index(pairs, i as int);
                assert(pre.index@.contains_key(kv));
                assert(entry_ok(pre.segs(), kv, cp));
            }
            let si = match self.seg_index(cp.gen) {
                Some(s) => s,
                None => {
                    proof {
                        assert(forall|w: int|
                            0 <= w < pre.segs().len() ==> pre.segs()[w].0 == pre.segments@[w].gen);
                        lemma_find_seg_witness(pre.segs(), cp.gen);
                        assert(false);
                    }
                    return Err(KvsError::UnexpectedCommandType);
                },
            };
            let seg = &self.segments[si];
            proof {
                lemma_find_seg_at(pre.segs(), si as int);
                assert(pre.segs()[si as int] == (seg.gen, seg.data@));
                assert(find_seg(pre.segs(), cp.gen) == Some(seg.data@));
            }
            let dn = seg.data.len();
            let start = cp.start as usize;
            let end = start + cp.length as usize;
            let np = cdata.len();
            newpos.push(np as u64);
            let ghost cdata_before = cdata@;
            let ghost copied = seg.data@.subrange(start as int, end as int);
            copy_range(&mut cdata, seg.data.as_slice(), start, end);
            copy_range(&mut cdata_eff, seg.data.as_slice(), start, end);
            proof {
                assert(cdata@ =~= cdata_before + seg.data@.subrange(
                    cp.start as int,
                    cp.start + cp.length,
                ));
                assert(cdata_before.len() + cp.length <= u64::MAX) by {
                    assert(pairs.subrange(0, i + 1).drop_last() =~= pairs.subrange(0, i as int));
                    assert(crate::index::live_bytes_of(pairs.subrange(0, i + 1))
                        == crate::index::live_bytes_of(pairs.subrange(0, i as int)) + cp.length);
                    lemma_live_prefix(pairs, i + 1);
                }
                lemma_compact_iter(
                    pre,
                    i as int,
                    newpos@,
                    cdata_before,
                    cdata@,
                    gm,
                    compaction_gen,
                );
                gm = gm.insert(
                    kv,
                    CommandPos { gen: compaction_gen, start: np as u64, length: cp.length },
                );
            }
            i = i + 1;
        }
        proof {
            assert(pairs.subrange(0, n as int) =~= pairs);
        }
        // Point every index entry at its copy in the compaction segment.
        let mut m: usize = 0;
        while m < n
            invariant
                m <= n,
                n == pairs.len(),
                self.index.wf(),
                self.index.pairs().len() == n,
                self.segments == pre.segments,
                self.current_gen == pre.current_gen,
                self.uncompacted == pre.uncompacted,
                self.effects == pre.effects,
                newpos@.len() == n,
                forall|t: int| 0 <= t < n ==> (#[trigger] self.index.pairs()[t]).0 == pairs[t].0,
                forall|t: int|
                    0 <= t < m ==> (#[trigger] self.index.pairs()[t]).1 == (CommandPos {
                        gen: compaction_gen,
                        start: newpos@[t],
                        length: pairs[t].1.length,
                    }),
                forall|t: int| m <= t < n ==> (#[trigger] self.index.pairs()[t]).1 == pairs[t].1,
            decreases n - m,
        {
            let len_m = self.index.pos_at(m).length;
            let npv = newpos[m];
            self.index.set_pos_at(m, CommandPos { gen: compaction_gen, start: npv, length: len_m });
            m = m + 1;
        }
        // Record the file operations: the two new segments, the copied
        // records, and the deletion of every old segment.
        let ghost idx2 = self.index;
        let ghost cbytes = cdata_eff@;
        self.effects.push(Effect::CreateSegment { gen: new_gen });
        self.effects.push(Effect::CreateSegment { gen: compaction_gen });
        self.effects.push(Effect::Append { gen: compaction_gen, bytes: cdata_eff });
        let ghost base = self.effects@;
        proof {
            assert(base.subrange(0, pre.effects@.len() as int) =~= pre.effects@);
            assert(base.len() == pre.effects@.len() + 3);
            assert(base[pre.effects@.len() as int] == (Effect::CreateSegment { gen: new_gen }));
            assert(base[pre.effects@.len() + 1int] == (Effect::CreateSegment {
                gen: compaction_gen,
            }));
            assert(is_append_of(base[pre.effects@.len() + 2int], compaction_gen, cbytes));
        }
        let mut t: usize = 0;
        let nseg = self.segments.len();
        while t < nseg
            invariant
                t <= nseg,
                nseg == self.segments@.len(),
                self.segments == pre.segments,
                self.index == idx2,
                self.current_gen == pre.current_gen,
                self.uncompacted == pre.uncompacted,
                self.effects@.len() == base.len() + t,
                self.effects@.subrange(0, base.len() as int) == base,
                forall|u: int|
                    0 <= u < t ==> #[trigger] self.effects@[base.len() + u]
                        == (Effect::DeleteSegment { gen: segs_of(pre.segments@)[u].0 }),
            decreases nseg - t,
        {
            let g = self.segments[t].gen;
            let ghost before = self.effects@;
            self.effects.push(Effect::DeleteSegment { gen: g });
            proof {
                assert(self.effects@.subrange(0, base.len() as int) =~= before.subrange(
                    0,
                    base.len() as int,
                ));
                assert(segs_of(pre.segments@)[t as int].0 == g);
                assert forall|u: int| 0 <= u < t implies #[trigger] self.effects@[base.len()
                    + u] == before[base.len() + u] by {
                    assert(before[base.len() + u] == self.effects@[base.len() + u]);
                }
            }
            t = t + 1;
        }
        proof {
            assert(pre.effects@.is_prefix_of(self.effects@)) by {
                assert(self.effects@.subrange(0, pre.effects@.len() as int) =~= self.effects@.subrange(
                    0,
                    base.len() as int,
                ).subrange(0, pre.effects@.len() as int));
            }
        }
        let mut newsegs: Vec<Segment> = Vec::new();
        newsegs.push(Segment { gen: compaction_gen, data: cdata });
        newsegs.push(Segment { gen: new_gen, data: Vec::new() });
        self.segments = newsegs;
        self.current_gen = new_gen;
        self.uncompacted = 0;
        proof {
            let post = *self;
            let s2 = post.segs();
            assert(s2 =~= Seq::<(u64, Seq<u8>)>::empty().push((compaction_gen, cdata@)).push(
                (new_gen, Seq::<u8>::empty()),
            ));
            let s1 = Seq::<(u64, Seq<u8>)>::empty().push((compaction_gen, cdata@));
            lemma_replay_segs_snoc(s1, (new_gen, Seq::<u8>::empty()), Map::empty(), 0);
            lemma_replay_segs_snoc(
                Seq::<(u64, Seq<u8>)>::empty(),
                (compaction_gen, cdata@),
                Map::empty(),
                0,
            );
            assert(replay_of(s2) == Some((gm, 0int)));
            // The rewritten index is exactly the replayed map.
            assert(post.index@ =~= gm) by {
                assert forall|k: Seq<char>| #[trigger]
                    post.index@.contains_key(k) implies gm.contains_key(k) && post.index@[k]
                    == gm[k] by {
                    crate::index::lemma_map_of_contains(post.index.pairs(), k);
                    let w = choose|w: int|
                        0 <= w < post.index.pairs().len() && post.index.pairs()[w].0@ == k;
                    crate::index::lemma_map_of_index(post.index.pairs(), w);
                    assert(pairs[w].0@ == k);
                }
                assert forall|k: Seq<char>| #[trigger]
                    gm.contains_key(k) implies post.index@.contains_key(k) by {
                    let w = choose|w: int| 0 <= w < n && pairs[w].0@ == k;
                    crate::index::lemma_map_of_index(post.index.pairs(), w);
                }
            }
            assert(gens_sorted(s2));
            assert(s2.last().0 == post.current_gen);
            assert forall|k: Seq<char>| #[trigger] post.index@.contains_key(k) implies entry_ok(
                s2,
                k,
                post.index@[k],
            ) by {
                let w = choose|w: int| 0 <= w < n && pairs[w].0@ == k;
                assert(gm[pairs[w].0@] == post.index@[k]);
                assert(entry_in_seg(cdata@, compaction_gen, gm[pairs[w].0@], pairs[w].0@));
                assert(find_seg(s2, compaction_gen) == Some(cdata@));
            }
            // Space: the new segments hold exactly the live bytes.
            assert(s2.drop_last() =~= s1);
            assert(s1.drop_last() =~= Seq::<(u64, Seq<u8>)>::empty());
            assert(s1.last() == (compaction_gen, cdata@));
            assert(s2.last() == (new_gen, Seq::<u8>::empty()));
            assert(total_of(s1) == total_of(Seq::<(u64, Seq<u8>)>::empty()) + cdata@.len());
            assert(total_of(s2) == total_of(s1) + 0);
            assert(total_of(s2) == cdata@.len());
            crate::index::lemma_live_bytes_congruent(post.index.pairs(), pairs);
            assert(post.live_bytes() == crate::index::live_bytes_of(pairs));
            assert(post.wf());
            // The map of keys to values is unchanged.
            assert forall|k: Seq<char>| #[trigger] pre.index@.contains_key(k) implies
                post.index@.contains_key(k) by {
                crate::index::lemma_map_of_contains(pairs, k);
                let w = choose|w: int| 0 <= w < pairs.len() && pairs[w].0@ == k;
                assert(gm.contains_key(pairs[w].0@));
            }
            assert forall|k: Seq<char>| #[trigger] post.index@.contains_key(k) implies
                pre.index@.contains_key(k) by {
                let w = choose|w: int| 0 <= w < n && pairs[w].0@ == k;
                crate::index::lemma_map_of_index(pairs, w);
            }
            assert(post.as_map() =~= pre.as_map()) by {
                assert forall|k: Seq<char>| #[trigger]
                    post.index@.contains_key(k) implies entry_value(s2, post.index@[k])
                    == entry_value(pre.segs(), pre.index@[k]) by {
                    let w = choose|w: int| 0 <= w < n && pairs[w].0@ == k;
                    crate::index::lemma_map_of_index(pairs, w);
                    assert(seg_value(cdata@, gm[pairs[w].0@]) == entry_value(
                        pre.segs(),
                        pairs[w].1,
                    ));
                    assert(find_seg(s2, compaction_gen) == Some(cdata@));
                }
            }
            assert(pre.effects@.is_prefix_of(post.effects@));
        }
        Ok(())
    }

    /// Hands out the file operations recorded since the last call, in
    /// the order they must be applied to persistent storage, and
    /// forgets them.  A caller that applies every batch in order keeps
    /// the directory identical to this store's segments.
    pub fn take_effects(&mut self) -> (r: Vec<Effect>)
        ensures
            r@ == old(self).effects@,
            final(self).effects@ == Seq::<Effect>::empty(),
            final(self).segments == old(self).segments,
            final(self).index == old(self).index,
            final(self).current_gen == old(self).current_gen,
            final(self).uncompacted == old(self).uncompacted,
            old(self).wf() ==> final(self).wf(),
            old(self).as_map() == final(self).as_map(),
    {
        let mut out: Vec<Effect> = Vec::new();
        core::mem::swap(&mut out, &mut self.effects);
        out
    }

    /// Finds the position of the segment with the given generation.
    fn seg_index(&self, gen: u64) -> (r: Option<usize>)
        ensures
            match r {
                Some(i) => i < self.segments@.len() && self.segments@[i as int].gen == gen,
                None => forall|i: int|
                    0 <= i < self.segments@.len() ==> self.segments@[i].gen != gen,
            },
    {
        let mut i: usize = 0;
        while i < self.segments.len()
            invariant
                i <= self.segments@.len(),
                forall|m: int| 0 <= m < i ==> self.segments@[m].gen != gen,
            decreases self.segments@.len() - i,
        {
            if self.segments[i].gen == gen {
                return Some(i);
            }
            i = i + 1;
        }
        None
    }

    /// Gets the value of a key.  Returns `None` when the key is not
    /// present.  The store is not changed.
    pub fn get(&mut self, key: String) -> (r: Result<Option<String>, KvsError>)
        requires
            old(self).wf(),
        ensures
            *final(self) == *old(self),
            r is Ok,
            old(self).as_map().contains_key(key@) ==> r->Ok_0 is Some && r->Ok_0->0@ == old(
                self,
            ).as_map()[key@],
            !old(self).as_map().contains_key(key@) ==> r->Ok_0 is None,
    {
        match self.index.get(&key) {
            Some(cp) => {
                proof {
                    assert(self.index@.contains_key(key@));
                    assert(entry_ok(self.segs(), key@, cp));
                }
                let i = match self.seg_index(cp.gen) {
                    Some(i) => i,
                    None => {
                        proof {
                            assert(forall|w: int|
                                0 <= w < self.segs().len() ==> self.segs()[w].0 == self.segments@[w].gen);
                            lemma_find_seg_witness(self.segs(), cp.gen);
                            assert(false);
                        }
                        return Err(KvsError::UnexpectedCommandType);
                    },
                };
                let seg = &self.segments[i];
                proof {
                    lemma_find_seg_at(self.segs(), i as int);
                    assert(self.segs()[i as int] == (seg.gen, seg.data@));
                    assert(find_seg(self.segs(), cp.gen) == Some(seg.data@));
                }
                let n = seg.data.len();
                assert(cp.start <= n);
                let start = cp.start as usize;
                assert(start as int == cp.start as int);
                match decode_command(seg.data.as_slice(), start) {
                    Ok((cmd, _next)) => match cmd {
                        Command::Put { key: _k, value } => {
                            proof {
                                vstd::utf8::encode_utf8_decode_utf8(value@);
                                assert(self.as_map()[key@] == entry_value(self.segs(), cp));
                            }
                            Ok(Some(value))
                        },
                        Command::Remove { .. } => {
                            proof {
                                assert(false);
                            }
                            Err(KvsError::UnexpectedCommandType)
                        },
                    },
                    Err(_) => {
                        proof {
                            assert(false);
                        }
                        Err(KvsError::UnexpectedCommandType)
                    },
                }
            },
            None => {
                proof {
                    assert(!self.as_map().contains_key(key@));
                }
                Ok(None)
            },
        }
    }
}

impl KvStore {
    /// The number of bytes the segments hold, as a machine integer.
    pub fn total_bytes_exec(&self) -> (t: u64)
        requires
            self.wf(),
        ensures
            t as int == self.total_bytes(),
    {
        let n = self.segments.len();
        let mut total: u64 = 0;
        let mut t: usize = 0;
        while t < n
            invariant
                t <= n,
                n == self.segments@.len(),
                self.wf(),
                total as int == total_of(self.segs().subrange(0, t as int)),
            decreases n - t,
        {
            proof {
                lemma_total_prefix(self.segs(), t + 1);
                assert(self.segs().subrange(0, t + 1).drop_last() =~= self.segs().subrange(
                    0,
                    t as int,
                ));
                let ghost tt = t as int;
                assert(self.segs()[tt] == (self.segments@[tt].gen, self.segments@[tt].data@));
            }
            total = total + (self.segments[t].data.len() as u64);
            t = t + 1;
        }
        proof {
            assert(self.segs().subrange(0, n as int) =~= self.segs());
        }
        total
    }
}

impl crate::server::KvsEngine for KvStore {
    open spec fn inv(&self) -> bool {
        self.wf()
    }

    open spec fn model(&self) -> Map<Seq<char>, Seq<char>> {
        self.as_map()
    }

    open spec fn obeys_model(&self) -> bool {
        true
    }

    fn set(&mut self, key: String, value: String) -> (r: Result<(), KvsError>)
        ensures
            old(self).total_bytes() + enc_record(
                (encode_utf8(key@), Some(encode_utf8(value@))),
            ).len() <= u64::MAX && old(self).current_gen <= u64::MAX - 2 ==> r is Ok,
            r is Err ==> r->Err_0 is Io && *final(self) == *old(self),
    {
        if self.current_gen > u64::MAX - 2 {
            return Err(KvsError::Io("generation numbers exhausted".to_owned()));
        }
        let probe = Command::Put { key: key.clone(), value: value.clone() };
        let enc = encode_command(&probe);
        let total = self.total_bytes_exec();
        if (enc.len() as u64) > u64::MAX - total {
            return Err(KvsError::Io("store full".to_owned()));
        }
        KvStore::set(self, key, value)
    }

    fn get(&mut self, key: String) -> (r: Result<Option<String>, KvsError>)
        ensures
            r is Ok,
            *final(self) == *old(self),
    {
        KvStore::get(self, key)
    }

    fn remove(&mut self, key: String) -> (r: Result<(), KvsError>)
        ensures
            old(self).as_map().contains_key(key@) && old(self).total_bytes() + enc_record(
                (encode_utf8(key@), None),
            ).len() <= u64::MAX ==> r is Ok,
            r is Ok ==> old(self).as_map().contains_key(key@),
            !old(self).as_map().contains_key(key@) ==> r is Err && r->Err_0 is KeyNotFound,
            r is Err ==> (r->Err_0 is KeyNotFound || r->Err_0 is Io) && *final(self) == *old(
                self,
            ),
    {
        let probe = Command::Remove { key: key.clone() };
        let enc = encode_command(&probe);
        match self.index.get(&key) {
            Some(_) => {
                let total = self.total_bytes_exec();
                if (enc.len() as u64) > u64::MAX - total {
                    return Err(KvsError::Io("store full".to_owned()));
                }
            },
            None => {},
        }
        KvStore::remove(self, key)
    }
}

/// Round trip.  After binding a key the map answers with exactly the
/// bound value, and after unbinding it the key is absent; `set`, `get`
/// and `remove` state their results over these map operations, so a
/// `get` after `set(k, v)` returns `v` and a `get` after `remove(k)`
/// returns nothing.
pub proof fn lemma_round_trip(m: Map<Seq<char>, Seq<char>>, k: Seq<char>, v: Seq<char>)
    ensures
        m.insert(k, v).contains_key(k),
        m.insert(k, v)[k] == v,
        !m.remove(k).contains_key(k),
{
}

/// Last write wins.  Binding a key twice leaves the second value, in
/// whatever state and with whatever operations in between touch other
/// keys only.
pub proof fn lemma_last_write_wins(
    m: Map<Seq<char>, Seq<char>>,
    k: Seq<char>,
    v1: Seq<char>,
    v2: Seq<char>,
)
    ensures
        m.insert(k, v1).insert(k, v2)[k] == v2,
        m.insert(k, v1).insert(k, v2).contains_key(k),
{
}

/// Persistence.  Replaying a well-formed store's segments, as `open`
/// does when a directory is reopened, rebuilds exactly the store's
/// key-value map: every key answers alike before a close and after the
/// matching reopen.
pub proof fn lemma_persistence(s: KvStore)
    requires
        s.wf(),
    ensures
        replay_of(s.segs()) is Some,
        replayed_map(s.segs()) == s.as_map(),
{
    assert(replayed_map(s.segs()) =~= s.as_map());
}

/// Compaction space bound.  While the stale accounting is exact — as
/// it is after `open` and across any run of `set`s, which also keep
/// the stale count at most the threshold — the segments occupy at most
/// the live data plus the compaction threshold.  A `remove` leaves its
/// own record uncounted until the next replay, so the exact accounting
/// is stated as an assumption rather than an invariant.
pub proof fn lemma_space_bound(s: KvStore)
    requires
        s.wf(),
        s.tight(),
        s.uncompacted <= COMPACTION_THRESHOLD,
    ensures
        s.total_bytes() <= s.live_bytes() + COMPACTION_THRESHOLD,
{
}

/// If some segment carries `gen`, `find_seg` finds one.
proof fn lemma_find_seg_witness(s: Seq<(u64, Seq<u8>)>, gen: u64)
    requires
        forall|i: int| 0 <= i < s.len() ==> s[i].0 != gen,
    ensures
        find_seg(s, gen) is None,
    decreases s.len(),
{
    if s.len() > 0 {
        assert(forall|a: int| 0 <= a < s.drop_first().len() ==> s.drop_first()[a] == s[a + 1]);
        lemma_find_seg_witness(s.drop_first(), gen);
    }
}

impl CommandPos {
    /// Builds the location of the record spanning `start..end`.
    pub fn new(gen: u64, start: u64, end: u64) -> (c: CommandPos)
        requires
            start <= end,
        ensures
            c.gen == gen,
            c.start == start,
            c.length == end - start,
    {
        CommandPos { gen, start, length: end - start }
    }
}

} // verus!
