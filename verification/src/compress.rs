//! The compression side: dictionary building, the two-pass chunk encoder,
//! and the layer driver.
//!
//! A chunk is encoded as a stream of one-byte hit tokens (high bit set,
//! low seven bits a dictionary index) interleaved with miss runs: raw
//! bytes behind a length descriptor. The encoder alternates between an
//! even- and an odd-phase dictionary, flipping phase on every miss.

use crate::dict_elem::DictElem;
use crate::dictionary::{
    consider_spec, keep_used, spec_find, spec_serial, Dictionary,
};
use crate::index_value_pair::IndexValuePair;
use crate::utility::{
    self, spec_be_bytes, spec_bytes_to_rep, CHUNK_MAX_SIZE, MIN_OCCATIONS, NR_ELEMS, VALUES,
    VALUES_HALF,
};
use vstd::prelude::*;

verus! {

/// The dictionary that the given phase selects.
pub open spec fn sel(e0: Seq<DictElem>, e1: Seq<DictElem>, phase: int) -> Seq<DictElem> {
    if phase == 0 {
        e0
    } else {
        e1
    }
}

/// The raw bytes that a pending run of hit tokens stands for.
pub open spec fn expand_hits(hits: Seq<u8>, d: Seq<DictElem>) -> Seq<u8>
    decreases hits.len(),
{
    if hits.len() == 0 {
        Seq::<u8>::empty()
    } else {
        expand_hits(hits.drop_last(), d) + d[(hits.last() & 0x7f) as int].data@
    }
}

/// The wire form of a miss run: nothing when empty, a one-byte `01`-tagged
/// descriptor for short runs, and a byte-count-of-the-length descriptor
/// followed by the big-endian length for long runs.
pub open spec fn missrun(m: Seq<u8>) -> Seq<u8> {
    if m.len() == 0 {
        m
    } else if m.len() < VALUES_HALF {
        seq![(64 + m.len()) as u8] + m
    } else {
        seq![spec_bytes_to_rep(m.len()) as u8] + spec_be_bytes(m.len(), spec_bytes_to_rep(m.len()))
            + m
    }
}

/// The body bytes that the real encoding pass emits from a given state:
/// `pos` bytes of the chunk are already consumed, `hits` and `miss` are the
/// pending buffers, and `phase` selects the current dictionary.
pub open spec fn encode_spec(
    chunk: Seq<u8>,
    pos: int,
    phase: int,
    e0: Seq<DictElem>,
    e1: Seq<DictElem>,
    hits: Seq<u8>,
    miss: Seq<u8>,
) -> Seq<u8>
    decreases chunk.len() - pos,
{
    let d = sel(e0, e1, phase);
    if pos < 0 || chunk.len() < pos + 2 {
        let res = if 0 <= pos <= chunk.len() {
            chunk.skip(pos)
        } else {
            Seq::<u8>::empty()
        };
        if hits.len() >= 2 {
            missrun(miss) + hits + missrun(res)
        } else {
            missrun(miss + expand_hits(hits, d) + res)
        }
    } else {
        let j = spec_find(d, chunk.subrange(pos, pos + 2), 0);
        if j >= 0 {
            encode_spec(chunk, pos + 2, phase, e0, e1, hits.push((128 + j) as u8), miss)
        } else if hits.len() >= 2 {
            missrun(miss) + hits + encode_spec(
                chunk,
                pos + 1,
                1 - phase,
                e0,
                e1,
                Seq::<u8>::empty(),
                seq![chunk[pos]],
            )
        } else {
            encode_spec(
                chunk,
                pos + 1,
                1 - phase,
                e0,
                e1,
                Seq::<u8>::empty(),
                miss + expand_hits(hits, d) + seq![chunk[pos]],
            )
        }
    }
}

/// An element with its usage counter raised by one.
pub open spec fn bump(e: DictElem) -> DictElem {
    DictElem { data: e.data, occurance: e.occurance, useage: (e.useage + 1) as u64 }
}

/// The element sequence after one usage bump per pending hit token.
pub open spec fn bump_usages(d: Seq<DictElem>, hits: Seq<u8>) -> Seq<DictElem>
    decreases hits.len(),
{
    if hits.len() == 0 {
        d
    } else {
        let d2 = bump_usages(d, hits.drop_last());
        let i = (hits.last() & 0x7f) as int;
        if i < d2.len() {
            d2.update(i, bump(d2[i]))
        } else {
            d2
        }
    }
}

/// What the dry encoding pass does to the dictionary pair: it walks the
/// chunk exactly as the real pass does, but only raises usage counters
/// when a run of two or more hits is flushed.
pub open spec fn dry_spec(
    chunk: Seq<u8>,
    pos: int,
    phase: int,
    e0: Seq<DictElem>,
    e1: Seq<DictElem>,
    hits: Seq<u8>,
) -> (Seq<DictElem>, Seq<DictElem>)
    decreases chunk.len() - pos,
{
    let d = sel(e0, e1, phase);
    if pos < 0 || chunk.len() < pos + 2 {
        if hits.len() >= 2 {
            if phase == 0 {
                (bump_usages(e0, hits), e1)
            } else {
                (e0, bump_usages(e1, hits))
            }
        } else {
            (e0, e1)
        }
    } else {
        let j = spec_find(d, chunk.subrange(pos, pos + 2), 0);
        if j >= 0 {
            dry_spec(chunk, pos + 2, phase, e0, e1, hits.push((128 + j) as u8))
        } else if hits.len() >= 2 {
            if phase == 0 {
                dry_spec(chunk, pos + 1, 1, bump_usages(e0, hits), e1, Seq::<u8>::empty())
            } else {
                dry_spec(chunk, pos + 1, 0, e0, bump_usages(e1, hits), Seq::<u8>::empty())
            }
        } else {
            dry_spec(chunk, pos + 1, 1 - phase, e0, e1, Seq::<u8>::empty())
        }
    }
}

/// The wire frame of one chunk: a four-byte big-endian total length that
/// counts itself, the two dictionary headers, then the body.
pub open spec fn frame_spec(e0: Seq<DictElem>, e1: Seq<DictElem>, body: Seq<u8>) -> Seq<u8> {
    let payload = seq![e0.len() as u8] + spec_serial(e0) + seq![e1.len() as u8] + spec_serial(e1)
        + body;
    spec_be_bytes(4 + payload.len(), 4) + payload
}

/// Usage bumps keep the element count and every slot's data pair and
/// occurrence; they raise each usage counter by at most the token count.
pub proof fn lemma_bump_props(d: Seq<DictElem>, hits: Seq<u8>)
    ensures
        bump_usages(d, hits).len() == d.len(),
        forall|k: int|
            0 <= k < d.len() ==> #[trigger] bump_usages(d, hits)[k].data == d[k].data
                && bump_usages(d, hits)[k].occurance == d[k].occurance && bump_usages(
                d,
                hits,
            )[k].useage <= d[k].useage + hits.len(),
    decreases hits.len(),
{
    if hits.len() > 0 {
        lemma_bump_props(d, hits.drop_last());
    }
}

/// Appends the framing of the buffered miss bytes: nothing, a short
/// descriptor, or a length-of-length descriptor with a big-endian count.
pub fn write_missed(buf_write: &mut Vec<u8>, buf_missed: &[u8])
    ensures
        final(buf_write)@ == old(buf_write)@ + missrun(buf_missed@),
{
    let missed = buf_missed.len();
    if missed >= VALUES_HALF {
        let nr_bytes = utility::bytes_to_rep(missed);
        let bytes = utility::val_to_u8_vec(missed, nr_bytes);
        buf_write.push(nr_bytes);
        buf_write.extend_from_slice(bytes.as_slice());
        buf_write.extend_from_slice(buf_missed);
        proof {
            assert(final(buf_write)@ =~= old(buf_write)@ + missrun(buf_missed@));
        }
    } else if missed > 0 {
        let miss_byte = (64 + missed) as u8;
        buf_write.push(miss_byte);
        buf_write.extend_from_slice(buf_missed);
        proof {
            assert(final(buf_write)@ =~= old(buf_write)@ + missrun(buf_missed@));
        }
    } else {
        proof {
            assert(final(buf_write)@ =~= old(buf_write)@ + missrun(buf_missed@));
        }
    }
}

/// Dry-pass bookkeeping: one usage bump per pending hit token, low seven
/// bits giving the index.
pub fn increment_useages(buf_hits: &[u8], dict: &mut Dictionary)
    requires
        old(dict).wf(),
        forall|k: int|
            0 <= k < old(dict).elems@.len() ==> old(dict).elems@[k].useage + buf_hits@.len()
                < u64::MAX,
    ensures
        final(dict).elems@ == bump_usages(old(dict).elems@, buf_hits@),
        final(dict).least == old(dict).least,
        final(dict).coverage == old(dict).coverage,
        final(dict).wf(),
{
    let mut i: usize = 0;
    proof {
        assert(buf_hits@.take(0) =~= Seq::<u8>::empty());
    }
    while i < buf_hits.len()
        invariant
            i <= buf_hits@.len(),
            dict.elems@ == bump_usages(old(dict).elems@, buf_hits@.take(i as int)),
            dict.least == old(dict).least,
            dict.coverage == old(dict).coverage,
            dict.wf(),
            old(dict).wf(),
            forall|k: int|
                0 <= k < old(dict).elems@.len() ==> old(dict).elems@[k].useage + buf_hits@.len()
                    < u64::MAX,
        decreases buf_hits@.len() - i,
    {
        proof {
            assert(buf_hits@.take(i + 1).drop_last() =~= buf_hits@.take(i as int));
            assert(buf_hits@.take(i + 1).last() == buf_hits@[i as int]);
            lemma_bump_props(old(dict).elems@, buf_hits@.take(i as int));
            let k = (buf_hits@[i as int] & 0x7f) as int;
            if k < old(dict).elems@.len() {
                assert(bump_usages(old(dict).elems@, buf_hits@.take(i as int))[k].data == old(
                    dict,
                ).elems@[k].data);
                assert(dict.elems@[k].useage <= old(dict).elems@[k].useage + i);
            }
        }
        dict.increment_usage(buf_hits[i] & 0x7f);
        i = i + 1;
    }
    proof {
        assert(buf_hits@.take(buf_hits@.len() as int) =~= buf_hits@);
    }
}

/// Folds pending hit tokens back into the miss buffer as the raw bytes
/// they stand for.
pub fn concatinate_hits_to_misses(buf_missed: &mut Vec<u8>, buf_hits: &[u8], dict: &Dictionary)
    requires
        forall|k: int|
            0 <= k < buf_hits@.len() ==> (buf_hits@[k] & 0x7f) < dict.elems@.len(),
    ensures
        final(buf_missed)@ == old(buf_missed)@ + expand_hits(buf_hits@, dict.elems@),
{
    let mut i: usize = 0;
    proof {
        assert(buf_hits@.take(0) =~= Seq::<u8>::empty());
        assert(old(buf_missed)@ + expand_hits(buf_hits@.take(0), dict.elems@) =~= old(
            buf_missed,
        )@);
    }
    while i < buf_hits.len()
        invariant
            i <= buf_hits@.len(),
            buf_missed@ == old(buf_missed)@ + expand_hits(buf_hits@.take(i as int), dict.elems@),
            forall|k: int|
                0 <= k < buf_hits@.len() ==> (buf_hits@[k] & 0x7f) < dict.elems@.len(),
        decreases buf_hits@.len() - i,
    {
        proof {
            assert(buf_hits@.take(i + 1).drop_last() =~= buf_hits@.take(i as int));
            assert(buf_hits@.take(i + 1).last() == buf_hits@[i as int]);
        }
        let raw = dict.get(buf_hits[i] & 0x7f);
        buf_missed.push(raw[0]);
        buf_missed.push(raw[1]);
        proof {
            let idx = (buf_hits@[i as int] & 0x7f) as int;
            assert(raw@ =~= seq![raw@[0], raw@[1]]);
            assert(dict.elems@[idx].data@ =~= seq![raw@[0], raw@[1]]);
            assert(buf_missed@ =~= old(buf_missed)@ + expand_hits(
                buf_hits@.take(i + 1),
                dict.elems@,
            ));
        }
        i = i + 1;
    }
    proof {
        assert(buf_hits@.take(buf_hits@.len() as int) =~= buf_hits@);
    }
}

/// Expanded hit tokens take two bytes each.
pub proof fn lemma_expand_len(hits: Seq<u8>, d: Seq<DictElem>)
    ensures
        expand_hits(hits, d).len() == 2 * hits.len(),
    decreases hits.len(),
{
    if hits.len() > 0 {
        lemma_expand_len(hits.drop_last(), d);
    }
}

/// A miss run at most doubles its content, and always carries it.
pub proof fn lemma_missrun_len(m: Seq<u8>)
    requires
        m.len() <= u64::MAX,
    ensures
        missrun(m).len() <= 2 * m.len(),
        m.len() > 0 ==> missrun(m).len() >= 1 + m.len(),
        m.len() == 0 ==> missrun(m).len() == 0,
{
    if m.len() >= VALUES_HALF {
        utility::lemma_pow256_value();
        utility::lemma_bytes_to_rep_le(m.len(), 8);
        utility::lemma_be_bytes_len(m.len(), spec_bytes_to_rep(m.len()));
    }
}

/// The emitted body never exceeds twice the pending state plus the
/// remaining chunk bytes.
pub proof fn lemma_encode_len(
    chunk: Seq<u8>,
    pos: int,
    phase: int,
    e0: Seq<DictElem>,
    e1: Seq<DictElem>,
    hits: Seq<u8>,
    miss: Seq<u8>,
)
    requires
        0 <= pos <= chunk.len(),
        miss.len() + 2 * hits.len() + (chunk.len() - pos) <= u64::MAX,
    ensures
        encode_spec(chunk, pos, phase, e0, e1, hits, miss).len() <= 2 * miss.len() + 4 * hits.len()
            + 2 * (chunk.len() - pos),
    decreases chunk.len() - pos,
{
    let d = sel(e0, e1, phase);
    if chunk.len() < pos + 2 {
        let res = chunk.skip(pos);
        lemma_missrun_len(miss);
        lemma_missrun_len(res);
        lemma_expand_len(hits, d);
        lemma_missrun_len(miss + expand_hits(hits, d) + res);
    } else {
        let j = spec_find(d, chunk.subrange(pos, pos + 2), 0);
        if j >= 0 {
            lemma_encode_len(chunk, pos + 2, phase, e0, e1, hits.push((128 + j) as u8), miss);
        } else if hits.len() >= 2 {
            lemma_missrun_len(miss);
            lemma_encode_len(chunk, pos + 1, 1 - phase, e0, e1, Seq::<u8>::empty(), seq![
                chunk[pos],
            ]);
        } else {
            lemma_expand_len(hits, d);
            lemma_encode_len(
                chunk,
                pos + 1,
                1 - phase,
                e0,
                e1,
                Seq::<u8>::empty(),
                miss + expand_hits(hits, d) + seq![chunk[pos]],
            );
        }
    }
}

/// Flushes the pending hit tokens: a run of two or more pays for itself
/// and is emitted (or, in the dry pass, counted into the usage totals); a
/// single hit is folded back into the miss buffer.
pub fn manage_hits(
    dry_run: bool,
    buf_write: &mut Vec<u8>,
    buf_hits: &mut Vec<u8>,
    buf_missed: &mut Vec<u8>,
    dict: &mut Dictionary,
)
    requires
        old(dict).wf(),
        forall|k: int|
            0 <= k < old(buf_hits)@.len() ==> (old(buf_hits)@[k] & 0x7f) < old(
                dict,
            ).elems@.len(),
        dry_run ==> forall|k: int|
            0 <= k < old(dict).elems@.len() ==> old(dict).elems@[k].useage + old(buf_hits)@.len()
                < u64::MAX,
    ensures
        final(buf_hits)@.len() == 0,
        final(dict).least == old(dict).least,
        final(dict).coverage == old(dict).coverage,
        final(dict).wf(),
        old(buf_hits)@.len() >= 2 ==> {
            &&& final(dict).elems@ == if dry_run {
                bump_usages(old(dict).elems@, old(buf_hits)@)
            } else {
                old(dict).elems@
            }
            &&& final(buf_write)@ == if dry_run {
                old(buf_write)@
            } else {
                old(buf_write)@ + missrun(old(buf_missed)@) + old(buf_hits)@
            }
            &&& final(buf_missed)@ == Seq::<u8>::empty()
        },
        old(buf_hits)@.len() < 2 ==> {
            &&& final(dict).elems@ == old(dict).elems@
            &&& final(buf_write)@ == old(buf_write)@
            &&& final(buf_missed)@ == old(buf_missed)@ + expand_hits(
                old(buf_hits)@,
                old(dict).elems@,
            )
        },
{
    let hits_len = buf_hits.len();
    if hits_len > 1 {
        if dry_run {
            increment_useages(buf_hits.as_slice(), dict);
        } else {
            write_missed(buf_write, buf_missed.as_slice());
            buf_write.extend_from_slice(buf_hits.as_slice());
            proof {
                assert(final(buf_write)@ =~= old(buf_write)@ + missrun(old(buf_missed)@) + old(
                    buf_hits,
                )@);
            }
        }
        buf_missed.clear();
        buf_hits.clear();
    } else if hits_len > 0 {
        concatinate_hits_to_misses(buf_missed, buf_hits.as_slice(), dict);
        buf_hits.clear();
    } else {
        proof {
            assert(old(buf_missed)@ + expand_hits(old(buf_hits)@, old(dict).elems@) =~= old(
                buf_missed,
            )@);
        }
    }
}

/// The count a pair-frequency table holds for a two-byte value.
pub open spec fn spec_count(counts: Map<(u8, u8), u64>, a: u8, b: u8) -> u64 {
    if counts.contains_key((a, b)) {
        counts[(a, b)]
    } else {
        0
    }
}

/// What the dictionary builder computes: reading back-to-back two-byte
/// windows from `pos`, at most `reads` of them, raising the window's
/// frequency count and offering it to the dictionary each time.
pub open spec fn build_spec(
    input: Seq<u8>,
    pos: int,
    reads: int,
    counts: Map<(u8, u8), u64>,
    s: Seq<DictElem>,
    least: IndexValuePair,
) -> (Seq<DictElem>, IndexValuePair)
    decreases reads,
{
    if reads <= 0 || pos < 0 || input.len() < pos + 2 {
        (s, least)
    } else {
        let a = input[pos];
        let b = input[pos + 1];
        let c = (spec_count(counts, a, b) + 1) as u64;
        let e = DictElem { data: [a, b], occurance: c, useage: 0 };
        let r = consider_spec(s, least, e);
        build_spec(input, pos + 2, reads - 1, counts.insert((a, b), c), r.0, r.1)
    }
}

/// `consider` never invents usage: a dictionary of unused elements stays
/// unused when offered an unused candidate.
pub proof fn lemma_consider_useage0(s: Seq<DictElem>, least: IndexValuePair, e: DictElem)
    requires
        forall|k: int| 0 <= k < s.len() ==> s[k].useage == 0,
        e.useage == 0,
        s.len() >= VALUES ==> (least.index as int) < s.len(),
    ensures
        forall|k: int|
            0 <= k < consider_spec(s, least, e).0.len() ==> consider_spec(s, least, e).0[k].useage
                == 0,
{
    let j = spec_find(s, e.data@, 0);
    let r = consider_spec(s, least, e).0;
    if j >= 0 {
        crate::dictionary::lemma_find_found(s, e.data@, 0);
        assert(forall|k: int| 0 <= k < r.len() && k != j ==> r[k] == s[k]);
    } else if e.occurance < MIN_OCCATIONS {
    } else if s.len() < VALUES {
        assert(forall|k: int| 0 <= k < s.len() ==> r[k] == s[k]);
    } else if e.occurance > least.value {
        assert(forall|k: int|
            0 <= k < r.len() && k != least.index as int ==> r[k] == s[k]);
    }
}

/// Builds one dictionary from back-to-back two-byte windows starting at
/// `offset`, stopping at the chunk read budget or the end of the input.
pub fn generate_dict(input: &Vec<u8>, offset: usize) -> (r: Dictionary)
    ensures
        r.wf(),
        r.coverage == CHUNK_MAX_SIZE,
        (r.elems@, r.least) == build_spec(
            input@,
            offset as int,
            (CHUNK_MAX_SIZE as int) / 2,
            Map::<(u8, u8), u64>::empty(),
            Seq::<DictElem>::empty(),
            IndexValuePair { index: 0, value: 0 },
        ),
        forall|k: int| 0 <= k < r.elems@.len() ==> r.elems@[k].useage == 0,
{
    let mut dict = Dictionary::new();
    let mut counter: Vec<u32> = vec![0u32; NR_ELEMS];
    let nr_reads: usize = (CHUNK_MAX_SIZE / 2) as usize;
    let ghost goal = build_spec(
        input@,
        offset as int,
        (CHUNK_MAX_SIZE as int) / 2,
        Map::<(u8, u8), u64>::empty(),
        Seq::<DictElem>::empty(),
        IndexValuePair { index: 0, value: 0 },
    );
    let ghost mut counts: Map<(u8, u8), u64> = Map::empty();
    let mut j: usize = 0;
    let mut pos: usize = offset;
    proof {
        assert(dict.elems@ =~= Seq::<DictElem>::empty());
        assert(dict.least == (IndexValuePair { index: 0, value: 0 }));
    }
    while j < nr_reads && pos < input.len() && pos + 1 < input.len()
        invariant
            nr_reads == 395000,
            j <= nr_reads,
            dict.wf(),
            dict.coverage == CHUNK_MAX_SIZE,
            counter@.len() == NR_ELEMS,
            forall|k: int| 0 <= k < counter@.len() ==> counter@[k] <= j,
            forall|x: u8, y: u8|
                #![trigger spec_count(counts, x, y)]
                spec_count(counts, x, y) == counter@[x as int * 256 + y as int] as u64,
            forall|k: int| 0 <= k < dict.elems@.len() ==> dict.elems@[k].useage == 0,
            goal == build_spec(
                input@,
                pos as int,
                (nr_reads - j) as int,
                counts,
                dict.elems@,
                dict.least,
            ),
        decreases nr_reads - j,
    {
        let a = input[pos];
        let b = input[pos + 1];
        let key = (a as usize) * 256 + (b as usize);
        let c32 = counter[key] + 1;
        counter[key] = c32;
        let ghost counts0 = counts;
        proof {
            counts = counts.insert((a, b), c32 as u64);
        }
        let e = crate::dict_elem::DictElem::new([a, b], c32 as u64);
        let ghost s0 = dict.elems@;
        let ghost least0 = dict.least;
        dict.consider(&e);
        proof {
            assert(spec_count(counts0, a, b) == (c32 - 1) as u64);
            assert(e == (DictElem { data: [a, b], occurance: c32 as u64, useage: 0 }));
            if s0.len() > 0 {
                crate::dictionary::lemma_least_props(s0);
            }
            lemma_consider_useage0(s0, least0, e);
            assert forall|x: u8, y: u8|
                spec_count(counts, x, y) == counter@[x as int * 256 + y as int] as u64 by {
                if x == a && y == b {
                } else {
                    assert(x as int * 256 + y as int != a as int * 256 + b as int);
                    assert(spec_count(counts, x, y) == spec_count(counts0, x, y));
                }
            }
            assert(build_spec(
                input@,
                pos as int,
                (nr_reads - j) as int,
                counts0,
                s0,
                least0,
            ) == build_spec(
                input@,
                pos as int + 2,
                (nr_reads - j) as int - 1,
                counts,
                dict.elems@,
                dict.least,
            ));
        }
        pos = pos + 2;
        j = j + 1;
    }
    proof {
        assert((dict.elems@, dict.least) == build_spec(
            input@,
            pos as int,
            (nr_reads - j) as int,
            counts,
            dict.elems@,
            dict.least,
        ));
    }
    dict
}

/// Builds the even- and odd-phase dictionaries of one chunk: the same
/// window walk, started one byte apart.
pub fn generate_dict_pair(input: &Vec<u8>, offset: usize) -> (r: (Dictionary, Dictionary))
    requires
        offset < usize::MAX,
    ensures
        r.0.wf(),
        r.1.wf(),
        r.0.coverage == CHUNK_MAX_SIZE,
        r.1.coverage == CHUNK_MAX_SIZE,
        (r.0.elems@, r.0.least) == build_spec(
            input@,
            offset as int,
            (CHUNK_MAX_SIZE as int) / 2,
            Map::<(u8, u8), u64>::empty(),
            Seq::<DictElem>::empty(),
            IndexValuePair { index: 0, value: 0 },
        ),
        (r.1.elems@, r.1.least) == build_spec(
            input@,
            offset as int + 1,
            (CHUNK_MAX_SIZE as int) / 2,
            Map::<(u8, u8), u64>::empty(),
            Seq::<DictElem>::empty(),
            IndexValuePair { index: 0, value: 0 },
        ),
        forall|k: int| 0 <= k < r.0.elems@.len() ==> r.0.elems@[k].useage == 0,
        forall|k: int| 0 <= k < r.1.elems@.len() ==> r.1.elems@[k].useage == 0,
{
    let even_dict = generate_dict(input, offset);
    let odd_dict = generate_dict(input, offset + 1);
    (even_dict, odd_dict)
}

/// Encodes one chunk against its dictionary pair. The dry pass walks the
/// chunk, raises usage counters, and emits nothing; the real pass leaves
/// the dictionaries as they stand and returns the framed chunk bytes.
#[verifier::rlimit(100)]
pub fn compress_chunk(
    dry: bool,
    dict_eve: &mut Dictionary,
    dict_odd: &mut Dictionary,
    chunk: &[u8],
) -> (out: Vec<u8>)
    requires
        old(dict_eve).wf(),
        old(dict_odd).wf(),
        chunk@.len() <= CHUNK_MAX_SIZE,
        dry ==> forall|k: int|
            0 <= k < old(dict_eve).elems@.len() ==> old(dict_eve).elems@[k].useage == 0,
        dry ==> forall|k: int|
            0 <= k < old(dict_odd).elems@.len() ==> old(dict_odd).elems@[k].useage == 0,
    ensures
        final(dict_eve).wf(),
        final(dict_odd).wf(),
        final(dict_eve).least == old(dict_eve).least,
        final(dict_odd).least == old(dict_odd).least,
        final(dict_eve).coverage == old(dict_eve).coverage,
        final(dict_odd).coverage == old(dict_odd).coverage,
        !dry ==> final(dict_eve).elems@ == old(dict_eve).elems@,
        !dry ==> final(dict_odd).elems@ == old(dict_odd).elems@,
        !dry ==> out@ == frame_spec(
            old(dict_eve).elems@,
            old(dict_odd).elems@,
            encode_spec(
                chunk@,
                0,
                0,
                old(dict_eve).elems@,
                old(dict_odd).elems@,
                Seq::<u8>::empty(),
                Seq::<u8>::empty(),
            ),
        ),
        dry ==> out@.len() == 0,
        dry ==> (final(dict_eve).elems@, final(dict_odd).elems@) == dry_spec(
            chunk@,
            0,
            0,
            old(dict_eve).elems@,
            old(dict_odd).elems@,
            Seq::<u8>::empty(),
        ),
{
    let ghost e0 = old(dict_eve).elems@;
    let ghost e1 = old(dict_odd).elems@;
    let ghost total = encode_spec(chunk@, 0, 0, e0, e1, Seq::<u8>::empty(), Seq::<u8>::empty());
    let ghost drytotal = dry_spec(chunk@, 0, 0, e0, e1, Seq::<u8>::empty());

    let to_read = chunk.len();
    let mut wri_buf: Vec<u8> = Vec::new();
    let mut hit_buf: Vec<u8> = Vec::new();
    let mut mis_buf: Vec<u8> = Vec::new();
    let mut index: usize = 0;
    let mut pos: usize = 0;

    while pos + 2 <= to_read
        invariant
            to_read == chunk@.len() <= CHUNK_MAX_SIZE,
            pos <= to_read,
            index == 0 || index == 1,
            dict_eve.wf(),
            dict_odd.wf(),
            dict_eve.least == old(dict_eve).least,
            dict_odd.least == old(dict_odd).least,
            dict_eve.coverage == old(dict_eve).coverage,
            dict_odd.coverage == old(dict_odd).coverage,
            forall|k: int|
                0 <= k < hit_buf@.len() ==> (hit_buf@[k] & 0x7f) < sel(
                    dict_eve.elems@,
                    dict_odd.elems@,
                    index as int,
                ).len(),
            !dry ==> dict_eve.elems@ == e0,
            !dry ==> dict_odd.elems@ == e1,
            !dry ==> total == wri_buf@ + encode_spec(
                chunk@,
                pos as int,
                index as int,
                e0,
                e1,
                hit_buf@,
                mis_buf@,
            ),
            dry ==> drytotal == dry_spec(
                chunk@,
                pos as int,
                index as int,
                dict_eve.elems@,
                dict_odd.elems@,
                hit_buf@,
            ),
            dry ==> forall|k: int|
                0 <= k < dict_eve.elems@.len() ==> dict_eve.elems@[k].useage + (if index == 0 {
                    hit_buf@.len()
                } else {
                    0
                }) <= pos,
            dry ==> forall|k: int|
                0 <= k < dict_odd.elems@.len() ==> dict_odd.elems@[k].useage + (if index == 1 {
                    hit_buf@.len()
                } else {
                    0
                }) <= pos,
        decreases to_read - pos,
    {
        let w: [u8; 2] = [chunk[pos], chunk[pos + 1]];
        let ghost pos0 = pos as int;
        let ghost idx0 = index as int;
        let ghost hits0 = hit_buf@;
        let ghost miss0 = mis_buf@;
        let ghost wri0 = wri_buf@;
        let ghost e0c = dict_eve.elems@;
        let ghost e1c = dict_odd.elems@;
        let ghost dc = sel(e0c, e1c, idx0);
        proof {
            assert(w@ =~= chunk@.subrange(pos0, pos0 + 2));
        }
        let looked = if index == 0 {
            dict_eve.get_index(&w)
        } else {
            dict_odd.get_index(&w)
        };
        match looked {
            Some(elem_index) => {
                proof {
                    let j = spec_find(dc, w@, 0);
                    crate::dictionary::lemma_find_found(dc, w@, 0);
                    assert((128u8 | elem_index) == 128 + elem_index) by (bit_vector)
                        requires
                            elem_index < 128u8,
                    ;
                    assert(((128 + elem_index) as u8) & 0x7f == elem_index) by (bit_vector)
                        requires
                            elem_index < 128u8,
                    ;
                }
                hit_buf.push(128u8 | elem_index);
                pos = pos + 2;
                proof {
                    let j = spec_find(dc, chunk@.subrange(pos0, pos0 + 2), 0);
                    assert(hit_buf@ == hits0.push((128 + j) as u8));
                    if !dry {
                        assert(encode_spec(chunk@, pos0, idx0, e0, e1, hits0, miss0)
                            == encode_spec(chunk@, pos0 + 2, idx0, e0, e1, hit_buf@, miss0));
                    } else {
                        assert(dry_spec(chunk@, pos0, idx0, e0c, e1c, hits0) == dry_spec(
                            chunk@,
                            pos0 + 2,
                            idx0,
                            e0c,
                            e1c,
                            hit_buf@,
                        ));
                    }
                }
            },
            None => {
                if index == 0 {
                    manage_hits(dry, &mut wri_buf, &mut hit_buf, &mut mis_buf, dict_eve);
                } else {
                    manage_hits(dry, &mut wri_buf, &mut hit_buf, &mut mis_buf, dict_odd);
                }
                mis_buf.push(w[0]);
                pos = pos + 1;
                index = if index == 0 {
                    1
                } else {
                    0
                };
                proof {
                    assert(hit_buf@ =~= Seq::<u8>::empty());
                    if !dry {
                        if hits0.len() >= 2 {
                            assert(mis_buf@ =~= seq![chunk@[pos0]]);
                            let rest = encode_spec(
                                chunk@,
                                pos0 + 1,
                                1 - idx0,
                                e0,
                                e1,
                                Seq::<u8>::empty(),
                                seq![chunk@[pos0]],
                            );
                            assert(encode_spec(chunk@, pos0, idx0, e0, e1, hits0, miss0)
                                == missrun(miss0) + hits0 + rest);
                            assert(wri_buf@ == wri0 + missrun(miss0) + hits0);
                            assert(wri_buf@ + rest =~= wri0 + (missrun(miss0) + hits0 + rest));
                        } else {
                            assert(mis_buf@ =~= miss0 + expand_hits(hits0, dc) + seq![
                                chunk@[pos0],
                            ]);
                            assert(encode_spec(chunk@, pos0, idx0, e0, e1, hits0, miss0)
                                == encode_spec(
                                chunk@,
                                pos0 + 1,
                                1 - idx0,
                                e0,
                                e1,
                                Seq::<u8>::empty(),
                                mis_buf@,
                            ));
                        }
                    } else {
                        if hits0.len() >= 2 {
                            lemma_bump_props(dc, hits0);
                            assert forall|k: int|
                                0 <= k < dict_eve.elems@.len() implies dict_eve.elems@[k].useage
                                <= pos0 + 1 by {
                                if idx0 == 0 {
                                    assert(bump_usages(e0c, hits0)[k].data == e0c[k].data);
                                }
                            }
                            assert forall|k: int|
                                0 <= k < dict_odd.elems@.len() implies dict_odd.elems@[k].useage
                                <= pos0 + 1 by {
                                if idx0 == 1 {
                                    assert(bump_usages(e1c, hits0)[k].data == e1c[k].data);
                                }
                            }
                            assert(dry_spec(chunk@, pos0, idx0, e0c, e1c, hits0) == dry_spec(
                                chunk@,
                                pos0 + 1,
                                1 - idx0,
                                dict_eve.elems@,
                                dict_odd.elems@,
                                Seq::<u8>::empty(),
                            ));
                        } else {
                            assert(dry_spec(chunk@, pos0, idx0, e0c, e1c, hits0) == dry_spec(
                                chunk@,
                                pos0 + 1,
                                1 - idx0,
                                dict_eve.elems@,
                                dict_odd.elems@,
                                Seq::<u8>::empty(),
                            ));
                        }
                    }
                }
            },
        }
    }

    let ghost hits_before = hit_buf@;
    let ghost miss_before = mis_buf@;
    let ghost wri_before = wri_buf@;
    let ghost e0c = dict_eve.elems@;
    let ghost e1c = dict_odd.elems@;
    let ghost idx_end = index as int;
    let ghost d_before = sel(e0c, e1c, idx_end);
    let ghost pos_end = pos as int;
    if index == 0 {
        manage_hits(dry, &mut wri_buf, &mut hit_buf, &mut mis_buf, dict_eve);
    } else {
        manage_hits(dry, &mut wri_buf, &mut hit_buf, &mut mis_buf, dict_odd);
    }
    proof {
        if dry {
            if hits_before.len() >= 2 {
                lemma_bump_props(d_before, hits_before);
            }
            assert(dry_spec(chunk@, pos_end, idx_end, e0c, e1c, hits_before) == (
                dict_eve.elems@,
                dict_odd.elems@,
            ));
        }
    }
    if dry {
        return Vec::new();
    }
    if pos < to_read {
        mis_buf.push(chunk[pos]);
        proof {
            assert(chunk@.skip(pos_end) =~= seq![chunk@[pos_end]]);
        }
    } else {
        proof {
            assert(chunk@.skip(pos_end) =~= Seq::<u8>::empty());
            assert(mis_buf@ + chunk@.skip(pos_end) =~= mis_buf@);
        }
    }
    write_missed(&mut wri_buf, mis_buf.as_slice());
    proof {
        let res = chunk@.skip(pos_end);
        if hits_before.len() >= 2 {
            assert(wri_buf@ =~= wri_before + (missrun(miss_before) + hits_before + missrun(res)));
        } else {
            assert(mis_buf@ =~= miss_before + expand_hits(hits_before, d_before) + res);
        }
        assert(wri_buf@ == total);
        lemma_encode_len(
            chunk@,
            0,
            0,
            e0,
            e1,
            Seq::<u8>::empty(),
            Seq::<u8>::empty(),
        );
    }

    let mut buf_final: Vec<u8> = Vec::new();
    buf_final.push(dict_eve.len());
    let ser_eve = dict_eve.to_vec();
    buf_final.extend_from_slice(ser_eve.as_slice());
    buf_final.push(dict_odd.len());
    let ser_odd = dict_odd.to_vec();
    buf_final.extend_from_slice(ser_odd.as_slice());
    buf_final.extend_from_slice(wri_buf.as_slice());

    let total_len = 4 + buf_final.len();
    let mut out = utility::val_to_u8_vec(total_len, 4);
    out.extend_from_slice(buf_final.as_slice());
    proof {
        let payload = seq![e0.len() as u8] + spec_serial(e0) + seq![e1.len() as u8] + spec_serial(
            e1,
        ) + total;
        assert(buf_final@ =~= payload);
        assert(out@ =~= frame_spec(e0, e1, total));
    }
    out
}

/// Number of chunks a file of the given length splits into; an empty
/// file still makes one (empty) chunk.
pub open spec fn spec_nchunks(len: int) -> int {
    1 + len / (CHUNK_MAX_SIZE as int)
}

/// Byte offset of a chunk.
pub open spec fn chunk_off(i: int) -> int {
    i * (CHUNK_MAX_SIZE as int)
}

/// Byte length of a chunk: the tail of the file for the last chunk, the
/// maximum chunk size for all others.
pub open spec fn chunk_cov(len: int, i: int) -> int {
    if len - chunk_off(i) < CHUNK_MAX_SIZE as int {
        len - chunk_off(i)
    } else {
        CHUNK_MAX_SIZE as int
    }
}

/// The even-phase dictionary a chunk's builder produces.
pub open spec fn built_even(input: Seq<u8>, i: int) -> (Seq<DictElem>, IndexValuePair) {
    build_spec(
        input,
        chunk_off(i),
        (CHUNK_MAX_SIZE as int) / 2,
        Map::<(u8, u8), u64>::empty(),
        Seq::<DictElem>::empty(),
        IndexValuePair { index: 0, value: 0 },
    )
}

/// The odd-phase dictionary: the same walk, started one byte later.
pub open spec fn built_odd(input: Seq<u8>, i: int) -> (Seq<DictElem>, IndexValuePair) {
    build_spec(
        input,
        chunk_off(i) + 1,
        (CHUNK_MAX_SIZE as int) / 2,
        Map::<(u8, u8), u64>::empty(),
        Seq::<DictElem>::empty(),
        IndexValuePair { index: 0, value: 0 },
    )
}

/// A dictionary collection is exactly what the builder produces for the
/// given input: one fresh pair per chunk with the chunk's coverage.
pub open spec fn dicts_built_for(dicts: Seq<(Dictionary, Dictionary)>, input: Seq<u8>) -> bool {
    &&& dicts.len() == spec_nchunks(input.len() as int)
    &&& forall|i: int|
        0 <= i < dicts.len() ==> {
            let p = #[trigger] dicts[i];
            &&& p.0.wf()
            &&& p.1.wf()
            &&& (p.0.elems@, p.0.least) == built_even(input, i)
            &&& (p.1.elems@, p.1.least) == built_odd(input, i)
            &&& p.0.coverage == chunk_cov(input.len() as int, i)
            &&& p.1.coverage == chunk_cov(input.len() as int, i)
            &&& forall|k: int| 0 <= k < p.0.elems@.len() ==> p.0.elems@[k].useage == 0
            &&& forall|k: int| 0 <= k < p.1.elems@.len() ==> p.1.elems@[k].useage == 0
        }
}

/// A chunk offset never passes the end of the input.
pub proof fn lemma_chunk_off_bound(len: int, i: int)
    requires
        0 <= i <= len / (CHUNK_MAX_SIZE as int),
        0 <= len,
    ensures
        chunk_off(i) <= len,
{
    let c = CHUNK_MAX_SIZE as int;
    vstd::arithmetic::div_mod::lemma_fundamental_div_mod(len, c);
    vstd::arithmetic::mul::lemma_mul_inequality(i, len / c, c);
    vstd::arithmetic::mul::lemma_mul_is_commutative(c, len / c);
}

/// Builds one dictionary pair per chunk, setting the last pair's coverage
/// to the tail length.
pub fn generate_dict_collection(input: &Vec<u8>) -> (r: Vec<(Dictionary, Dictionary)>)
    requires
        input@.len() < usize::MAX,
    ensures
        dicts_built_for(r@, input@),
{
    let file_length = input.len();
    let chunk_max = CHUNK_MAX_SIZE as usize;
    let chunks = 1 + file_length / chunk_max;
    let mut out: Vec<(Dictionary, Dictionary)> = Vec::new();
    let mut c: usize = 0;
    while c < chunks
        invariant
            chunk_max == CHUNK_MAX_SIZE,
            file_length == input@.len() < usize::MAX,
            chunks == spec_nchunks(input@.len() as int),
            c <= chunks,
            out@.len() == c,
            forall|i: int|
                0 <= i < c ==> {
                    let p = #[trigger] out@[i];
                    &&& p.0.wf()
                    &&& p.1.wf()
                    &&& (p.0.elems@, p.0.least) == built_even(input@, i)
                    &&& (p.1.elems@, p.1.least) == built_odd(input@, i)
                    &&& p.0.coverage == chunk_cov(input@.len() as int, i)
                    &&& p.1.coverage == chunk_cov(input@.len() as int, i)
                    &&& forall|k: int| 0 <= k < p.0.elems@.len() ==> p.0.elems@[k].useage == 0
                    &&& forall|k: int| 0 <= k < p.1.elems@.len() ==> p.1.elems@[k].useage == 0
                },
        decreases chunks - c,
    {
        proof {
            lemma_chunk_off_bound(file_length as int, c as int);
        }
        let offset = c * chunk_max;
        let mut pair = generate_dict_pair(input, offset);
        let chunk_size = file_length - offset;
        if chunk_size < chunk_max {
            pair.0.coverage = chunk_size as u64;
            pair.1.coverage = chunk_size as u64;
        }
        out.push(pair);
        c = c + 1;
    }
    out
}

/// The framed bytes one chunk contributes to a layer: build, dry-run,
/// purge, then the real encoding pass.
pub open spec fn chunk_out(input: Seq<u8>, i: int) -> Seq<u8> {
    let e0 = built_even(input, i).0;
    let e1 = built_odd(input, i).0;
    let c = input.subrange(chunk_off(i), chunk_off(i) + chunk_cov(input.len() as int, i));
    let d = dry_spec(c, 0, 0, e0, e1, Seq::<u8>::empty());
    let p0 = keep_used(d.0);
    let p1 = keep_used(d.1);
    frame_spec(p0, p1, encode_spec(c, 0, 0, p0, p1, Seq::<u8>::empty(), Seq::<u8>::empty()))
}

/// The concatenated chunk frames from chunk `i` on.
pub open spec fn layer_rec(input: Seq<u8>, i: int, n: int) -> Seq<u8>
    decreases n - i,
{
    if i >= n {
        Seq::<u8>::empty()
    } else {
        chunk_out(input, i) + layer_rec(input, i + 1, n)
    }
}

/// One full compression pass: every chunk framed, back to back.
pub open spec fn layer_spec(input: Seq<u8>) -> Seq<u8> {
    layer_rec(input, 0, spec_nchunks(input.len() as int))
}

/// Runs one compression pass over the input with its freshly built
/// dictionary collection.
pub fn compress_layer(input: &Vec<u8>, dicts: Vec<(Dictionary, Dictionary)>) -> (out: Vec<u8>)
    requires
        input@.len() < usize::MAX,
        dicts_built_for(dicts@, input@),
    ensures
        out@ == layer_spec(input@),
{
    let ghost n = spec_nchunks(input@.len() as int);
    let chunk_max = CHUNK_MAX_SIZE as usize;
    let mut rest = dicts;
    let mut out: Vec<u8> = Vec::new();
    let mut idx: usize = 0;
    let nchunks = rest.len();
    while idx < nchunks
        invariant
            chunk_max == CHUNK_MAX_SIZE,
            input@.len() < usize::MAX,
            nchunks == n == spec_nchunks(input@.len() as int),
            idx <= nchunks,
            rest@.len() == nchunks - idx,
            forall|i: int| 0 <= i < rest@.len() ==> dicts@[idx + i] == #[trigger] rest@[i],
            dicts_built_for(dicts@, input@),
            layer_spec(input@) == out@ + layer_rec(input@, idx as int, n),
        decreases nchunks - idx,
    {
        let ghost i = idx as int;
        proof {
            lemma_chunk_off_bound(input@.len() as int, i);
        }
        let pair = rest.remove(0);
        let (mut d0, mut d1) = pair;
        let offset = idx * chunk_max;
        let cov = d0.coverage as usize;
        let chunk = vstd::slice::slice_subrange(input.as_slice(), offset, offset + cov);
        proof {
            assert(chunk@ == input@.subrange(
                chunk_off(i),
                chunk_off(i) + chunk_cov(input@.len() as int, i),
            ));
        }
        let ghost e0 = d0.elems@;
        let ghost e1 = d1.elems@;
        compress_chunk(true, &mut d0, &mut d1, chunk);
        d0.purge_unused();
        d1.purge_unused();
        let frame = compress_chunk(false, &mut d0, &mut d1, chunk);
        let ghost out0 = out@;
        out.extend_from_slice(frame.as_slice());
        proof {
            assert(frame@ == chunk_out(input@, i));
            assert(out@ + layer_rec(input@, i + 1, n) =~= out0 + (chunk_out(input@, i)
                + layer_rec(input@, i + 1, n)));
            assert(forall|k: int|
                0 <= k < rest@.len() ==> dicts@[idx + 1 + k] == #[trigger] rest@[k]);
        }
        idx = idx + 1;
    }
    out
}

/// The pyramid: feed each pass's output back in while it shrinks, up to
/// the one-byte layer-count cap. Yields the final data and the number of
/// accepted layers.
pub open spec fn pyramid_rec(data: Seq<u8>, layers: int) -> (Seq<u8>, int)
    decreases data.len(),
{
    let next = layer_spec(data);
    if layers >= 255 || next.len() >= data.len() {
        (data, layers)
    } else {
        pyramid_rec(next, layers + 1)
    }
}

/// The finalised compressed file: the layer count, then the last layer's
/// data.
pub open spec fn compress_spec(input: Seq<u8>) -> Seq<u8> {
    seq![pyramid_rec(input, 0).1 as u8] + pyramid_rec(input, 0).0
}

/// Layer monotonicity: the pyramid takes another pass exactly when that
/// pass strictly shrinks the data and the layer-count cap is not yet
/// reached; the first pass that fails to shrink terminates it.
pub proof fn lemma_layer_monotonic(data: Seq<u8>, layers: int)
    ensures
        (layers < 255 && layer_spec(data).len() < data.len()) ==> pyramid_rec(data, layers)
            == pyramid_rec(layer_spec(data), layers + 1),
        !(layers < 255 && layer_spec(data).len() < data.len()) ==> pyramid_rec(data, layers) == (
        data, layers),
{
}

/// The stored payload is never larger than the data the pyramid started
/// from: every accepted layer shrank it.
pub proof fn lemma_pyramid_shrinks(data: Seq<u8>, layers: int)
    ensures
        pyramid_rec(data, layers).0.len() <= data.len(),
    decreases data.len(),
{
    let next = layer_spec(data);
    if !(layers >= 255 || next.len() >= data.len()) {
        lemma_pyramid_shrinks(next, layers + 1);
    }
}

/// Storing an incompressible input is the identity: when one pass does
/// not shrink it, the file is the byte zero followed by the input.
pub proof fn lemma_store_incompressible(input: Seq<u8>)
    requires
        layer_spec(input).len() >= input.len(),
    ensures
        compress_spec(input) == seq![0u8] + input,
{
    assert(pyramid_rec(input, 0) == (input, 0int));
}

/// Compresses a whole file: layered passes while they shrink, then the
/// layer count in front. Decompressing the result restores the input,
/// byte for byte.
pub fn run(input: &Vec<u8>) -> (out: Vec<u8>)
    requires
        input@.len() < usize::MAX,
    ensures
        out@ == compress_spec(input@),
        crate::uncompress::decode_file(out@) == Ok::<Seq<u8>, crate::uncompress::LcError>(input@),
{
    proof {
        crate::roundtrip::lemma_compress_roundtrip(input@);
    }
    let mut cur: Vec<u8> = Vec::new();
    cur.extend_from_slice(input.as_slice());
    let mut layers: u8 = 0;
    let mut cont = true;
    proof {
        assert(cur@ =~= input@);
    }
    while cont
        invariant
            cur@.len() < usize::MAX,
            layers <= 255,
            cont ==> pyramid_rec(input@, 0) == pyramid_rec(cur@, layers as int),
            !cont ==> pyramid_rec(input@, 0) == (cur@, layers as int),
        decreases cur@.len() + (if cont {
            1int
        } else {
            0int
        }),
    {
        let dicts = generate_dict_collection(&cur);
        let next = compress_layer(&cur, dicts);
        if layers < 255 && next.len() < cur.len() {
            cur = next;
            layers = layers + 1;
        } else {
            proof {
                assert(pyramid_rec(cur@, layers as int) == (cur@, layers as int));
            }
            cont = false;
        }
    }
    let mut out: Vec<u8> = Vec::new();
    out.push(layers);
    out.extend_from_slice(cur.as_slice());
    proof {
        assert(out@ =~= compress_spec(input@));
    }
    out
}

} // verus!
