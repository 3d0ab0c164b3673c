//! The inversion proofs: decoding undoes encoding, run by run, chunk by
//! chunk, layer by layer, up to whole files.

use crate::compress::{
    bump_usages, chunk_off, chunk_cov, compress_spec, dry_spec, encode_spec, expand_hits,
    frame_spec, layer_rec, layer_spec, lemma_bump_props, lemma_encode_len, lemma_expand_len,
    missrun, pyramid_rec, sel, spec_nchunks,
};
use crate::dict_elem::DictElem;
use crate::dictionary::{
    consider_spec, keep_used, lemma_find_found, lemma_serial_len, spec_find, spec_serial,
};
use crate::index_value_pair::IndexValuePair;
use crate::uncompress::{
    decode_body, decode_chunk, decode_file, decode_layer, decode_layer_rec, decode_layers,
    dict_seq, parse_dict, LcError,
};
use crate::utility::{
    lemma_be_bytes_len, lemma_be_roundtrip, lemma_bytes_to_rep_fits, lemma_bytes_to_rep_le,
    lemma_pow256_value, pow256, spec_be_bytes, spec_be_val, spec_bytes_to_rep, CHUNK_MAX_SIZE,
    VALUES, VALUES_HALF,
};
use vstd::prelude::*;

verus! {

/// The two-byte values of a dictionary, in index order.
pub open spec fn datas_of(s: Seq<DictElem>) -> Seq<Seq<u8>> {
    s.map_values(|e: DictElem| e.data@)
}

/// The serialised payload holds each element's bytes at its doubled
/// index.
proof fn lemma_serial_index(s: Seq<DictElem>, j: int)
    requires
        0 <= j < s.len(),
    ensures
        spec_serial(s).subrange(2 * j, 2 * j + 2) =~= s[j].data@,
    decreases s.len(),
{
    lemma_serial_len(s);
    lemma_serial_len(s.drop_last());
    if j == s.len() - 1 {
        assert(spec_serial(s) == spec_serial(s.drop_last()) + s.last().data@);
        assert(s.last().data@.len() == 2);
    } else {
        lemma_serial_index(s.drop_last(), j);
        assert(spec_serial(s).subrange(2 * j, 2 * j + 2) =~= spec_serial(
            s.drop_last(),
        ).subrange(2 * j, 2 * j + 2));
    }
}

/// Parsing a serialised dictionary out of surrounding data recovers its
/// content and lands just past it.
proof fn lemma_parse_serial(data: Seq<u8>, pos: int, s: Seq<DictElem>)
    requires
        s.len() <= VALUES,
        0 <= pos,
        pos + 1 + 2 * s.len() <= data.len(),
        data.subrange(pos, pos + 1 + 2 * s.len()) == seq![s.len() as u8] + spec_serial(s),
    ensures
        parse_dict(data, pos) == Ok::<(Seq<Seq<u8>>, int), LcError>(
            (datas_of(s), pos + 1 + 2 * s.len()),
        ),
{
    lemma_serial_len(s);
    let window = data.subrange(pos, pos + 1 + 2 * s.len());
    assert(data[pos] == window[0]);
    assert(data[pos] as int == s.len());
    let k = s.len() as int;
    assert forall|j: int| 0 <= j < k implies data.subrange(
        pos + 1 + 2 * j,
        pos + 1 + 2 * j + 2,
    ) =~= s[j].data@ by {
        lemma_serial_index(s, j);
        assert(data.subrange(pos + 1 + 2 * j, pos + 1 + 2 * j + 2) =~= window.subrange(
            1 + 2 * j,
            1 + 2 * j + 2,
        ));
        assert(window.subrange(1 + 2 * j, 1 + 2 * j + 2) =~= spec_serial(s).subrange(
            2 * j,
            2 * j + 2,
        ));
    }
    lemma_dict_seq_match(data, pos + 1, s, k);
    assert(datas_of(s).take(k) =~= datas_of(s));
    assert(dict_seq(data, pos + 1, k) == datas_of(s));
}

/// Reading `k` pairs yields exactly the first `k` elements' bytes.
proof fn lemma_dict_seq_match(data: Seq<u8>, start: int, s: Seq<DictElem>, k: int)
    requires
        0 <= k <= s.len(),
        0 <= start,
        start + 2 * k <= data.len(),
        forall|j: int|
            0 <= j < k ==> data.subrange(start + 2 * j, start + 2 * j + 2) =~= s[j].data@,
    ensures
        dict_seq(data, start, k) =~= datas_of(s).take(k),
    decreases k,
{
    if k > 0 {
        lemma_dict_seq_match(data, start, s, k - 1);
        assert(datas_of(s).take(k) =~= datas_of(s).take(k - 1).push(s[k - 1].data@));
    }
}

/// Decoding a framed miss run puts its raw bytes in front and flips the
/// phase exactly when the byte count is odd — the rule that keeps the
/// decoder's phase equal to the encoder's after every miss run.
pub proof fn lemma_decode_missrun(
    m: Seq<u8>,
    rest: Seq<u8>,
    d0: Seq<Seq<u8>>,
    d1: Seq<Seq<u8>>,
    ph: int,
)
    requires
        ph == 0 || ph == 1,
        m.len() <= u64::MAX,
    ensures
        decode_body(missrun(m) + rest, d0, d1, ph) == (match decode_body(
            rest,
            d0,
            d1,
            (if m.len() % 2 == 1 {
                1 - ph
            } else {
                ph
            }),
        ) {
            Ok(r) => Ok::<Seq<u8>, LcError>(m + r),
            Err(e) => Err::<Seq<u8>, LcError>(e),
        }),
{
    let ph2: int = if m.len() % 2 == 1 {
        1 - ph
    } else {
        ph
    };
    let nxt = decode_body(rest, d0, d1, ph2);
    if m.len() == 0 {
        assert(missrun(m) + rest =~= rest);
        if nxt is Ok {
            assert(m + nxt->Ok_0 =~= nxt->Ok_0);
        }
    } else if m.len() < VALUES_HALF {
        let whole = missrun(m) + rest;
        let b: u8 = (64 + m.len()) as u8;
        assert(whole[0] == b);
        assert(64 <= b < 128);
        assert(b & 0x3f == b - 64) by (bit_vector)
            requires
                64 <= b < 128,
        ;
        assert((b & 0x3f) as int == m.len());
        assert(whole.len() == 1 + m.len() + rest.len());
        assert(whole.subrange(1, 1 + m.len() as int) =~= m);
        assert(whole.skip(1 + m.len() as int) =~= rest);
        if nxt is Ok {
            assert(decode_body(whole, d0, d1, ph) == Ok::<Seq<u8>, LcError>(m + nxt->Ok_0));
        }
    } else {
        let whole = missrun(m) + rest;
        let n = spec_bytes_to_rep(m.len());
        lemma_pow256_value();
        lemma_bytes_to_rep_le(m.len(), 8);
        lemma_bytes_to_rep_fits(m.len());
        lemma_be_bytes_len(m.len(), n);
        assert(n >= 1);
        let b: u8 = n as u8;
        assert(whole[0] == b);
        assert(b < 64);
        assert(whole.subrange(1, 1 + n as int) =~= spec_be_bytes(m.len(), n));
        lemma_be_roundtrip(m.len(), n);
        assert(spec_be_val(whole.subrange(1, 1 + n as int)) == m.len());
        assert(whole.subrange(1 + n as int, 1 + n as int + m.len() as int) =~= m);
        assert(whole.skip(1 + n as int + m.len() as int) =~= rest);
        if nxt is Ok {
            assert(decode_body(whole, d0, d1, ph) == Ok::<Seq<u8>, LcError>(m + nxt->Ok_0));
        }
    }
}

/// Expanding a run of hit tokens can be read off the front token first.
proof fn lemma_expand_front(hits: Seq<u8>, d: Seq<DictElem>)
    requires
        hits.len() >= 1,
    ensures
        expand_hits(hits, d) =~= d[(hits[0] & 0x7f) as int].data@ + expand_hits(hits.skip(1), d),
    decreases hits.len(),
{
    if hits.len() == 1 {
        assert(hits.drop_last() =~= Seq::<u8>::empty());
        assert(hits.skip(1) =~= Seq::<u8>::empty());
    } else {
        lemma_expand_front(hits.drop_last(), d);
        assert(hits.drop_last()[0] == hits[0]);
        assert(hits.skip(1).drop_last() =~= hits.drop_last().skip(1));
        assert(expand_hits(hits.skip(1), d) == expand_hits(hits.skip(1).drop_last(), d) + d[(
        hits.skip(1).last() & 0x7f) as int].data@);
        assert(hits.skip(1).last() == hits.last());
    }
}

/// Decoding a run of hit tokens puts their expansion in front and leaves
/// the phase alone.
proof fn lemma_decode_hits(
    hits: Seq<u8>,
    rest: Seq<u8>,
    d: Seq<DictElem>,
    d0: Seq<Seq<u8>>,
    d1: Seq<Seq<u8>>,
    ph: int,
)
    requires
        ph == 0 || ph == 1,
        datas_of(d) == (if ph == 0 {
            d0
        } else {
            d1
        }),
        forall|k: int| 0 <= k < hits.len() ==> hits[k] >= 128 && (hits[k] & 0x7f) < d.len(),
    ensures
        decode_body(hits + rest, d0, d1, ph) == (match decode_body(rest, d0, d1, ph) {
            Ok(r) => Ok::<Seq<u8>, LcError>(expand_hits(hits, d) + r),
            Err(e) => Err::<Seq<u8>, LcError>(e),
        }),
    decreases hits.len(),
{
    let nxt = decode_body(rest, d0, d1, ph);
    if hits.len() == 0 {
        assert(hits + rest =~= rest);
        if nxt is Ok {
            assert(expand_hits(hits, d) + nxt->Ok_0 =~= nxt->Ok_0);
        }
    } else {
        let whole = hits + rest;
        let t = hits[0];
        assert(whole[0] == t);
        let i = (t & 0x7f) as int;
        assert(i < d.len());
        assert(datas_of(d)[i] == d[i].data@);
        assert(whole.skip(1) =~= hits.skip(1) + rest);
        assert(forall|k: int|
            0 <= k < hits.skip(1).len() ==> hits.skip(1)[k] == hits[k + 1]);
        lemma_decode_hits(hits.skip(1), rest, d, d0, d1, ph);
        lemma_expand_front(hits, d);
        if nxt is Ok {
            let r = nxt->Ok_0;
            assert(decode_body(whole.skip(1), d0, d1, ph) == Ok::<Seq<u8>, LcError>(
                expand_hits(hits.skip(1), d) + r,
            ));
            assert(decode_body(whole, d0, d1, ph) == Ok::<Seq<u8>, LcError>(
                d[i].data@ + (expand_hits(hits.skip(1), d) + r),
            ));
            assert(d[i].data@ + (expand_hits(hits.skip(1), d) + r) =~= (d[i].data@ + expand_hits(
                hits.skip(1),
                d,
            )) + r);
            assert(expand_hits(hits, d) + r =~= (d[i].data@ + expand_hits(hits.skip(1), d)) + r);
        } else {
            assert(decode_body(whole.skip(1), d0, d1, ph) == nxt);
        }
    }
}

/// The final flush: decoding what the encoder emits once fewer than two
/// bytes remain yields the pending buffers and the residual tail.
#[verifier::spinoff_prover]
proof fn lemma_body_roundtrip_base(
    chunk: Seq<u8>,
    pos: int,
    phase: int,
    e0: Seq<DictElem>,
    e1: Seq<DictElem>,
    hits: Seq<u8>,
    miss: Seq<u8>,
)
    requires
        0 <= pos <= chunk.len(),
        chunk.len() < pos + 2,
        phase == 0 || phase == 1,
        e0.len() <= VALUES,
        e1.len() <= VALUES,
        forall|k: int|
            0 <= k < hits.len() ==> hits[k] >= 128 && (hits[k] & 0x7f) < sel(
                e0,
                e1,
                phase,
            ).len(),
        miss.len() + 2 * hits.len() + (chunk.len() - pos) <= u64::MAX,
    ensures
        decode_body(
            encode_spec(chunk, pos, phase, e0, e1, hits, miss),
            datas_of(e0),
            datas_of(e1),
            (if miss.len() % 2 == 1 {
                1 - phase
            } else {
                phase
            }),
        ) == Ok::<Seq<u8>, LcError>(
            miss + expand_hits(hits, sel(e0, e1, phase)) + chunk.skip(pos),
        ),
{
    let d = sel(e0, e1, phase);
    let dv0 = datas_of(e0);
    let dv1 = datas_of(e1);
    let pd: int = if miss.len() % 2 == 1 {
        1 - phase
    } else {
        phase
    };
    let out = encode_spec(chunk, pos, phase, e0, e1, hits, miss);
    let empty = Seq::<u8>::empty();
    lemma_expand_len(hits, d);
    let res = chunk.skip(pos);
    if hits.len() >= 2 {
        let tail = hits + missrun(res);
        assert(out =~= missrun(miss) + tail);
        lemma_decode_missrun(miss, tail, dv0, dv1, pd);
        lemma_decode_hits(hits, missrun(res), d, dv0, dv1, phase);
        assert(missrun(res) + empty =~= missrun(res));
        lemma_decode_missrun(res, empty, dv0, dv1, phase);
        assert(decode_body(empty, dv0, dv1, (if res.len() % 2 == 1 {
            1 - phase
        } else {
            phase
        })) == Ok::<Seq<u8>, LcError>(empty));
        assert(res + empty =~= res);
        assert(decode_body(missrun(res), dv0, dv1, phase) == Ok::<Seq<u8>, LcError>(res));
        assert(decode_body(tail, dv0, dv1, phase) == Ok::<Seq<u8>, LcError>(
            expand_hits(hits, d) + res,
        ));
        assert(decode_body(out, dv0, dv1, pd) == Ok::<Seq<u8>, LcError>(
            miss + (expand_hits(hits, d) + res),
        ));
        assert(miss + (expand_hits(hits, d) + res) =~= miss + expand_hits(hits, d) + res);
    } else {
        let m2 = miss + expand_hits(hits, d) + res;
        assert(out =~= missrun(m2) + empty);
        lemma_decode_missrun(m2, empty, dv0, dv1, pd);
        assert(decode_body(empty, dv0, dv1, (if m2.len() % 2 == 1 {
            1 - pd
        } else {
            pd
        })) == Ok::<Seq<u8>, LcError>(empty));
        assert(m2 + empty =~= m2);
    }
}

/// The heart of the round trip, by induction over the encoder's state:
/// decoding what the real pass emits yields the pending buffers' bytes
/// followed by the rest of the chunk. The decoder's phase tracks the
/// encoder's through the parity of the pending miss buffer — the
/// phase-flip rule — and every hit token the encoder emits indexes below
/// the phase dictionary's size, so decoding never fails.
#[verifier::rlimit(100)]
#[verifier::spinoff_prover]
pub proof fn lemma_body_roundtrip(
    chunk: Seq<u8>,
    pos: int,
    phase: int,
    e0: Seq<DictElem>,
    e1: Seq<DictElem>,
    hits: Seq<u8>,
    miss: Seq<u8>,
)
    requires
        0 <= pos <= chunk.len(),
        phase == 0 || phase == 1,
        e0.len() <= VALUES,
        e1.len() <= VALUES,
        forall|k: int|
            0 <= k < hits.len() ==> hits[k] >= 128 && (hits[k] & 0x7f) < sel(
                e0,
                e1,
                phase,
            ).len(),
        miss.len() + 2 * hits.len() + (chunk.len() - pos) <= u64::MAX,
    ensures
        decode_body(
            encode_spec(chunk, pos, phase, e0, e1, hits, miss),
            datas_of(e0),
            datas_of(e1),
            (if miss.len() % 2 == 1 {
                1 - phase
            } else {
                phase
            }),
        ) == Ok::<Seq<u8>, LcError>(
            miss + expand_hits(hits, sel(e0, e1, phase)) + chunk.skip(pos),
        ),
    decreases chunk.len() - pos,
{
    let d = sel(e0, e1, phase);
    let dv0 = datas_of(e0);
    let dv1 = datas_of(e1);
    let pd: int = if miss.len() % 2 == 1 {
        1 - phase
    } else {
        phase
    };
    let out = encode_spec(chunk, pos, phase, e0, e1, hits, miss);
    let empty = Seq::<u8>::empty();
    lemma_expand_len(hits, d);
    if chunk.len() < pos + 2 {
        lemma_body_roundtrip_base(chunk, pos, phase, e0, e1, hits, miss);
    } else {
        let w = chunk.subrange(pos, pos + 2);
        let j = spec_find(d, w, 0);
        if j >= 0 {
            lemma_find_found(d, w, 0);
            let tok: u8 = (128 + j) as u8;
            assert(tok >= 128);
            assert(tok & 0x7f == tok - 128) by (bit_vector)
                requires
                    tok >= 128,
            ;
            assert((tok & 0x7f) as int == j);
            let hits2 = hits.push(tok);
            assert(forall|k: int|
                0 <= k < hits2.len() ==> hits2[k] >= 128 && (hits2[k] & 0x7f) < d.len());
            lemma_body_roundtrip(chunk, pos + 2, phase, e0, e1, hits2, miss);
            assert(out == encode_spec(chunk, pos + 2, phase, e0, e1, hits2, miss));
            assert(expand_hits(hits2, d) =~= expand_hits(hits, d) + d[j].data@) by {
                assert(hits2.drop_last() =~= hits);
                assert(hits2.last() == tok);
            }
            assert(d[j].data@ == w);
            assert(chunk.skip(pos) =~= w + chunk.skip(pos + 2));
            assert(miss + (expand_hits(hits, d) + w) + chunk.skip(pos + 2) =~= miss + expand_hits(
                hits,
                d,
            ) + chunk.skip(pos));
            assert(miss + expand_hits(hits2, d) + chunk.skip(pos + 2) =~= miss + (expand_hits(
                hits,
                d,
            ) + w) + chunk.skip(pos + 2));
        } else if hits.len() >= 2 {
            let inner = encode_spec(chunk, pos + 1, 1 - phase, e0, e1, empty, seq![chunk[pos]]);
            let tail = hits + inner;
            assert(out =~= missrun(miss) + tail);
            lemma_decode_missrun(miss, tail, dv0, dv1, pd);
            lemma_decode_hits(hits, inner, d, dv0, dv1, phase);
            lemma_body_roundtrip(chunk, pos + 1, 1 - phase, e0, e1, empty, seq![chunk[pos]]);
            let dflip = sel(e0, e1, 1 - phase);
            assert(decode_body(inner, dv0, dv1, phase) == Ok::<Seq<u8>, LcError>(
                seq![chunk[pos]] + expand_hits(empty, dflip) + chunk.skip(pos + 1),
            ));
            assert(seq![chunk[pos]] + expand_hits(empty, dflip) + chunk.skip(pos + 1)
                =~= chunk.skip(pos));
            assert(decode_body(tail, dv0, dv1, phase) == Ok::<Seq<u8>, LcError>(
                expand_hits(hits, d) + chunk.skip(pos),
            ));
            assert(decode_body(out, dv0, dv1, pd) == Ok::<Seq<u8>, LcError>(
                miss + (expand_hits(hits, d) + chunk.skip(pos)),
            ));
            assert(miss + (expand_hits(hits, d) + chunk.skip(pos)) =~= miss + expand_hits(
                hits,
                d,
            ) + chunk.skip(pos));
        } else {
            let miss2 = miss + expand_hits(hits, d) + seq![chunk[pos]];
            assert(miss2.len() == miss.len() + 2 * hits.len() + 1);
            lemma_body_roundtrip(chunk, pos + 1, 1 - phase, e0, e1, empty, miss2);
            assert(out == encode_spec(chunk, pos + 1, 1 - phase, e0, e1, empty, miss2));
            let pd2: int = if miss2.len() % 2 == 1 {
                1 - (1 - phase)
            } else {
                1 - phase
            };
            assert(pd2 == pd);
            let dflip = sel(e0, e1, 1 - phase);
            assert(decode_body(out, dv0, dv1, pd) == Ok::<Seq<u8>, LcError>(
                miss2 + expand_hits(empty, dflip) + chunk.skip(pos + 1),
            ));
            assert(miss2 + expand_hits(empty, dflip) + chunk.skip(pos + 1) =~= miss + expand_hits(
                hits,
                d,
            ) + chunk.skip(pos)) by {
                assert(chunk.skip(pos) =~= seq![chunk[pos]] + chunk.skip(pos + 1));
            }
        }
    }
}

/// A window of data seen through a matching subrange.
proof fn lemma_subrange_of_subrange(data: Seq<u8>, pos: int, w: Seq<u8>, a: int, b: int)
    requires
        0 <= pos,
        pos + w.len() <= data.len(),
        data.subrange(pos, pos + w.len() as int) == w,
        0 <= a <= b <= w.len(),
    ensures
        data.subrange(pos + a, pos + b) =~= w.subrange(a, b),
{
    assert forall|t: int| 0 <= t < b - a implies data.subrange(pos + a, pos + b)[t] == w.subrange(
        a,
        b,
    )[t] by {
        assert(data.subrange(pos, pos + w.len() as int)[a + t] == data[pos + a + t]);
    }
}

/// `consider` keeps the size cap, and keeps the least slot pointing into
/// the elements whenever any exist.
proof fn lemma_consider_inv(s: Seq<DictElem>, least: IndexValuePair, e: DictElem)
    requires
        s.len() <= VALUES,
        s.len() == 0 || (least.index as int) < s.len(),
    ensures
        consider_spec(s, least, e).0.len() <= VALUES,
        consider_spec(s, least, e).0.len() == 0 || (consider_spec(s, least, e).1.index as int)
            < consider_spec(s, least, e).0.len(),
{
    let j = spec_find(s, e.data@, 0);
    let r = consider_spec(s, least, e);
    if j >= 0 {
        lemma_find_found(s, e.data@, 0);
        if j == least.index || e.occurance <= least.value {
            crate::dictionary::lemma_least_props(r.0);
        }
    } else if e.occurance < crate::utility::MIN_OCCATIONS {
    } else if s.len() < VALUES {
    } else if e.occurance > least.value {
        crate::dictionary::lemma_least_props(r.0);
    }
}

/// The builder's dictionaries respect the size cap.
proof fn lemma_build_inv(
    input: Seq<u8>,
    pos: int,
    reads: int,
    counts: Map<(u8, u8), u64>,
    s: Seq<DictElem>,
    least: IndexValuePair,
)
    requires
        s.len() <= VALUES,
        s.len() == 0 || (least.index as int) < s.len(),
    ensures
        crate::compress::build_spec(input, pos, reads, counts, s, least).0.len() <= VALUES,
    decreases reads,
{
    if !(reads <= 0 || pos < 0 || input.len() < pos + 2) {
        let a = input[pos];
        let b = input[pos + 1];
        let c = (crate::compress::spec_count(counts, a, b) + 1) as u64;
        let e = DictElem { data: [a, b], occurance: c, useage: 0 };
        lemma_consider_inv(s, least, e);
        let r = crate::dictionary::consider_spec(s, least, e);
        lemma_build_inv(input, pos + 2, reads - 1, counts.insert((a, b), c), r.0, r.1);
    }
}

/// The dry pass never changes how many elements a dictionary holds.
proof fn lemma_dry_len(
    chunk: Seq<u8>,
    pos: int,
    phase: int,
    e0: Seq<DictElem>,
    e1: Seq<DictElem>,
    hits: Seq<u8>,
)
    ensures
        dry_spec(chunk, pos, phase, e0, e1, hits).0.len() == e0.len(),
        dry_spec(chunk, pos, phase, e0, e1, hits).1.len() == e1.len(),
    decreases chunk.len() - pos,
{
    let d = sel(e0, e1, phase);
    if pos < 0 || chunk.len() < pos + 2 {
        if hits.len() >= 2 {
            lemma_bump_props(e0, hits);
            lemma_bump_props(e1, hits);
        }
    } else {
        let j = spec_find(d, chunk.subrange(pos, pos + 2), 0);
        if j >= 0 {
            lemma_dry_len(chunk, pos + 2, phase, e0, e1, hits.push((128 + j) as u8));
        } else if hits.len() >= 2 {
            lemma_bump_props(e0, hits);
            lemma_bump_props(e1, hits);
            if phase == 0 {
                lemma_dry_len(chunk, pos + 1, 1, bump_usages(e0, hits), e1, Seq::<u8>::empty());
            } else {
                lemma_dry_len(chunk, pos + 1, 0, e0, bump_usages(e1, hits), Seq::<u8>::empty());
            }
        } else {
            lemma_dry_len(chunk, pos + 1, 1 - phase, e0, e1, Seq::<u8>::empty());
        }
    }
}

/// The dictionaries a chunk serialises hold at most the cap.
proof fn lemma_chunk_dict_caps(input: Seq<u8>, i: int)
    ensures
        ({
            let e0 = crate::compress::built_even(input, i).0;
            let e1 = crate::compress::built_odd(input, i).0;
            let c = input.subrange(
                chunk_off(i),
                chunk_off(i) + chunk_cov(input.len() as int, i),
            );
            let dr = dry_spec(c, 0, 0, e0, e1, Seq::<u8>::empty());
            keep_used(dr.0).len() <= VALUES && keep_used(dr.1).len() <= VALUES
        }),
{
    let e0 = crate::compress::built_even(input, i).0;
    let e1 = crate::compress::built_odd(input, i).0;
    let c = input.subrange(chunk_off(i), chunk_off(i) + chunk_cov(input.len() as int, i));
    let dr = dry_spec(c, 0, 0, e0, e1, Seq::<u8>::empty());
    lemma_build_inv(
        input,
        chunk_off(i),
        (CHUNK_MAX_SIZE as int) / 2,
        Map::<(u8, u8), u64>::empty(),
        Seq::<DictElem>::empty(),
        crate::index_value_pair::IndexValuePair { index: 0, value: 0 },
    );
    lemma_build_inv(
        input,
        chunk_off(i) + 1,
        (CHUNK_MAX_SIZE as int) / 2,
        Map::<(u8, u8), u64>::empty(),
        Seq::<DictElem>::empty(),
        crate::index_value_pair::IndexValuePair { index: 0, value: 0 },
    );
    lemma_dry_len(c, 0, 0, e0, e1, Seq::<u8>::empty());
    crate::dictionary::lemma_keep_used_props(dr.0);
    crate::dictionary::lemma_keep_used_props(dr.1);
}

/// Decoding one framed chunk embedded in surrounding data recovers the
/// chunk's bytes and consumes exactly the frame.
proof fn lemma_chunk_roundtrip(
    data: Seq<u8>,
    pos: int,
    chunk: Seq<u8>,
    p0: Seq<DictElem>,
    p1: Seq<DictElem>,
)
    requires
        0 <= pos,
        p0.len() <= VALUES,
        p1.len() <= VALUES,
        chunk.len() <= CHUNK_MAX_SIZE,
        pos + frame_spec(
            p0,
            p1,
            encode_spec(chunk, 0, 0, p0, p1, Seq::<u8>::empty(), Seq::<u8>::empty()),
        ).len() <= data.len(),
        data.subrange(
            pos,
            pos + frame_spec(
                p0,
                p1,
                encode_spec(chunk, 0, 0, p0, p1, Seq::<u8>::empty(), Seq::<u8>::empty()),
            ).len(),
        ) == frame_spec(
            p0,
            p1,
            encode_spec(chunk, 0, 0, p0, p1, Seq::<u8>::empty(), Seq::<u8>::empty()),
        ),
    ensures
        ({
            let frame = frame_spec(
                p0,
                p1,
                encode_spec(chunk, 0, 0, p0, p1, Seq::<u8>::empty(), Seq::<u8>::empty()),
            );
            decode_chunk(data, pos) == Ok::<(Seq<u8>, int), LcError>((chunk, frame.len() as int))
                && 6 <= frame.len()
        }),
{
    let empty = Seq::<u8>::empty();
    let body = encode_spec(chunk, 0, 0, p0, p1, empty, empty);
    let frame = frame_spec(p0, p1, body);
    let payload = seq![p0.len() as u8] + spec_serial(p0) + seq![p1.len() as u8] + spec_serial(p1)
        + body;
    lemma_encode_len(chunk, 0, 0, p0, p1, empty, empty);
    lemma_serial_len(p0);
    lemma_serial_len(p1);
    assert(pow256(4) == 0x1_0000_0000) by {
        reveal_with_fuel(pow256, 5);
    }
    let total = 4 + payload.len() as int;
    lemma_be_bytes_len(total as nat, 4);
    assert(frame.len() == total);
    let k0 = p0.len() as int;
    let k1 = p1.len() as int;
    let q1 = pos + 4 + 1 + 2 * k0;
    let q2 = q1 + 1 + 2 * k1;

    lemma_subrange_of_subrange(data, pos, frame, 0, 4);
    assert(frame.subrange(0, 4) =~= spec_be_bytes(total as nat, 4));
    assert(data.subrange(pos, pos + 4) =~= spec_be_bytes(total as nat, 4));
    lemma_be_roundtrip(total as nat, 4);
    assert(spec_be_val(data.subrange(pos, pos + 4)) == total);

    lemma_subrange_of_subrange(data, pos, frame, 4, 4 + 1 + 2 * k0);
    assert(frame.subrange(4, 4 + 1 + 2 * k0) =~= seq![p0.len() as u8] + spec_serial(p0));
    assert(data.subrange(pos + 4, pos + 4 + 1 + 2 * k0) =~= seq![p0.len() as u8] + spec_serial(
        p0,
    ));
    lemma_parse_serial(data, pos + 4, p0);

    lemma_subrange_of_subrange(data, pos, frame, q1 - pos, q1 - pos + 1 + 2 * k1);
    assert(frame.subrange(q1 - pos, q1 - pos + 1 + 2 * k1) =~= seq![p1.len() as u8]
        + spec_serial(p1));
    assert(data.subrange(q1, q1 + 1 + 2 * k1) =~= seq![p1.len() as u8] + spec_serial(p1));
    lemma_parse_serial(data, q1, p1);

    assert(total - (q2 - pos) == body.len());
    lemma_subrange_of_subrange(data, pos, frame, q2 - pos, q2 - pos + body.len() as int);
    assert(frame.subrange(q2 - pos, q2 - pos + body.len() as int) =~= body);
    assert(data.subrange(q2, q2 + body.len() as int) =~= body);
    lemma_body_roundtrip(chunk, 0, 0, p0, p1, empty, empty);
    assert(empty + expand_hits(empty, sel(p0, p1, 0)) + chunk.skip(0) =~= chunk);
    assert(decode_body(body, datas_of(p0), datas_of(p1), 0) == Ok::<Seq<u8>, LcError>(chunk));
}

/// Every frame in a layer is at least its header long.
proof fn lemma_layer_rec_min(input: Seq<u8>, i: int, n: int)
    ensures
        layer_rec(input, i, n).len() >= n - i,
    decreases n - i,
{
    if i < n {
        lemma_layer_rec_min(input, i + 1, n);
        let e0 = crate::compress::built_even(input, i).0;
        let e1 = crate::compress::built_odd(input, i).0;
        let c = input.subrange(chunk_off(i), chunk_off(i) + chunk_cov(input.len() as int, i));
        let dr = dry_spec(c, 0, 0, e0, e1, Seq::<u8>::empty());
        lemma_be_bytes_len(
            (4 + (seq![keep_used(dr.0).len() as u8] + spec_serial(keep_used(dr.0)) + seq![
                keep_used(dr.1).len() as u8,
            ] + spec_serial(keep_used(dr.1)) + encode_spec(
                c,
                0,
                0,
                keep_used(dr.0),
                keep_used(dr.1),
                Seq::<u8>::empty(),
                Seq::<u8>::empty(),
            )).len()) as nat,
            4,
        );
    }
}

/// Decoding the frames of chunks `i` and onward restores the input from
/// chunk `i`'s offset.
proof fn lemma_layer_frames(data: Seq<u8>, pos: int, input: Seq<u8>, i: int, fuel: int)
    requires
        0 <= i <= spec_nchunks(input.len() as int),
        0 <= pos <= data.len(),
        data.len() - pos == layer_rec(input, i, spec_nchunks(input.len() as int)).len(),
        data.subrange(pos, data.len() as int) == layer_rec(
            input,
            i,
            spec_nchunks(input.len() as int),
        ),
        fuel >= spec_nchunks(input.len() as int) - i,
    ensures
        decode_layer_rec(data, pos, fuel) == Ok::<Seq<u8>, LcError>(
            if i < spec_nchunks(input.len() as int) {
                input.skip(chunk_off(i))
            } else {
                Seq::<u8>::empty()
            },
        ),
    decreases spec_nchunks(input.len() as int) - i,
{
    let n = spec_nchunks(input.len() as int);
    let len = input.len() as int;
    let cmax = CHUNK_MAX_SIZE as int;
    if i >= n {
        assert(layer_rec(input, i, n).len() == 0);
        assert(pos >= data.len());
    } else {
        crate::compress::lemma_chunk_off_bound(len, i);
        let off = chunk_off(i);
        let cov = chunk_cov(len, i);
        let c = input.subrange(off, off + cov);
        let e0 = crate::compress::built_even(input, i).0;
        let e1 = crate::compress::built_odd(input, i).0;
        let dr = dry_spec(c, 0, 0, e0, e1, Seq::<u8>::empty());
        let p0 = keep_used(dr.0);
        let p1 = keep_used(dr.1);
        let body = encode_spec(c, 0, 0, p0, p1, Seq::<u8>::empty(), Seq::<u8>::empty());
        let frame = frame_spec(p0, p1, body);
        lemma_chunk_dict_caps(input, i);
        assert(layer_rec(input, i, n) == frame + layer_rec(input, i + 1, n));
        lemma_layer_rec_min(input, i + 1, n);
        assert(data.subrange(pos, pos + frame.len() as int) =~= frame);
        lemma_chunk_roundtrip(data, pos, c, p0, p1);
        assert(decode_chunk(data, pos) == Ok::<(Seq<u8>, int), LcError>(
            (c, frame.len() as int),
        ));
        let pos2 = pos + frame.len() as int;
        let w = layer_rec(input, i, n);
        lemma_subrange_of_subrange(data, pos, w, frame.len() as int, w.len() as int);
        assert(w.subrange(frame.len() as int, w.len() as int) =~= layer_rec(input, i + 1, n));
        assert(data.subrange(pos2, data.len() as int) =~= layer_rec(input, i + 1, n));
        lemma_layer_frames(data, pos2, input, i + 1, fuel - 1);
        let rest = decode_layer_rec(data, pos2, fuel - 1);
        if i + 1 < n {
            // A full chunk: the next chunk starts one maximum size later.
            vstd::arithmetic::div_mod::lemma_fundamental_div_mod(len, cmax);
            vstd::arithmetic::mul::lemma_mul_inequality(i + 1, len / cmax, cmax);
            vstd::arithmetic::mul::lemma_mul_is_commutative(cmax, len / cmax);
            assert(chunk_off(i + 1) <= len);
            assert(chunk_off(i + 1) == off + cmax);
            assert(cov == cmax);
            assert(rest == Ok::<Seq<u8>, LcError>(input.skip(off + cmax)));
            assert(c + input.skip(off + cmax) =~= input.skip(off));
        } else {
            // The last chunk: its coverage runs to the end of the input.
            vstd::arithmetic::div_mod::lemma_fundamental_div_mod(len, cmax);
            vstd::arithmetic::mul::lemma_mul_is_commutative(cmax, len / cmax);
            assert(i == len / cmax);
            assert(off + cov == len);
            assert(rest == Ok::<Seq<u8>, LcError>(Seq::<u8>::empty()));
            assert(c + Seq::<u8>::empty() =~= input.skip(off));
        }
    }
}

/// One decompression pass undoes one compression pass.
pub proof fn lemma_layer_roundtrip(input: Seq<u8>)
    ensures
        decode_layer(layer_spec(input)) == Ok::<Seq<u8>, LcError>(input),
{
    let n = spec_nchunks(input.len() as int);
    let data = layer_spec(input);
    lemma_layer_rec_min(input, 0, n);
    assert(data.subrange(0, data.len() as int) =~= data);
    lemma_layer_frames(data, 0, input, 0, data.len() as int);
    assert(input.skip(chunk_off(0)) =~= input);
}

/// Undoing one more layer composes at the inner end.
proof fn lemma_layers_snoc(d: Seq<u8>, k: int)
    requires
        k >= 0,
    ensures
        decode_layers(d, k + 1) == (match decode_layers(d, k) {
            Ok(o) => decode_layer(o),
            Err(e) => Err::<Seq<u8>, LcError>(e),
        }),
    decreases k,
{
    let first = decode_layer(d);
    if k == 0 {
        if first is Ok {
            assert(decode_layers(first->Ok_0, 0) == Ok::<Seq<u8>, LcError>(first->Ok_0));
        }
    } else {
        if first is Ok {
            lemma_layers_snoc(first->Ok_0, k - 1);
            assert(decode_layers(d, k + 1) == decode_layers(first->Ok_0, k));
            assert(decode_layers(d, k) == decode_layers(first->Ok_0, k - 1));
        }
    }
}

/// The layer count never drops below where it started nor passes the cap.
proof fn lemma_pyramid_layers(data: Seq<u8>, layers: int)
    requires
        0 <= layers <= 255,
    ensures
        layers <= pyramid_rec(data, layers).1 <= 255,
    decreases data.len(),
{
    let next = layer_spec(data);
    if !(layers >= 255 || next.len() >= data.len()) {
        lemma_pyramid_layers(next, layers + 1);
    }
}

/// The layer count never drops below where it started.
proof fn lemma_pyramid_layers_low(data: Seq<u8>, layers: int)
    ensures
        layers <= pyramid_rec(data, layers).1,
    decreases data.len(),
{
    let next = layer_spec(data);
    if !(layers >= 255 || next.len() >= data.len()) {
        lemma_pyramid_layers_low(next, layers + 1);
    }
}

/// Undoing as many layers as the pyramid accepted restores what it was
/// fed.
proof fn lemma_pyramid_roundtrip(data: Seq<u8>, layers: int)
    requires
        0 <= layers,
    ensures
        decode_layers(
            pyramid_rec(data, layers).0,
            pyramid_rec(data, layers).1 - layers,
        ) == Ok::<Seq<u8>, LcError>(data),
    decreases data.len(),
{
    let next = layer_spec(data);
    if layers >= 255 || next.len() >= data.len() {
        assert(pyramid_rec(data, layers) == (data, layers));
    } else {
        lemma_pyramid_roundtrip(next, layers + 1);
        let fin = pyramid_rec(data, layers).0;
        let total = pyramid_rec(data, layers).1;
        assert(pyramid_rec(data, layers) == pyramid_rec(next, layers + 1));
        if layers + 1 <= 255 {
            lemma_pyramid_layers_low(next, layers + 1);
        }
        lemma_layers_snoc(fin, total - layers - 1);
        lemma_layer_roundtrip(data);
    }
}

/// The round trip: decompressing a compressed file restores the file,
/// byte for byte, whatever the input was.
pub proof fn lemma_compress_roundtrip(input: Seq<u8>)
    ensures
        decode_file(compress_spec(input)) == Ok::<Seq<u8>, LcError>(input),
{
    let fin = pyramid_rec(input, 0).0;
    let layers = pyramid_rec(input, 0).1;
    lemma_pyramid_layers(input, 0);
    lemma_pyramid_roundtrip(input, 0);
    let file = compress_spec(input);
    assert(file == seq![layers as u8] + fin);
    assert(file.len() >= 1);
    assert(file[0] == layers as u8);
    assert(file[0] as int == layers);
    assert(file.skip(1) =~= fin);
}

} // verus!
