//! The decompression side: parsing framed chunks and inverting the token
//! stream, including the phase-flip rule on odd miss runs.

use crate::utility::{self, spec_be_val, ELEM_BYTES};
use vstd::prelude::*;
use vstd::slice::slice_subrange;
use vstd::string::StringExecFns;

verus! {

/// A protocol violation found while decompressing. The input is treated
/// as corrupt and no partial output is kept.
#[derive(Clone, Copy, PartialEq, Eq, Structural, Debug)]
pub enum LcError {
    /// The input ends inside a field.
    Truncated,
    /// A hit token names an index at or past the dictionary's size.
    BadIndex,
    /// A long miss descriptor whose length-of-length cannot be decoded.
    BadLength,
    /// A miss-run length that overruns the chunk body.
    LengthOverrun,
}

/// A decoded dictionary element: the two payload bytes alone.
pub struct DictElem {
    pub data: [u8; ELEM_BYTES],
}

impl DictElem {
    pub fn new(slice: [u8; ELEM_BYTES]) -> (r: Self)
        ensures
            r.data == slice,
    {
        DictElem { data: slice }
    }

    /// Diagnostic rendering of the element.
    pub fn to_string(&self) -> String {
        let mut out = String::from_str("( ");
        out.append(utility::u8_to_string(self.data[0]).as_str());
        out.append(", ");
        out.append(utility::u8_to_string(self.data[1]).as_str());
        out.append(")");
        out
    }
}

/// A decoded dictionary: the two-byte values in wire-index order.
pub struct Dictionary {
    pub elems: Vec<DictElem>,
}

impl Dictionary {
    /// The dictionary's content: one two-byte value per wire index.
    pub open spec fn datas(&self) -> Seq<Seq<u8>> {
        self.elems@.map_values(|e: DictElem| e.data@)
    }

    pub fn new() -> (r: Self)
        ensures
            r.datas() =~= Seq::<Seq<u8>>::empty(),
            r.elems@.len() == 0,
    {
        Dictionary { elems: Vec::new() }
    }

    pub fn push(&mut self, elem: DictElem)
        ensures
            final(self).elems@ == old(self).elems@.push(elem),
            final(self).datas() =~= old(self).datas().push(elem.data@),
    {
        self.elems.push(elem);
        proof {
            assert(final(self).datas() =~= old(self).datas().push(elem.data@));
        }
    }

    /// The two bytes at a wire index.
    pub fn get(&self, index: u8) -> (r: [u8; ELEM_BYTES])
        requires
            (index as int) < self.elems@.len(),
        ensures
            r@ == self.datas()[index as int],
    {
        self.elems[index as usize].data
    }

    pub fn get_dict_elem(&self, index: u8) -> (r: &DictElem)
        requires
            (index as int) < self.elems@.len(),
        ensures
            r.data@ == self.datas()[index as int],
    {
        &self.elems[index as usize]
    }

    pub fn len(&self) -> (r: usize)
        ensures
            r == self.elems@.len(),
            r == self.datas().len(),
    {
        self.elems.len()
    }

    /// Diagnostic rendering of the dictionary.
    pub fn to_string(&self) -> String {
        let mut out = String::from_str("Elements: ");
        out.append((self.elems.len() as u64).to_string().as_str());
        let mut i: usize = 0;
        while i < self.elems.len()
            decreases self.elems@.len() - i,
        {
            out.append("\nElem ");
            out.append((i as u64).to_string().as_str());
            out.append(": ");
            out.append(self.elems[i].to_string().as_str());
            i = i + 1;
        }
        out
    }
}

/// What decoding a chunk body yields from a given phase: hit tokens copy
/// a dictionary entry, miss runs copy raw bytes and flip the phase when
/// their byte count is odd.
pub open spec fn decode_body(
    body: Seq<u8>,
    d0: Seq<Seq<u8>>,
    d1: Seq<Seq<u8>>,
    phase: int,
) -> Result<Seq<u8>, LcError>
    decreases body.len(),
{
    if body.len() == 0 {
        Ok(Seq::<u8>::empty())
    } else {
        let b = body[0];
        if b >= 128 {
            let i = (b & 0x7f) as int;
            let d = if phase == 0 {
                d0
            } else {
                d1
            };
            if i < d.len() {
                match decode_body(body.skip(1), d0, d1, phase) {
                    Ok(rest) => Ok(d[i] + rest),
                    Err(e) => Err(e),
                }
            } else {
                Err(LcError::BadIndex)
            }
        } else if b >= 64 {
            let m = (b & 0x3f) as int;
            if body.len() >= 1 + m {
                let ph2 = if m % 2 == 1 {
                    1 - phase
                } else {
                    phase
                };
                match decode_body(body.skip(1 + m), d0, d1, ph2) {
                    Ok(rest) => Ok(body.subrange(1, 1 + m) + rest),
                    Err(e) => Err(e),
                }
            } else {
                Err(LcError::LengthOverrun)
            }
        } else {
            let n = b as int;
            if n < 1 || n > 8 {
                Err(LcError::BadLength)
            } else if body.len() >= 1 + n {
                let m = spec_be_val(body.subrange(1, 1 + n)) as int;
                if body.len() >= 1 + n + m {
                    let ph2 = if m % 2 == 1 {
                        1 - phase
                    } else {
                        phase
                    };
                    match decode_body(body.skip(1 + n + m), d0, d1, ph2) {
                        Ok(rest) => Ok(body.subrange(1 + n, 1 + n + m) + rest),
                        Err(e) => Err(e),
                    }
                } else {
                    Err(LcError::LengthOverrun)
                }
            } else {
                Err(LcError::LengthOverrun)
            }
        }
    }
}

/// The `k` two-byte dictionary payloads that start at `pos`.
pub open spec fn dict_seq(data: Seq<u8>, pos: int, k: int) -> Seq<Seq<u8>>
    decreases k,
{
    if k <= 0 {
        Seq::<Seq<u8>>::empty()
    } else {
        dict_seq(data, pos, k - 1).push(data.subrange(pos + 2 * (k - 1), pos + 2 * k))
    }
}

/// Parsing one serialised dictionary at `pos`: a one-byte element count,
/// then that many two-byte payloads. Yields the content and the position
/// after it.
pub open spec fn parse_dict(data: Seq<u8>, pos: int) -> Result<(Seq<Seq<u8>>, int), LcError> {
    if pos < 0 || pos >= data.len() {
        Err(LcError::Truncated)
    } else {
        let k = data[pos] as int;
        if data.len() >= pos + 1 + 2 * k {
            Ok((dict_seq(data, pos + 1, k), pos + 1 + 2 * k))
        } else {
            Err(LcError::Truncated)
        }
    }
}

/// Decoding one framed chunk at `pos`: the four-byte total length, the
/// two dictionaries, then the body, which must fill the declared length
/// exactly. Yields the decoded bytes and the total length consumed.
pub open spec fn decode_chunk(data: Seq<u8>, pos: int) -> Result<(Seq<u8>, int), LcError> {
    if pos < 0 || data.len() < pos + 4 {
        Err(LcError::Truncated)
    } else {
        let total = spec_be_val(data.subrange(pos, pos + 4)) as int;
        match parse_dict(data, pos + 4) {
            Err(e) => Err(e),
            Ok((d0, p1)) => match parse_dict(data, p1) {
                Err(e) => Err(e),
                Ok((d1, p2)) => {
                    let blen = total - (p2 - pos);
                    if blen < 0 || data.len() < p2 + blen {
                        Err(LcError::Truncated)
                    } else {
                        match decode_body(data.subrange(p2, p2 + blen), d0, d1, 0) {
                            Ok(o) => Ok((o, total)),
                            Err(e) => Err(e),
                        }
                    }
                },
            },
        }
    }
}

/// Decoding a layer from `pos` on: back-to-back chunks until the data is
/// consumed exactly. `fuel` only bounds the recursion; every accepted
/// chunk consumes at least its six header bytes, so the data's length is
/// always fuel enough.
pub open spec fn decode_layer_rec(data: Seq<u8>, pos: int, fuel: int) -> Result<
    Seq<u8>,
    LcError,
>
    decreases fuel,
{
    if pos >= data.len() {
        Ok(Seq::<u8>::empty())
    } else if fuel <= 0 {
        Err(LcError::Truncated)
    } else {
        match decode_chunk(data, pos) {
            Err(e) => Err(e),
            Ok((o, consumed)) => {
                let step = if consumed < 1 {
                    1
                } else {
                    consumed
                };
                match decode_layer_rec(data, pos + step, fuel - 1) {
                    Ok(rest) => Ok(o + rest),
                    Err(e) => Err(e),
                }
            },
        }
    }
}

/// One full decompression pass over a layer's bytes.
pub open spec fn decode_layer(data: Seq<u8>) -> Result<Seq<u8>, LcError> {
    decode_layer_rec(data, 0, data.len() as int)
}

/// Undoing the given number of layers, innermost last.
pub open spec fn decode_layers(data: Seq<u8>, layers: int) -> Result<Seq<u8>, LcError>
    decreases layers,
{
    if layers <= 0 {
        Ok(data)
    } else {
        match decode_layer(data) {
            Ok(o) => decode_layers(o, layers - 1),
            Err(e) => Err(e),
        }
    }
}

/// Decoding a whole file: the layer count byte, then that many passes
/// over the remainder.
pub open spec fn decode_file(data: Seq<u8>) -> Result<Seq<u8>, LcError> {
    if data.len() < 1 {
        Err(LcError::Truncated)
    } else {
        decode_layers(data.skip(1), data[0] as int)
    }
}

/// A result with decoded bytes put in front of its success value.
pub open spec fn with_prefix(prefix: Seq<u8>, r: Result<Seq<u8>, LcError>) -> Result<
    Seq<u8>,
    LcError,
> {
    match r {
        Ok(rest) => Ok(prefix + rest),
        Err(e) => Err(e),
    }
}

/// Reads one serialised dictionary.
pub fn get_dictionary(data: &[u8], pos: usize) -> (r: Result<(Dictionary, usize), LcError>)
    requires
        pos <= data@.len(),
    ensures
        match r {
            Ok(p) => parse_dict(data@, pos as int) == Ok::<(Seq<Seq<u8>>, int), LcError>(
                (p.0.datas(), p.1 as int),
            ) && pos < p.1 <= data@.len() && p.0.elems@.len() <= 255,
            Err(e) => parse_dict(data@, pos as int) == Err::<(Seq<Seq<u8>>, int), LcError>(e),
        },
{
    if pos >= data.len() {
        return Err(LcError::Truncated);
    }
    let k = data[pos];
    let kk = k as usize;
    proof {
        vstd::arithmetic::div_mod::lemma_fundamental_div_mod(
            data@.len() as int - (pos as int + 1),
            2,
        );
    }
    if (data.len() - (pos + 1)) / 2 < kk {
        proof {
            assert(data@.len() < pos + 1 + 2 * (k as int));
        }
        return Err(LcError::Truncated);
    }
    proof {
        assert(pos + 1 + 2 * (kk as int) <= data@.len());
    }
    let mut dict = Dictionary::new();
    let mut i: usize = 0;
    while i < kk
        invariant
            data@.len() <= usize::MAX,
            pos + 1 + 2 * kk <= data@.len(),
            kk <= 255,
            i <= kk,
            dict.elems@.len() == i,
            dict.datas() == dict_seq(data@, pos as int + 1, i as int),
        decreases kk - i,
    {
        let q = pos + 1 + 2 * i;
        let elem = DictElem::new([data[q], data[q + 1]]);
        dict.push(elem);
        proof {
            assert(elem.data@ =~= data@.subrange(
                pos as int + 1 + 2 * (i as int),
                pos as int + 1 + 2 * (i as int + 1),
            ));
        }
        i = i + 1;
    }
    Ok((dict, pos + 1 + 2 * kk))
}

/// Decodes one framed chunk, returning its output bytes and the total
/// length it declared.
#[verifier::rlimit(100)]
pub fn uncompress_chunk(data: &[u8], pos: usize) -> (r: Result<(Vec<u8>, usize), LcError>)
    requires
        pos <= data@.len(),
    ensures
        match r {
            Ok(p) => decode_chunk(data@, pos as int) == Ok::<(Seq<u8>, int), LcError>(
                (p.0@, p.1 as int),
            ) && 6 <= p.1 && pos + p.1 <= data@.len(),
            Err(e) => decode_chunk(data@, pos as int) == Err::<(Seq<u8>, int), LcError>(e),
        },
{
    if data.len() - pos < 4 {
        return Err(LcError::Truncated);
    }
    let arr4: [u8; 4] = [data[pos], data[pos + 1], data[pos + 2], data[pos + 3]];
    proof {
        assert(arr4@ =~= data@.subrange(pos as int, pos as int + 4));
    }
    let total32 = utility::u8_vec_to_u32(&arr4);
    let total = total32 as usize;

    let (dict0, p1) = match get_dictionary(data, pos + 4) {
        Ok(p) => p,
        Err(e) => {
            return Err(e);
        },
    };
    let (dict1, p2) = match get_dictionary(data, p1) {
        Ok(p) => p,
        Err(e) => {
            return Err(e);
        },
    };

    if total < p2 - pos {
        return Err(LcError::Truncated);
    }
    let blen = total - (p2 - pos);
    if data.len() - p2 < blen {
        return Err(LcError::Truncated);
    }
    let body = slice_subrange(data, p2, p2 + blen);
    let ghost d0 = dict0.datas();
    let ghost d1 = dict1.datas();
    proof {
        assert(decode_chunk(data@, pos as int) == (match decode_body(body@, d0, d1, 0) {
            Ok(o) => Ok::<(Seq<u8>, int), LcError>((o, total as int)),
            Err(e) => Err::<(Seq<u8>, int), LcError>(e),
        }));
    }

    let mut out: Vec<u8> = Vec::new();
    let mut cur: usize = 0;
    let mut phase: usize = 0;
    proof {
        assert(body@.skip(0) =~= body@);
        assert(decode_body(body@, d0, d1, 0) == with_prefix(
            out@,
            decode_body(body@.skip(0), d0, d1, 0),
        )) by {
            if decode_body(body@, d0, d1, 0) is Ok {
                assert(out@ + decode_body(body@, d0, d1, 0)->Ok_0 =~= decode_body(
                    body@,
                    d0,
                    d1,
                    0,
                )->Ok_0);
            }
        }
    }
    proof {
        assert(6 <= total && pos + total <= data@.len());
    }
    while cur < blen
        invariant
            body@.len() <= usize::MAX,
            cur <= blen == body@.len(),
            phase == 0 || phase == 1,
            d0 == dict0.datas(),
            d1 == dict1.datas(),
            dict0.elems@.len() <= 255,
            dict1.elems@.len() <= 255,
            6 <= total,
            pos + total <= data@.len(),
            decode_chunk(data@, pos as int) == (match decode_body(body@, d0, d1, 0) {
                Ok(o) => Ok::<(Seq<u8>, int), LcError>((o, total as int)),
                Err(e) => Err::<(Seq<u8>, int), LcError>(e),
            }),
            decode_body(body@, d0, d1, 0) == with_prefix(
                out@,
                decode_body(body@.skip(cur as int), d0, d1, phase as int),
            ),
        decreases blen - cur,
    {
        let ghost rem = body@.skip(cur as int);
        let ghost ph0 = phase as int;
        proof {
            assert(rem[0] == body@[cur as int]);
        }
        let b = body[cur];
        if b >= 128 {
            let i = b & 0x7f;
            let in_range = if phase == 0 {
                (i as usize) < dict0.len()
            } else {
                (i as usize) < dict1.len()
            };
            if !in_range {
                proof {
                    assert(decode_body(rem, d0, d1, phase as int) == Err::<Seq<u8>, LcError>(
                        LcError::BadIndex,
                    ));
                }
                return Err(LcError::BadIndex);
            }
            let pair = if phase == 0 {
                dict0.get(i)
            } else {
                dict1.get(i)
            };
            let ghost out0 = out@;
            out.push(pair[0]);
            out.push(pair[1]);
            cur = cur + 1;
            proof {
                let d = if phase as int == 0 {
                    d0
                } else {
                    d1
                };
                let piece = d[(b & 0x7f) as int];
                assert(rem.skip(1) =~= body@.skip(cur as int));
                assert(out@ =~= out0 + piece) by {
                    assert(pair@ =~= seq![pair@[0], pair@[1]]);
                }
                let nxt = decode_body(body@.skip(cur as int), d0, d1, phase as int);
                assert(decode_body(rem, d0, d1, ph0) == (match nxt {
                    Ok(rest) => Ok::<Seq<u8>, LcError>(piece + rest),
                    Err(e) => Err::<Seq<u8>, LcError>(e),
                }));
                if nxt is Ok {
                    let rest = nxt->Ok_0;
                    assert(decode_body(body@, d0, d1, 0) == Ok::<Seq<u8>, LcError>(
                        out0 + (piece + rest),
                    ));
                    assert(out@ + rest =~= out0 + (piece + rest));
                    assert(with_prefix(out@, nxt) == Ok::<Seq<u8>, LcError>(out@ + rest));
                } else {
                    let e = nxt->Err_0;
                    assert(decode_body(rem, d0, d1, ph0) == Err::<Seq<u8>, LcError>(e));
                    assert(decode_body(body@, d0, d1, 0) == Err::<Seq<u8>, LcError>(e));
                    assert(with_prefix(out@, nxt) == Err::<Seq<u8>, LcError>(e));
                }
                assert(decode_body(body@, d0, d1, 0) == with_prefix(out@, nxt));
            }
        } else if b >= 64 {
            let m = (b & 0x3f) as usize;
            if blen - (cur + 1) < m {
                proof {
                    assert(decode_body(rem, d0, d1, phase as int) == Err::<Seq<u8>, LcError>(
                        LcError::LengthOverrun,
                    ));
                }
                return Err(LcError::LengthOverrun);
            }
            let content = slice_subrange(body, cur + 1, cur + 1 + m);
            let ghost out0 = out@;
            out.extend_from_slice(content);
            cur = cur + 1 + m;
            if m % 2 == 1 {
                phase = if phase == 0 {
                    1
                } else {
                    0
                };
            }
            proof {
                assert((b & 0x3f) < 64u8) by (bit_vector);
                let piece = rem.subrange(1, 1 + m as int);
                assert(content@ =~= piece);
                assert(out@ == out0 + piece);
                assert(rem.skip(1 + m as int) =~= body@.skip(cur as int));
                let nxt = decode_body(body@.skip(cur as int), d0, d1, phase as int);
                assert(decode_body(rem, d0, d1, ph0) == (match nxt {
                    Ok(rest) => Ok::<Seq<u8>, LcError>(piece + rest),
                    Err(e) => Err::<Seq<u8>, LcError>(e),
                }));
                if nxt is Ok {
                    let rest = nxt->Ok_0;
                    assert(decode_body(body@, d0, d1, 0) == Ok::<Seq<u8>, LcError>(
                        out0 + (piece + rest),
                    ));
                    assert(out@ + rest =~= out0 + (piece + rest));
                    assert(with_prefix(out@, nxt) == Ok::<Seq<u8>, LcError>(out@ + rest));
                } else {
                    let e = nxt->Err_0;
                    assert(decode_body(body@, d0, d1, 0) == Err::<Seq<u8>, LcError>(e));
                    assert(with_prefix(out@, nxt) == Err::<Seq<u8>, LcError>(e));
                }
                assert(decode_body(body@, d0, d1, 0) == with_prefix(out@, nxt));
            }
        } else {
            let n = b as usize;
            if n < 1 || n > 8 {
                proof {
                    assert(decode_body(rem, d0, d1, phase as int) == Err::<Seq<u8>, LcError>(
                        LcError::BadLength,
                    ));
                }
                return Err(LcError::BadLength);
            }
            if blen - (cur + 1) < n {
                proof {
                    assert(decode_body(rem, d0, d1, phase as int) == Err::<Seq<u8>, LcError>(
                        LcError::LengthOverrun,
                    ));
                }
                return Err(LcError::LengthOverrun);
            }
            let mut lenbuf: Vec<u8> = Vec::new();
            lenbuf.extend_from_slice(slice_subrange(body, cur + 1, cur + 1 + n));
            proof {
                assert(lenbuf@ =~= rem.subrange(1, 1 + n as int));
            }
            let m64 = utility::u8_vec_to_u64(&lenbuf);
            let after = cur + 1 + n;
            if ((blen - after) as u64) < m64 {
                proof {
                    assert(decode_body(rem, d0, d1, phase as int) == Err::<Seq<u8>, LcError>(
                        LcError::LengthOverrun,
                    ));
                }
                return Err(LcError::LengthOverrun);
            }
            let m = m64 as usize;
            proof {
                assert(m64 <= usize::MAX as u64);
                assert(m as int == spec_be_val(rem.subrange(1, 1 + n as int)) as int);
            }
            let content = slice_subrange(body, after, after + m);
            let ghost out0 = out@;
            out.extend_from_slice(content);
            cur = after + m;
            if m % 2 == 1 {
                phase = if phase == 0 {
                    1
                } else {
                    0
                };
            }
            proof {
                let piece = rem.subrange(1 + n as int, 1 + n as int + m as int);
                assert(content@ =~= piece);
                assert(out@ == out0 + piece);
                assert(rem.skip(1 + n as int + m as int) =~= body@.skip(cur as int));
                let nxt = decode_body(body@.skip(cur as int), d0, d1, phase as int);
                assert(decode_body(rem, d0, d1, ph0) == (match nxt {
                    Ok(rest) => Ok::<Seq<u8>, LcError>(piece + rest),
                    Err(e) => Err::<Seq<u8>, LcError>(e),
                }));
                if nxt is Ok {
                    let rest = nxt->Ok_0;
                    assert(decode_body(body@, d0, d1, 0) == Ok::<Seq<u8>, LcError>(
                        out0 + (piece + rest),
                    ));
                    assert(out@ + rest =~= out0 + (piece + rest));
                    assert(with_prefix(out@, nxt) == Ok::<Seq<u8>, LcError>(out@ + rest));
                } else {
                    let e = nxt->Err_0;
                    assert(decode_body(body@, d0, d1, 0) == Err::<Seq<u8>, LcError>(e));
                    assert(with_prefix(out@, nxt) == Err::<Seq<u8>, LcError>(e));
                }
                assert(decode_body(body@, d0, d1, 0) == with_prefix(out@, nxt));
            }
        }
    }
    proof {
        assert(body@.skip(blen as int) =~= Seq::<u8>::empty());
        assert(decode_chunk(data@, pos as int) == Ok::<(Seq<u8>, int), LcError>(
            (out@, total as int),
        ));
    }
    Ok((out, total))
}

/// Decompresses one layer: back-to-back chunks until the input ends.
pub fn uncompress_layer(data: &Vec<u8>) -> (r: Result<Vec<u8>, LcError>)
    ensures
        match r {
            Ok(o) => decode_layer(data@) == Ok::<Seq<u8>, LcError>(o@),
            Err(e) => decode_layer(data@) == Err::<Seq<u8>, LcError>(e),
        },
{
    let mut out: Vec<u8> = Vec::new();
    let mut pos: usize = 0;
    let ghost mut fuel: int = data@.len() as int;
    proof {
        if decode_layer_rec(data@, 0, fuel) is Ok {
            assert(out@ + decode_layer_rec(data@, 0, fuel)->Ok_0 =~= decode_layer_rec(
                data@,
                0,
                fuel,
            )->Ok_0);
        }
    }
    while pos < data.len()
        invariant
            pos <= data@.len(),
            fuel >= data@.len() - pos,
            decode_layer(data@) == with_prefix(out@, decode_layer_rec(data@, pos as int, fuel)),
        decreases data@.len() - pos,
    {
        let ghost pos0 = pos as int;
        let ghost fuel0 = fuel;
        let (chunk_out, consumed) = match uncompress_chunk(data.as_slice(), pos) {
            Ok(p) => p,
            Err(e) => {
                proof {
                    assert(decode_layer_rec(data@, pos0, fuel0) == Err::<Seq<u8>, LcError>(e));
                }
                return Err(e);
            },
        };
        let ghost out0 = out@;
        out.extend_from_slice(chunk_out.as_slice());
        proof {
            let rest = decode_layer_rec(data@, pos0 + consumed as int, fuel0 - 1);
            assert(decode_layer_rec(data@, pos0, fuel0) == (match rest {
                Ok(r) => Ok::<Seq<u8>, LcError>(chunk_out@ + r),
                Err(e) => Err::<Seq<u8>, LcError>(e),
            }));
            if rest is Ok {
                let r0 = rest->Ok_0;
                assert(decode_layer(data@) == Ok::<Seq<u8>, LcError>(out0 + (chunk_out@ + r0)));
                assert(out@ + r0 =~= out0 + (chunk_out@ + r0));
                assert(with_prefix(out@, rest) == Ok::<Seq<u8>, LcError>(out@ + r0));
            } else {
                let e0 = rest->Err_0;
                assert(decode_layer(data@) == Err::<Seq<u8>, LcError>(e0));
                assert(with_prefix(out@, rest) == Err::<Seq<u8>, LcError>(e0));
            }
            assert(decode_layer(data@) == with_prefix(out@, rest));
            fuel = fuel - 1;
        }
        pos = pos + consumed;
    }
    proof {
        assert(decode_layer_rec(data@, pos as int, fuel) == Ok::<Seq<u8>, LcError>(
            Seq::<u8>::empty(),
        ));
        assert(out@ + Seq::<u8>::empty() =~= out@);
    }
    Ok(out)
}

/// Decompresses a whole file: the layer count byte, then that many
/// passes.
pub fn uncompress(data: &Vec<u8>) -> (r: Result<Vec<u8>, LcError>)
    ensures
        match r {
            Ok(o) => decode_file(data@) == Ok::<Seq<u8>, LcError>(o@),
            Err(e) => decode_file(data@) == Err::<Seq<u8>, LcError>(e),
        },
{
    if data.len() < 1 {
        return Err(LcError::Truncated);
    }
    let layers = data[0];
    let mut cur: Vec<u8> = Vec::new();
    cur.extend_from_slice(slice_subrange(data.as_slice(), 1, data.len()));
    proof {
        assert(cur@ =~= data@.skip(1));
    }
    let mut done: u8 = 0;
    while done < layers
        invariant
            done <= layers,
            decode_file(data@) == decode_layers(cur@, layers as int - done as int),
        decreases layers - done,
    {
        cur = match uncompress_layer(&cur) {
            Ok(o) => o,
            Err(e) => {
                return Err(e);
            },
        };
        done = done + 1;
    }
    Ok(cur)
}

/// Restores the original bytes of a compressed file.
pub fn run(input: &Vec<u8>) -> (r: Result<Vec<u8>, LcError>)
    ensures
        match r {
            Ok(o) => decode_file(input@) == Ok::<Seq<u8>, LcError>(o@),
            Err(e) => decode_file(input@) == Err::<Seq<u8>, LcError>(e),
        },
{
    uncompress(input)
}

} // verus!
