//! The encoder-side dictionary: an ordered collection of at most 128
//! two-byte elements, with a cached least-occurring slot.
//!
//! The position of an element in `elems` is its wire index. The data pairs
//! are pairwise distinct, and whenever the dictionary is non-empty the
//! cached `least` slot names the first element of minimal occurrence.

use crate::dict_elem::DictElem;
use crate::index_value_pair::IndexValuePair;
use crate::utility::{CHUNK_MAX_SIZE, ELEM_BYTES, MIN_OCCATIONS, VALUES};
use vstd::prelude::*;
use vstd::string::StringExecFns;

verus! {

/// First index at or after `i` whose element carries the data pair `w`,
/// or `-1` when there is none.
pub open spec fn spec_find(s: Seq<DictElem>, w: Seq<u8>, i: int) -> int
    decreases s.len() - i,
{
    if i < 0 || i >= s.len() {
        -1
    } else if s[i].data@ == w {
        i
    } else {
        spec_find(s, w, i + 1)
    }
}

/// The first slot of minimal occurrence; `(0, u64::MAX)` for an empty
/// dictionary.
pub open spec fn spec_least(s: Seq<DictElem>) -> IndexValuePair
    decreases s.len(),
{
    if s.len() == 0 {
        IndexValuePair { index: 0, value: u64::MAX }
    } else {
        let r = spec_least(s.drop_last());
        if r.value > s.last().occurance {
            IndexValuePair { index: (s.len() - 1) as usize, value: s.last().occurance }
        } else {
            r
        }
    }
}

/// The elements whose usage counter is non-zero, in their original order.
pub open spec fn keep_used(s: Seq<DictElem>) -> Seq<DictElem>
    decreases s.len(),
{
    if s.len() == 0 {
        Seq::<DictElem>::empty()
    } else {
        let r = keep_used(s.drop_last());
        if s.last().useage != 0 {
            r.push(s.last())
        } else {
            r
        }
    }
}

/// The serialised payload: the two-byte values in index order.
pub open spec fn spec_serial(s: Seq<DictElem>) -> Seq<u8>
    decreases s.len(),
{
    if s.len() == 0 {
        Seq::<u8>::empty()
    } else {
        spec_serial(s.drop_last()) + s.last().data@
    }
}

/// `e` with its occurrence counter replaced.
pub open spec fn set_occ(e: DictElem, occ: u64) -> DictElem {
    DictElem { data: e.data, occurance: occ, useage: e.useage }
}

/// What `consider` does to the element sequence and the cached least slot:
/// a matching element has its occurrence updated; otherwise the candidate
/// is ignored when rare, appended while there is room, and displaces the
/// least-occurring element when it outweighs it.
pub open spec fn consider_spec(s: Seq<DictElem>, least: IndexValuePair, e: DictElem) -> (
    Seq<DictElem>,
    IndexValuePair,
) {
    let j = spec_find(s, e.data@, 0);
    if j >= 0 {
        let s2 = s.update(j, set_occ(s[j], e.occurance));
        if j == least.index || e.occurance <= least.value {
            (s2, spec_least(s2))
        } else {
            (s2, least)
        }
    } else if e.occurance < MIN_OCCATIONS {
        (s, least)
    } else if s.len() < VALUES {
        let least2 = if s.len() == 0 || e.occurance < least.value {
            IndexValuePair { index: s.len() as usize, value: e.occurance }
        } else {
            least
        };
        (s.push(e), least2)
    } else if e.occurance > least.value {
        let s2 = s.update(least.index as int, e);
        (s2, spec_least(s2))
    } else {
        (s, least)
    }
}

pub struct Dictionary {
    pub elems: Vec<DictElem>,
    pub least: IndexValuePair,
    pub coverage: u64,
}

impl Dictionary {
    /// No two elements share a data pair.
    pub open spec fn distinct(&self) -> bool {
        forall|i: int, j: int|
            0 <= i < j < self.elems@.len() ==> self.elems@[i].data@ != self.elems@[j].data@
    }

    /// Well-formedness: the size cap, distinct data pairs, and a correct
    /// least cache.
    pub open spec fn wf(&self) -> bool {
        &&& self.elems@.len() <= VALUES
        &&& self.distinct()
        &&& self.elems@.len() > 0 ==> self.least == spec_least(self.elems@)
    }

    pub fn new() -> (r: Self)
        ensures
            r.elems@.len() == 0,
            r.least.index == 0 && r.least.value == 0,
            r.coverage == CHUNK_MAX_SIZE,
            r.wf(),
    {
        Dictionary { elems: Vec::new(), least: IndexValuePair::default(), coverage: CHUNK_MAX_SIZE }
    }

    /// Appends a new element and keeps the least cache current.
    fn insert(&mut self, elem: &DictElem)
        requires
            old(self).wf(),
            old(self).elems@.len() < VALUES,
            spec_find(old(self).elems@, elem.data@, 0) < 0,
        ensures
            final(self).elems@ == old(self).elems@.push(*elem),
            final(self).least == spec_least(final(self).elems@),
            final(self).coverage == old(self).coverage,
            final(self).wf(),
    {
        proof {
            lemma_find_not_found(self.elems@, elem.data@, 0);
        }
        let replace_least = self.elems.len() == 0 || elem.occurance < self.least.value;
        if replace_least {
            self.least = IndexValuePair { index: self.elems.len(), value: elem.occurance };
        }
        self.elems.push(*elem);
        proof {
            reveal_with_fuel(spec_least, 2);
            let s2 = self.elems@;
            assert(s2.drop_last() =~= old(self).elems@);
            if old(self).elems@.len() == 0 {
                assert(spec_least(s2.drop_last()).value == u64::MAX);
            }
            assert(final(self).least == spec_least(s2));
        }
    }

    /// Overwrites the slot named by the least cache; the caller refreshes
    /// the cache afterwards.
    fn replace_least(&mut self, elem: &DictElem)
        requires
            old(self).elems@.len() > 0,
            old(self).least.index < old(self).elems@.len(),
        ensures
            final(self).elems@ == old(self).elems@.update(old(self).least.index as int, *elem),
            final(self).least == old(self).least,
            final(self).coverage == old(self).coverage,
    {
        let i = self.least.index;
        self.elems[i] = *elem;
    }

    /// Rescans the elements for the first slot of minimal occurrence.
    fn redefine_least(&mut self)
        ensures
            final(self).elems@ == old(self).elems@,
            final(self).coverage == old(self).coverage,
            final(self).least == spec_least(old(self).elems@),
    {
        let mut least = IndexValuePair { index: 0, value: u64::MAX };
        let mut i: usize = 0;
        proof {
            assert(self.elems@.take(0) =~= Seq::<DictElem>::empty());
        }
        while i < self.elems.len()
            invariant
                i <= self.elems@.len(),
                least == spec_least(self.elems@.take(i as int)),
            decreases self.elems@.len() - i,
        {
            proof {
                assert(self.elems@.take(i + 1).drop_last() =~= self.elems@.take(i as int));
                assert(self.elems@.take(i + 1).last() == self.elems@[i as int]);
            }
            if least.value > self.elems[i].occurance {
                least = IndexValuePair { index: i, value: self.elems[i].occurance };
            }
            i = i + 1;
        }
        proof {
            assert(self.elems@.take(self.elems@.len() as int) =~= self.elems@);
        }
        self.least = least;
    }

    fn full(&self) -> (r: bool)
        ensures
            r == (self.elems@.len() >= VALUES),
    {
        self.elems.len() >= VALUES
    }

    /// Ingests a candidate element as `consider_spec` describes.
    pub fn consider(&mut self, elem: &DictElem)
        requires
            old(self).wf(),
        ensures
            (final(self).elems@, final(self).least) == consider_spec(
                old(self).elems@,
                old(self).least,
                *elem,
            ),
            final(self).coverage == old(self).coverage,
            final(self).wf(),
    {
        let found = self.find_index(&elem.data);
        match found {
            Some(index) => {
                let i = index as usize;
                let occ = elem.occurance;
                proof {
                    lemma_find_found(old(self).elems@, elem.data@, 0);
                    assert(i as int == spec_find(old(self).elems@, elem.data@, 0));
                }
                let mut e = self.elems[i];
                e.set_occurrence(occ);
                self.elems[i] = e;
                proof {
                    let j = i as int;
                    let s = old(self).elems@;
                    assert(e == set_occ(s[j], occ));
                    assert(self.elems@ == s.update(j, set_occ(s[j], occ)));
                }
                if i == self.least.index || occ <= self.least.value {
                    self.redefine_least();
                }
                proof {
                    lemma_update_occ_distinct(old(self).elems@, i as int, occ);
                    if !(i == old(self).least.index || occ <= old(self).least.value) {
                        lemma_least_after_raise(old(self).elems@, i as int, occ, old(self).least);
                    }
                }
            },
            None => {
                proof {
                    lemma_find_not_found(old(self).elems@, elem.data@, 0);
                }
                if elem.occurance < MIN_OCCATIONS {
                    return ;
                } else if !self.full() {
                    self.insert(elem);
                    proof {
                        reveal_with_fuel(spec_least, 2);
                        let s = old(self).elems@;
                        let s2 = s.push(*elem);
                        assert(s2.drop_last() =~= s);
                        assert(spec_least(s2) == if spec_least(s).value > elem.occurance {
                            IndexValuePair {
                                index: (s2.len() - 1) as usize,
                                value: elem.occurance,
                            }
                        } else {
                            spec_least(s)
                        });
                    }
                } else if elem.occurance > self.least.value {
                    proof {
                        lemma_least_props(old(self).elems@);
                    }
                    self.replace_least(elem);
                    self.redefine_least();
                    proof {
                        lemma_replace_distinct(
                            old(self).elems@,
                            old(self).least.index as int,
                            *elem,
                        );
                    }
                }
            },
        }
    }

    /// Linear scan for the wire index of a data pair.
    fn find_index(&self, input: &[u8; ELEM_BYTES]) -> (r: Option<u8>)
        requires
            self.elems@.len() <= VALUES,
        ensures
            ({
                let j = spec_find(self.elems@, input@, 0);
                r == if j >= 0 {
                    Some(j as u8)
                } else {
                    None::<u8>
                }
            }),
    {
        let mut i: usize = 0;
        while i < self.elems.len()
            invariant
                self.elems@.len() <= VALUES,
                i <= self.elems@.len(),
                forall|k: int| 0 <= k < i ==> self.elems@[k].data@ != input@,
            decreases self.elems@.len() - i,
        {
            if self.elems[i].eq_array(input) {
                proof {
                    lemma_find_skip(self.elems@, input@, i as int);
                }
                return Some(i as u8);
            }
            i = i + 1;
        }
        proof {
            lemma_find_skip(self.elems@, input@, i as int);
        }
        None
    }

    /// The two-byte value at a wire index.
    pub fn get(&self, index: u8) -> (r: [u8; ELEM_BYTES])
        requires
            (index as int) < self.elems@.len(),
        ensures
            r@ == self.elems@[index as int].data@,
    {
        self.elems[index as usize].data
    }

    /// The wire index of a data pair, when the pair is present.
    pub fn get_index(&self, input: &[u8; ELEM_BYTES]) -> (r: Option<u8>)
        requires
            self.elems@.len() <= VALUES,
        ensures
            ({
                let j = spec_find(self.elems@, input@, 0);
                r == if j >= 0 {
                    Some(j as u8)
                } else {
                    None::<u8>
                }
            }),
            r is Some ==> {
                let j = spec_find(self.elems@, input@, 0);
                0 <= j < self.elems@.len() && self.elems@[j].data@ == input@
            },
            r is None ==> forall|k: int|
                0 <= k < self.elems@.len() ==> self.elems@[k].data@ != input@,
    {
        proof {
            let j = spec_find(self.elems@, input@, 0);
            if j >= 0 {
                lemma_find_found(self.elems@, input@, 0);
            } else {
                lemma_find_not_found(self.elems@, input@, 0);
            }
        }
        self.find_index(input)
    }

    /// Removes every element with zero usage; survivors keep their order
    /// and are re-indexed from zero.
    pub fn purge_unused(&mut self)
        requires
            old(self).wf(),
        ensures
            final(self).elems@ == keep_used(old(self).elems@),
            final(self).coverage == old(self).coverage,
            final(self).wf(),
            forall|i: int| 0 <= i < final(self).elems@.len() ==> final(self).elems@[i].useage != 0,
    {
        let mut kept: Vec<DictElem> = Vec::new();
        let mut i: usize = 0;
        proof {
            assert(self.elems@.take(0) =~= Seq::<DictElem>::empty());
        }
        while i < self.elems.len()
            invariant
                i <= self.elems@.len(),
                kept@ == keep_used(self.elems@.take(i as int)),
            decreases self.elems@.len() - i,
        {
            proof {
                assert(self.elems@.take(i + 1).drop_last() =~= self.elems@.take(i as int));
                assert(self.elems@.take(i + 1).last() == self.elems@[i as int]);
            }
            if self.elems[i].useage != 0 {
                kept.push(self.elems[i]);
            }
            i = i + 1;
        }
        proof {
            assert(self.elems@.take(self.elems@.len() as int) =~= self.elems@);
            lemma_keep_used_props(old(self).elems@);
        }
        self.elems = kept;
        self.redefine_least();
    }

    /// Element count; fits in a byte because of the size cap.
    pub fn len(&self) -> (r: u8)
        requires
            self.elems@.len() <= VALUES,
        ensures
            r == self.elems@.len(),
    {
        self.elems.len() as u8
    }

    /// The serialised payload: each element's two bytes in index order.
    pub fn to_vec(&self) -> (r: Vec<u8>)
        ensures
            r@ == spec_serial(self.elems@),
            r@.len() == 2 * self.elems@.len(),
    {
        let mut out: Vec<u8> = Vec::new();
        let mut i: usize = 0;
        proof {
            assert(self.elems@.take(0) =~= Seq::<DictElem>::empty());
            lemma_serial_len(self.elems@.take(0));
        }
        while i < self.elems.len()
            invariant
                i <= self.elems@.len(),
                out@ == spec_serial(self.elems@.take(i as int)),
                out@.len() == 2 * i,
            decreases self.elems@.len() - i,
        {
            proof {
                assert(self.elems@.take(i + 1).drop_last() =~= self.elems@.take(i as int));
                assert(self.elems@.take(i + 1).last() == self.elems@[i as int]);
                assert(self.elems@[i as int].data@ =~= seq![
                    self.elems@[i as int].data@[0],
                    self.elems@[i as int].data@[1],
                ]);
            }
            let e = self.elems[i];
            out.push(e.data[0]);
            out.push(e.data[1]);
            proof {
                assert(out@ =~= spec_serial(self.elems@.take(i + 1)));
            }
            i = i + 1;
        }
        proof {
            assert(self.elems@.take(self.elems@.len() as int) =~= self.elems@);
        }
        out
    }

    /// Raises the usage counter of the element at `index`, when it exists.
    pub fn increment_usage(&mut self, index: u8)
        requires
            (index as int) < old(self).elems@.len() ==> old(self).elems@[index as int].useage
                < u64::MAX,
            old(self).wf(),
        ensures
            final(self).elems@ == if (index as int) < old(self).elems@.len() {
                old(self).elems@.update(
                    index as int,
                    DictElem {
                        data: old(self).elems@[index as int].data,
                        occurance: old(self).elems@[index as int].occurance,
                        useage: (old(self).elems@[index as int].useage + 1) as u64,
                    },
                )
            } else {
                old(self).elems@
            },
            final(self).least == old(self).least,
            final(self).coverage == old(self).coverage,
            final(self).wf(),
    {
        let i = index as usize;
        if i < self.elems.len() {
            let mut e = self.elems[i];
            e.increment_usage();
            self.elems[i] = e;
            proof {
                let s1 = old(self).elems@;
                let s2 = final(self).elems@;
                assert(s2.len() == s1.len());
                assert(forall|k: int| 0 <= k < s1.len() ==> s2[k].data@ == s1[k].data@);
                assert(forall|k: int| 0 <= k < s1.len() ==> s2[k].occurance == s1[k].occurance);
                lemma_least_occ_congruence(s1, s2);
            }
        }
    }

    /// Diagnostic rendering of the dictionary.
    pub fn to_string(&self) -> String {
        let mut out = String::from_str("coverage: ");
        out.append(self.coverage.to_string().as_str());
        out.append(" bytes. Elements: ");
        out.append((self.elems.len() as u64).to_string().as_str());
        let mut i: usize = 0;
        while i < self.elems.len()
            decreases self.elems@.len() - i,
        {
            out.append("\nElem ");
            out.append((i as u64).to_string().as_str());
            out.append(": ");
            out.append(self.elems[i].to_string().as_str());
            i = i + 1;
        }
        out
    }
}

/// The dictionary invariant, stated on its own: a well-formed dictionary
/// holds at most 128 elements, and no two of them share a data pair.
pub proof fn lemma_dictionary_invariant(d: &Dictionary)
    requires
        d.wf(),
    ensures
        d.elems@.len() <= 128,
        forall|i: int, j: int|
            0 <= i < j < d.elems@.len() ==> d.elems@[i].data@ != d.elems@[j].data@,
{
}

/// A successful `spec_find` names a matching slot, and nothing before it
/// matches.
pub proof fn lemma_find_found(s: Seq<DictElem>, w: Seq<u8>, i: int)
    requires
        spec_find(s, w, i) >= 0,
    ensures
        i <= spec_find(s, w, i) < s.len(),
        s[spec_find(s, w, i)].data@ == w,
        forall|k: int| i <= k < spec_find(s, w, i) ==> s[k].data@ != w,
    decreases s.len() - i,
{
    if i < 0 || i >= s.len() {
    } else if s[i].data@ == w {
    } else {
        lemma_find_found(s, w, i + 1);
    }
}

/// A failed `spec_find` means no slot at or after `i` matches.
pub proof fn lemma_find_not_found(s: Seq<DictElem>, w: Seq<u8>, i: int)
    requires
        spec_find(s, w, i) < 0,
        0 <= i,
    ensures
        forall|k: int| i <= k < s.len() ==> s[k].data@ != w,
    decreases s.len() - i,
{
    if i < s.len() {
        lemma_find_not_found(s, w, i + 1);
    }
}

/// Searching from the start equals searching from `i` when nothing before
/// `i` matches.
pub proof fn lemma_find_skip(s: Seq<DictElem>, w: Seq<u8>, i: int)
    requires
        0 <= i <= s.len(),
        forall|k: int| 0 <= k < i ==> s[k].data@ != w,
    ensures
        spec_find(s, w, 0) == spec_find(s, w, i),
    decreases i,
{
    if i > 0 {
        lemma_find_skip_step(s, w, 0, i);
    }
}

proof fn lemma_find_skip_step(s: Seq<DictElem>, w: Seq<u8>, lo: int, i: int)
    requires
        0 <= lo <= i <= s.len(),
        forall|k: int| lo <= k < i ==> s[k].data@ != w,
    ensures
        spec_find(s, w, lo) == spec_find(s, w, i),
    decreases i - lo,
{
    if lo < i {
        lemma_find_skip_step(s, w, lo + 1, i);
    }
}

/// The least slot of a non-empty sequence is a real slot holding the
/// minimal occurrence.
pub proof fn lemma_least_props(s: Seq<DictElem>)
    requires
        0 < s.len() <= usize::MAX,
    ensures
        (spec_least(s).index as int) < s.len(),
        s[spec_least(s).index as int].occurance == spec_least(s).value,
        forall|i: int| 0 <= i < s.len() ==> s[i].occurance >= spec_least(s).value,
    decreases s.len(),
{
    reveal_with_fuel(spec_least, 2);
    if s.len() > 1 {
        lemma_least_props(s.drop_last());
        assert(forall|i: int| 0 <= i < s.len() - 1 ==> s[i] == s.drop_last()[i]);
    }
}

/// The least slot depends only on the occurrence counters.
proof fn lemma_least_occ_congruence(s1: Seq<DictElem>, s2: Seq<DictElem>)
    requires
        s1.len() == s2.len(),
        forall|k: int| 0 <= k < s1.len() ==> s1[k].occurance == s2[k].occurance,
    ensures
        spec_least(s1) == spec_least(s2),
    decreases s1.len(),
{
    if s1.len() > 0 {
        assert(forall|k: int|
            0 <= k < s1.drop_last().len() ==> s1.drop_last()[k].occurance
                == s2.drop_last()[k].occurance);
        lemma_least_occ_congruence(s1.drop_last(), s2.drop_last());
    }
}

/// Raising the occurrence of a slot other than the least one, above the
/// least value, leaves the least slot as it stands.
proof fn lemma_least_after_raise(s: Seq<DictElem>, j: int, occ: u64, least: IndexValuePair)
    requires
        0 <= j < s.len() <= usize::MAX,
        least == spec_least(s),
        j != least.index,
        occ > least.value,
    ensures
        spec_least(s.update(j, set_occ(s[j], occ))) == least,
    decreases s.len(),
{
    let s2 = s.update(j, set_occ(s[j], occ));
    lemma_least_props(s);
    if j == s.len() - 1 {
        // The raised slot is the last one, so the least lies in the prefix.
        assert(s2.drop_last() =~= s.drop_last());
        lemma_least_take_prefix(s);
        assert(spec_least(s2) == if spec_least(s2.drop_last()).value > s2.last().occurance {
            IndexValuePair { index: (s2.len() - 1) as usize, value: s2.last().occurance }
        } else {
            spec_least(s2.drop_last())
        });
        assert(s2.last().occurance == occ);
        assert(spec_least(s2) == least);
    } else {
        assert(s2.last() == s.last());
        assert(s2.drop_last() =~= s.drop_last().update(j, set_occ(s[j], occ)));
        let r = spec_least(s.drop_last());
        if r.value > s.last().occurance {
            // The least is the last slot itself; the raised prefix stays above it.
            assert(least.index as int == s.len() - 1);
            lemma_least_min_or_last(s, j, occ);
            assert(spec_least(s2.drop_last()).value > s2.last().occurance);
            assert(spec_least(s2) == least);
        } else {
            assert(least == r);
            lemma_least_after_raise(s.drop_last(), j, occ, r);
            assert(spec_least(s2.drop_last()) == r);
            assert(spec_least(s2) == least);
        }
    }
}

/// Helper for the raise lemma: when the least slot is the final one and a
/// different slot is raised above it, the prefix minimum stays above the
/// least value too.
proof fn lemma_least_min_or_last(s: Seq<DictElem>, j: int, occ: u64)
    requires
        0 <= j < s.len() - 1,
        s.len() <= usize::MAX,
        spec_least(s.drop_last()).value > s.last().occurance,
        occ > s.last().occurance,
    ensures
        spec_least(s.drop_last().update(j, set_occ(s[j], occ))).value > s.last().occurance,
{
    let t = s.drop_last();
    let t2 = t.update(j, set_occ(s[j], occ));
    lemma_least_props(t);
    lemma_least_props(t2);
    let m = spec_least(t2).index as int;
    if m == j {
        assert(t2[m].occurance == occ);
    } else {
        assert(t2[m].occurance == t[m].occurance);
        assert(t[m].occurance >= spec_least(t).value);
    }
}

/// The least slot of a full sequence whose value is held before the last
/// position is the least of the prefix as well.
proof fn lemma_least_take_prefix(s: Seq<DictElem>)
    requires
        0 < s.len() <= usize::MAX,
        (spec_least(s).index as int) < s.len() - 1,
    ensures
        spec_least(s) == spec_least(s.drop_last()),
{
    let r = spec_least(s.drop_last());
    if r.value > s.last().occurance {
        assert(spec_least(s).index as int == s.len() - 1);
    } else {
        assert(spec_least(s) == r);
    }
}

/// Updating a slot's occurrence keeps the data pairs distinct.
proof fn lemma_update_occ_distinct(s: Seq<DictElem>, j: int, occ: u64)
    requires
        0 <= j < s.len(),
        forall|a: int, b: int| 0 <= a < b < s.len() ==> s[a].data@ != s[b].data@,
    ensures
        forall|a: int, b: int|
            0 <= a < b < s.len() ==> s.update(j, set_occ(s[j], occ))[a].data@ != s.update(
                j,
                set_occ(s[j], occ),
            )[b].data@,
{
    let s2 = s.update(j, set_occ(s[j], occ));
    assert(forall|a: int| 0 <= a < s.len() ==> s2[a].data@ == s[a].data@);
}

/// Replacing a slot with a value absent elsewhere keeps the data pairs
/// distinct.
proof fn lemma_replace_distinct(s: Seq<DictElem>, j: int, e: DictElem)
    requires
        0 <= j < s.len(),
        forall|a: int, b: int| 0 <= a < b < s.len() ==> s[a].data@ != s[b].data@,
        forall|k: int| 0 <= k < s.len() ==> s[k].data@ != e.data@,
    ensures
        forall|a: int, b: int|
            0 <= a < b < s.len() ==> s.update(j, e)[a].data@ != s.update(j, e)[b].data@,
{
}

/// Purging keeps only used elements, keeps them distinct, and never grows
/// the sequence; every survivor is drawn from the source.
pub proof fn lemma_keep_used_props(s: Seq<DictElem>)
    ensures
        keep_used(s).len() <= s.len(),
        forall|i: int| 0 <= i < keep_used(s).len() ==> #[trigger] keep_used(s)[i].useage != 0,
        forall|i: int|
            0 <= i < keep_used(s).len() ==> exists|k: int|
                0 <= k < s.len() && #[trigger] keep_used(s)[i] == s[k],
        (forall|a: int, b: int| 0 <= a < b < s.len() ==> s[a].data@ != s[b].data@) ==> (forall|
            a: int,
            b: int,
        |
            0 <= a < b < keep_used(s).len() ==> keep_used(s)[a].data@ != keep_used(s)[b].data@),
    decreases s.len(),
{
    if s.len() > 0 {
        let t = s.drop_last();
        lemma_keep_used_props(t);
        assert(forall|i: int|
            0 <= i < keep_used(t).len() ==> exists|k: int|
                0 <= k < s.len() && #[trigger] keep_used(t)[i] == s[k]) by {
            assert(forall|k: int| 0 <= k < t.len() ==> t[k] == s[k]);
        }
        if s.last().useage != 0 {
            let r = keep_used(t);
            let r2 = keep_used(s);
            assert(r2 == r.push(s.last()));
            if (forall|a: int, b: int| 0 <= a < b < s.len() ==> s[a].data@ != s[b].data@) {
                assert(forall|a: int, b: int|
                    0 <= a < b < r2.len() ==> r2[a].data@ != r2[b].data@) by {
                    assert(forall|a: int|
                        0 <= a < r.len() ==> exists|k: int| 0 <= k < t.len() && #[trigger] r[a]
                            == t[k]);
                    assert(forall|k: int| 0 <= k < t.len() ==> t[k].data@ != s.last().data@) by {
                        assert(forall|k: int| 0 <= k < t.len() ==> t[k] == s[k]);
                    }
                }
            }
        }
    }
}

/// The serialised payload is two bytes per element.
pub proof fn lemma_serial_len(s: Seq<DictElem>)
    ensures
        spec_serial(s).len() == 2 * s.len(),
    decreases s.len(),
{
    if s.len() > 0 {
        lemma_serial_len(s.drop_last());
    }
}

} // verus!
