//! The LogUp memo set: a multiset of records, and once-set slots for the challenge `r` and the
//! finalized transcript. A multiset `M` is represented by `sum over x in M of 1 / (r + x)`.
use crate::circuit::LogMemoCircuit;
use crate::field::{fadd, finv, is_inverse, Fe};
use crate::store::{Ptr, Store};
use crate::transcript::Transcript;
use once_cell::sync::OnceCell;
use std::collections::HashMap;
use vstd::prelude::*;

verus! {

broadcast use vstd::std_specs::hash::group_hash_axioms;

#[verifier::external_type_specification]
#[verifier::external_body]
#[verifier::reject_recursive_types(T)]
pub struct ExOnceCell<T>(OnceCell<T>);

/// What a once-set slot of a field element holds: nothing, or the value it was set to.
pub uninterp spec fn fe_slot(c: OnceCell<Fe>) -> Seq<Fe>;

/// What a once-set slot of a transcript holds: nothing, or the value it was set to.
pub uninterp spec fn transcript_slot(c: OnceCell<Transcript>) -> Seq<Transcript>;

/// Relies on `once_cell::sync::OnceCell::new`: the cell starts empty.
#[verifier::external_body]
fn fe_slot_new() -> (r: OnceCell<Fe>)
    ensures
        fe_slot(r) == Seq::<Fe>::empty(),
{
    OnceCell::new()
}

/// Relies on `once_cell::sync::OnceCell::get`: the value if the cell was set, else `None`.
#[verifier::external_body]
fn fe_slot_get(c: &OnceCell<Fe>) -> (r: Option<Fe>)
    ensures
        fe_slot(*c).len() == 0 ==> r is None,
        fe_slot(*c).len() > 0 ==> r == Some(fe_slot(*c)[0]),
{
    c.get().copied()
}

/// Relies on `once_cell::sync::OnceCell::set`: an empty cell takes the value; a full one keeps
/// its own and hands the value back.
#[verifier::external_body]
fn fe_slot_set(c: &mut OnceCell<Fe>, v: Fe) -> (r: Result<(), Fe>)
    ensures
        r is Ok <==> fe_slot(*old(c)).len() == 0,
        r matches Err(w) ==> w == v,
        fe_slot(*final(c)) == if fe_slot(*old(c)).len() == 0 {
            seq![v]
        } else {
            fe_slot(*old(c))
        },
{
    c.set(v)
}

/// Relies on `once_cell::sync::OnceCell::new`: the cell starts empty.
#[verifier::external_body]
fn transcript_slot_new() -> (r: OnceCell<Transcript>)
    ensures
        transcript_slot(r) == Seq::<Transcript>::empty(),
{
    OnceCell::new()
}

/// Relies on `once_cell::sync::OnceCell::get`: the value if the cell was set, else `None`.
#[verifier::external_body]
fn transcript_slot_get(c: &OnceCell<Transcript>) -> (r: Option<Transcript>)
    ensures
        transcript_slot(*c).len() == 0 ==> r is None,
        transcript_slot(*c).len() > 0 ==> r == Some(transcript_slot(*c)[0]),
{
    c.get().copied()
}

/// Relies on `once_cell::sync::OnceCell::set`: an empty cell takes the value; a full one keeps
/// its own and hands the value back.
#[verifier::external_body]
fn transcript_slot_set(c: &mut OnceCell<Transcript>, v: Transcript) -> (r: Result<(), Transcript>)
    ensures
        r is Ok <==> transcript_slot(*old(c)).len() == 0,
        r matches Err(w) ==> w == v,
        transcript_slot(*final(c)) == if transcript_slot(*old(c)).len() == 0 {
            seq![v]
        } else {
            transcript_slot(*old(c))
        },
{
    c.set(v)
}

/// A multiset of heap pointers: each present pointer with its positive multiplicity.
pub struct MultiSet {
    counts: HashMap<usize, usize>,
}

impl MultiSet {
    /// The multiplicity of `x`; zero where absent.
    pub closed spec fn count_of(&self, x: Ptr) -> nat {
        if self.counts@.contains_key(x.idx) {
            self.counts@[x.idx] as nat
        } else {
            0
        }
    }

    pub closed spec fn wf(&self) -> bool {
        forall|k: usize| #[trigger] self.counts@.contains_key(k) ==> self.counts@[k] > 0
    }

    pub fn new() -> (r: MultiSet)
        ensures
            r.wf(),
            forall|x: Ptr| #[trigger] r.count_of(x) == 0,
    {
        MultiSet { counts: HashMap::new() }
    }

    /// Adds one occurrence of `x`.
    pub fn add(&mut self, x: Ptr)
        requires
            old(self).wf(),
            old(self).count_of(x) < usize::MAX,
        ensures
            final(self).wf(),
            final(self).count_of(x) == old(self).count_of(x) + 1,
            forall|y: Ptr| y != x ==> #[trigger] final(self).count_of(y) == old(self).count_of(y),
    {
        let c = self.get(x);
        self.counts.insert(x.idx, c + 1);
    }

    /// A copy with the same multiplicities.
    pub fn duplicate(&self) -> (r: MultiSet)
        requires
            self.wf(),
        ensures
            r.wf(),
            forall|x: Ptr| #[trigger] r.count_of(x) == self.count_of(x),
    {
        MultiSet { counts: self.counts.clone() }
    }

    /// The multiplicity of `x`, zero where absent.
    pub fn get(&self, x: Ptr) -> (r: usize)
        ensures
            r == self.count_of(x),
    {
        match self.counts.get(&x.idx) {
            Some(c) => *c,
            None => 0,
        }
    }
}

/// The native LogUp memo set.
pub struct LogMemo {
    multiset: MultiSet,
    r: OnceCell<Fe>,
    transcript: OnceCell<Transcript>,
}

impl LogMemo {
    pub closed spec fn wf(&self) -> bool {
        &&& self.multiset.wf()
        &&& fe_slot(self.r).len() <= 1
        &&& transcript_slot(self.transcript).len() == fe_slot(self.r).len()
        &&& fe_slot(self.r).len() > 0 ==> fe_slot(self.r)[0].wf()
    }

    pub closed spec fn count_of(&self, x: Ptr) -> nat {
        self.multiset.count_of(x)
    }

    pub closed spec fn finalized(&self) -> bool {
        transcript_slot(self.transcript).len() > 0
    }

    /// The challenge, once set.
    pub closed spec fn r_spec(&self) -> Fe {
        fe_slot(self.r)[0]
    }

    /// The finalized transcript, once set.
    pub closed spec fn transcript_spec(&self) -> Transcript {
        transcript_slot(self.transcript)[0]
    }

    /// An empty memo set, not finalized.
    pub fn new() -> (r: LogMemo)
        ensures
            r.wf(),
            !r.finalized(),
            forall|x: Ptr| #[trigger] r.count_of(x) == 0,
    {
        LogMemo { multiset: MultiSet::new(), r: fe_slot_new(), transcript: transcript_slot_new() }
    }

    /// The finalized transcript, once set.
    pub fn transcript(&self) -> (r: Option<Transcript>)
        requires
            self.wf(),
        ensures
            self.finalized() ==> r == Some(self.transcript_spec()),
            !self.finalized() ==> r is None,
    {
        transcript_slot_get(&self.transcript)
    }

    /// The circuit counterpart, taking the multiplicities: the challenge as a wire.
    pub fn into_circuit(self) -> (r: LogMemoCircuit)
        requires
            self.wf(),
            self.finalized(),
        ensures
            r.wf(),
            r.r_spec() == self.r_spec(),
            forall|x: Ptr| #[trigger] r.count_of(x) == self.count_of(x),
    {
        let r = fe_slot_get(&self.r).unwrap();
        LogMemoCircuit::new(self.multiset, r)
    }

    /// The circuit counterpart: the same multiplicities and the challenge as a wire.
    pub fn to_circuit(&self) -> (r: LogMemoCircuit)
        requires
            self.wf(),
            self.finalized(),
        ensures
            r.wf(),
            r.r_spec() == self.r_spec(),
            forall|x: Ptr| #[trigger] r.count_of(x) == self.count_of(x),
    {
        let r = fe_slot_get(&self.r).unwrap();
        LogMemoCircuit::new(self.multiset.duplicate(), r)
    }
}

impl Default for LogMemo {
    /// An empty memo set, not finalized.
    fn default() -> (r: LogMemo)
        ensures
            r.wf(),
            !r.finalized(),
            forall|x: Ptr| #[trigger] r.count_of(x) == 0,
    {
        LogMemo::new()
    }
}

/// A multiset of records whose representative is fixed by a challenge `r`, itself fixed once
/// from a transcript.
pub trait MemoSet: Sized {
    /// The invariant of the memo set.
    spec fn inv(&self) -> bool;

    /// Whether the challenge is fixed.
    spec fn is_final(&self) -> bool;

    /// The challenge, once fixed.
    spec fn challenge(&self) -> Fe;

    /// The multiplicity of the record `x`.
    spec fn multiplicity(&self, x: Ptr) -> nat;

    /// Whether the challenge is fixed.
    fn is_finalized(&self) -> (r: bool)
        requires
            self.inv(),
        ensures
            r == self.is_final(),
    ;

    /// Fixes the challenge as the transcript's hash; done once.
    fn finalize_transcript(&mut self, s: &Store, transcript: Transcript)
        requires
            old(self).inv(),
            !old(self).is_final(),
            s.wf(),
            transcript.wf(s),
            transcript.items().len() > 0,
        ensures
            final(self).inv(),
            final(self).is_final(),
            final(self).challenge() == s.z(transcript.head()).value,
            forall|y: Ptr| #[trigger] final(self).multiplicity(y) == old(self).multiplicity(y),
    ;

    /// The challenge, once fixed.
    fn r(&self) -> (r: Option<Fe>)
        requires
            self.inv(),
        ensures
            self.is_final() ==> r == Some(self.challenge()),
            !self.is_final() ==> r is None,
    ;

    /// `1 / (r + x)`: `None` before the challenge is fixed, or where `r + x` has no inverse.
    fn map_to_element(&self, x: Fe) -> (r: Option<Fe>)
        requires
            self.inv(),
            x.wf(),
        ensures
            !self.is_final() ==> r is None,
            self.is_final() ==> (r is Some <==> exists|e: Fe| is_inverse(fadd(self.challenge(), x), e)),
            r matches Some(e) ==> e == finv(fadd(self.challenge(), x)) && e.wf(),
    ;

    /// Adds one occurrence of the record `kv`.
    fn add(&mut self, kv: Ptr)
        requires
            old(self).inv(),
            old(self).multiplicity(kv) < usize::MAX,
        ensures
            final(self).inv(),
            final(self).is_final() == old(self).is_final(),
            final(self).multiplicity(kv) == old(self).multiplicity(kv) + 1,
            forall|y: Ptr| y != kv ==> #[trigger] final(self).multiplicity(y) == old(self).multiplicity(y),
            old(self).is_final() ==> final(self).challenge() == old(self).challenge(),
    ;

    /// The multiplicity of the record `form`.
    fn count(&self, form: Ptr) -> (r: usize)
        ensures
            r == self.multiplicity(form),
    ;
}

impl MemoSet for LogMemo {
    open spec fn inv(&self) -> bool {
        self.wf()
    }

    open spec fn is_final(&self) -> bool {
        self.finalized()
    }

    open spec fn challenge(&self) -> Fe {
        self.r_spec()
    }

    open spec fn multiplicity(&self, x: Ptr) -> nat {
        self.count_of(x)
    }

    fn is_finalized(&self) -> (r: bool) {
        transcript_slot_get(&self.transcript).is_some()
    }

    fn finalize_transcript(&mut self, s: &Store, transcript: Transcript)
        ensures
            final(self).transcript_spec() == transcript,
            final(self).wf(),
            final(self).finalized(),
            final(self).r_spec() == s.z(transcript.head()).value,
            forall|y: Ptr| #[trigger] final(self).count_of(y) == old(self).count_of(y),
    {
        let r = transcript.r(s);
        let _ = fe_slot_set(&mut self.r, r);
        let _ = transcript_slot_set(&mut self.transcript, transcript);
    }

    fn r(&self) -> (r: Option<Fe>) {
        fe_slot_get(&self.r)
    }

    fn map_to_element(&self, x: Fe) -> (r: Option<Fe>) {
        match self.r() {
            Some(r) => r.add(x).invert(),
            None => None,
        }
    }

    fn add(&mut self, kv: Ptr)
        ensures
            old(self).is_final() ==> final(self).transcript_spec() == old(self).transcript_spec(),
            final(self).wf(),
            final(self).count_of(kv) == old(self).count_of(kv) + 1,
            forall|y: Ptr| y != kv ==> #[trigger] final(self).count_of(y) == old(self).count_of(y),
    {
        self.multiset.add(kv);
    }

    fn count(&self, form: Ptr) -> (r: usize) {
        self.multiset.get(form)
    }
}

} // verus!
