//! The circuit pass, at the level of its witness: every allocated pointer is the hashed form
//! (`ZPtr`) its wires carry, every allocated number is a field element, and the constraint system
//! records whether each enforced equation holds. The accumulator and the transcript are rebuilt
//! here from the same records as in the native pass, under the challenge the native pass fixed.
use crate::field::{fadd, finv, fmul, fsub, is_inverse, Fe, MODULUS};
use crate::scope::occ;
use vstd::arithmetic::div_mod::*;
use crate::memo::MultiSet;
use crate::query::{decode, factorial_name, is_form, DemoQuery, Query};
use crate::scope::Scope;
use crate::store::{
    cons_hash, hash_cons, sym_hash, symbol_z, Ptr, Store, ZPtr, TAG_CONS, TAG_NIL, TAG_NUM, TAG_SYM,
};
use crate::transcript::{count_fe, prepend_z};
use itertools::Itertools;
use std::collections::HashMap;
use vstd::prelude::*;

verus! {

broadcast use vstd::std_specs::hash::group_hash_axioms;

/// Why synthesis stopped.
#[derive(Clone, Copy, Debug, PartialEq, Eq, Structural)]
pub enum SynthesisError {
    /// A wire of a non-dummy slot has no witness.
    AssignmentMissing,
    /// An inversion of zero.
    DivisionByZero,
}

/// A hashed pointer whose tag and value are in range.
pub open spec fn zwf(z: ZPtr) -> bool {
    z.tag <= TAG_CONS && z.value.wf()
}

pub open spec fn num_z(f: Fe) -> ZPtr {
    ZPtr { tag: TAG_NUM, value: f }
}

pub open spec fn nil_z() -> ZPtr {
    ZPtr { tag: TAG_NIL, value: Fe { v: 0 } }
}

pub open spec fn cons_z(a: ZPtr, b: ZPtr) -> ZPtr {
    ZPtr { tag: TAG_CONS, value: cons_hash(a, b) }
}

/// `r + x` has an inverse.
pub open spec fn has_element(r: Fe, x: Fe) -> bool {
    exists|e: Fe| is_inverse(fadd(r, x), e)
}

/// The multiset element of `x` under the challenge `r`: `1 / (r + x)`.
pub open spec fn element(r: Fe, x: Fe) -> Fe {
    finv(fadd(r, x))
}


/// The accumulator after adding the element of each value of `xs`, in order.
pub open spec fn add_all(r: Fe, acc: Fe, xs: Seq<Fe>) -> Fe
    decreases xs.len(),
{
    if xs.len() == 0 {
        acc
    } else {
        fadd(add_all(r, acc, xs.drop_last()), element(r, xs.last()))
    }
}

/// The accumulator after removing, for each value of `us`, its element times the number of its
/// occurrences in `xs`.
pub open spec fn remove_counts(r: Fe, acc: Fe, us: Seq<Fe>, xs: Seq<Fe>) -> Fe
    decreases us.len(),
{
    if us.len() == 0 {
        acc
    } else {
        fsub(
            remove_counts(r, acc, us.drop_last(), xs),
            fmul(element(r, us.last()), count_fe(occ(xs, us.last()))),
        )
    }
}

/// The sum, as an integer, of the elements of the values of `xs`.
pub open spec fn element_sum(r: Fe, xs: Seq<Fe>) -> int
    decreases xs.len(),
{
    if xs.len() == 0 {
        0
    } else {
        element_sum(r, xs.drop_last()) + element(r, xs.last()).v
    }
}

/// The sum, as an integer, over the values of `us`, of each element times its occurrences in
/// `xs`.
pub open spec fn weighted_sum(r: Fe, us: Seq<Fe>, xs: Seq<Fe>) -> int
    decreases us.len(),
{
    if us.len() == 0 {
        0
    } else {
        weighted_sum(r, us.drop_last(), xs) + element(r, us.last()).v * occ(xs, us.last())
    }
}

#[verifier::rlimit(30)]
proof fn lemma_add_all(r: Fe, acc: Fe, xs: Seq<Fe>)
    requires
        acc.wf(),
    ensures
        add_all(r, acc, xs).v as int == (acc.v + element_sum(r, xs)) % (MODULUS as int),
        add_all(r, acc, xs).wf(),
    decreases xs.len(),
{
    let m = MODULUS as int;
    if xs.len() == 0 {
        lemma_small_mod(acc.v as nat, m as nat);
    } else {
        let p = add_all(r, acc, xs.drop_last());
        lemma_add_all(r, acc, xs.drop_last());
        let a = acc.v + element_sum(r, xs.drop_last());
        let e = element(r, xs.last()).v as int;
        assert(p.v as int == a % m);
        assert(add_all(r, acc, xs) == fadd(p, element(r, xs.last())));
        assert(element_sum(r, xs) == a - acc.v + e);
        assert((p.v + e) % m == (a + e) % m) by {
            lemma_add_mod_noop(a, e, m);
            lemma_add_mod_noop(p.v as int, e, m);
            lemma_mod_twice(a, m);
        }
        lemma_mod_bound(a + e, m);
    }
}

proof fn lemma_remove_counts(r: Fe, acc: Fe, us: Seq<Fe>, xs: Seq<Fe>)
    requires
        acc.wf(),
    ensures
        remove_counts(r, acc, us, xs).v as int == (acc.v - weighted_sum(r, us, xs)) % (
        MODULUS as int),
        remove_counts(r, acc, us, xs).wf(),
    decreases us.len(),
{
    let m = MODULUS as int;
    if us.len() == 0 {
        lemma_small_mod(acc.v as nat, m as nat);
    } else {
        lemma_remove_counts(r, acc, us.drop_last(), xs);
        let a = acc.v - weighted_sum(r, us.drop_last(), xs);
        let e = element(r, us.last()).v as int;
        let c = occ(xs, us.last()) as int;
        let t = fmul(element(r, us.last()), count_fe(c as nat)).v as int;
        // t == (e * (c % m)) % m, which is e * c modulo m
        lemma_mul_mod_noop_right(e, c, m);
        assert(t == (e * c) % m);
        lemma_sub_mod_noop(a, e * c, m);
        lemma_mod_twice(a, m);
        lemma_mod_twice(e * c, m);
        lemma_mod_bound(a, m);
        lemma_mod_bound(e * c, m);
        lemma_mod_bound(a - e * c, m);
        lemma_mod_bound((a % m) - t, m);
    }
}

proof fn lemma_weighted_sum_push(r: Fe, us: Seq<Fe>, xs: Seq<Fe>, x: Fe)
    ensures
        weighted_sum(r, us, xs.push(x)) == weighted_sum(r, us, xs) + element(r, x).v * occ(us, x),
    decreases us.len(),
{
    if us.len() > 0 {
        lemma_weighted_sum_push(r, us.drop_last(), xs, x);
        crate::scope::lemma_occ_push(xs, x);
        let u = us.last();
        let e = element(r, u).v as int;
        let ex = element(r, x).v as int;
        let cu = occ(xs, u) as int;
        let cx = occ(us.drop_last(), x) as int;
        assert(occ(us, x) == occ(us.drop_last(), x) + if u == x {
            1nat
        } else {
            0nat
        });
        if u == x {
            assert(occ(xs.push(x), u) == cu + 1);
            assert(e * (cu + 1) == e * cu + e) by (nonlinear_arith);
            assert(ex * (cx + 1) == ex * cx + ex) by (nonlinear_arith);
        } else {
            assert(occ(xs.push(x), u) == cu);
        }
        assert(weighted_sum(r, us, xs.push(x)) == weighted_sum(r, us.drop_last(), xs.push(x)) + e
            * occ(xs.push(x), u));
        assert(weighted_sum(r, us, xs) == weighted_sum(r, us.drop_last(), xs) + e * cu);
    } else {
        let ex = element(r, x).v as int;
        assert(occ(us, x) == 0);
        assert(ex * 0 == 0) by (nonlinear_arith);
    }
}

proof fn lemma_weighted_sum(r: Fe, us: Seq<Fe>, xs: Seq<Fe>)
    requires
        forall|x: Fe| occ(us, x) <= 1,
        forall|i: int| 0 <= i < xs.len() ==> us.contains(#[trigger] xs[i]),
    ensures
        weighted_sum(r, us, xs) == element_sum(r, xs),
    decreases xs.len(),
{
    if xs.len() == 0 {
        lemma_weighted_sum_empty(r, us, xs);
    } else {
        let x0 = xs.drop_last();
        let x = xs.last();
        lemma_weighted_sum(r, us, x0);
        assert(x0.push(x) =~= xs);
        lemma_weighted_sum_push(r, us, x0, x);
        assert(us.contains(xs[xs.len() - 1]));
        crate::scope::lemma_occ_contains(us, x);
        assert(occ(us, x) == 1);
        let e = element(r, x).v as int;
        assert(e * 1 == e) by (nonlinear_arith);
        assert(weighted_sum(r, us, xs) == weighted_sum(r, us, x0) + e);
        assert(element_sum(r, xs) == element_sum(r, x0) + e);
    }
}

proof fn lemma_weighted_sum_empty(r: Fe, us: Seq<Fe>, xs: Seq<Fe>)
    requires
        xs.len() == 0,
    ensures
        weighted_sum(r, us, xs) == 0,
    decreases us.len(),
{
    if us.len() > 0 {
        lemma_weighted_sum_empty(r, us.drop_last(), xs);
        let e = element(r, us.last()).v as int;
        assert(occ(xs, us.last()) == 0);
        assert(e * 0 == 0) by (nonlinear_arith);
    }
}

/// LogUp nullification: starting from `acc`, adding the element of each inserted value and then
/// removing each distinct value once, weighted by its number of insertions, gives `acc` back.
pub proof fn lemma_nullification(r: Fe, acc: Fe, xs: Seq<Fe>, us: Seq<Fe>)
    requires
        acc.wf(),
        forall|x: Fe| occ(us, x) <= 1,
        forall|i: int| 0 <= i < xs.len() ==> us.contains(#[trigger] xs[i]),
    ensures
        remove_counts(r, add_all(r, acc, xs), us, xs) == acc,
{
    let m = MODULUS as int;
    lemma_add_all(r, acc, xs);
    let b = add_all(r, acc, xs);
    lemma_remove_counts(r, b, us, xs);
    lemma_weighted_sum(r, us, xs);
    let sum = element_sum(r, xs);
    lemma_sub_mod_noop(acc.v + sum, sum, m);
    lemma_mod_twice(acc.v + sum, m);
    lemma_mod_bound(acc.v + sum, m);
    lemma_mod_bound(sum, m);
    lemma_sub_mod_noop((acc.v + sum) % m, sum, m);
    lemma_small_mod(acc.v as nat, m as nat);
    assert(acc.v + sum - sum == acc.v);
}

pub(crate) fn alloc_num(f: Fe) -> (r: ZPtr)
    requires
        f.wf(),
    ensures
        r == num_z(f),
        zwf(r),
{
    ZPtr { tag: TAG_NUM, value: f }
}

pub(crate) fn alloc_nil() -> (r: ZPtr)
    ensures
        r == nil_z(),
        zwf(r),
{
    ZPtr { tag: TAG_NIL, value: Fe { v: 0 } }
}

/// The cons of two pointers, bound to their hash.
fn construct_cons(a: ZPtr, b: ZPtr) -> (r: ZPtr)
    requires
        zwf(a),
        zwf(b),
    ensures
        r == cons_z(a, b),
        zwf(r),
{
    ZPtr { tag: TAG_CONS, value: hash_cons(a, b) }
}

/// `a` where `cond` holds, else `b`.
fn pick(cond: bool, a: ZPtr, b: ZPtr) -> (r: ZPtr)
    ensures
        r == (if cond {
            a
        } else {
            b
        }),
{
    if cond {
        a
    } else {
        b
    }
}

/// Records every equation enforced on the witness, and whether all of them hold.
pub struct ConstraintSystem {
    satisfied: bool,
    enforced: Ghost<Seq<(Fe, Fe)>>,
}

impl ConstraintSystem {
    /// The equations enforced so far, each as the pair of its sides, in order.
    pub closed spec fn enforced(&self) -> Seq<(Fe, Fe)> {
        self.enforced@
    }

    /// Every enforced equation holds.
    pub open spec fn sat(&self) -> bool {
        forall|i: int| 0 <= i < self.enforced().len() ==> #[trigger] self.enforced()[i].0 == self.enforced()[i].1
    }

    /// The recorded verdict is the one the equations give.
    pub closed spec fn inv(&self) -> bool {
        self.satisfied == self.sat()
    }

    pub fn new() -> (r: ConstraintSystem)
        ensures
            r.inv(),
            r.enforced() == Seq::<(Fe, Fe)>::empty(),
            r.sat(),
    {
        ConstraintSystem { satisfied: true, enforced: Ghost(Seq::empty()) }
    }

    pub fn is_satisfied(&self) -> (r: bool)
        requires
            self.inv(),
        ensures
            r == self.sat(),
    {
        self.satisfied
    }

    /// Enforces `a == b`.
    pub fn enforce_equal(&mut self, a: Fe, b: Fe)
        requires
            old(self).inv(),
        ensures
            final(self).inv(),
            final(self).enforced() == old(self).enforced().push((a, b)),
            final(self).sat() == (old(self).sat() && a == b),
    {
        let ghost e = self.enforced@.push((a, b));
        let ghost o = *old(self);
        self.satisfied = self.satisfied && a.v == b.v;
        self.enforced = Ghost(e);
        proof {
            assert(self.enforced() == e);
            assert(e[e.len() - 1] == (a, b));
            assert forall|i: int| 0 <= i < o.enforced().len() implies #[trigger] e[i] == o.enforced()[i] by {}
            if o.sat() && a == b {
                assert forall|i: int| 0 <= i < self.enforced().len() implies #[trigger] self.enforced()[i].0
                    == self.enforced()[i].1 by {
                    if i < e.len() - 1 {
                        assert(o.enforced()[i].0 == o.enforced()[i].1);
                    }
                }
                assert(self.sat());
            } else if !o.sat() {
                let k = choose|k: int| 0 <= k < o.enforced().len() && !(o.enforced()[k].0 == o.enforced()[k].1);
                assert(self.enforced()[k] == o.enforced()[k]);
                assert(!self.sat());
            } else {
                assert(!(self.enforced()[e.len() - 1].0 == self.enforced()[e.len() - 1].1));
                assert(!self.sat());
            }
        }
    }
}

/// The LogUp memo set inside the circuit: the native multiplicities (the prover's witness for
/// each removal) and the challenge as a wire.
pub struct LogMemoCircuit {
    multiset: MultiSet,
    r: Fe,
}

impl LogMemoCircuit {
    pub closed spec fn wf(&self) -> bool {
        self.multiset.wf() && self.r.wf()
    }

    pub closed spec fn r_spec(&self) -> Fe {
        self.r
    }

    pub closed spec fn count_of(&self, x: Ptr) -> nat {
        self.multiset.count_of(x)
    }

    pub(crate) fn new(multiset: MultiSet, r: Fe) -> (res: LogMemoCircuit)
        requires
            multiset.wf(),
            r.wf(),
        ensures
            res.wf(),
            res.r_spec() == r,
            forall|x: Ptr| #[trigger] res.count_of(x) == multiset.count_of(x),
    {
        LogMemoCircuit { multiset, r }
    }

    /// A copy with the same multiplicities and challenge.
    pub fn duplicate(&self) -> (res: LogMemoCircuit)
        requires
            self.wf(),
        ensures
            res.wf(),
            res.r_spec() == self.r_spec(),
            forall|x: Ptr| #[trigger] res.count_of(x) == self.count_of(x),
    {
        LogMemoCircuit { multiset: self.multiset.duplicate(), r: self.r }
    }
}

/// The memo set inside the circuit: the challenge as a wire, and the multiplicities the prover
/// supplies as witnesses.
pub trait CircuitMemoSet: Sized {
    /// The invariant of the memo set.
    spec fn inv(&self) -> bool;

    /// The challenge wire's value.
    spec fn challenge(&self) -> Fe;

    /// The multiplicity of the record `x`.
    spec fn multiplicity(&self, x: Ptr) -> nat;

    /// `acc - count / (r + kv)`.
    fn synthesize_remove_n(&self, acc: Fe, kv: ZPtr, count: Fe) -> (res: Result<Fe, SynthesisError>)
        requires
            self.inv(),
            acc.wf(),
            zwf(kv),
            count.wf(),
        ensures
            res matches Ok(a) ==> a == fsub(acc, fmul(element(self.challenge(), kv.value), count))
                && a.wf(),
            res is Err <==> !has_element(self.challenge(), kv.value),
            res matches Err(e) ==> e == SynthesisError::DivisionByZero,
    ;

    /// The challenge wire.
    fn allocated_r(&self) -> (r: Fe)
        ensures
            r == self.challenge(),
    ;

    /// `1 / (r + x)`; fails where `r + x` has no inverse.
    fn synthesize_map_to_element(&self, x: Fe) -> (res: Result<Fe, SynthesisError>)
        requires
            self.inv(),
            x.wf(),
        ensures
            res matches Ok(e) ==> e == element(self.challenge(), x) && e.wf(),
            res is Err <==> !has_element(self.challenge(), x),
            res matches Err(e) ==> e == SynthesisError::DivisionByZero,
    ;

    /// `acc + 1 / (r + kv)`.
    fn synthesize_add(&self, acc: Fe, kv: ZPtr) -> (res: Result<Fe, SynthesisError>)
        requires
            self.inv(),
            acc.wf(),
            zwf(kv),
        ensures
            res matches Ok(a) ==> a == fadd(acc, element(self.challenge(), kv.value)) && a.wf(),
            res is Err <==> !has_element(self.challenge(), kv.value),
            res matches Err(e) ==> e == SynthesisError::DivisionByZero,
    ;

    /// The multiplicity of the record `form`.
    fn count(&self, form: Ptr) -> (r: usize)
        ensures
            r == self.multiplicity(form),
    ;
}

impl CircuitMemoSet for LogMemoCircuit {
    open spec fn inv(&self) -> bool {
        self.wf()
    }

    open spec fn challenge(&self) -> Fe {
        self.r_spec()
    }

    open spec fn multiplicity(&self, x: Ptr) -> nat {
        self.count_of(x)
    }

    fn synthesize_remove_n(&self, acc: Fe, kv: ZPtr, count: Fe) -> (res: Result<Fe, SynthesisError>) {
        let element = self.synthesize_map_to_element(kv.value)?;
        let scaled = element.mul(count);
        Ok(acc.sub(scaled))
    }

    fn allocated_r(&self) -> (r: Fe) {
        self.r
    }

    fn synthesize_map_to_element(&self, x: Fe) -> (res: Result<Fe, SynthesisError>) {
        let r_plus_x = self.r.add(x);
        match r_plus_x.invert() {
            Some(e) => Ok(e),
            None => Err(SynthesisError::DivisionByZero),
        }
    }

    fn synthesize_add(&self, acc: Fe, kv: ZPtr) -> (res: Result<Fe, SynthesisError>) {
        let element = self.synthesize_map_to_element(kv.value)?;
        Ok(acc.add(element))
    }

    fn count(&self, form: Ptr) -> (r: usize) {
        self.multiset.get(form)
    }
}

/// The transcript inside the circuit: a wire holding the hashed form of the list.
#[derive(Clone, Copy, Debug, PartialEq, Eq, Structural)]
pub struct CircuitTranscript {
    acc: ZPtr,
}

impl CircuitTranscript {
    pub closed spec fn value(&self) -> ZPtr {
        self.acc
    }

    /// The empty transcript: nil.
    pub fn new() -> (r: CircuitTranscript)
        ensures
            r.value() == nil_z(),
    {
        CircuitTranscript { acc: alloc_nil() }
    }

    /// The transcript whose wire holds `acc`.
    pub closed spec fn from_value(acc: ZPtr) -> CircuitTranscript {
        CircuitTranscript { acc }
    }

    /// A transcript is the one its wire holds.
    pub proof fn lemma_from_value(t: CircuitTranscript, z: ZPtr)
        ensures
            CircuitTranscript::from_value(t.value()) == t,
            CircuitTranscript::from_value(z).value() == z,
    {
    }

    pub fn from_ptr(acc: ZPtr) -> (r: CircuitTranscript)
        ensures
            r.value() == acc,
            r == CircuitTranscript::from_value(acc),
    {
        CircuitTranscript { acc }
    }

    /// `a` where `condition` holds, else `b`.
    pub fn pick(condition: bool, a: &CircuitTranscript, b: &CircuitTranscript) -> (r: CircuitTranscript)
        ensures
            r == (if condition {
                *a
            } else {
                *b
            }),
    {
        if condition {
            *a
        } else {
            *b
        }
    }

    /// Prepends `item`.
    pub fn add(&self, item: ZPtr) -> (r: CircuitTranscript)
        requires
            zwf(self.value()),
            zwf(item),
        ensures
            r.value() == prepend_z(item, self.value()),
            zwf(r.value()),
    {
        CircuitTranscript { acc: construct_cons(item, self.acc) }
    }

    /// The insertion record `(key . value)`.
    pub fn make_kv(key: ZPtr, value: ZPtr) -> (r: ZPtr)
        requires
            zwf(key),
            zwf(value),
        ensures
            r == cons_z(key, value),
            zwf(r),
    {
        construct_cons(key, value)
    }

    /// The removal record `(kv . count)`, and the count's wire.
    pub fn make_kv_count(kv: ZPtr, count: u64) -> (r: (ZPtr, Fe))
        requires
            zwf(kv),
        ensures
            r.1 == count_fe(count as nat),
            r.1.wf(),
            r.0 == cons_z(kv, num_z(r.1)),
            zwf(r.0),
    {
        let allocated_count = Fe::from_u64(count);
        let count_ptr = alloc_num(allocated_count);
        (construct_cons(kv, count_ptr), allocated_count)
    }

    /// The transcript's hash wire.
    pub fn r(&self) -> (r: Fe)
        ensures
            r == self.value().value,
    {
        self.acc.value
    }

    pub fn ptr(&self) -> (r: ZPtr)
        ensures
            r == self.value(),
    {
        self.acc
    }
}

/// The circuit-side scope: the memo set, the native memo table (for witnesses), and the running
/// accumulator and transcript wires.
pub struct CircuitScope {
    memoset: LogMemoCircuit,
    /// key => value
    queries: HashMap<usize, Ptr>,
    transcript: CircuitTranscript,
    acc: Option<ZPtr>,
    transcribe_internal_insertions: bool,
}

impl CircuitScope {
    pub open spec fn wf(&self, s: &Store) -> bool {
        &&& s.wf()
        &&& self.wires_wf()
        &&& self.queries_valid(s)
    }

    /// The memo set, the accumulator and the transcript wires are in range.
    pub closed spec fn wires_wf(&self) -> bool {
        &&& self.memoset.wf()
        &&& zwf(self.transcript.value())
        &&& self.acc matches Some(a) ==> zwf(a)
    }

    /// Every memoized value is in the store.
    pub closed spec fn queries_valid(&self, s: &Store) -> bool {
        forall|k: usize| #[trigger] self.queries@.contains_key(k) ==> s.valid(self.queries@[k])
    }

    pub closed spec fn memo(&self) -> LogMemoCircuit {
        self.memoset
    }

    /// The memo table the witnesses come from.
    pub closed spec fn queries_view(&self) -> Map<usize, Ptr> {
        self.queries@
    }

    pub closed spec fn acc_spec(&self) -> Option<ZPtr> {
        self.acc
    }

    pub closed spec fn transcript_spec(&self) -> CircuitTranscript {
        self.transcript
    }

    pub closed spec fn transcribe(&self) -> bool {
        self.transcribe_internal_insertions
    }

    /// The value the prover supplies for `key`: the memoized value of the earliest pointer with
    /// that hashed form.
    pub closed spec fn witness_value(&self, s: &Store, key: ZPtr) -> Option<ZPtr> {
        match s.lookup(key) {
            Some(p) => if self.queries@.contains_key(p.idx) {
                Some(s.z(self.queries@[p.idx]))
            } else {
                None
            },
            None => None,
        }
    }

    /// The multiplicity the prover supplies for the record `kv`.
    pub closed spec fn witness_count(&self, s: &Store, kv: ZPtr) -> nat {
        match s.lookup(kv) {
            Some(p) => self.memoset.count_of(p),
            None => 0,
        }
    }

    pub fn from_queries(
        s: &Store,
        memoset: LogMemoCircuit,
        queries: &HashMap<usize, Ptr>,
        transcribe_internal_insertions: bool,
    ) -> (r: CircuitScope)
        requires
            s.wf(),
            memoset.wf(),
            forall|k: usize| #[trigger] queries@.contains_key(k) ==> s.valid(queries@[k]),
        ensures
            r.wf(s),
            r.memo() == memoset,
            r.queries_view() == queries@,
            r.acc_spec() is None,
            r.transcript_spec().value() == nil_z(),
            r.transcribe() == transcribe_internal_insertions,
    {
        CircuitScope {
            memoset,
            queries: queries.clone(),
            transcript: CircuitTranscript::new(),
            acc: None,
            transcribe_internal_insertions,
        }
    }

    /// The accumulator, transcript and challenge wires.
    pub fn io(&self) -> (r: (ZPtr, ZPtr, Fe))
        requires
            self.acc_spec() is Some,
            self.wires_wf(),
        ensures
            zwf(r.0),
            zwf(r.1),
            r.2.wf(),
            r.0 == self.acc_spec()->Some_0,
            r.1 == self.transcript_spec().value(),
            r.2 == self.memo().r_spec(),
    {
        (self.acc.unwrap(), self.transcript.acc, self.memoset.r)
    }

    /// The transcript wire.
    pub fn transcript(&self) -> (r: CircuitTranscript)
        ensures
            r == self.transcript_spec(),
    {
        self.transcript
    }

    /// Installs state advanced elsewhere (between fold steps).
    pub fn update_from_io(&mut self, acc: ZPtr, transcript: ZPtr, r: &ZPtr)
        requires
            zwf(acc),
            zwf(transcript),
            r.value.wf(),
        ensures
            final(self).acc_spec() == Some(acc),
            final(self).transcript_spec().value() == transcript,
            final(self).memo().r_spec() == r.value,
            forall|x: Ptr| #[trigger] final(self).memo().count_of(x) == old(self).memo().count_of(x),
            final(self).transcribe() == old(self).transcribe(),
            final(self).queries_view() == old(self).queries_view(),
            forall|s: &Store| old(self).wf(s) ==> final(self).wf(s),
    {
        self.acc = Some(acc);
        self.transcript.acc = transcript;
        self.memoset.r = r.value;
    }

    /// Builds `(key . value)`, transcribes it when top-level or when internal insertions are
    /// transcribed, and adds it to the accumulator.
    pub fn synthesize_insert_query(
        &self,
        acc: &ZPtr,
        transcript: &CircuitTranscript,
        key: &ZPtr,
        value: &ZPtr,
        is_toplevel: bool,
    ) -> (res: Result<(ZPtr, CircuitTranscript), SynthesisError>)
        requires
            self.memo().wf(),
            zwf(*acc),
            zwf(transcript.value()),
            zwf(*key),
            zwf(*value),
        ensures
            res matches Ok(at) ==> at.0 == num_z(
                fadd(acc.value, element(self.memo().r_spec(), cons_z(*key, *value).value)),
            ) && zwf(at.0) && zwf(at.1.value()) && at.1.value() == (if is_toplevel
                || self.transcribe() {
                prepend_z(cons_z(*key, *value), transcript.value())
            } else {
                transcript.value()
            }),
            res is Err <==> !has_element(self.memo().r_spec(), cons_z(*key, *value).value),
            res matches Err(e) ==> e == SynthesisError::DivisionByZero,
    {
        let kv = CircuitTranscript::make_kv(*key, *value);
        let new_transcript = if is_toplevel || self.transcribe_internal_insertions {
            transcript.add(kv)
        } else {
            *transcript
        };
        let new_acc_v = self.memoset.synthesize_add(acc.value, kv)?;
        let new_acc = alloc_num(new_acc_v);
        Ok((new_acc, new_transcript))
    }

    /// Builds `(key . value)`, takes its multiplicity from the memo set (the prover's witness),
    /// transcribes `((key . value) . count)` and subtracts `count / (r + kv)` from the accumulator.
    pub fn synthesize_remove(
        &self,
        s: &Store,
        acc: &ZPtr,
        transcript: &CircuitTranscript,
        key: &ZPtr,
        value: &ZPtr,
    ) -> (res: Result<(ZPtr, CircuitTranscript), SynthesisError>)
        requires
            self.wf(s),
            zwf(*acc),
            zwf(transcript.value()),
            zwf(*key),
            zwf(*value),
        ensures
            res matches Ok(at) ==> {
                let kv = cons_z(*key, *value);
                let c = count_fe(self.witness_count(s, kv));
                &&& at.0 == num_z(fsub(acc.value, fmul(element(self.memo().r_spec(), kv.value), c)))
                &&& at.1.value() == prepend_z(cons_z(kv, num_z(c)), transcript.value())
                &&& zwf(at.0)
                &&& zwf(at.1.value())
            },
            res is Err <==> !has_element(self.memo().r_spec(), cons_z(*key, *value).value),
            res matches Err(e) ==> e == SynthesisError::DivisionByZero,
            res == self.remove_result(s, *acc, *transcript, *key, *value),
    {
        let kv = CircuitTranscript::make_kv(*key, *value);
        let raw_count: u64 = match s.to_ptr(kv) {
            Some(p) => self.memoset.count(p) as u64,
            None => 0,
        };
        let (kv_count, count) = CircuitTranscript::make_kv_count(kv, raw_count);
        let new_transcript = transcript.add(kv_count);
        let new_acc_v = self.memoset.synthesize_remove_n(acc.value, kv, count)?;
        let new_acc = alloc_num(new_acc_v);
        Ok((new_acc, new_transcript))
    }

    /// What removing `(key . value)` gives: the failed inversion, or the accumulator less the
    /// multiplicity over `r + kv`, and the transcript with `((key . value) . count)` prepended.
    pub closed spec fn remove_result(
        &self,
        s: &Store,
        acc: ZPtr,
        transcript: CircuitTranscript,
        key: ZPtr,
        value: ZPtr,
    ) -> Result<(ZPtr, CircuitTranscript), SynthesisError> {
        let kv = cons_z(key, value);
        let c = count_fe(self.witness_count(s, kv));
        if !has_element(self.memoset.r, kv.value) {
            Err(SynthesisError::DivisionByZero)
        } else {
            Ok(
                (
                    num_z(fsub(acc.value, fmul(element(self.memoset.r, kv.value), c))),
                    CircuitTranscript { acc: prepend_z(cons_z(kv, num_z(c)), transcript.value()) },
                ),
            )
        }
    }

    /// Enforces that the transcript's hash is the challenge and that the accumulator is zero.
    pub fn finalize(&self, cs: &mut ConstraintSystem)
        requires
            self.acc_spec() is Some,
            old(cs).inv(),
        ensures
            final(cs).inv(),
            final(cs).enforced() == old(cs).enforced() + seq![
                (self.transcript_spec().value().value, self.memo().r_spec()),
                (self.acc_spec()->Some_0.value, Fe { v: 0 }),
            ],
            final(cs).sat() == (old(cs).sat() && self.transcript_spec().value().value
                == self.memo().r_spec() && self.acc_spec()->Some_0.value == Fe { v: 0 }),
    {
        let r = self.memoset.allocated_r();
        cs.enforce_equal(self.transcript.r(), r);
        cs.enforce_equal(self.acc.unwrap().value, Fe::zero());
        proof {
            assert(final(cs).enforced() =~= old(cs).enforced() + seq![
                (self.transcript_spec().value().value, self.memo().r_spec()),
                (self.acc_spec()->Some_0.value, Fe { v: 0 }),
            ]);
        }
    }

    /// A top-level query: its value supplied by the prover, its insertion transcribed.
    pub fn synthesize_query(
        &self,
        s: &Store,
        key: &ZPtr,
        acc: &ZPtr,
        transcript: &CircuitTranscript,
        not_dummy: bool,
    ) -> (res: Result<(ZPtr, ZPtr, CircuitTranscript), SynthesisError>)
        requires
            self.wf(s),
            zwf(*key),
            zwf(*acc),
            zwf(transcript.value()),
        ensures
            res == self.query_result(s, *key, *acc, *transcript, not_dummy, true),
            res matches Ok(r) ==> zwf(r.0) && zwf(r.1) && zwf(r.2.value()),
    {
        self.synthesize_query_aux(s, key, acc, transcript, not_dummy, true)
    }

    /// A subquery: its value supplied by the prover, its insertion transcribed only when internal
    /// insertions are.
    pub fn synthesize_internal_query(
        &self,
        s: &Store,
        key: &ZPtr,
        acc: &ZPtr,
        transcript: &CircuitTranscript,
        not_dummy: bool,
    ) -> (res: Result<(ZPtr, ZPtr, CircuitTranscript), SynthesisError>)
        requires
            self.wf(s),
            zwf(*key),
            zwf(*acc),
            zwf(transcript.value()),
        ensures
            res == self.query_result(s, *key, *acc, *transcript, not_dummy, false),
            res matches Ok(r) ==> zwf(r.0) && zwf(r.1) && zwf(r.2.value()),
    {
        self.synthesize_query_aux(s, key, acc, transcript, not_dummy, false)
    }

    /// The value a slot supplies for `key`: the prover's witness, or nil in a dummy slot.
    pub closed spec fn slot_value(&self, s: &Store, key: ZPtr, not_dummy: bool) -> ZPtr {
        if not_dummy {
            self.witness_value(s, key)->Some_0
        } else {
            nil_z()
        }
    }

    /// What querying `key` gives: the missing witness, or the failed inversion, or the value with
    /// the accumulator and transcript after its insertion.
    #[verifier::opaque]
    pub closed spec fn query_result(
        &self,
        s: &Store,
        key: ZPtr,
        acc: ZPtr,
        transcript: CircuitTranscript,
        not_dummy: bool,
        is_toplevel: bool,
    ) -> Result<(ZPtr, ZPtr, CircuitTranscript), SynthesisError> {
        let v = self.slot_value(s, key, not_dummy);
        let kv = cons_z(key, v);
        if not_dummy && self.witness_value(s, key) is None {
            Err(SynthesisError::AssignmentMissing)
        } else if !has_element(self.memoset.r, kv.value) {
            Err(SynthesisError::DivisionByZero)
        } else {
            Ok(
                (
                    v,
                    num_z(fadd(acc.value, element(self.memoset.r, kv.value))),
                    CircuitTranscript {
                        acc: if is_toplevel || self.transcribe_internal_insertions {
                            prepend_z(kv, transcript.value())
                        } else {
                            transcript.value()
                        },
                    },
                ),
            )
        }
    }

    fn synthesize_query_aux(
        &self,
        s: &Store,
        key: &ZPtr,
        acc: &ZPtr,
        transcript: &CircuitTranscript,
        not_dummy: bool,
        is_toplevel: bool,
    ) -> (res: Result<(ZPtr, ZPtr, CircuitTranscript), SynthesisError>)
        requires
            self.wf(s),
            zwf(*key),
            zwf(*acc),
            zwf(transcript.value()),
        ensures
            res == self.query_result(s, *key, *acc, *transcript, not_dummy, is_toplevel),
            res matches Ok(r) ==> zwf(r.0) && zwf(r.1) && zwf(r.2.value()),
    {
        proof {
            reveal(CircuitScope::query_result);
        }
        let value = if not_dummy {
            match s.to_ptr(*key) {
                Some(p) => match self.queries.get(&p.idx) {
                    Some(v) => s.hash_ptr(*v),
                    None => {
                        return Err(SynthesisError::AssignmentMissing);
                    },
                },
                None => {
                    return Err(SynthesisError::AssignmentMissing);
                },
            }
        } else {
            alloc_nil()
        };
        let (new_acc, new_insertion_transcript) = self.synthesize_insert_query(
            acc,
            transcript,
            key,
            &value,
            is_toplevel,
        )?;
        Ok((value, new_acc, new_insertion_transcript))
    }

    /// Inserts the top-level record `kv`: the key's value supplied by the prover, the record
    /// transcribed.
    pub fn synthesize_toplevel_query(&mut self, s: &Store, kv: Ptr) -> (res: Result<(), SynthesisError>)
        requires
            old(self).wf(s),
            old(self).acc_spec() is Some,
            s.valid(kv),
            s.node(kv) is Cons,
        ensures
            old(self).same_setup(final(self)),
            final(self).wf(s),
            final(self).acc_spec() is Some,
            final(self).memo() == old(self).memo(),
            final(self).transcribe() == old(self).transcribe(),
            forall|z: ZPtr| #[trigger] final(self).witness_value(s, z) == old(self).witness_value(s, z),
            res matches Ok(_) ==> old(self).query_result(
                s,
                s.z(s.node(kv)->Cons_0),
                old(self).acc_spec()->Some_0,
                old(self).transcript_spec(),
                true,
                true,
            ) matches Ok(r) && final(self).acc_spec() == Some(r.1) && final(self).transcript_spec()
                == r.2,
            res is Err ==> old(self).query_result(
                s,
                s.z(s.node(kv)->Cons_0),
                old(self).acc_spec()->Some_0,
                old(self).transcript_spec(),
                true,
                true,
            ) is Err,
    {
        let (key, _value) = s.car_cdr(kv).unwrap();
        let allocated_key = s.hash_ptr(key);
        let acc = self.acc.unwrap();
        let insertion_transcript = self.transcript;
        let (_val, new_acc, new_transcript) = self.synthesize_query(
            s,
            &allocated_key,
            &acc,
            &insertion_transcript,
            true,
        )?;
        self.acc = Some(new_acc);
        self.transcript = new_transcript;
        Ok(())
    }

    /// What inserting the top-level records `kvs` in order gives, from `acc` and `transcript`:
    /// the first failure, or the accumulator and transcript after the last insertion.
    pub closed spec fn toplevel_result(
        &self,
        s: &Store,
        kvs: Seq<Ptr>,
        acc: ZPtr,
        transcript: CircuitTranscript,
    ) -> Result<(ZPtr, CircuitTranscript), SynthesisError>
        decreases kvs.len(),
    {
        if kvs.len() == 0 {
            Ok((acc, transcript))
        } else {
            match self.toplevel_result(s, kvs.drop_last(), acc, transcript) {
                Ok(at) => match self.query_result(
                    s,
                    s.z(s.node(kvs.last())->Cons_0),
                    at.0,
                    at.1,
                    true,
                    true,
                ) {
                    Ok(r) => Ok((r.1, r.2)),
                    Err(e) => Err(e),
                },
                Err(e) => Err(e),
            }
        }
    }

    /// Inserts every top-level record of `scope`, in order.
    pub fn synthesize_insert_toplevel_queries(&mut self, scope: &Scope, s: &Store) -> (res: Result<
        (),
        SynthesisError,
    >)
        requires
            old(self).wf(s),
            old(self).acc_spec() is Some,
            scope.wf(s),
        ensures
            final(self).wf(s),
            final(self).acc_spec() is Some,
            final(self).memo() == old(self).memo(),
            final(self).transcribe() == old(self).transcribe(),
            forall|z: ZPtr| #[trigger] final(self).witness_value(s, z) == old(self).witness_value(s, z),
            res is Ok <==> old(self).toplevel_result(
                s,
                scope.toplevel(),
                old(self).acc_spec()->Some_0,
                old(self).transcript_spec(),
            ) is Ok,
            res is Ok ==> old(self).toplevel_result(
                s,
                scope.toplevel(),
                old(self).acc_spec()->Some_0,
                old(self).transcript_spec(),
            ) == Ok::<(ZPtr, CircuitTranscript), SynthesisError>(
                (final(self).acc_spec()->Some_0, final(self).transcript_spec()),
            ),
    {
        let toplevel = scope.toplevel_insertions();
        proof {
            scope.lemma_toplevel_records(s);
            assert(toplevel@.subrange(0, 0) =~= Seq::<Ptr>::empty());
        }
        let ghost start = *self;
        let mut i: usize = 0;
        while i < toplevel.len()
            invariant
                self.wf(s),
                self.acc_spec() is Some,
                start == *old(self),
                start.same_setup(self),
                self.memo() == start.memo(),
                self.transcribe() == start.transcribe(),
                forall|z: ZPtr| #[trigger] self.witness_value(s, z) == start.witness_value(s, z),
                toplevel@ == scope.toplevel(),
                i <= toplevel@.len(),
                forall|j: int| 0 <= j < toplevel@.len() ==> s.valid(#[trigger] toplevel@[j]) && s.node(toplevel@[j]) is Cons,
                start.toplevel_result(
                    s,
                    toplevel@.subrange(0, i as int),
                    start.acc_spec()->Some_0,
                    start.transcript_spec(),
                ) == Ok::<(ZPtr, CircuitTranscript), SynthesisError>(
                    (self.acc_spec()->Some_0, self.transcript_spec()),
                ),
            decreases toplevel@.len() - i,
        {
            let ghost before = *self;
            let kv = toplevel[i];
            proof {
                assert(toplevel@.subrange(0, i as int + 1).drop_last() =~= toplevel@.subrange(0, i as int));
                assert(toplevel@.subrange(0, i as int + 1).last() == kv);
                start.lemma_query_result_same(&before, s);
            }
            let step = self.synthesize_toplevel_query(s, kv);
            if step.is_err() {
                proof {
                    start.lemma_toplevel_err(s, toplevel@, i as int, start.acc_spec()->Some_0, start.transcript_spec());
                }
                return step;
            }
            i = i + 1;
        }
        proof {
            assert(toplevel@.subrange(0, i as int) =~= toplevel@);
        }
        Ok(())
    }

    /// `self` and `o` have the same challenge, multiplicities, witnesses and setting.
    pub closed spec fn same_setup(&self, o: &CircuitScope) -> bool {
        &&& self.memoset.r == o.memoset.r
        &&& forall|x: Ptr| #[trigger] self.memoset.count_of(x) == o.memoset.count_of(x)
        &&& self.queries@ == o.queries@
        &&& self.transcribe_internal_insertions == o.transcribe_internal_insertions
    }

    /// Scopes with the same setup give the same query and removal results.
    proof fn lemma_query_result_same(&self, o: &CircuitScope, s: &Store)
        requires
            self.same_setup(o),
        ensures
            forall|key: ZPtr, acc: ZPtr, t: CircuitTranscript, nd: bool, tl: bool| #[trigger]
                self.query_result(s, key, acc, t, nd, tl) == o.query_result(s, key, acc, t, nd, tl),
            forall|acc: ZPtr, t: CircuitTranscript, key: ZPtr, value: ZPtr| #[trigger]
                self.remove_result(s, acc, t, key, value) == o.remove_result(s, acc, t, key, value),
    {
        reveal(CircuitScope::query_result);
        assert forall|key: ZPtr, acc: ZPtr, t: CircuitTranscript, nd: bool, tl: bool| #[trigger]
            self.query_result(s, key, acc, t, nd, tl) == o.query_result(s, key, acc, t, nd, tl) by {
            assert(self.witness_value(s, key) == o.witness_value(s, key));
            assert(self.slot_value(s, key, nd) == o.slot_value(s, key, nd));
        }
        assert forall|acc: ZPtr, t: CircuitTranscript, key: ZPtr, value: ZPtr| #[trigger]
            self.remove_result(s, acc, t, key, value) == o.remove_result(s, acc, t, key, value) by {
            let kv = cons_z(key, value);
            match s.lookup(kv) {
                Some(p) => assert(self.memoset.count_of(p) == o.memoset.count_of(p)),
                None => {},
            }
            assert(self.witness_count(s, kv) == o.witness_count(s, kv));
        }
    }

    /// Scopes with the same setup give the same result for every run of top-level insertions.
    proof fn lemma_toplevel_same(&self, o: &CircuitScope, s: &Store, kvs: Seq<Ptr>, acc: ZPtr, t: CircuitTranscript)
        requires
            self.same_setup(o),
        ensures
            self.toplevel_result(s, kvs, acc, t) == o.toplevel_result(s, kvs, acc, t),
        decreases kvs.len(),
    {
        self.lemma_query_result_same(o, s);
        if kvs.len() > 0 {
            self.lemma_toplevel_same(o, s, kvs.drop_last(), acc, t);
        }
    }

    /// `self` has the challenge `r`, the multiplicities `counts`, the memo table `queries` and the
    /// setting `transcribe`.
    pub closed spec fn agrees(
        &self,
        r: Fe,
        counts: spec_fn(Ptr) -> nat,
        queries: Map<usize, Ptr>,
        transcribe: bool,
    ) -> bool {
        &&& self.memoset.r == r
        &&& forall|x: Ptr| #[trigger] self.memoset.count_of(x) == counts(x)
        &&& self.queries@ == queries
        &&& self.transcribe_internal_insertions == transcribe
    }

    /// A circuit scope with the challenge `r`, the multiplicities `counts`, the memo table
    /// `queries` and the setting `transcribe`.
    pub closed spec fn fresh(
        r: Fe,
        counts: spec_fn(Ptr) -> nat,
        queries: Map<usize, Ptr>,
        transcribe: bool,
    ) -> CircuitScope {
        choose|c: CircuitScope| c.agrees(r, counts, queries, transcribe)
    }

    proof fn lemma_fresh(&self, r: Fe, counts: spec_fn(Ptr) -> nat, queries: Map<usize, Ptr>, transcribe: bool)
        requires
            self.agrees(r, counts, queries, transcribe),
        ensures
            self.same_setup(&Self::fresh(r, counts, queries, transcribe)),
            Self::fresh(r, counts, queries, transcribe).same_setup(self),
    {
        let c = Self::fresh(r, counts, queries, transcribe);
        assert(c.agrees(r, counts, queries, transcribe));
        assert forall|x: Ptr| #[trigger] self.memoset.count_of(x) == c.memoset.count_of(x) by {
            assert(self.memoset.count_of(x) == counts(x));
            assert(c.memoset.count_of(x) == counts(x));
        }
    }

    /// Scopes with the same setup give the same result for every slot.
    proof fn lemma_slot_same(&self, o: &CircuitScope, s: &Store)
        requires
            self.same_setup(o),
        ensures
            forall|key: Option<Ptr>, a: ZPtr, t: CircuitTranscript| #[trigger]
                self.slot_result(s, key, a, t) == o.slot_result(s, key, a, t),
    {
        self.lemma_query_result_same(o, s);
        reveal(CircuitScope::slot_result);
        assert forall|key: Option<Ptr>, a: ZPtr, t: CircuitTranscript| #[trigger]
            self.slot_result(s, key, a, t) == o.slot_result(s, key, a, t) by {
            let q = Self::slot_query(s, key);
            assert(q.1.eval_result(s, self, a, t) == q.1.eval_result(s, o, a, t));
        }
    }

    /// Once a slot fails, the run of slots fails.
    proof fn lemma_slots_err(&self, s: &Store, keys: Seq<Option<Ptr>>, i: int, acc: ZPtr, t: CircuitTranscript)
        requires
            0 <= i < keys.len(),
            self.slots_result(s, keys.subrange(0, i + 1), acc, t) is Err,
        ensures
            self.slots_result(s, keys, acc, t) is Err,
        decreases keys.len() - i,
    {
        if i + 1 < keys.len() {
            assert(keys.subrange(0, i + 2).drop_last() =~= keys.subrange(0, i + 1));
            self.lemma_slots_err(s, keys, i + 1, acc, t);
        } else {
            assert(keys.subrange(0, i + 1) =~= keys);
        }
    }

    /// The allocated key and the circuit query of a slot: the key's own, or the family's dummy.
    pub open spec fn slot_query(s: &Store, key: Option<Ptr>) -> (ZPtr, DemoCircuitQuery) {
        match key {
            Some(k) => (s.z(k), DemoCircuitQuery::Factorial(s.z(decode(s, k)->Some_0.arg()))),
            None => (nil_z(), DemoCircuitQuery::Factorial(num_z(Fe { v: 0 }))),
        }
    }

    /// What proving one slot gives from `acc` and `transcript`: the query is evaluated and its
    /// record removed; a dummy slot keeps `acc` and `transcript`.
    #[verifier::opaque]
    pub closed spec fn slot_result(
        &self,
        s: &Store,
        key: Option<Ptr>,
        acc: ZPtr,
        transcript: CircuitTranscript,
    ) -> Result<(ZPtr, CircuitTranscript), SynthesisError> {
        let q = Self::slot_query(s, key);
        match q.1.eval_result(s, self, acc, transcript) {
            Err(e) => Err(e),
            Ok(e) => match self.remove_result(s, e.1, e.2, q.0, e.0) {
                Err(x) => Err(x),
                Ok(r) => if key is Some {
                    Ok(r)
                } else {
                    Ok((acc, transcript))
                },
            },
        }
    }

    /// What proving the slots `keys` in order gives.
    pub closed spec fn slots_result(
        &self,
        s: &Store,
        keys: Seq<Option<Ptr>>,
        acc: ZPtr,
        transcript: CircuitTranscript,
    ) -> Result<(ZPtr, CircuitTranscript), SynthesisError>
        decreases keys.len(),
    {
        if keys.len() == 0 {
            Ok((acc, transcript))
        } else {
            match self.slots_result(s, keys.drop_last(), acc, transcript) {
                Err(e) => Err(e),
                Ok(at) => self.slot_result(s, keys.last(), at.0, at.1),
            }
        }
    }

    /// What proving `keys` in fold steps of `rc` slots gives, the last step padded with dummies.
    pub closed spec fn chunks_result(
        &self,
        s: &Store,
        keys: Seq<Ptr>,
        rc: nat,
        acc: ZPtr,
        transcript: CircuitTranscript,
    ) -> Result<(ZPtr, CircuitTranscript), SynthesisError>
        decreases keys.len(),
    {
        if keys.len() == 0 || rc == 0 {
            Ok((acc, transcript))
        } else {
            let n = if keys.len() < rc {
                keys.len() as int
            } else {
                rc as int
            };
            match self.slots_result(s, pad_seq(keys.subrange(0, n), rc), acc, transcript) {
                Err(e) => Err(e),
                Ok(at) => self.chunks_result(s, keys.subrange(n, keys.len() as int), rc, at.0, at.1),
            }
        }
    }

    /// Once an insertion fails, inserting more records fails too.
    proof fn lemma_toplevel_err(&self, s: &Store, kvs: Seq<Ptr>, i: int, acc: ZPtr, t: CircuitTranscript)
        requires
            0 <= i < kvs.len(),
            self.toplevel_result(s, kvs.subrange(0, i + 1), acc, t) is Err,
        ensures
            self.toplevel_result(s, kvs, acc, t) is Err,
        decreases kvs.len() - i,
    {
        if i + 1 < kvs.len() {
            assert(kvs.subrange(0, i + 2).drop_last() =~= kvs.subrange(0, i + 1));
            self.lemma_toplevel_err(s, kvs, i + 1, acc, t);
        } else {
            assert(kvs.subrange(0, i + 1) =~= kvs);
        }
    }

    /// Proves the query `key` of the family `index`, or a dummy of the family where `key` is
    /// `None`. A dummy slot leaves the accumulator and the transcript as they were.
    pub fn synthesize_prove_key_query(
        &mut self,
        s: &Store,
        key: Option<Ptr>,
        index: usize,
    ) -> (res: Result<(), SynthesisError>)
        requires
            old(self).wf(s),
            old(self).acc_spec() is Some,
            key matches Some(k) ==> is_form(s, k),
            index < DemoQuery::count_spec(),
        ensures
            final(self).wf(s),
            final(self).acc_spec() is Some,
            final(self).memo() == old(self).memo(),
            final(self).transcribe() == old(self).transcribe(),
            res is Ok && key is None ==> final(self).acc_spec() == old(self).acc_spec()
                && final(self).transcript_spec() == old(self).transcript_spec(),
            old(self).same_setup(final(self)),
            res is Err ==> *final(self) == *old(self),
            res is Ok <==> old(self).slot_result(
                s,
                key,
                old(self).acc_spec()->Some_0,
                old(self).transcript_spec(),
            ) is Ok,
            res is Ok ==> old(self).slot_result(
                s,
                key,
                old(self).acc_spec()->Some_0,
                old(self).transcript_spec(),
            ) == Ok::<(ZPtr, CircuitTranscript), SynthesisError>(
                (final(self).acc_spec()->Some_0, final(self).transcript_spec()),
            ),
    {
        let allocated_key = match key {
            Some(k) => s.hash_ptr(k),
            None => alloc_nil(),
        };
        let circuit_query = match key {
            Some(k) => DemoCircuitQuery::from_ptr(s, k).unwrap(),
            None => DemoCircuitQuery::dummy_from_index(index),
        };
        let not_dummy = key.is_some();
        proof {
            reveal(CircuitScope::slot_result);
        }
        self.synthesize_prove_query(s, &allocated_key, &circuit_query, not_dummy)
    }

    /// Evaluates `circuit_query` in the circuit, then removes `(key . value)` with its
    /// multiplicity. Where `not_dummy` is false, the accumulator and the transcript keep their
    /// values from before the step.
    pub fn synthesize_prove_query(
        &mut self,
        s: &Store,
        allocated_key: &ZPtr,
        circuit_query: &DemoCircuitQuery,
        not_dummy: bool,
    ) -> (res: Result<(), SynthesisError>)
        requires
            old(self).wf(s),
            old(self).acc_spec() is Some,
            zwf(*allocated_key),
            circuit_query.wf(),
        ensures
            final(self).wf(s),
            final(self).acc_spec() is Some,
            final(self).memo() == old(self).memo(),
            final(self).transcribe() == old(self).transcribe(),
            res is Ok && !not_dummy ==> final(self).acc_spec() == old(self).acc_spec()
                && final(self).transcript_spec() == old(self).transcript_spec(),
            old(self).same_setup(final(self)),
            res is Err ==> *final(self) == *old(self),
            res is Ok <==> (circuit_query.eval_result(
                s,
                old(self),
                old(self).acc_spec()->Some_0,
                old(self).transcript_spec(),
            ) matches Ok(e) && old(self).remove_result(s, e.1, e.2, *allocated_key, e.0) is Ok),
            res is Ok && not_dummy ==> (circuit_query.eval_result(
                s,
                old(self),
                old(self).acc_spec()->Some_0,
                old(self).transcript_spec(),
            ) matches Ok(e) && old(self).remove_result(s, e.1, e.2, *allocated_key, e.0) == Ok::<
                (ZPtr, CircuitTranscript),
                SynthesisError,
            >((final(self).acc_spec()->Some_0, final(self).transcript_spec()))),
    {
        let acc = self.acc.unwrap();
        let transcript = self.transcript;
        let (val, new_acc, new_transcript) = circuit_query.synthesize_eval(s, self, &acc, &transcript)?;
        let (new_acc, new_transcript) = self.synthesize_remove(
            s,
            &new_acc,
            &new_transcript,
            allocated_key,
            &val,
        )?;
        let final_acc = pick(not_dummy, new_acc, acc);
        let final_transcript = CircuitTranscript::pick(not_dummy, &new_transcript, &transcript);
        self.acc = Some(final_acc);
        self.transcript = final_transcript;
        Ok(())
    }

    /// Starts the accumulator at zero and the transcript at nil.
    pub fn init(&mut self)
        ensures
            final(self).acc_spec() == Some(num_z(Fe { v: 0 })),
            final(self).transcript_spec().value() == nil_z(),
            final(self).transcript_spec() == CircuitTranscript::from_value(nil_z()),
            final(self).queries_view() == old(self).queries_view(),
            final(self).memo() == old(self).memo(),
            final(self).transcribe() == old(self).transcribe(),
            forall|s: &Store| old(self).wf(s) ==> final(self).wf(s),
            forall|s: &Store, z: ZPtr| final(self).witness_value(s, z) == old(self).witness_value(s, z),
    {
        self.acc = Some(alloc_num(Fe::zero()));
        self.transcript = CircuitTranscript::new();
    }
}

/// A factorial query inside the circuit: its argument as an allocated pointer.
#[derive(Clone, Copy, Debug, PartialEq, Eq, Structural)]
pub enum DemoCircuitQuery {
    Factorial(ZPtr),
}

impl DemoCircuitQuery {
    pub open spec fn wf(&self) -> bool {
        match self {
            DemoCircuitQuery::Factorial(n) => zwf(*n),
        }
    }

    /// The hashed heap form of the subquery `(factorial . n - 1)`.
    pub open spec fn child_key(&self) -> ZPtr {
        cons_z(
            ZPtr { tag: TAG_SYM, value: sym_hash(factorial_name()) },
            num_z(fsub(self->Factorial_0.value, Fe { v: 1 })),
        )
    }

    /// What evaluating the query in the circuit gives: the subquery is synthesized in every case
    /// (as a dummy where `n` is zero), and its result used where `n` is not zero.
    pub open spec fn eval_result(
        &self,
        s: &Store,
        scope: &CircuitScope,
        acc: ZPtr,
        transcript: CircuitTranscript,
    ) -> Result<(ZPtr, ZPtr, CircuitTranscript), SynthesisError> {
        let n = self->Factorial_0.value;
        match scope.query_result(s, self.child_key(), acc, transcript, n.v != 0, false) {
            Err(e) => Err(e),
            Ok(q) => if n.v == 0 {
                Ok((num_z(Fe { v: 1 }), acc, transcript))
            } else {
                Ok((num_z(fmul(n, q.0.value)), q.1, q.2))
            },
        }
    }
}

/// A family of queries inside the circuit.
pub trait CircuitQuery: Sized {
    /// The query's wires are in range.
    spec fn well_formed(&self) -> bool;

    /// The number of families.
    spec fn family_count() -> nat;

    /// The canonical name of the family.
    spec fn family_name(&self) -> Seq<u8>;

    /// The circuit query of the heap form `ptr`, if it is one.
    fn from_ptr(s: &Store, ptr: Ptr) -> (r: Option<Self>)
        requires
            s.wf(),
            s.valid(ptr),
        ensures
            r matches Some(q) ==> q.well_formed(),
    ;

    /// The dummy of the family `index`.
    fn dummy_from_index(index: usize) -> (r: Self)
        requires
            index < Self::family_count(),
        ensures
            r.well_formed(),
    ;

    /// The canonical name of the query's family.
    fn symbol(&self) -> (r: Vec<u8>)
        ensures
            r@ == self.family_name(),
    ;

    /// Evaluates the query in the circuit: its value, and the accumulator and transcript after
    /// the insertions of its subqueries.
    fn synthesize_eval(
        &self,
        s: &Store,
        scope: &CircuitScope,
        acc: &ZPtr,
        transcript: &CircuitTranscript,
    ) -> (res: Result<(ZPtr, ZPtr, CircuitTranscript), SynthesisError>)
        requires
            self.well_formed(),
            scope.wf(s),
            zwf(*acc),
            zwf(transcript.value()),
        ensures
            res matches Ok(r) ==> zwf(r.0) && zwf(r.1) && zwf(r.2.value()),
    ;
}

/// A query whose result combines the result of one subquery.
pub trait RecursiveQuery: CircuitQuery {
    /// The query's result from its subquery's result.
    fn post_recursion(&self, subquery_result: &ZPtr) -> (r: ZPtr)
        requires
            self.well_formed(),
            zwf(*subquery_result),
        ensures
            zwf(r),
    ;
}

impl CircuitQuery for DemoCircuitQuery {
    open spec fn well_formed(&self) -> bool {
        self.wf()
    }

    open spec fn family_count() -> nat {
        DemoQuery::count_spec()
    }

    open spec fn family_name(&self) -> Seq<u8> {
        factorial_name()
    }

    /// The circuit query of the heap form `ptr`, if it is one.
    fn from_ptr(s: &Store, ptr: Ptr) -> (r: Option<DemoCircuitQuery>)
        ensures
            r is Some <==> is_form(s, ptr),
            r matches Some(q) ==> q.wf() && q == DemoCircuitQuery::Factorial(
                s.z(decode(s, ptr)->Some_0.arg()),
            ),
    {
        match DemoQuery::from_ptr(s, ptr) {
            Some(q) => {
                proof {
                    s.lemma_z(ptr);
                }
                Some(q.to_circuit(s))
            },
            None => None,
        }
    }

    /// The dummy of the family `index`: the factorial of zero.
    fn dummy_from_index(index: usize) -> (r: DemoCircuitQuery)
        ensures
            r == DemoCircuitQuery::Factorial(num_z(Fe { v: 0 })),
    {
        DemoCircuitQuery::Factorial(alloc_num(Fe::zero()))
    }

    /// The canonical name of the query's family.
    fn symbol(&self) -> (r: Vec<u8>) {
        DemoQuery::Factorial(Ptr { idx: 0 }).symbol()
    }

    /// `(factorial . n)` in the circuit: the base case `1` where `n` is zero; otherwise the
    /// subquery `(factorial . n - 1)`, inserted, and its result times `n`.
    fn synthesize_eval(
        &self,
        s: &Store,
        scope: &CircuitScope,
        acc: &ZPtr,
        transcript: &CircuitTranscript,
    ) -> (res: Result<(ZPtr, ZPtr, CircuitTranscript), SynthesisError>)
        ensures
            res == self.eval_result(s, scope, *acc, *transcript),
    {
        match self {
            DemoCircuitQuery::Factorial(n) => {
                let base_case = alloc_num(Fe::one());
                let n_is_zero = n.value.is_zero();
                let new_n = n.value.sub(Fe::one());
                let new_num = alloc_num(new_n);
                self.recurse(s, scope, &new_num, !n_is_zero, (base_case, *acc, *transcript))
            },
        }
    }
}

impl RecursiveQuery for DemoCircuitQuery {
    /// The query's result from its subquery's result: `n * (n - 1)!`.
    fn post_recursion(&self, subquery_result: &ZPtr) -> (r: ZPtr)
        ensures
            r == num_z(fmul(self->Factorial_0.value, subquery_result.value)),
    {
        match self {
            DemoCircuitQuery::Factorial(n) => alloc_num(n.value.mul(subquery_result.value)),
        }
    }
}

impl DemoCircuitQuery {
    /// The subquery on `args` under `is_recursive`: its result combined by `post_recursion`
    /// where `is_recursive` holds, else the base case with the accumulator and transcript as
    /// they were.
    #[verifier::rlimit(50)]
    fn recurse(
        &self,
        s: &Store,
        scope: &CircuitScope,
        args: &ZPtr,
        is_recursive: bool,
        base: (ZPtr, ZPtr, CircuitTranscript),
    ) -> (res: Result<(ZPtr, ZPtr, CircuitTranscript), SynthesisError>)
        requires
            self.wf(),
            scope.wf(s),
            zwf(*args),
            zwf(base.0),
            zwf(base.1),
            zwf(base.2.value()),
        ensures
            res matches Ok(r) ==> zwf(r.0) && zwf(r.1) && zwf(r.2.value()),
            res == (match scope.query_result(
                s,
                cons_z(ZPtr { tag: TAG_SYM, value: sym_hash(factorial_name()) }, *args),
                base.1,
                base.2,
                is_recursive,
                false,
            ) {
                Err(e) => Err(e),
                Ok(q) => if is_recursive {
                    Ok((num_z(fmul(self->Factorial_0.value, q.0.value)), q.1, q.2))
                } else {
                    Ok(base)
                },
            }),
    {
        let name = self.symbol();
        let sym = symbol_z(&name);
        let key = construct_cons(sym, *args);
        let sub = scope.synthesize_internal_query(s, &key, &base.1, &base.2, is_recursive);
        let (sub_result, new_acc, new_transcript) = match sub {
            Ok(t) => t,
            Err(e) => {
                return Err(e);
            },
        };
        proof {
            assert(key == cons_z(ZPtr { tag: TAG_SYM, value: sym_hash(factorial_name()) }, *args));
            assert(zwf(sub_result));
        }
        let recursive_result = self.post_recursion(&sub_result);
        let value = pick(is_recursive, recursive_result, base.0);
        let acc = pick(is_recursive, new_acc, base.1);
        let transcript = CircuitTranscript::pick(is_recursive, &new_transcript, &base.2);
        Ok((value, acc, transcript))
    }
}

impl DemoQuery {
    /// The query's circuit form: its argument's hashed form.
    pub fn to_circuit(&self, s: &Store) -> (r: DemoCircuitQuery)
        requires
            s.wf(),
            s.valid(self.arg()),
        ensures
            r == DemoCircuitQuery::Factorial(s.z(self.arg())),
            r.wf(),
    {
        match self {
            DemoQuery::Factorial(n) => DemoCircuitQuery::Factorial(s.hash_ptr(*n)),
        }
    }
}

/// The keys in order, then `None` up to `width` slots.
pub open spec fn pad_seq(keys: Seq<Ptr>, width: nat) -> Seq<Option<Ptr>> {
    Seq::new(
        if keys.len() < width {
            width
        } else {
            keys.len()
        },
        |i: int|
            if i < keys.len() {
                Some(keys[i])
            } else {
                None
            },
    )
}

/// Relies on `itertools::Itertools::pad_using`: the items in order, then the filler up to
/// `width` items.
#[verifier::external_body]
fn pad_keys(keys: &Vec<Ptr>, width: usize) -> (r: Vec<Option<Ptr>>)
    ensures
        r@.len() == if keys@.len() < width {
            width as int
        } else {
            keys@.len() as int
        },
        forall|i: int| 0 <= i < keys@.len() ==> #[trigger] r@[i] == Some(keys@[i]),
        forall|i: int| keys@.len() <= i < r@.len() ==> #[trigger] r@[i] is None,
{
    keys.iter().map(|k| Some(*k)).pad_using(width, |i| dummy_slot(i)).collect()
}

/// The key of a padding slot: none, so the slot proves its family's dummy.
fn dummy_slot(_slot: usize) -> (r: Option<Ptr>)
    ensures
        r is None,
{
    None
}

/// One fold step: proves up to `rc` keys of one family, padding with dummies.
pub struct CoroutineCircuit {
    queries: HashMap<usize, Ptr>,
    memoset: LogMemoCircuit,
    keys: Vec<Ptr>,
    query_index: usize,
    transcribe_internal_insertions: bool,
    rc: usize,
}

impl CoroutineCircuit {
    pub closed spec fn keys_spec(&self) -> Seq<Ptr> {
        self.keys@
    }

    /// The step's multiplicities.
    pub closed spec fn counts(&self) -> spec_fn(Ptr) -> nat {
        |x: Ptr| self.memoset.count_of(x)
    }

    pub closed spec fn queries_spec(&self) -> Map<usize, Ptr> {
        self.queries@
    }

    pub closed spec fn transcribe_spec(&self) -> bool {
        self.transcribe_internal_insertions
    }

    pub closed spec fn rc_spec(&self) -> nat {
        self.rc as nat
    }

    /// The family the step proves.
    pub closed spec fn query_index_spec(&self) -> usize {
        self.query_index
    }

    /// What the step gives from the accumulator `acc` and the transcript `transcript` under the
    /// challenge `r`: its slots proved in order, dummies after its keys up to `rc` slots.
    pub open spec fn step_result(
        &self,
        s: &Store,
        r: Fe,
        acc: ZPtr,
        transcript: ZPtr,
    ) -> Result<(ZPtr, CircuitTranscript), SynthesisError> {
        CircuitScope::fresh(r, self.counts(), self.queries_spec(), self.transcribe_spec()).slots_result(
            s,
            pad_seq(self.keys_spec(), self.rc_spec()),
            acc,
            CircuitTranscript::from_value(transcript),
        )
    }

    pub closed spec fn wf(&self, s: &Store) -> bool {
        &&& s.wf()
        &&& self.memoset.wf()
        &&& forall|k: usize| #[trigger] self.queries@.contains_key(k) ==> s.valid(self.queries@[k])
        &&& forall|i: int| 0 <= i < self.keys@.len() ==> is_form(s, #[trigger] self.keys@[i])
        &&& self.query_index < DemoQuery::count_spec()
        &&& self.keys@.len() <= self.rc
    }

    /// A step over `keys` of the family `query_index`, `rc` slots wide.
    pub fn new(
        scope: &Scope,
        s: &Store,
        memoset: LogMemoCircuit,
        keys: Vec<Ptr>,
        query_index: usize,
        rc: usize,
    ) -> (r: CoroutineCircuit)
        requires
            s.wf(),
            scope.wf(s),
            memoset.wf(),
            keys@.len() <= rc,
            forall|i: int| 0 <= i < keys@.len() ==> is_form(s, #[trigger] keys@[i]),
            query_index < DemoQuery::count_spec(),
        ensures
            r.wf(s),
            r.keys_spec() == keys@,
            r.queries_spec() == scope.queries_view(),
            r.transcribe_spec() == scope.transcribe(),
            r.rc_spec() == rc,
            r.query_index_spec() == query_index,
            forall|x: Ptr| #[trigger] (r.counts())(x) == memoset.count_of(x),
    {
        proof {
            scope.lemma_query_values(s);
        }
        let queries = scope.queries_map().clone();
        proof {
            assert(queries@ == scope.queries_view());
            assert forall|k: usize| #[trigger] queries@.contains_key(k) implies s.valid(queries@[k]) by {
                assert(scope.queries_view().contains_key(k));
            }
        }
        CoroutineCircuit {
            queries,
            memoset,
            keys,
            query_index,
            transcribe_internal_insertions: scope.transcribe_internal_insertions(),
            rc,
        }
    }

    /// Runs the step on `z = [c, e, k, acc, transcript, r]`: `c`, `e` and `k` pass through; a
    /// step whose slots are all dummies leaves `acc` and `transcript` as they were.
    pub fn synthesize(&mut self, s: &Store, z: &Vec<ZPtr>) -> (res: Result<(Option<Fe>, Vec<ZPtr>), SynthesisError>)
        requires
            old(self).wf(s),
            z@.len() == 6,
            forall|i: int| 0 <= i < 6 ==> zwf(#[trigger] z@[i]),
        ensures
            res matches Ok(out) ==> {
                &&& out.0 is None
                &&& out.1@.len() == 6
                &&& out.1@[0] == z@[0] && out.1@[1] == z@[1] && out.1@[2] == z@[2]
                &&& forall|i: int| 0 <= i < 6 ==> zwf(#[trigger] out.1@[i])
                &&& out.1@[5] == num_z(z@[5].value)
                &&& old(self).keys_spec().len() == 0 ==> out.1@[3] == z@[3] && out.1@[4] == z@[4]
                &&& old(self).step_result(s, z@[5].value, z@[3], z@[4]) == Ok::<
                    (ZPtr, CircuitTranscript),
                    SynthesisError,
                >((out.1@[3], CircuitTranscript::from_value(out.1@[4])))
            },
            res is Ok <==> old(self).step_result(s, z@[5].value, z@[3], z@[4]) is Ok,
    {
        let c = z[0];
        let e = z[1];
        let k = z[2];
        let memoset_acc = z[3];
        let transcript = z[4];
        let r = z[5];
        let mut circuit_scope = CircuitScope::from_queries(
            s,
            self.memoset.duplicate(),
            &self.queries,
            self.transcribe_internal_insertions,
        );
        circuit_scope.update_from_io(memoset_acc, transcript, &r);
        let padded = pad_keys(&self.keys, self.rc);
        let ghost fc = CircuitScope::fresh(r.value, self.counts(), self.queries@, self.transcribe_internal_insertions);
        proof {
            assert forall|x: Ptr| #[trigger] circuit_scope.memoset.count_of(x) == (self.counts())(x) by {
                assert(circuit_scope.memo().count_of(x) == self.memoset.count_of(x));
            }
            assert(circuit_scope.agrees(r.value, self.counts(), self.queries@, self.transcribe_internal_insertions));
            circuit_scope.lemma_fresh(r.value, self.counts(), self.queries@, self.transcribe_internal_insertions);
            assert(padded@ =~= pad_seq(self.keys@, self.rc as nat));
            assert(padded@.subrange(0, 0) =~= Seq::<Option<Ptr>>::empty());
            assert(CircuitTranscript::from_value(transcript) == circuit_scope.transcript_spec());
        }
        let ghost start_t = circuit_scope.transcript_spec();
        let mut i: usize = 0;
        while i < padded.len()
            invariant
                fc == CircuitScope::fresh(r.value, self.counts(), self.queries@, self.transcribe_internal_insertions),
                fc.same_setup(&circuit_scope),
                padded@ == pad_seq(self.keys@, self.rc as nat),
                i <= padded@.len(),
                start_t == CircuitTranscript::from_value(transcript),
                z@.len() == 6,
                r == z@[5],
                memoset_acc == z@[3],
                transcript == z@[4],
                fc.slots_result(s, padded@.subrange(0, i as int), memoset_acc, start_t) == Ok::<
                    (ZPtr, CircuitTranscript),
                    SynthesisError,
                >((circuit_scope.acc_spec()->Some_0, circuit_scope.transcript_spec())),
                *self == *old(self),
                circuit_scope.wf(s),
                circuit_scope.acc_spec() is Some,
                circuit_scope.memo().r_spec() == r.value,
                old(self).wf(s),
                self.keys@ == old(self).keys_spec(),
                self.query_index == old(self).query_index,
                padded@.len() >= self.keys@.len(),
                forall|j: int| 0 <= j < self.keys@.len() ==> #[trigger] padded@[j] == Some(self.keys@[j]),
                forall|j: int| self.keys@.len() <= j < padded@.len() ==> #[trigger] padded@[j] is None,
                self.keys@.len() == 0 ==> circuit_scope.acc_spec() == Some(memoset_acc)
                    && circuit_scope.transcript_spec().value() == transcript,
            decreases padded@.len() - i,
        {
            let key = padded[i];
            proof {
                if i < self.keys@.len() {
                    assert(is_form(s, self.keys@[i as int]));
                }
            }
            let ghost before = circuit_scope;
            proof {
                assert(padded@.subrange(0, i as int + 1).drop_last() =~= padded@.subrange(0, i as int));
                assert(padded@.subrange(0, i as int + 1).last() == key);
                fc.lemma_slot_same(&before, s);
            }
            let step = circuit_scope.synthesize_prove_key_query(s, key, self.query_index);
            if step.is_err() {
                proof {
                    fc.lemma_slots_err(s, padded@, i as int, memoset_acc, start_t);
                    assert(r == z@[5] && memoset_acc == z@[3] && transcript == z@[4]);
                    assert(self.counts() == old(self).counts());
                    assert(fc == CircuitScope::fresh(
                        z@[5].value,
                        old(self).counts(),
                        old(self).queries_spec(),
                        old(self).transcribe_spec(),
                    ));
                    assert(padded@ == pad_seq(old(self).keys_spec(), old(self).rc_spec()));
                }
                return Err(step.unwrap_err());
            }
            proof {
                assert(before.same_setup(&circuit_scope));
            }
            i = i + 1;
        }
        proof {
            assert(padded@.subrange(0, i as int) =~= padded@);
        }
        let (memoset_acc, transcript, r_num) = circuit_scope.io();
        let r = alloc_num(r_num);
        let z_out = vec![c, e, k, memoset_acc, transcript, r];
        let next_pc: Option<Fe> = None;
        Ok((next_pc, z_out))
    }
}

impl CircuitScope {
    /// A scope's top-level insertions give what a fresh scope with its setup gives.
    pub(crate) proof fn lemma_toplevel_fresh(
        &self,
        s: &Store,
        kvs: Seq<Ptr>,
        acc: ZPtr,
        t: CircuitTranscript,
        r: Fe,
        counts: spec_fn(Ptr) -> nat,
        queries: Map<usize, Ptr>,
        transcribe: bool,
    )
        requires
            self.memo().r_spec() == r,
            forall|x: Ptr| #[trigger] self.memo().count_of(x) == counts(x),
            self.queries_view() == queries,
            self.transcribe() == transcribe,
        ensures
            self.toplevel_result(s, kvs, acc, t) == CircuitScope::fresh(
                r,
                counts,
                queries,
                transcribe,
            ).toplevel_result(s, kvs, acc, t),
    {
        assert(self.agrees(r, counts, queries, transcribe));
        self.lemma_fresh(r, counts, queries, transcribe);
        self.lemma_toplevel_same(&CircuitScope::fresh(r, counts, queries, transcribe), s, kvs, acc, t);
    }
}

/// Proves the keys of the family `index` in fold steps of `rc` slots, each a `CoroutineCircuit`
/// over the wires `z = [c, e, k, acc, transcript, r]`; the last step is padded with dummies.
pub fn synthesize_family(
    scope: &Scope,
    s: &Store,
    memoset: &LogMemoCircuit,
    keys: &Vec<Ptr>,
    index: usize,
    rc: usize,
    z_in: Vec<ZPtr>,
) -> (res: Result<Vec<ZPtr>, SynthesisError>)
    requires
        s.wf(),
        scope.wf(s),
        memoset.wf(),
        rc > 0,
        index < DemoQuery::count_spec(),
        forall|j: int| 0 <= j < keys@.len() ==> is_form(s, #[trigger] keys@[j]),
        z_in@.len() == 6,
        forall|i: int| 0 <= i < 6 ==> zwf(#[trigger] z_in@[i]),
    ensures
        res is Ok <==> CircuitScope::fresh(
            z_in@[5].value,
            |x: Ptr| memoset.count_of(x),
            scope.queries_view(),
            scope.transcribe(),
        ).chunks_result(s, keys@, rc as nat, z_in@[3], CircuitTranscript::from_value(z_in@[4])) is Ok,
        res matches Ok(zo) ==> {
            &&& zo@.len() == 6
            &&& forall|i: int| 0 <= i < 6 ==> zwf(#[trigger] zo@[i])
            &&& zo@[5].value == z_in@[5].value
            &&& CircuitScope::fresh(
                z_in@[5].value,
                |x: Ptr| memoset.count_of(x),
                scope.queries_view(),
                scope.transcribe(),
            ).chunks_result(s, keys@, rc as nat, z_in@[3], CircuitTranscript::from_value(z_in@[4]))
                == Ok::<(ZPtr, CircuitTranscript), SynthesisError>(
                (zo@[3], CircuitTranscript::from_value(zo@[4])),
            )
        },
{
    let ghost fc = CircuitScope::fresh(
        z_in@[5].value,
        |x: Ptr| memoset.count_of(x),
        scope.queries_view(),
        scope.transcribe(),
    );
    let ghost z0 = z_in@;
    let mut z = z_in;
    let mut start: usize = 0;
    proof {
        assert(keys@.subrange(0, keys@.len() as int) =~= keys@);
    }
    while start < keys.len()
        invariant
            s.wf(),
            scope.wf(s),
            memoset.wf(),
            rc > 0,
            index < DemoQuery::count_spec(),
            forall|j: int| 0 <= j < keys@.len() ==> is_form(s, #[trigger] keys@[j]),
            start <= keys@.len(),
            z@.len() == 6,
            forall|i: int| 0 <= i < 6 ==> zwf(#[trigger] z@[i]),
            z@[5].value == z0[5].value,
            z0 == z_in@,
            fc == CircuitScope::fresh(
                z0[5].value,
                |x: Ptr| memoset.count_of(x),
                scope.queries_view(),
                scope.transcribe(),
            ),
            fc.chunks_result(s, keys@, rc as nat, z0[3], CircuitTranscript::from_value(z0[4]))
                == fc.chunks_result(
                s,
                keys@.subrange(start as int, keys@.len() as int),
                rc as nat,
                z@[3],
                CircuitTranscript::from_value(z@[4]),
            ),
        decreases keys@.len() - start,
    {
        let end: usize = if keys.len() - start < rc {
            keys.len()
        } else {
            start + rc
        };
        let chunk = copy_keys(keys, start, end);
        let mut circuit = CoroutineCircuit::new(scope, s, memoset.duplicate(), chunk, index, rc);
        let ghost rest = keys@.subrange(start as int, keys@.len() as int);
        let ghost t0 = CircuitTranscript::from_value(z@[4]);
        proof {
            let n = (end - start) as int;
            assert(rest.subrange(0, n) =~= keys@.subrange(start as int, end as int));
            assert(rest.subrange(n, rest.len() as int) =~= keys@.subrange(end as int, keys@.len() as int));
            assert(circuit.counts() =~= (|x: Ptr| memoset.count_of(x)));
            assert(circuit.counts() == (|x: Ptr| memoset.count_of(x)));
            assert(circuit.queries_spec() == scope.queries_view());
            assert(CircuitScope::fresh(
                z@[5].value,
                circuit.counts(),
                circuit.queries_spec(),
                circuit.transcribe_spec(),
            ) == fc);
            assert(circuit.step_result(s, z@[5].value, z@[3], z@[4]) == fc.slots_result(
                s,
                pad_seq(rest.subrange(0, n), rc as nat),
                z@[3],
                t0,
            ));
            assert(rest.len() > 0);
            assert(fc.chunks_result(s, rest, rc as nat, z@[3], t0) == match fc.slots_result(
                s,
                pad_seq(rest.subrange(0, n), rc as nat),
                z@[3],
                t0,
            ) {
                Err(e) => Err(e),
                Ok(at) => fc.chunks_result(s, rest.subrange(n, rest.len() as int), rc as nat, at.0, at.1),
            });
        }
        let ghost cc = circuit;
        let ghost zb = z@;
        let step = circuit.synthesize(s, &z);
        match step {
            Ok((_next_pc, z_out)) => {
                z = z_out;
            },
            Err(e) => {
                proof {
                    assert(cc.step_result(s, zb[5].value, zb[3], zb[4]) is Err);
                    assert(fc.chunks_result(s, rest, rc as nat, zb[3], t0) is Err);
                }
                return Err(e);
            },
        }
        start = end;
    }
    proof {
        assert(keys@.subrange(start as int, keys@.len() as int) =~= Seq::<Ptr>::empty());
    }
    Ok(z)
}

/// The keys of `keys` from `start` up to `end`.
fn copy_keys(keys: &Vec<Ptr>, start: usize, end: usize) -> (r: Vec<Ptr>)
    requires
        start <= end <= keys@.len(),
    ensures
        r@ == keys@.subrange(start as int, end as int),
{
    let mut r: Vec<Ptr> = Vec::new();
    let mut i: usize = start;
    while i < end
        invariant
            start <= i <= end <= keys@.len(),
            r@ == keys@.subrange(start as int, i as int),
        decreases end - i,
    {
        r.push(keys[i]);
        proof {
            assert(keys@.subrange(start as int, i as int + 1) =~= keys@.subrange(start as int, i as int).push(keys@[i as int]));
        }
        i = i + 1;
    }
    r
}

} // verus!
