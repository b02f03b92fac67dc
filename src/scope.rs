//! The evaluation-time bookkeeper: records top-level queries, the subqueries they make, and the
//! memoized results, then linearizes them into the transcript.
use crate::circuit::{
    alloc_nil, alloc_num, nil_z, num_z, synthesize_family, zwf, CircuitScope, CircuitTranscript,
    ConstraintSystem, SynthesisError,
};
use crate::field::Fe;
use crate::memo::{LogMemo, MemoSet};
use crate::query::{decode, is_form, DemoQuery, Query};
use crate::store::{NodeV, Ptr, Store, ZPtr};
use crate::transcript::{count_fe, Transcript};
use indexmap::IndexSet;
use std::collections::HashMap;
use vstd::prelude::*;

verus! {

broadcast use vstd::std_specs::hash::group_hash_axioms;

#[verifier::external_type_specification]
#[verifier::external_body]
#[verifier::reject_recursive_types(T)]
#[verifier::reject_recursive_types(S)]
pub struct ExIndexSet<T, S>(IndexSet<T, S>);

/// What an insertion-ordered set holds, in the order of first insertion.
pub uninterp spec fn index_set_items(set: IndexSet<usize>) -> Seq<usize>;

/// Relies on `indexmap::IndexSet::new`: the set starts empty.
#[verifier::external_body]
fn index_set_new() -> (r: IndexSet<usize>)
    ensures
        index_set_items(r) == Seq::<usize>::empty(),
{
    IndexSet::new()
}

/// Relies on `indexmap::IndexSet::insert`: a new value goes last and `true` comes back; a value
/// already present leaves the set and its order as they were, and `false` comes back.
#[verifier::external_body]
fn index_set_insert(set: &mut IndexSet<usize>, x: usize) -> (r: bool)
    ensures
        r == !index_set_items(*old(set)).contains(x),
        index_set_items(*final(set)) == if r {
            index_set_items(*old(set)).push(x)
        } else {
            index_set_items(*old(set))
        },
{
    set.insert(x)
}

/// Relies on `indexmap::IndexSet::iter`: the values in their order.
#[verifier::external_body]
fn index_set_to_vec(set: &IndexSet<usize>) -> (r: Vec<usize>)
    ensures
        r@ == index_set_items(*set),
{
    set.iter().copied().collect()
}

/// The sequence `ks` with each value kept at its first occurrence only.
pub open spec fn dedup(ks: Seq<Ptr>) -> Seq<Ptr>
    decreases ks.len(),
{
    if ks.len() == 0 {
        Seq::empty()
    } else {
        let d = dedup(ks.drop_last());
        if d.contains(ks.last()) {
            d
        } else {
            d.push(ks.last())
        }
    }
}

impl Default for Scope {
    /// A scope with the default settings: internal insertions not transcribed, one query per
    /// fold step.
    fn default() -> (r: Scope)
        ensures
            r.queries_view() == Map::<usize, Ptr>::empty(),
            r.toplevel() == Seq::<Ptr>::empty(),
            r.internal() == Seq::<Ptr>::empty(),
            r.transcribe() == DEFAULT_TRANSCRIBE_INTERNAL_INSERTIONS,
            r.rc() == DEFAULT_RC_FOR_QUERY,
            !r.memo().finalized(),
            r.added_count() == 0,
            forall|s: &Store| s.wf() ==> r.wf(s),
    {
        Scope::new(DEFAULT_TRANSCRIBE_INTERNAL_INSERTIONS, DEFAULT_RC_FOR_QUERY)
    }
}

/// How many times `x` occurs in `s`.
pub open spec fn occ<A>(s: Seq<A>, x: A) -> nat
    decreases s.len(),
{
    if s.len() == 0 {
        0
    } else {
        occ(s.drop_last(), x) + if s.last() == x {
            1nat
        } else {
            0nat
        }
    }
}

pub proof fn lemma_occ_push<A>(s: Seq<A>, y: A)
    ensures
        forall|x: A| #[trigger] occ(s.push(y), x) == occ(s, x) + if y == x {
            1nat
        } else {
            0nat
        },
{
    assert(s.push(y).drop_last() =~= s);
}

proof fn lemma_occ_le_len<A>(s: Seq<A>, x: A)
    ensures
        occ(s, x) <= s.len(),
    decreases s.len(),
{
    if s.len() > 0 {
        lemma_occ_le_len(s.drop_last(), x);
    }
}

proof fn lemma_occ_concat<A>(a: Seq<A>, b: Seq<A>, x: A)
    ensures
        occ(a + b, x) == occ(a, x) + occ(b, x),
    decreases b.len(),
{
    if b.len() == 0 {
        assert(a + b =~= a);
    } else {
        lemma_occ_concat(a, b.drop_last(), x);
        assert((a + b).drop_last() =~= a + b.drop_last());
    }
}

/// The entries of `log` whose parent is `p`, in order.
pub open spec fn filter_parent(log: Seq<Ptr>, parents: Seq<Ptr>, p: Ptr) -> Seq<Ptr>
    decreases log.len(),
{
    if log.len() == 0 || parents.len() == 0 {
        Seq::empty()
    } else {
        let f = filter_parent(log.drop_last(), parents.drop_last(), p);
        if parents.last() == p {
            f.push(log.last())
        } else {
            f
        }
    }
}

proof fn lemma_filter_push(log: Seq<Ptr>, parents: Seq<Ptr>, c: Ptr, pl: Ptr)
    requires
        log.len() == parents.len(),
    ensures
        forall|p: Ptr| #[trigger] filter_parent(log.push(c), parents.push(pl), p) == if pl == p {
            filter_parent(log, parents, p).push(c)
        } else {
            filter_parent(log, parents, p)
        },
{
    assert(log.push(c).drop_last() =~= log);
    assert(parents.push(pl).drop_last() =~= parents);
}

/// `p` is the heap form of the factorial query about the number `j`.
pub open spec fn is_fact_form(s: &Store, p: Ptr, j: nat) -> bool {
    &&& s.valid(p)
    &&& decode(s, p) is Some
    &&& s.valid(decode(s, p)->Some_0.arg())
    &&& s.node(decode(s, p)->Some_0.arg()) == NodeV::Num(Fe { v: j as u64 })
}

/// `d` lists, in order, the subquery keys that evaluating a query about `m` records, where the
/// keys of `memo` are memoized already: none for `m` zero, else the key of `m - 1`, then the keys
/// that the subquery records in turn.
pub open spec fn is_step_chain(s: &Store, memo: Set<usize>, m: nat, d: Seq<Ptr>) -> bool
    decreases m, 0nat,
{
    if m == 0 {
        d.len() == 0
    } else {
        &&& d.len() > 0
        &&& is_fact_form(s, d[0], (m - 1) as nat)
        &&& is_chain(s, memo, d[0], (m - 1) as nat, d.drop_first())
    }
}

/// `d` lists, in order, the subquery keys that querying the key `k`, about `m`, records: none
/// where `k` is memoized already, else those of its evaluation.
pub open spec fn is_chain(s: &Store, memo: Set<usize>, k: Ptr, m: nat, d: Seq<Ptr>) -> bool
    decreases m, 1nat,
{
    if memo.contains(k.idx) {
        d.len() == 0
    } else {
        is_step_chain(s, memo, m, d)
    }
}

/// The entries of `n` after the prefix `o`.
pub open spec fn added(o: Seq<Ptr>, n: Seq<Ptr>) -> Seq<Ptr> {
    n.subrange(o.len() as int, n.len() as int)
}

proof fn lemma_fact_form_extends(o: &Store, s: &Store, p: Ptr, j: nat)
    requires
        o.wf(),
        s.extends(o),
        is_fact_form(o, p, j),
    ensures
        is_fact_form(s, p, j),
{
    o.lemma_z(p);
    assert(o.valid(o.node(p)->Cons_0));
    assert(o.valid(o.node(p)->Cons_1));
}

proof fn lemma_chain_extends(o: &Store, s: &Store, memo: Set<usize>, k: Ptr, m: nat, d: Seq<Ptr>)
    requires
        o.wf(),
        s.extends(o),
        is_chain(o, memo, k, m, d),
    ensures
        is_chain(s, memo, k, m, d),
    decreases m,
{
    if !memo.contains(k.idx) && m > 0 {
        lemma_fact_form_extends(o, s, d[0], (m - 1) as nat);
        lemma_chain_extends(o, s, memo, d[0], (m - 1) as nat, d.drop_first());
    }
}

proof fn lemma_step_chain_extends(o: &Store, s: &Store, memo: Set<usize>, m: nat, d: Seq<Ptr>)
    requires
        o.wf(),
        s.extends(o),
        is_step_chain(o, memo, m, d),
    ensures
        is_step_chain(s, memo, m, d),
{
    if m > 0 {
        lemma_fact_form_extends(o, s, d[0], (m - 1) as nat);
        lemma_chain_extends(o, s, memo, d[0], (m - 1) as nat, d.drop_first());
    }
}

/// The subquery keys of an evaluation: the key of its subquery, then the keys that records.
proof fn lemma_eval_chain(o: &Store, s: &Store, memo: Set<usize>, m: nat, d: Seq<Ptr>, child: DemoQuery)
    requires
        o.wf(),
        s.wf(),
        s.extends(o),
        m > 0,
        d.len() > 0,
        decode(o, d[0]) == Some(child),
        o.valid(child.arg()),
        o.node(child.arg()) == NodeV::Num(Fe { v: (m - 1) as u64 }),
        is_chain(o, memo, d[0], (m - 1) as nat, d.drop_first()),
    ensures
        is_step_chain(s, memo, m, d),
{
    assert(is_fact_form(o, d[0], (m - 1) as nat));
    assert(is_step_chain(o, memo, m, d));
    lemma_step_chain_extends(o, s, memo, m, d);
}

/// With nothing memoized, querying a key about `m` records the keys of `m - 1` down to `0`.
pub proof fn lemma_fresh_chain(s: &Store, k: Ptr, m: nat, d: Seq<Ptr>)
    requires
        is_chain(s, Set::empty(), k, m, d),
    ensures
        d.len() == m,
        forall|i: int| 0 <= i < d.len() ==> is_fact_form(s, #[trigger] d[i], (m - 1 - i) as nat),
    decreases m,
{
    if m > 0 {
        lemma_fresh_chain(s, d[0], (m - 1) as nat, d.drop_first());
        assert forall|i: int| 0 <= i < d.len() implies is_fact_form(s, #[trigger] d[i], (m - 1 - i) as nat) by {
            if i > 0 {
                assert(d[i] == d.drop_first()[i - 1]);
            }
        }
    }
}

/// A number has one factorial heap form in a store.
pub proof fn lemma_fact_form_unique(s: &Store, p: Ptr, q: Ptr, j: nat)
    requires
        s.wf(),
        is_fact_form(s, p, j),
        is_fact_form(s, q, j),
    ensures
        p == q,
{
    let a = decode(s, p)->Some_0.arg();
    let b = decode(s, q)->Some_0.arg();
    s.lemma_unique(a, b);
    assert(decode(s, p) == decode(s, q));
    crate::query::lemma_form_unique(s, p, q);
}

/// Heap forms of factorial queries about different numbers are different pointers.
proof fn lemma_fact_forms_differ(s: &Store, p: Ptr, q: Ptr, i: nat, j: nat)
    requires
        is_fact_form(s, p, i),
        is_fact_form(s, q, j),
        i < 0x1_0000_0000_0000_0000,
        j < 0x1_0000_0000_0000_0000,
        i != j,
    ensures
        p != q,
{
}

/// A transcript record: the insertion of a `(key . value)` record, or its removal with a
/// multiplicity.
pub enum Record {
    Insert(Ptr),
    Remove(Ptr, nat),
}

/// The transcript element `p` is the record `rec`: an insertion is the `(key . value)` record
/// itself; a removal is `((key . value) . count)`.
pub open spec fn encodes(s: &Store, p: Ptr, rec: Record) -> bool {
    match rec {
        Record::Insert(kv) => p == kv && s.valid(p),
        Record::Remove(kv, n) => {
            &&& s.valid(p)
            &&& s.node(p) is Cons
            &&& s.node(p)->Cons_0 == kv
            &&& s.valid(s.node(p)->Cons_1)
            &&& s.node(s.node(p)->Cons_1) == NodeV::Num(count_fe(n))
        },
    }
}

pub open spec fn encodes_all(s: &Store, items: Seq<Ptr>, recs: Seq<Record>) -> bool {
    &&& items.len() == recs.len()
    &&& forall|i: int| 0 <= i < items.len() ==> encodes(s, #[trigger] items[i], recs[i])
}

pub const DEFAULT_RC_FOR_QUERY: usize = 1;

pub const DEFAULT_TRANSCRIBE_INTERNAL_INSERTIONS: bool = false;

/// Records that one evaluation of a query about `m` adds to the memo set, at most.
pub open spec fn bound_eval(m: nat) -> nat {
    8 * m + 1
}

/// Records that one memoized query about `m` adds to the memo set, at most.
pub open spec fn bound_aux(m: nat) -> nat {
    8 * m + 2
}

/// Records that one subquery about `m` adds to the memo set, at most.
pub open spec fn bound_rec(m: nat) -> nat {
    8 * m + 6
}

/// The number a heap form's query is about.
pub open spec fn form_measure(s: &Store, form: Ptr) -> nat {
    decode(s, form)->Some_0.measure(s)
}

/// Records queries, subqueries and memoized results while a computation runs.
pub struct Scope {
    memoset: LogMemo,
    /// key => value
    queries: HashMap<usize, Ptr>,
    /// key => the heap forms of its subqueries, in the order of use
    dependencies: HashMap<usize, Vec<Ptr>>,
    /// the `(key . value)` records of top-level queries
    toplevel_insertions: Vec<Ptr>,
    /// the keys of subqueries, in the order of use
    internal_insertions: Vec<Ptr>,
    /// family index => the keys inserted, each once, in order of discovery
    unique_inserted_keys: HashMap<usize, Vec<Ptr>>,
    transcribe_internal_insertions: bool,
    default_rc: usize,
    /// key => its `(key . value)` record
    kvs: Ghost<Map<usize, Ptr>>,
    /// the key of each record added to the memo set, in order
    uses: Ghost<Seq<Ptr>>,
    /// each record added to the memo set, in order
    used_kvs: Ghost<Seq<Ptr>>,
    /// the key of each top-level insertion
    top_keys: Ghost<Seq<Ptr>>,
    /// each subquery recorded as a dependency, in order
    dep_log: Ghost<Seq<Ptr>>,
    /// the parent of each entry of `dep_log`
    dep_parents: Ghost<Seq<Ptr>>,
}

impl Scope {
    pub closed spec fn queries_view(&self) -> Map<usize, Ptr> {
        self.queries@
    }

    pub closed spec fn toplevel(&self) -> Seq<Ptr> {
        self.toplevel_insertions@
    }

    pub closed spec fn internal(&self) -> Seq<Ptr> {
        self.internal_insertions@
    }

    pub closed spec fn memo(&self) -> LogMemo {
        self.memoset
    }

    pub closed spec fn transcribe(&self) -> bool {
        self.transcribe_internal_insertions
    }

    pub closed spec fn rc(&self) -> usize {
        self.default_rc
    }

    pub closed spec fn added_count(&self) -> nat {
        self.uses@.len()
    }

    /// The key of each use of a query, top-level or as a subquery, in order of completion.
    pub closed spec fn uses(&self) -> Seq<Ptr> {
        self.uses@
    }

    /// Every use is recorded: each query has been used once per top-level query of it and once
    /// per subquery of it.
    pub closed spec fn balanced(&self) -> bool {
        &&& forall|x: Ptr| #[trigger]
            occ(self.uses@, x) == occ(self.top_keys@, x) + occ(self.internal_insertions@, x)
        &&& forall|x: Ptr| #[trigger] occ(self.dep_log@, x) == occ(self.internal_insertions@, x)
        &&& forall|i: int|
            0 <= i < self.dep_parents@.len() ==> (self.top_keys@ + self.internal_insertions@).contains(
                #[trigger] self.dep_parents@[i],
            )
    }

    /// What a step of evaluation adds to the dependency log: one entry per subquery, each under
    /// a parent that is a new subquery key or `parent`.
    pub closed spec fn logs_grow(&self, o: &Scope, parent: Ptr) -> bool {
        &&& o.dep_log@.is_prefix_of(self.dep_log@)
        &&& o.dep_parents@.is_prefix_of(self.dep_parents@)
        &&& forall|x: Ptr| #[trigger]
            occ(self.dep_log@, x) + occ(o.internal_insertions@, x) == occ(o.dep_log@, x) + occ(
                self.internal_insertions@,
                x,
            )
        &&& forall|i: int|
            o.dep_parents@.len() <= i < self.dep_parents@.len() ==> #[trigger] self.dep_parents@[i]
                == parent || self.internal_insertions@.subrange(
                o.internal_insertions@.len() as int,
                self.internal_insertions@.len() as int,
            ).contains(self.dep_parents@[i])
    }

    /// The `(key . value)` record of the memoized key `k`.
    pub closed spec fn kv_of(&self, k: usize) -> Ptr {
        self.kvs@[k]
    }

    /// The memo table, key by key, is correct and every record it names is in the store.
    pub closed spec fn wf_queries(&self, s: &Store) -> bool {
        forall|k: usize| #[trigger]
            self.queries@.contains_key(k) ==> {
                let p = Ptr { idx: k };
                &&& is_form(s, p)
                &&& s.valid(self.queries@[k])
                &&& s.node(self.queries@[k]) == NodeV::Num(decode(s, p)->Some_0.result(s))
                &&& self.kvs@.contains_key(k)
                &&& s.valid(self.kvs@[k])
                &&& s.node(self.kvs@[k]) == NodeV::Cons(p, self.queries@[k])
            }
    }

    /// Well-formed while the keys in `pending` are being evaluated.
    pub closed spec fn wf_pending(&self, s: &Store, pending: Set<usize>) -> bool {
        &&& s.wf()
        &&& self.memoset.wf()
        &&& self.default_rc > 0
        &&& self.wf_queries(s)
        &&& forall|i: int|
            0 <= i < self.toplevel_insertions@.len() ==> {
                let kv = #[trigger] self.toplevel_insertions@[i];
                &&& s.valid(kv)
                &&& s.node(kv) is Cons
                &&& self.queries@.contains_key(s.node(kv)->Cons_0.idx)
                &&& kv == self.kvs@[s.node(kv)->Cons_0.idx]
            }
        &&& forall|i: int|
            0 <= i < self.internal_insertions@.len() ==> {
                let k = #[trigger] self.internal_insertions@[i];
                &&& is_form(s, k)
                &&& self.queries@.contains_key(k.idx) || pending.contains(k.idx)
            }
        &&& forall|k: usize|
            #![trigger self.dependencies@[k]]
            self.dependencies@.contains_key(k) ==> forall|j: int|
                0 <= j < self.dependencies@[k]@.len() ==> self.queries@.contains_key(
                    #[trigger] self.dependencies@[k]@[j].idx,
                ) && Ptr { idx: self.dependencies@[k]@[j].idx } == self.dependencies@[k]@[j]
        &&& forall|x: Ptr| #[trigger] self.memoset.count_of(x) == occ(self.used_kvs@, x)
        &&& self.uses@.len() == self.used_kvs@.len()
        &&& forall|i: int|
            0 <= i < self.uses@.len() ==> {
                let k = #[trigger] self.uses@[i];
                &&& self.queries@.contains_key(k.idx)
                &&& k == Ptr { idx: k.idx }
                &&& self.used_kvs@[i] == self.kvs@[k.idx]
            }
        &&& self.dep_log@.len() == self.dep_parents@.len()
        &&& forall|p: Ptr| #[trigger]
            self.deps_of(p) == filter_parent(self.dep_log@, self.dep_parents@, p)
        &&& self.top_keys@.len() == self.toplevel_insertions@.len()
        &&& forall|i: int|
            0 <= i < self.top_keys@.len() ==> {
                let k = #[trigger] self.top_keys@[i];
                &&& self.queries@.contains_key(k.idx)
                &&& k == Ptr { idx: k.idx }
                &&& self.toplevel_insertions@[i] == self.kvs@[k.idx]
            }
        &&& forall|f: usize, j: int|
            #![trigger self.unique_inserted_keys@[f]@[j]]
            self.unique_inserted_keys@.contains_key(f) && 0 <= j < self.unique_inserted_keys@[f]@.len()
                ==> self.queries@.contains_key(self.unique_inserted_keys@[f]@[j].idx) && Ptr {
                idx: self.unique_inserted_keys@[f]@[j].idx,
            } == self.unique_inserted_keys@[f]@[j]
        &&& self.memoset.finalized() ==> {
            &&& self.memoset.transcript_spec().wf(s)
            &&& s.valid(self.memoset.transcript_spec().head())
            &&& self.memoset.r_spec() == s.z(self.memoset.transcript_spec().head()).value
        }
    }

    pub open spec fn wf(&self, s: &Store) -> bool {
        self.wf_memo(s) && self.balanced()
    }

    /// The memo table and the records are consistent, with no evaluation under way.
    pub open spec fn wf_memo(&self, s: &Store) -> bool {
        self.wf_pending(s, Set::empty())
    }

    /// What an evaluation step keeps: memoized values stay, the top-level records stay, and
    /// subquery keys are only appended.
    pub closed spec fn keeps(&self, o: &Scope) -> bool {
        &&& forall|k: usize| #[trigger]
            o.queries@.contains_key(k) ==> self.queries@.contains_key(k) && self.queries@[k]
                == o.queries@[k] && self.kvs@[k] == o.kvs@[k]
        &&& self.toplevel_insertions@ == o.toplevel_insertions@
        &&& o.internal_insertions@.is_prefix_of(self.internal_insertions@)
        &&& self.transcribe_internal_insertions == o.transcribe_internal_insertions
        &&& self.default_rc == o.default_rc
        &&& o.uses@.is_prefix_of(self.uses@)
        &&& self.top_keys@ == o.top_keys@
        &&& self.memoset.finalized() == o.memoset.finalized()
    }

    /// An empty scope.
    pub fn new(transcribe_internal_insertions: bool, default_rc: usize) -> (r: Scope)
        requires
            default_rc > 0,
        ensures
            r.queries_view() == Map::<usize, Ptr>::empty(),
            r.toplevel() == Seq::<Ptr>::empty(),
            r.internal() == Seq::<Ptr>::empty(),
            r.transcribe() == transcribe_internal_insertions,
            r.rc() == default_rc,
            !r.memo().finalized(),
            r.added_count() == 0,
            forall|s: &Store| s.wf() ==> r.wf(s),
            forall|x: Ptr| #[trigger] r.memo().count_of(x) == 0,
            forall|p: Ptr| #[trigger] r.deps_of(p) == Seq::<Ptr>::empty(),
            forall|f: usize| #[trigger] r.family_keys(f) == Seq::<Ptr>::empty(),
    {
        let r = Scope {
            memoset: LogMemo::new(),
            queries: HashMap::new(),
            dependencies: HashMap::new(),
            toplevel_insertions: Vec::new(),
            internal_insertions: Vec::new(),
            unique_inserted_keys: HashMap::new(),
            transcribe_internal_insertions,
            default_rc,
            kvs: Ghost(Map::empty()),
            uses: Ghost(Seq::empty()),
            used_kvs: Ghost(Seq::empty()),
            top_keys: Ghost(Seq::empty()),
            dep_log: Ghost(Seq::empty()),
            dep_parents: Ghost(Seq::empty()),
        };
        assert(r.queries@ =~= Map::<usize, Ptr>::empty());
        r
    }

    /// Evaluates the query whose heap form is `form` (memoized), records `(form . value)` as a
    /// top-level insertion and adds it to the memo set.
    pub fn query(&mut self, s: &mut Store, form: Ptr) -> (r: Ptr)
        requires
            old(self).wf(old(s)),
            is_form(old(s), form),
            old(self).added_count() + bound_aux(form_measure(old(s), form)) < usize::MAX,
        ensures
            final(self).wf(final(s)),
            final(s).wf(),
            final(s).extends(old(s)),
            final(s).valid(r),
            final(s).node(r) == NodeV::Num(decode(old(s), form)->Some_0.result(old(s))),
            final(self).added_count() <= old(self).added_count() + bound_aux(form_measure(old(s), form)),
            final(self).toplevel().len() == old(self).toplevel().len() + 1,
            final(self).toplevel().drop_last() == old(self).toplevel(),
            final(s).node(final(self).toplevel().last()) == NodeV::Cons(form, r),
            final(self).queries_view().contains_key(form.idx),
            final(self).queries_view()[form.idx] == r,
            forall|k: usize| #[trigger]
                old(self).queries_view().contains_key(k) ==> final(self).queries_view().contains_key(k)
                    && final(self).queries_view()[k] == old(self).queries_view()[k],
            old(self).internal().is_prefix_of(final(self).internal()),
            old(self).queries_view().contains_key(form.idx) ==> final(self).queries_view()
                == old(self).queries_view() && final(self).internal() == old(self).internal(),
            is_chain(
                final(s),
                old(self).queries_view().dom(),
                form,
                form_measure(old(s), form),
                added(old(self).internal(), final(self).internal()),
            ),
            forall|k: usize| #[trigger]
                final(self).queries_view().contains_key(k) <==> old(self).queries_view().contains_key(k)
                    || k == form.idx || added(old(self).internal(), final(self).internal()).contains(
                    Ptr { idx: k },
                ),
            old(self).queries_view().dom() == Set::<usize>::empty() ==> final(self).internal().len()
                == old(self).internal().len() + form_measure(old(s), form)
                && final(self).queries_view().dom().len() == 1 + form_measure(old(s), form),
            old(self).queries_view().contains_key(form.idx) ==> final(self).same_deps(old(self))
                && final(self).memo().count_of(final(self).toplevel().last()) == old(self).memo().count_of(
                final(self).toplevel().last(),
            ) + 1 && forall|y: Ptr|
                y != final(self).toplevel().last() ==> #[trigger] final(self).memo().count_of(y)
                    == old(self).memo().count_of(y),
            final(self).memo().count_of(final(self).toplevel().last()) == occ(
                final(self).toplevel(),
                final(self).toplevel().last(),
            ) + occ(final(self).internal(), form),
            final(self).transcribe() == old(self).transcribe(),
            final(self).rc() == old(self).rc(),
            final(self).memo().finalized() == old(self).memo().finalized(),
    {
        let ghost before = *self;
        let (response, kv_ptr) = self.query_aux(s, form, Ghost(Set::empty()));
        let ghost after_aux = *self;
        self.toplevel_insertions.push(kv_ptr);
        proof {
            lemma_occ_push(self.top_keys@, form);
        }
        self.top_keys = Ghost(self.top_keys@.push(form));
        proof {
            assert forall|i: int| 0 <= i < self.top_keys@.len() implies {
                let k = #[trigger] self.top_keys@[i];
                &&& self.queries@.contains_key(k.idx)
                &&& k == Ptr { idx: k.idx }
                &&& self.toplevel_insertions@[i] == self.kvs@[k.idx]
            } by {
                if i < before.top_keys@.len() {
                    assert(self.top_keys@[i] == before.top_keys@[i]);
                    assert(before.queries@.contains_key(before.top_keys@[i].idx));
                }
            }
            self.lemma_deps_frame(&after_aux);
            assert forall|x: Ptr| #[trigger] occ(self.dep_log@, x) == occ(self.internal_insertions@, x) by {
                assert(occ(before.dep_log@, x) == occ(before.internal_insertions@, x));
                assert(occ(after_aux.dep_log@, x) + occ(before.internal_insertions@, x) == occ(
                    before.dep_log@,
                    x,
                ) + occ(after_aux.internal_insertions@, x));
            }
            assert forall|i: int| 0 <= i < self.dep_parents@.len() implies (self.top_keys@
                + self.internal_insertions@).contains(#[trigger] self.dep_parents@[i]) by {
                let all = self.top_keys@ + self.internal_insertions@;
                let d = self.dep_parents@[i];
                let tl = self.top_keys@.len() as int;
                if i < before.dep_parents@.len() {
                    assert(before.dep_parents@[i] == d);
                    let ball = before.top_keys@ + before.internal_insertions@;
                    assert(ball.contains(d));
                    let j = choose|j: int| 0 <= j < ball.len() && ball[j] == d;
                    if j < before.top_keys@.len() {
                        assert(all[j] == d);
                    } else {
                        let jj = j - before.top_keys@.len();
                        assert(before.internal_insertions@[jj] == d);
                        assert(self.internal_insertions@[jj] == d);
                        assert(all[tl + jj] == d);
                    }
                } else if d == form {
                    assert(all[tl - 1] == form);
                } else {
                    let lo = before.internal_insertions@.len() as int;
                    let hi = self.internal_insertions@.len() as int;
                    assert(self.internal_insertions@.subrange(lo, hi).contains(d));
                    let j = choose|j: int| 0 <= j < hi - lo && self.internal_insertions@.subrange(lo, hi)[j] == d;
                    assert(all[tl + lo + j] == d);
                }
            }
            assert forall|x: Ptr| #[trigger]
                occ(self.uses@, x) == occ(self.top_keys@, x) + occ(self.internal_insertions@, x) by {
                assert(occ(before.uses@, x) == occ(before.top_keys@, x) + occ(before.internal_insertions@, x));
                assert(occ(after_aux.uses(), x) + occ(before.internal(), x) == occ(before.uses(), x) + occ(
                    after_aux.internal(),
                    x,
                ) + if x == form {
                    1nat
                } else {
                    0nat
                });
                assert(occ(before.top_keys@.push(form), x) == occ(before.top_keys@, x) + if form == x {
                    1nat
                } else {
                    0nat
                });
            }
        }
        proof {
            assert(self.toplevel_insertions@.drop_last() =~= old(self).toplevel_insertions@);
            assert(s.node(kv_ptr)->Cons_0 == form);
            assert forall|p: Ptr| #[trigger] self.deps_of(p) == after_aux.deps_of(p) by {}
            assert(self.memo() == after_aux.memo());
            assert(kv_ptr == self.kvs@[form.idx]);
            assert(Ptr { idx: form.idx } == form);
            self.lemma_multiplicity(s, form);
            if old(self).queries@.dom() == Set::<usize>::empty() {
                let os = old(s);
                os.lemma_z(form);
                assert(os.valid(os.node(form)->Cons_0));
                assert(os.valid(os.node(form)->Cons_1));
                assert(decode(s, form) == decode(os, form));
                assert(form_measure(s, form) == form_measure(os, form));
                self.lemma_fresh_counts(old(self), s, form);
            }
        }
        response
    }

    /// Records `child` as a subquery of `parent`, evaluates it (memoized) and returns its value.
    fn query_recursively(
        &mut self,
        s: &mut Store,
        parent: &DemoQuery,
        child: DemoQuery,
        pending: Ghost<Set<usize>>,
        parent_form: Ghost<Ptr>,
    ) -> (r: Ptr)
        requires
            old(self).wf_pending(old(s), pending@),
            old(s).valid(parent.arg()),
            decode(old(s), parent_form@) == Some(*parent),
            old(s).valid(child.arg()),
            old(self).added_count() + bound_rec(child.measure(old(s))) < usize::MAX,
        ensures
            final(self).wf_pending(final(s), pending@),
            final(self).keeps(old(self)),
            final(s).extends(old(s)),
            final(s).valid(r),
            final(s).node(r) == NodeV::Num(child.result(old(s))),
            final(self).added_count() <= old(self).added_count() + bound_rec(child.measure(old(s))),
            forall|x: Ptr| #[trigger]
                occ(final(self).uses(), x) + occ(old(self).internal(), x) == occ(old(self).uses(), x)
                    + occ(final(self).internal(), x),
            final(self).logs_grow(old(self), parent_form@),
            added(old(self).internal(), final(self).internal()).len() > 0,
            decode(final(s), added(old(self).internal(), final(self).internal())[0]) == Some(child),
            is_chain(
                final(s),
                old(self).queries_view().dom(),
                added(old(self).internal(), final(self).internal())[0],
                child.measure(old(s)),
                added(old(self).internal(), final(self).internal()).drop_first(),
            ),
            forall|k: usize| #[trigger]
                final(self).queries_view().contains_key(k) <==> old(self).queries_view().contains_key(k)
                    || added(old(self).internal(), final(self).internal()).contains(Ptr { idx: k }),
        decreases child.measure(old(s)), 3nat,
    {
        let ghost s0 = *s;
        let form = child.to_ptr(s);
        let ghost s1 = *s;
        proof {
            self.lemma_store_extends(&s0, &s1, pending@);
            assert(s1.z(child.arg()) == s0.z(child.arg()));
        }
        proof {
            lemma_occ_push(self.internal_insertions@, form);
        }
        self.internal_insertions.push(form);
        let ghost pending2 = pending@.insert(form.idx);
        proof {
            self.lemma_deps_frame(old(self));
            assert(self.wf_pending(&s1, pending2)) by {
                assert forall|i: int| 0 <= i < self.internal_insertions@.len() implies {
                    let k = #[trigger] self.internal_insertions@[i];
                    &&& is_form(&s1, k)
                    &&& self.queries@.contains_key(k.idx) || pending2.contains(k.idx)
                } by {
                    if i < self.internal_insertions@.len() - 1 {
                        assert(self.internal_insertions@[i] == old(self).internal_insertions@[i]);
                    }
                }
            }
        }
        let ghost mid = *self;
        let (response, _) = self.query_aux(s, form, Ghost(pending2));
        proof {
            assert forall|x: Ptr| #[trigger]
                occ(self.uses@, x) + occ(old(self).internal_insertions@, x) == occ(old(self).uses@, x)
                    + occ(self.internal_insertions@, x) by {
                assert(occ(mid.internal_insertions@, x) == occ(old(self).internal_insertions@, x) + if form == x {
                    1nat
                } else {
                    0nat
                });
                assert(occ(self.uses(), x) + occ(mid.internal(), x) == occ(mid.uses(), x) + occ(
                    self.internal(),
                    x,
                ) + if x == form {
                    1nat
                } else {
                    0nat
                });
                assert(mid.uses() == old(self).uses());
            }
        }
        let ghost s2 = *s;
        let ghost after_aux = *self;
        let pk = parent.to_ptr(s);
        proof {
            self.lemma_store_extends(&s2, s, pending2);
        }
        let deps = self.dependencies.remove(&pk.idx);
        let mut children: Vec<Ptr> = match deps {
            Some(v) => v,
            None => Vec::new(),
        };
        proof {
            assert(form == Ptr { idx: form.idx });
        }
        children.push(form);
        self.dependencies.insert(pk.idx, children);
        proof {
            lemma_filter_push(self.dep_log@, self.dep_parents@, form, pk);
            Store::lemma_extends_trans(&s0, &s1, &s2);
            Store::lemma_extends_trans(&s0, &s2, s);
            assert(decode(s, pk) == Some(*parent));
            assert(s2.valid(parent_form@));
            s0.lemma_z(parent_form@);
            assert(s0.valid(s0.node(parent_form@)->Cons_0));
            assert(decode(s, parent_form@) == Some(*parent));
            crate::query::lemma_form_unique(s, pk, parent_form@);
        }
        self.dep_log = Ghost(self.dep_log@.push(form));
        self.dep_parents = Ghost(self.dep_parents@.push(pk));
        proof {
            assert forall|p: Ptr| #[trigger] self.deps_of(p) == filter_parent(
                self.dep_log@,
                self.dep_parents@,
                p,
            ) by {
                assert(after_aux.deps_of(p) == filter_parent(after_aux.dep_log@, after_aux.dep_parents@, p));
                if p == pk {
                    assert(self.deps_of(p) =~= after_aux.deps_of(p).push(form));
                } else {
                    assert(p.idx != pk.idx);
                    assert(self.deps_of(p) == after_aux.deps_of(p));
                }
            }
            lemma_occ_push(after_aux.dep_log@, form);
            assert forall|x: Ptr| #[trigger]
                occ(self.dep_log@, x) + occ(old(self).internal_insertions@, x) == occ(old(self).dep_log@, x)
                    + occ(self.internal_insertions@, x) by {
                assert(occ(mid.internal_insertions@, x) == occ(old(self).internal_insertions@, x) + if form == x {
                    1nat
                } else {
                    0nat
                });
                assert(occ(after_aux.dep_log@, x) + occ(mid.internal_insertions@, x) == occ(mid.dep_log@, x)
                    + occ(after_aux.internal_insertions@, x));
            }
            let lo = old(self).internal_insertions@.len() as int;
            let hi = self.internal_insertions@.len() as int;
            let ml = mid.internal_insertions@.len() as int;
            assert forall|i: int|
                old(self).dep_parents@.len() <= i < self.dep_parents@.len() implies #[trigger] self.dep_parents@[i]
                == parent_form@ || self.internal_insertions@.subrange(lo, hi).contains(self.dep_parents@[i]) by {
                if i < after_aux.dep_parents@.len() {
                    assert(self.dep_parents@[i] == after_aux.dep_parents@[i]);
                    let d = after_aux.dep_parents@[i];
                    if d == form {
                        assert(mid.internal_insertions@[lo] == form);
                        assert(after_aux.internal_insertions@[lo] == mid.internal_insertions@[lo]);
                        assert(self.internal_insertions@.subrange(lo, hi)[0] == form);
                    } else {
                        assert(after_aux.internal_insertions@.subrange(ml, hi).contains(d));
                        let j = choose|j: int| 0 <= j < hi - ml && after_aux.internal_insertions@.subrange(ml, hi)[j] == d;
                        assert(self.internal_insertions@.subrange(lo, hi)[j + 1] == d);
                    }
                }
            }
            assert(old(self).dep_log@.is_prefix_of(self.dep_log@));
            assert(old(self).dep_parents@.is_prefix_of(self.dep_parents@));
            Store::lemma_extends_trans(&s0, &s1, &s2);
            Store::lemma_extends_trans(&s0, &s2, s);
            assert forall|i: int| 0 <= i < self.internal_insertions@.len() implies {
                let k = #[trigger] self.internal_insertions@[i];
                &&& is_form(s, k)
                &&& self.queries@.contains_key(k.idx) || pending@.contains(k.idx)
            } by {
                assert(is_form(s, self.internal_insertions@[i]));
                if i < mid.internal_insertions@.len() {
                    assert(mid.internal_insertions@[i] == self.internal_insertions@[i]);
                    if mid.queries@.contains_key(self.internal_insertions@[i].idx) {
                    }
                }
            }
            assert forall|k: usize|
                #![trigger self.dependencies@[k]]
                self.dependencies@.contains_key(k) implies forall|j: int|
                0 <= j < self.dependencies@[k]@.len() ==> self.queries@.contains_key(
                    #[trigger] self.dependencies@[k]@[j].idx,
                ) && Ptr { idx: self.dependencies@[k]@[j].idx } == self.dependencies@[k]@[j] by {
                if k != pk.idx {
                    assert(self.dependencies@[k] == after_aux.dependencies@[k]);
                } else {
                    assert forall|j: int| 0 <= j < self.dependencies@[k]@.len() implies self.queries@.contains_key(
                        #[trigger] self.dependencies@[k]@[j].idx,
                    ) && Ptr { idx: self.dependencies@[k]@[j].idx } == self.dependencies@[k]@[j] by {
                        if j < self.dependencies@[k]@.len() - 1 {
                            assert(after_aux.dependencies@.contains_key(k));
                            assert(self.dependencies@[k]@[j] == after_aux.dependencies@[k]@[j]);
                        }
                    }
                }
            }
        }
        proof {
            let d = added(old(self).internal_insertions@, self.internal_insertions@);
            let d2 = added(mid.internal_insertions@, after_aux.internal_insertions@);
            assert(self.internal_insertions@ == after_aux.internal_insertions@);
            assert(mid.internal_insertions@ == old(self).internal_insertions@.push(form));
            assert(mid.internal_insertions@.is_prefix_of(after_aux.internal_insertions@));
            assert(mid.internal_insertions@[old(self).internal_insertions@.len() as int] == form);
            assert(after_aux.internal_insertions@[old(self).internal_insertions@.len() as int]
                == mid.internal_insertions@[old(self).internal_insertions@.len() as int]);
            assert(d[0] == form);
            assert(d.drop_first() =~= d2);
            assert(mid.queries@ == old(self).queries@);
            s1.lemma_z(form);
            assert(s1.valid(s1.node(form)->Cons_0));
            assert(decode(s, form) == Some(child));
            assert(decode(&s1, form) == Some(child));
            assert(form_measure(&s1, form) == child.measure(old(s)));
            lemma_chain_extends(&s2, s, mid.queries@.dom(), form, child.measure(old(s)), d2);
            assert forall|k: usize| #[trigger]
                self.queries@.contains_key(k) <==> old(self).queries@.contains_key(k) || d.contains(
                    Ptr { idx: k },
                ) by {
                if d2.contains(Ptr { idx: k }) {
                    let j = choose|j: int| 0 <= j < d2.len() && d2[j] == Ptr { idx: k };
                    assert(d[j + 1] == Ptr { idx: k });
                }
                if d.contains(Ptr { idx: k }) && k != form.idx {
                    let j = choose|j: int| 0 <= j < d.len() && d[j] == Ptr { idx: k };
                    assert(j > 0);
                    assert(d2[j - 1] == Ptr { idx: k });
                }
                if k == form.idx {
                    assert(Ptr { idx: k } == form);
                }
            }
        }
        response
    }

    /// Evaluates `form` unless memoized, and adds `(form . value)` to the memo set.
    fn query_aux(&mut self, s: &mut Store, form: Ptr, pending: Ghost<Set<usize>>) -> (r: (Ptr, Ptr))
        requires
            old(self).wf_pending(old(s), pending@),
            is_form(old(s), form),
            old(self).added_count() + bound_aux(form_measure(old(s), form)) < usize::MAX,
        ensures
            final(self).wf_pending(final(s), pending@),
            final(self).keeps(old(self)),
            final(s).extends(old(s)),
            final(self).queries_view().contains_key(form.idx),
            final(self).queries_view()[form.idx] == r.0,
            final(self).kv_of(form.idx) == r.1,
            final(s).valid(r.0),
            final(s).node(r.0) == NodeV::Num(decode(old(s), form)->Some_0.result(old(s))),
            final(s).valid(r.1),
            final(s).node(r.1) == NodeV::Cons(form, r.0),
            old(self).queries_view().contains_key(form.idx) ==> final(self).queries_view()
                == old(self).queries_view() && final(self).internal() == old(self).internal(),
            final(self).added_count() <= old(self).added_count() + bound_aux(
                form_measure(old(s), form),
            ),
            forall|x: Ptr| #[trigger]
                occ(final(self).uses(), x) + occ(old(self).internal(), x) == occ(old(self).uses(), x)
                    + occ(final(self).internal(), x) + if x == form {
                    1nat
                } else {
                    0nat
                },
            final(self).logs_grow(old(self), form),
            is_chain(
                final(s),
                old(self).queries_view().dom(),
                form,
                form_measure(old(s), form),
                added(old(self).internal(), final(self).internal()),
            ),
            forall|k: usize| #[trigger]
                final(self).queries_view().contains_key(k) <==> old(self).queries_view().contains_key(k)
                    || k == form.idx || added(old(self).internal(), final(self).internal()).contains(
                    Ptr { idx: k },
                ),
            old(self).queries_view().contains_key(form.idx) ==> final(self).same_deps(old(self))
                && final(self).memo().count_of(r.1) == old(self).memo().count_of(r.1) + 1 && forall|
                y: Ptr,
            | y != r.1 ==> #[trigger] final(self).memo().count_of(y) == old(self).memo().count_of(y),
        decreases form_measure(old(s), form), 2nat,
    {
        let ghost s0 = *s;
        let ghost sc0 = *self;
        let response = match self.queries.get(&form.idx) {
            Some(v) => *v,
            None => {
                proof {
                    s.lemma_z(form);
                    assert(s.valid(s.node(form)->Cons_0));
                }
                let query = DemoQuery::from_ptr(s, form).unwrap();
                let evaluated = query.eval_pending(s, self, pending, Ghost(form));
                proof {
                    assert(s0.valid(query.arg()));
                    assert(s.z(query.arg()) == s0.z(query.arg()));
                    assert(s0.valid(form));
                    assert(s0.valid(s0.node(form)->Cons_0));
                    assert(decode(s, form) == decode(&s0, form));
                    if self.queries@.contains_key(form.idx) {
                        s.lemma_unique(self.queries@[form.idx], evaluated);
                    }
                    assert(query.measure(&s0) == form_measure(&s0, form));
                    assert(!sc0.queries@.contains_key(form.idx));
                    assert forall|k: usize| #[trigger]
                        self.queries@.contains_key(k) <==> sc0.queries@.contains_key(k) || added(
                            sc0.internal_insertions@,
                            self.internal_insertions@,
                        ).contains(Ptr { idx: k }) by {
                        assert(self.queries_view().contains_key(k) <==> sc0.queries_view().contains_key(k)
                            || added(sc0.internal(), self.internal()).contains(Ptr { idx: k }));
                    }
                }
                evaluated
            },
        };
        let ghost s1 = *s;
        let ghost sc_mid = *self;
        proof {
            assert(is_form(s, form));
            if sc0.queries@.contains_key(form.idx) {
                assert(sc_mid == sc0);
            }
        }
        let kv = Transcript::make_kv(s, form, response);
        proof {
            sc_mid.lemma_store_extends(&s1, s, pending@);
            Store::lemma_extends_trans(&s0, &s1, s);
            if sc_mid.queries@.contains_key(form.idx) {
                assert(Ptr { idx: form.idx } == form);
                s.lemma_unique(kv, sc_mid.kvs@[form.idx]);
            }
        }
        self.queries.insert(form.idx, response);
        self.kvs = Ghost(self.kvs@.insert(form.idx, kv));
        proof {
            lemma_occ_le_len(self.used_kvs@, kv);
        }
        self.memoset.add(kv);
        proof {
            lemma_occ_push(self.used_kvs@, kv);
            lemma_occ_push(self.uses@, form);
        }
        self.uses = Ghost(self.uses@.push(form));
        self.used_kvs = Ghost(self.used_kvs@.push(kv));
        proof {
            if sc_mid.queries@.contains_key(form.idx) {
                assert(self.queries@ =~= sc_mid.queries@);
                assert(self.kvs@ =~= sc_mid.kvs@);
            }
            assert forall|k: usize| #[trigger]
                self.queries@.contains_key(k) implies {
                let p = Ptr { idx: k };
                &&& is_form(s, p)
                &&& s.valid(self.queries@[k])
                &&& s.node(self.queries@[k]) == NodeV::Num(decode(s, p)->Some_0.result(s))
                &&& self.kvs@.contains_key(k)
                &&& s.valid(self.kvs@[k])
                &&& s.node(self.kvs@[k]) == NodeV::Cons(p, self.queries@[k])
            } by {
                if k == form.idx {
                    assert(Ptr { idx: k } == form);
                    s0.lemma_z(form);
                    assert(s0.valid(decode(&s0, form)->Some_0.arg()));
                    assert(s0.valid(s0.node(form)->Cons_0));
                    assert(s.z(decode(&s0, form)->Some_0.arg()) == s0.z(decode(&s0, form)->Some_0.arg()));
                    assert(decode(s, form) == decode(&s0, form));
                }
            }
            if sc0.queries@.contains_key(form.idx) {
                assert(self.queries@ =~= sc0.queries@);
            }
            self.lemma_deps_frame(&sc_mid);
            let d = added(sc0.internal_insertions@, self.internal_insertions@);
            let m = form_measure(&s0, form);
            assert(self.internal_insertions@ == sc_mid.internal_insertions@);
            if sc0.queries@.contains_key(form.idx) {
                assert(d =~= Seq::<Ptr>::empty());
                assert(is_chain(s, sc0.queries@.dom(), form, m, d));
            } else {
                assert(is_step_chain(&s1, sc0.queries@.dom(), m, d));
                lemma_step_chain_extends(&s1, s, sc0.queries@.dom(), m, d);
                assert(is_chain(s, sc0.queries@.dom(), form, m, d));
            }
            assert forall|k: usize| #[trigger]
                self.queries@.contains_key(k) <==> sc0.queries@.contains_key(k) || k == form.idx || d.contains(
                    Ptr { idx: k },
                ) by {
                assert(self.queries@ == sc_mid.queries@.insert(form.idx, response));
                if sc0.queries@.contains_key(form.idx) {
                    assert(d =~= Seq::<Ptr>::empty());
                } else {
                    assert(sc_mid.queries@.contains_key(k) <==> sc0.queries@.contains_key(k) || d.contains(
                        Ptr { idx: k },
                    ));
                }
            }
            assert forall|x: Ptr| #[trigger]
                occ(self.uses(), x) + occ(sc0.internal(), x) == occ(sc0.uses(), x) + occ(
                    self.internal(),
                    x,
                ) + if x == form {
                    1nat
                } else {
                    0nat
                } by {
                assert(occ(sc_mid.uses(), x) + occ(sc0.internal(), x) == occ(sc0.uses(), x) + occ(
                    sc_mid.internal(),
                    x,
                ));
                assert(occ(sc_mid.uses@.push(form), x) == occ(sc_mid.uses@, x) + if form == x {
                    1nat
                } else {
                    0nat
                });
            }
        }
        (response, kv)
    }

    /// The dependency records say the same where the dependencies and their log are the same.
    proof fn lemma_deps_frame(&self, o: &Scope)
        requires
            self.dependencies@ == o.dependencies@,
            self.dep_log@ == o.dep_log@,
            self.dep_parents@ == o.dep_parents@,
            forall|p: Ptr| #[trigger] o.deps_of(p) == filter_parent(o.dep_log@, o.dep_parents@, p),
        ensures
            forall|p: Ptr| #[trigger] self.deps_of(p) == filter_parent(self.dep_log@, self.dep_parents@, p),
    {
        assert forall|p: Ptr| #[trigger] self.deps_of(p) == filter_parent(self.dep_log@, self.dep_parents@, p) by {
            assert(o.deps_of(p) == filter_parent(o.dep_log@, o.dep_parents@, p));
        }
    }

    /// A well-formed scope stays well formed as its store grows.
    pub proof fn lemma_wf_extends(&self, o: &Store, s: &Store)
        requires
            self.wf(o),
            s.wf(),
            s.extends(o),
        ensures
            self.wf(s),
    {
        self.lemma_store_extends(o, s, Set::empty());
    }

    /// Everything the scope says of `o` it says of any store that extends `o`.
    proof fn lemma_store_extends(&self, o: &Store, s: &Store, pending: Set<usize>)
        requires
            self.wf_pending(o, pending),
            s.wf(),
            s.extends(o),
        ensures
            self.wf_pending(s, pending),
    {
        assert forall|k: usize| #[trigger] self.queries@.contains_key(k) implies {
            let p = Ptr { idx: k };
            &&& is_form(s, p)
            &&& s.valid(self.queries@[k])
            &&& s.node(self.queries@[k]) == NodeV::Num(decode(s, p)->Some_0.result(s))
            &&& self.kvs@.contains_key(k)
            &&& s.valid(self.kvs@[k])
            &&& s.node(self.kvs@[k]) == NodeV::Cons(p, self.queries@[k])
        } by {
            let p = Ptr { idx: k };
            assert(o.valid(p));
            o.lemma_z(p);
            assert(o.valid(o.node(p)->Cons_0));
            assert(o.valid(o.node(p)->Cons_1));
        }
        assert forall|i: int| 0 <= i < self.internal_insertions@.len() implies {
            let k = #[trigger] self.internal_insertions@[i];
            &&& is_form(s, k)
            &&& self.queries@.contains_key(k.idx) || pending.contains(k.idx)
        } by {
            let k = self.internal_insertions@[i];
            assert(o.valid(k));
            o.lemma_z(k);
            assert(o.valid(o.node(k)->Cons_0));
        }
        assert forall|i: int| 0 <= i < self.toplevel_insertions@.len() implies {
            let kv = #[trigger] self.toplevel_insertions@[i];
            &&& s.valid(kv)
            &&& s.node(kv) is Cons
            &&& self.queries@.contains_key(s.node(kv)->Cons_0.idx)
            &&& kv == self.kvs@[s.node(kv)->Cons_0.idx]
        } by {
            assert(o.valid(self.toplevel_insertions@[i]));
        }
        if self.memoset.finalized() {
            let t = self.memoset.transcript_spec();
            Store::lemma_list_extends(o, s, t.head(), t.items());
            assert(o.valid(t.head()));
        }
    }
}


impl Scope {
    /// The key of every insertion, top-level ones first, in order of use.
    pub closed spec fn all_keys(&self, s: &Store) -> Seq<Ptr> {
        self.toplevel_insertions@.map_values(|kv: Ptr| s.node(kv)->Cons_0) + self.internal_insertions@
    }

    /// `self` records the same subqueries as `o`.
    pub open spec fn same_deps(&self, o: &Scope) -> bool {
        forall|p: Ptr| #[trigger] self.deps_of(p) == o.deps_of(p)
    }

    /// The subqueries of `k`, in order of use; none where `k` made none.
    pub closed spec fn deps_of(&self, k: Ptr) -> Seq<Ptr> {
        if self.dependencies@.contains_key(k.idx) {
            self.dependencies@[k.idx]@
        } else {
            Seq::empty()
        }
    }

    /// The records that proving `k` contributes: an insertion per use of each subquery, when
    /// internal insertions are transcribed, then the removal of `k` with its multiplicity.
    pub closed spec fn section(&self, k: Ptr) -> Seq<Record> {
        let ins = if self.transcribe_internal_insertions {
            self.deps_of(k).map_values(|d: Ptr| Record::Insert(self.kvs@[d.idx]))
        } else {
            Seq::empty()
        };
        ins.push(Record::Remove(self.kvs@[k.idx], self.memoset.count_of(self.kvs@[k.idx])))
    }

    pub closed spec fn removals(&self, ks: Seq<Ptr>) -> Seq<Record>
        decreases ks.len(),
    {
        if ks.len() == 0 {
            Seq::empty()
        } else {
            self.removals(ks.drop_last()) + self.section(ks.last())
        }
    }

    pub closed spec fn toplevel_records(&self) -> Seq<Record> {
        self.toplevel_insertions@.map_values(|kv: Ptr| Record::Insert(kv))
    }

    /// The transcript of this scope: every top-level insertion in order, then, for each key in
    /// order of discovery, its subquery insertions and its removal.
    pub closed spec fn records(&self, s: &Store) -> Seq<Record> {
        self.toplevel_records() + self.removals(dedup(self.all_keys(s)))
    }

    /// The buckets of `kv` records by key after the keys `seen`: each key seen once has one
    /// bucket holding its record, and family 0 lists the keys in order of discovery.
    spec fn buckets(
        &self,
        insertions: Map<usize, IndexSet<usize>>,
        unique_keys: Map<usize, Vec<Ptr>>,
        seen: Seq<Ptr>,
    ) -> bool {
        let d = dedup(seen);
        &&& d.len() == 0 ==> unique_keys.dom() == Set::<usize>::empty()
        &&& d.len() > 0 ==> unique_keys.dom() == set![0usize] && unique_keys[0]@ == d
        &&& forall|k: usize| #[trigger] insertions.contains_key(k) <==> d.contains(Ptr { idx: k })
        &&& forall|j: int|
            0 <= j < d.len() ==> #[trigger] index_set_items(insertions[d[j].idx]) == seq![
                self.kvs@[d[j].idx].idx,
            ]
        &&& forall|j: int| 0 <= j < d.len() ==> self.queries@.contains_key(#[trigger] d[j].idx)
    }

    /// Builds the transcript: every top-level record in order, then for each family, for each
    /// key in order of discovery, the insertions of its subqueries (when transcribed) and its
    /// removal with its multiplicity. Also returns the keys of each family in order of discovery.
    #[verifier::rlimit(60)]
    fn build_transcript(&self, s: &mut Store) -> (r: (Transcript, HashMap<usize, Vec<Ptr>>))
        requires
            self.wf(old(s)),
        ensures
            final(s).wf(),
            final(s).extends(old(s)),
            self.wf(final(s)),
            r.0.wf(final(s)),
            encodes_all(final(s), r.0.items(), self.records(old(s))),
            dedup(self.all_keys(old(s))).len() > 0 ==> r.1@.dom() == set![0usize] && r.1@[0]@
                == dedup(self.all_keys(old(s))),
            dedup(self.all_keys(old(s))).len() == 0 ==> r.1@.dom() == Set::<usize>::empty(),
            forall|j: int|
                0 <= j < dedup(self.all_keys(old(s))).len() ==> self.queries@.contains_key(
                    #[trigger] dedup(self.all_keys(old(s)))[j].idx,
                ),
    {
        let ghost s0 = *s;
        let mut transcript = Transcript::new(s);
        proof {
            self.lemma_store_extends(&s0, s, Set::empty());
        }
        let mut insertions: HashMap<usize, IndexSet<usize>> = HashMap::new();
        let mut unique_keys: HashMap<usize, Vec<Ptr>> = HashMap::new();
        let ghost keys_top = self.toplevel_insertions@.map_values(|kv: Ptr| s0.node(kv)->Cons_0);
        proof {
            assert(dedup(Seq::<Ptr>::empty()) == Seq::<Ptr>::empty());
            assert(keys_top.subrange(0, 0) =~= Seq::<Ptr>::empty());
            assert(unique_keys@.dom() =~= Set::<usize>::empty());
        }
        let mut i: usize = 0;
        while i < self.toplevel_insertions.len()
            invariant
                self.wf(s),
                self.wf(&s0),
                s.extends(&s0),
                i <= self.toplevel_insertions@.len(),
                keys_top.len() == self.toplevel_insertions@.len(),
                keys_top == self.toplevel_insertions@.map_values(|kv: Ptr| s0.node(kv)->Cons_0),
                self.buckets(insertions@, unique_keys@, keys_top.subrange(0, i as int)),
            decreases self.toplevel_insertions@.len() - i,
        {
            let kv = self.toplevel_insertions[i];
            proof {
                assert(s0.valid(kv));
                assert(s.node(kv) == s0.node(kv));
                assert(keys_top.subrange(0, i as int).push(s.node(kv)->Cons_0) =~= keys_top.subrange(
                    0,
                    i as int + 1,
                ));
            }
            self.bucket_record(s, kv, &mut insertions, &mut unique_keys, Ghost(keys_top.subrange(0, i as int)));
            i = i + 1;
        }
        proof {
            assert(keys_top.subrange(0, i as int) =~= keys_top);
            assert(keys_top + self.internal_insertions@.subrange(0, 0) =~= keys_top);
        }
        let mut i: usize = 0;
        while i < self.internal_insertions.len()
            invariant
                self.wf(s),
                s.wf(),
                s.extends(&s0),
                transcript.wf(s),
                transcript.items() == Seq::<Ptr>::empty(),
                i <= self.internal_insertions@.len(),
                keys_top == self.toplevel_insertions@.map_values(|kv: Ptr| s0.node(kv)->Cons_0),
                self.buckets(
                    insertions@,
                    unique_keys@,
                    keys_top + self.internal_insertions@.subrange(0, i as int),
                ),
            decreases self.internal_insertions@.len() - i,
        {
            let key = self.internal_insertions[i];
            let value = *self.queries.get(&key.idx).unwrap();
            let ghost s1 = *s;
            proof {
                assert(Ptr { idx: key.idx } == key);
                s.lemma_z(key);
            }
            let kv = Transcript::make_kv(s, key, value);
            proof {
                s.lemma_unique(kv, self.kvs@[key.idx]);
                self.lemma_store_extends(&s1, s, Set::empty());
                Store::lemma_extends_trans(&s0, &s1, s);
                Store::lemma_list_extends(&s1, s, transcript.head(), transcript.items());
                assert((keys_top + self.internal_insertions@.subrange(0, i as int)).push(key) =~= keys_top
                    + self.internal_insertions@.subrange(0, i as int + 1));
            }
            self.bucket_record(
                s,
                kv,
                &mut insertions,
                &mut unique_keys,
                Ghost(keys_top + self.internal_insertions@.subrange(0, i as int)),
            );
            i = i + 1;
        }
        let ghost all = keys_top + self.internal_insertions@;
        let ghost d = dedup(all);
        proof {
            assert(self.internal_insertions@.subrange(0, i as int) =~= self.internal_insertions@);
            assert(all == self.all_keys(&s0));
        }
        let mut i: usize = 0;
        while i < self.toplevel_insertions.len()
            invariant
                self.wf(s),
                s.extends(&s0),
                transcript.wf(s),
                i <= self.toplevel_insertions@.len(),
                encodes_all(s, transcript.items(), self.toplevel_records().subrange(0, i as int)),
            decreases self.toplevel_insertions@.len() - i,
        {
            let kv = self.toplevel_insertions[i];
            let ghost s1 = *s;
            let ghost items = transcript.items();
            transcript.add(s, kv);
            proof {
                self.lemma_store_extends(&s1, s, Set::empty());
                Store::lemma_extends_trans(&s0, &s1, s);
                lemma_encodes_extends(&s1, s, items, self.toplevel_records().subrange(0, i as int));
                lemma_encodes_push(s, items, self.toplevel_records().subrange(0, i as int), kv, Record::Insert(kv));
                assert(self.toplevel_records().subrange(0, i as int).push(Record::Insert(kv)) =~= self.toplevel_records().subrange(0, i as int + 1));
            }
            i = i + 1;
        }
        proof {
            assert(self.toplevel_records().subrange(0, i as int) =~= self.toplevel_records());
        }
        let family_count = DemoQuery::count();
        let mut index: usize = 0;
        while index < family_count
            invariant
                family_count == 1,
                index <= 1,
                self.wf(s),
                s.extends(&s0),
                transcript.wf(s),
                d == dedup(self.all_keys(&s0)),
                self.buckets(insertions@, unique_keys@, self.all_keys(&s0)),
                index == 0 ==> encodes_all(s, transcript.items(), self.toplevel_records()),
                index == 1 ==> encodes_all(s, transcript.items(), self.records(&s0)),
            decreases family_count - index,
        {
            let keys: Vec<Ptr> = match unique_keys.get(&index) {
                Some(v) => v.clone(),
                None => Vec::new(),
            };
            proof {
                if d.len() == 0 {
                    assert(keys@ =~= d);
                }
                assert(keys@ == d);
                assert(d.subrange(0, 0) =~= Seq::<Ptr>::empty());
                assert(self.toplevel_records() + self.removals(Seq::<Ptr>::empty()) =~= self.toplevel_records());
            }
            let mut j: usize = 0;
            while j < keys.len()
                invariant
                    index == 0,
                    keys@ == d,
                    j <= keys@.len(),
                    self.wf(s),
                    s.extends(&s0),
                    transcript.wf(s),
                    d == dedup(self.all_keys(&s0)),
                    self.buckets(insertions@, unique_keys@, self.all_keys(&s0)),
                    encodes_all(
                        s,
                        transcript.items(),
                        self.toplevel_records() + self.removals(d.subrange(0, j as int)),
                    ),
                decreases keys@.len() - j,
            {
                let key = keys[j];
                let ghost prefix = self.toplevel_records() + self.removals(d.subrange(0, j as int));
                proof {
                    assert(d[j as int] == key);
                    assert(self.queries@.contains_key(key.idx));
                    assert(insertions@.contains_key(key.idx)) by {
                        assert(d.contains(Ptr { idx: key.idx })) by {
                            assert(Ptr { idx: key.idx } == key);
                        }
                    }
                }
                let bucket = index_set_to_vec(insertions.get(&key.idx).unwrap());
                proof {
                    assert(bucket@ == seq![self.kvs@[key.idx].idx]);
                }
                let mut b: usize = 0;
                while b < bucket.len()
                    invariant
                        bucket@ == seq![self.kvs@[key.idx].idx],
                        b <= 1,
                        self.wf(s),
                        s.extends(&s0),
                        transcript.wf(s),
                        self.queries@.contains_key(key.idx),
                        b == 0 ==> encodes_all(s, transcript.items(), prefix),
                        b == 1 ==> encodes_all(s, transcript.items(), prefix + self.section(key)),
                    decreases bucket@.len() - b,
                {
                    let kv = Ptr { idx: bucket[b] };
                    let ghost ins = if self.transcribe_internal_insertions {
                        self.deps_of(key).map_values(|dd: Ptr| Record::Insert(self.kvs@[dd.idx]))
                    } else {
                        Seq::<Record>::empty()
                    };
                    proof {
                        assert(prefix + ins.subrange(0, 0) =~= prefix);
                    }
                    match self.dependencies.get(&key.idx) {
                        Some(deps) => {
                            let mut t: usize = 0;
                            while t < deps.len()
                                invariant
                                    deps@ == self.deps_of(key),
                                    t <= deps@.len(),
                                    self.wf(s),
                                    s.extends(&s0),
                                    transcript.wf(s),
                                    ins == (if self.transcribe_internal_insertions {
                                        self.deps_of(key).map_values(|dd: Ptr| Record::Insert(self.kvs@[dd.idx]))
                                    } else {
                                        Seq::<Record>::empty()
                                    }),
                                    self.transcribe_internal_insertions ==> encodes_all(
                                        s,
                                        transcript.items(),
                                        prefix + ins.subrange(0, t as int),
                                    ),
                                    !self.transcribe_internal_insertions ==> encodes_all(
                                        s,
                                        transcript.items(),
                                        prefix,
                                    ),
                                decreases deps@.len() - t,
                            {
                                let dep = deps[t];
                                proof {
                                    assert(self.dependencies@.contains_key(key.idx));
                                    assert(self.queries@.contains_key(deps@[t as int].idx));
                                }
                                let v = *self.queries.get(&dep.idx).unwrap();
                                if self.transcribe_internal_insertions {
                                    let ghost s1 = *s;
                                    let ghost items = transcript.items();
                                    proof {
                                        assert(Ptr { idx: dep.idx } == dep);
                                        s.lemma_z(dep);
                                    }
                                    let dep_kv = Transcript::make_kv(s, dep, v);
                                    proof {
                                        s.lemma_unique(dep_kv, self.kvs@[dep.idx]);
                                        self.lemma_store_extends(&s1, s, Set::empty());
                                        Store::lemma_list_extends(&s1, s, transcript.head(), transcript.items());
                                        Store::lemma_extends_trans(&s0, &s1, s);
                                    }
                                    let ghost s2 = *s;
                                    transcript.add(s, dep_kv);
                                    proof {
                                        self.lemma_store_extends(&s2, s, Set::empty());
                                        Store::lemma_extends_trans(&s0, &s2, s);
                                        Store::lemma_extends_trans(&s1, &s2, s);
                                        lemma_encodes_extends(&s1, s, items, prefix + ins.subrange(0, t as int));
                                        lemma_encodes_push(
                                            s,
                                            items,
                                            prefix + ins.subrange(0, t as int),
                                            dep_kv,
                                            Record::Insert(self.kvs@[dep.idx]),
                                        );
                                        assert((prefix + ins.subrange(0, t as int)).push(
                                            Record::Insert(self.kvs@[dep.idx]),
                                        ) =~= prefix + ins.subrange(0, t as int + 1));
                                    }
                                }
                                t = t + 1;
                            }
                            proof {
                                if self.transcribe_internal_insertions {
                                    assert(ins.subrange(0, t as int) =~= ins);
                                }
                            }
                        },
                        None => {
                            proof {
                                assert(self.deps_of(key) =~= Seq::<Ptr>::empty());
                                assert(ins =~= Seq::<Record>::empty());
                            }
                        },
                    }
                    proof {
                        if !self.transcribe_internal_insertions {
                            assert(prefix + ins =~= prefix);
                        }
                        assert(encodes_all(s, transcript.items(), prefix + ins));
                    }
                    let c = self.memoset.count(kv);
                    let ghost s1 = *s;
                    let ghost items = transcript.items();
                    proof {
                        assert(s.valid(kv));
                    }
                    let kv_count = Transcript::make_kv_count(s, kv, c);
                    proof {
                        self.lemma_store_extends(&s1, s, Set::empty());
                        Store::lemma_list_extends(&s1, s, transcript.head(), transcript.items());
                        Store::lemma_extends_trans(&s0, &s1, s);
                    }
                    let ghost s2 = *s;
                    transcript.add(s, kv_count);
                    proof {
                        let rec = Record::Remove(self.kvs@[key.idx], self.memoset.count_of(self.kvs@[key.idx]));
                        self.lemma_store_extends(&s2, s, Set::empty());
                        Store::lemma_extends_trans(&s0, &s2, s);
                        Store::lemma_extends_trans(&s1, &s2, s);
                        assert(s2.valid(kv_count));
                        s2.lemma_z(kv_count);
                        assert(s2.valid(s2.node(kv_count)->Cons_1));
                        lemma_encodes_extends(&s1, s, items, prefix + ins);
                        lemma_encodes_push(s, items, prefix + ins, kv_count, rec);
                        assert(self.section(key) == ins.push(rec));
                        assert((prefix + ins).push(rec) =~= prefix + self.section(key));
                    }
                    b = b + 1;
                }
                proof {
                    assert(d.subrange(0, j as int + 1).drop_last() =~= d.subrange(0, j as int));
                    assert(self.removals(d.subrange(0, j as int + 1)) == self.removals(d.subrange(0, j as int)) + self.section(key));
                    assert(prefix + self.section(key) =~= self.toplevel_records() + self.removals(d.subrange(0, j as int + 1)));
                }
                j = j + 1;
            }
            proof {
                assert(d.subrange(0, j as int) =~= d);
            }
            index = index + 1;
        }
        proof {
            if d.len() == 0 {
                assert(unique_keys@.dom() =~= Set::<usize>::empty());
            }
        }
        (transcript, unique_keys)
    }

    /// Builds the transcript, fixes the challenge `r` as its hash, and keeps the keys of each
    /// family in order of discovery. Done once.
    pub fn finalize_transcript(&mut self, s: &mut Store) -> (r: Transcript)
        requires
            old(self).wf(old(s)),
            !old(self).memo().finalized(),
            old(self).toplevel().len() > 0,
        ensures
            final(self).wf(final(s)),
            final(s).wf(),
            final(s).extends(old(s)),
            r.wf(final(s)),
            encodes_all(final(s), r.items(), old(self).records(old(s))),
            final(self).memo().finalized(),
            final(self).memo().transcript_spec() == r,
            final(self).memo().r_spec() == final(s).z(r.head()).value,
            final(self).finalized_keys(old(s)),
            final(self).same_records(old(self)),
    {
        let ghost s0 = *s;
        let (transcript, insertions) = self.build_transcript(s);
        proof {
            assert(self.toplevel_records().len() > 0);
            assert(self.records(&s0).len() > 0);
        }
        let ghost before = *self;
        self.memoset.finalize_transcript(s, transcript);
        self.unique_inserted_keys = insertions;
        proof {
            self.lemma_deps_frame(&before);
        }
        proof {
            assert(self.all_keys(&s0) == old(self).all_keys(&s0));
        }
        transcript
    }

    /// Finalizes the transcript unless that is done; a second call changes nothing.
    pub fn ensure_transcript_finalized(&mut self, s: &mut Store)
        requires
            old(self).wf(old(s)),
            old(self).memo().finalized() || old(self).toplevel().len() > 0,
        ensures
            final(self).wf(final(s)),
            final(s).wf(),
            final(s).extends(old(s)),
            final(self).memo().finalized(),
            old(self).memo().finalized() ==> *final(self) == *old(self) && *final(s) == *old(s),
            !old(self).memo().finalized() ==> encodes_all(
                final(s),
                final(self).memo().transcript_spec().items(),
                old(self).records(old(s)),
            ) && final(self).finalized_keys(old(s)),
            final(self).memo().r_spec() == final(s).z(final(self).memo().transcript_spec().head()).value,
            final(self).same_records(old(self)),
    {
        if !self.memoset.is_finalized() {
            self.finalize_transcript(s);
        }
    }

    /// The keys of the family `f`, each once, in order of discovery, as finalization listed them.
    pub closed spec fn family_keys(&self, f: usize) -> Seq<Ptr> {
        if self.unique_inserted_keys@.contains_key(f) {
            self.unique_inserted_keys@[f]@
        } else {
            Seq::empty()
        }
    }

    /// The multiplicities of the memo set.
    pub closed spec fn memo_counts(&self) -> spec_fn(Ptr) -> nat {
        |x: Ptr| self.memoset.count_of(x)
    }

    /// What the circuit pass over this scope gives, under the challenge and multiplicities of its
    /// memo set: from a zero accumulator and the empty transcript, every top-level insertion in
    /// order, then the keys of the family in fold steps of `rc` slots.
    pub open spec fn pass_result(&self, s: &Store) -> Result<(ZPtr, CircuitTranscript), SynthesisError> {
        let c = CircuitScope::fresh(
            self.memo().r_spec(),
            self.memo_counts(),
            self.queries_view(),
            self.transcribe(),
        );
        match c.toplevel_result(
            s,
            self.toplevel(),
            num_z(Fe { v: 0 }),
            CircuitTranscript::from_value(nil_z()),
        ) {
            Err(e) => Err(e),
            Ok(at) => c.chunks_result(s, self.family_keys(0), self.rc() as nat, at.0, at.1),
        }
    }

    /// Runs the circuit pass: finalizes the transcript if needed, inserts the top-level
    /// records, proves the keys of each family in fold steps of `rc` slots, and enforces that the
    /// transcript's hash is `r` and the accumulator zero.
    pub fn synthesize(&mut self, cs: &mut ConstraintSystem, s: &mut Store) -> (r: Result<(), SynthesisError>)
        requires
            old(self).wf(old(s)),
            old(self).memo().finalized() || old(self).toplevel().len() > 0,
            old(cs).inv(),
        ensures
            final(cs).inv(),
            r is Ok ==> final(cs).enforced() == old(cs).enforced() + seq![
                (final(self).pass_result(final(s))->Ok_0.1.value().value, final(self).memo().r_spec()),
                (final(self).pass_result(final(s))->Ok_0.0.value, Fe { v: 0 }),
            ],
            r is Err ==> *final(cs) == *old(cs),
            final(self).wf(final(s)),
            final(s).wf(),
            final(s).extends(old(s)),
            final(self).memo().finalized(),
            final(self).same_records(old(self)),
            old(self).memo().finalized() ==> final(self).memo() == old(self).memo() && final(self).family_keys(0)
                == old(self).family_keys(0) && *final(s) == *old(s),
            r is Ok <==> final(self).pass_result(final(s)) is Ok,
            r is Ok ==> final(cs).sat() == (old(cs).sat() && final(self).pass_result(
                final(s),
            )->Ok_0.1.value().value == final(self).memo().r_spec() && final(self).pass_result(
                final(s),
            )->Ok_0.0.value == (Fe { v: 0 })),
    {
        self.ensure_transcript_finalized(s);
        let ghost sc1 = *self;
        let ghost s1 = *s;
        let memoset_circuit = self.memoset.to_circuit();
        proof {
            self.lemma_query_values(s);
        }
        let mut circuit_scope = CircuitScope::from_queries(
            s,
            memoset_circuit.duplicate(),
            &self.queries,
            self.transcribe_internal_insertions,
        );
        circuit_scope.init();
        let ghost counts = self.memo_counts();
        let ghost c = CircuitScope::fresh(
            self.memo().r_spec(),
            counts,
            self.queries_view(),
            self.transcribe(),
        );
        let ghost t0 = CircuitTranscript::from_value(nil_z());
        proof {
            circuit_scope.lemma_toplevel_fresh(
                s,
                self.toplevel(),
                num_z(Fe { v: 0 }),
                t0,
                self.memo().r_spec(),
                counts,
                self.queries_view(),
                self.transcribe(),
            );
        }
        circuit_scope.synthesize_insert_toplevel_queries(self, s)?;
        let (memoset_acc, transcript, r_num) = circuit_scope.io();
        let r = alloc_num(r_num);
        let dummy = alloc_nil();
        let mut z: Vec<ZPtr> = vec![dummy, dummy, dummy, memoset_acc, transcript, r];
        proof {
            CircuitTranscript::lemma_from_value(circuit_scope.transcript_spec(), transcript);
            assert((|x: Ptr| memoset_circuit.count_of(x)) =~= counts);
            assert(c.toplevel_result(s, self.toplevel(), num_z(Fe { v: 0 }), t0) == Ok::<
                (ZPtr, CircuitTranscript),
                SynthesisError,
            >((z@[3], CircuitTranscript::from_value(z@[4]))));
        }
        let family_count = DemoQuery::count();
        let mut index: usize = 0;
        while index < family_count
            invariant
                family_count == DemoQuery::count_spec(),
                index <= family_count,
                self.wf(s),
                s.wf(),
                memoset_circuit.wf(),
                memoset_circuit.r_spec() == self.memo().r_spec(),
                forall|x: Ptr| #[trigger] memoset_circuit.count_of(x) == self.memo().count_of(x),
                z@.len() == 6,
                forall|i: int| 0 <= i < 6 ==> zwf(#[trigger] z@[i]),
                z@[5].value == self.memo().r_spec(),
                c == CircuitScope::fresh(
                    self.memo().r_spec(),
                    counts,
                    self.queries_view(),
                    self.transcribe(),
                ),
                counts == self.memo_counts(),
                t0 == CircuitTranscript::from_value(nil_z()),
                *self == sc1,
                *s == s1,
                old(cs).inv(),
                old(self).memo().finalized() ==> sc1 == *old(self) && s1 == *old(s),
                index == 0 ==> c.toplevel_result(s, self.toplevel(), num_z(Fe { v: 0 }), t0) == Ok::<
                    (ZPtr, CircuitTranscript),
                    SynthesisError,
                >((z@[3], CircuitTranscript::from_value(z@[4]))),
                index == 1 ==> self.pass_result(s) == Ok::<(ZPtr, CircuitTranscript), SynthesisError>(
                    (z@[3], CircuitTranscript::from_value(z@[4])),
                ),
                cs == old(cs),
                s.extends(old(s)),
                self.memo().finalized(),
                self.same_records(old(self)),
                self.memo().r_spec() == s.z(self.memo().transcript_spec().head()).value,
            decreases family_count - index,
        {
            let keys: Vec<Ptr> = match self.unique_inserted_keys.get(&index) {
                Some(v) => v.clone(),
                None => Vec::new(),
            };
            proof {
                assert(keys@ == self.family_keys(0));
                assert forall|j: int| 0 <= j < keys@.len() implies is_form(s, #[trigger] keys@[j]) by {
                    assert(self.unique_inserted_keys@.contains_key(index));
                    assert(keys@[j] == self.unique_inserted_keys@[index]@[j]);
                    assert(self.queries@.contains_key(keys@[j].idx));
                }
                assert((|x: Ptr| memoset_circuit.count_of(x)) =~= counts);
            }
            let rc = self.rc_for_query(index);
            let ghost zp = z@;
            proof {
                assert((|x: Ptr| memoset_circuit.count_of(x)) == counts);
                assert(CircuitScope::fresh(
                    zp[5].value,
                    |x: Ptr| memoset_circuit.count_of(x),
                    self.queries_view(),
                    self.transcribe(),
                ) == c);
                assert(index == 0);
                assert(keys@ == self.family_keys(0));
            }
            let z_out = synthesize_family(self, s, &memoset_circuit, &keys, index, rc, z);
            match z_out {
                Ok(zo) => {
                    z = zo;
                },
                Err(e) => {
                    return Err(e);
                },
            }
            index = index + 1;
        }
        circuit_scope.update_from_io(z[3], z[4], &z[5]);
        circuit_scope.finalize(cs);
        proof {
            CircuitTranscript::lemma_from_value(circuit_scope.transcript_spec(), z@[4]);
        }
        Ok(())
    }

    /// The fold-step width for the family `index`.
    pub fn rc_for_query(&self, index: usize) -> (r: usize)
        ensures
            r == self.rc(),
    {
        self.default_rc
    }

    /// The `(key . value)` records of the top-level queries, in call order.
    pub fn toplevel_insertions(&self) -> (r: &Vec<Ptr>)
        ensures
            r@ == self.toplevel(),
    {
        &self.toplevel_insertions
    }

    /// The memo table, key by key.
    pub fn queries_map(&self) -> (r: &HashMap<usize, Ptr>)
        ensures
            r@ == self.queries_view(),
    {
        &self.queries
    }

    /// Each top-level record is a cons in the store.
    pub proof fn lemma_toplevel_records(&self, s: &Store)
        requires
            self.wf(s),
        ensures
            forall|j: int|
                0 <= j < self.toplevel().len() ==> s.valid(#[trigger] self.toplevel()[j]) && s.node(
                    self.toplevel()[j],
                ) is Cons,
    {
        assert forall|j: int| 0 <= j < self.toplevel().len() implies s.valid(
            #[trigger] self.toplevel()[j],
        ) && s.node(self.toplevel()[j]) is Cons by {
            assert(s.valid(self.toplevel_insertions@[j]));
        }
    }

    /// Every memoized value is in the store.
    pub proof fn lemma_query_values(&self, s: &Store)
        requires
            self.wf(s),
        ensures
            forall|k: usize| #[trigger] self.queries_view().contains_key(k) ==> s.valid(self.queries_view()[k]),
    {
    }

    /// Whether subquery insertions are transcribed.
    pub fn transcribe_internal_insertions(&self) -> (r: bool)
        ensures
            r == self.transcribe(),
    {
        self.transcribe_internal_insertions
    }

    /// Number of memoized queries.
    pub fn queries_len(&self) -> (r: usize)
        ensures
            r == self.queries_view().len(),
    {
        self.queries.len()
    }

    /// Number of top-level insertions.
    pub fn toplevel_insertions_len(&self) -> (r: usize)
        ensures
            r == self.toplevel().len(),
    {
        self.toplevel_insertions.len()
    }

    /// Number of subquery insertions.
    pub fn internal_insertions_len(&self) -> (r: usize)
        ensures
            r == self.internal().len(),
    {
        self.internal_insertions.len()
    }

    /// The memo set.
    pub fn memoset(&self) -> (r: &LogMemo)
        ensures
            *r == self.memo(),
    {
        &self.memoset
    }

    /// After finalization: family 0 lists each inserted key once, in order of discovery.
    pub closed spec fn finalized_keys(&self, s: &Store) -> bool {
        let d = dedup(self.all_keys(s));
        &&& d.len() > 0 ==> self.unique_inserted_keys@.dom() == set![0usize]
            && self.unique_inserted_keys@[0]@ == d
        &&& d.len() == 0 ==> self.unique_inserted_keys@.dom() == Set::<usize>::empty()
    }

    /// Everything the record sequence is made of is the same in `self` and `o`.
    pub closed spec fn same_records(&self, o: &Scope) -> bool {
        &&& self.queries@ == o.queries@
        &&& self.dependencies@ == o.dependencies@
        &&& self.toplevel_insertions@ == o.toplevel_insertions@
        &&& self.internal_insertions@ == o.internal_insertions@
        &&& self.transcribe_internal_insertions == o.transcribe_internal_insertions
        &&& self.default_rc == o.default_rc
        &&& self.kvs@ == o.kvs@
        &&& forall|x: Ptr| #[trigger] self.memoset.count_of(x) == o.memoset.count_of(x)
    }

    proof fn lemma_same_records(&self, o: &Scope, s: &Store)
        requires
            self.same_records(o),
        ensures
            self.records(s) == o.records(s),
    {
        assert(self.all_keys(s) == o.all_keys(s));
        assert(self.toplevel_records() == o.toplevel_records());
        self.lemma_same_removals(o, dedup(self.all_keys(s)));
    }

    proof fn lemma_same_removals(&self, o: &Scope, ks: Seq<Ptr>)
        requires
            self.same_records(o),
        ensures
            self.removals(ks) == o.removals(ks),
        decreases ks.len(),
    {
        if ks.len() > 0 {
            self.lemma_same_removals(o, ks.drop_last());
            let k = ks.last();
            assert(self.deps_of(k) == o.deps_of(k));
            assert(self.memoset.count_of(self.kvs@[k.idx]) == o.memoset.count_of(o.kvs@[k.idx]));
            assert(self.section(k) == o.section(k));
        }
    }

    proof fn lemma_multiplicity(&self, s: &Store, k: Ptr)
        requires
            self.wf(s),
            self.queries@.contains_key(k.idx),
        ensures
            self.memoset.count_of(self.kvs@[k.idx]) == occ(self.toplevel_insertions@, self.kvs@[k.idx])
                + occ(self.internal_insertions@, k),
            self.section(k).last() == Record::Remove(
                self.kvs@[k.idx],
                occ(self.toplevel_insertions@, self.kvs@[k.idx]) + occ(self.internal_insertions@, k),
            ),
    {
        let kk = Ptr { idx: k.idx };
        assert(kk == k);
        self.lemma_occ_records(s, self.uses@, self.used_kvs@, k);
        self.lemma_occ_records(s, self.top_keys@, self.toplevel_insertions@, k);
        assert(occ(self.uses@, k) == occ(self.top_keys@, k) + occ(self.internal_insertions@, k));
    }

    /// Records of memoized keys are as distinct as their keys.
    proof fn lemma_occ_records(&self, s: &Store, keys: Seq<Ptr>, records: Seq<Ptr>, k: Ptr)
        requires
            self.wf_queries(s),
            s.wf(),
            keys.len() == records.len(),
            forall|i: int|
                0 <= i < keys.len() ==> {
                    let q = #[trigger] keys[i];
                    &&& self.queries@.contains_key(q.idx)
                    &&& q == Ptr { idx: q.idx }
                    &&& records[i] == self.kvs@[q.idx]
                },
            self.queries@.contains_key(k.idx),
        ensures
            occ(records, self.kvs@[k.idx]) == occ(keys, k),
        decreases keys.len(),
    {
        if keys.len() > 0 {
            let n = keys.len() - 1;
            self.lemma_occ_records(s, keys.drop_last(), records.drop_last(), k);
            let q = keys[n];
            assert(keys.last() == q);
            assert(records.last() == self.kvs@[q.idx]);
            if self.kvs@[q.idx] == self.kvs@[k.idx] {
                assert(s.node(self.kvs@[q.idx])->Cons_0 == Ptr { idx: q.idx });
                assert(s.node(self.kvs@[k.idx])->Cons_0 == Ptr { idx: k.idx });
                assert(q == k);
            }
        }
    }

    proof fn lemma_multiplicity_faithful(&self, s: &Store, k: Ptr)
        requires
            self.wf(s),
            self.transcribe_internal_insertions,
            self.queries@.contains_key(k.idx),
        ensures
            occ(self.records(s), Record::Insert(self.kvs@[k.idx])) == self.memoset.count_of(
                self.kvs@[k.idx],
            ),
    {
        let kv = self.kvs@[k.idx];
        self.lemma_multiplicity(s, k);
        let all = self.all_keys(s);
        self.lemma_all_keys(s);
        let u = dedup(all);
        assert forall|i: int| 0 <= i < self.dep_parents@.len() implies occ(
            u,
            #[trigger] self.dep_parents@[i],
        ) == 1 by {
            let d = self.dep_parents@[i];
            lemma_dedup(all, d);
            lemma_occ_contains(u, d);
        }
        lemma_sum_filtered_log(u, self.dep_log@, self.dep_parents@, k);
        self.lemma_removal_inserts(s, u, k);
        lemma_occ_concat(self.toplevel_records(), self.removals(u), Record::Insert(kv));
        lemma_occ_inserts(self.toplevel_insertions@, kv);
    }

    /// The keys of all insertions are the top-level keys, then the subquery keys.
    proof fn lemma_all_keys(&self, s: &Store)
        requires
            self.wf(s),
        ensures
            self.all_keys(s) == self.top_keys@ + self.internal_insertions@,
    {
        let tk = self.toplevel_insertions@.map_values(|kv: Ptr| s.node(kv)->Cons_0);
        assert forall|i: int| 0 <= i < tk.len() implies tk[i] == self.top_keys@[i] by {
            let q = self.top_keys@[i];
            assert(self.toplevel_insertions@[i] == self.kvs@[q.idx]);
            assert(self.queries@.contains_key(q.idx));
        }
        assert(tk =~= self.top_keys@);
    }

    /// Where internal insertions are transcribed, the insertion records of `(k . value)` among
    /// the removal sections of `ks` are the uses of `k` logged under the keys `ks`.
    proof fn lemma_removal_inserts(&self, s: &Store, ks: Seq<Ptr>, k: Ptr)
        requires
            self.wf(s),
            self.transcribe_internal_insertions,
            self.queries@.contains_key(k.idx),
        ensures
            occ(self.removals(ks), Record::Insert(self.kvs@[k.idx])) == sum_filtered(
                ks,
                self.dep_log@,
                self.dep_parents@,
                k,
            ),
        decreases ks.len(),
    {
        if ks.len() > 0 {
            let p = ks.last();
            self.lemma_removal_inserts(s, ks.drop_last(), k);
            let ds = self.deps_of(p);
            let f = |d: Ptr| Record::Insert(self.kvs@[d.idx]);
            let ins = ds.map_values(f);
            let rem = Record::Remove(self.kvs@[p.idx], self.memoset.count_of(self.kvs@[p.idx]));
            assert(self.section(p) == ins.push(rem));
            lemma_occ_push(ins, rem);
            lemma_occ_concat(self.removals(ks.drop_last()), self.section(p), Record::Insert(self.kvs@[k.idx]));
            self.lemma_occ_dep_inserts(s, ds, k);
            assert(ds == filter_parent(self.dep_log@, self.dep_parents@, p));
        }
    }

    proof fn lemma_occ_dep_inserts(&self, s: &Store, ds: Seq<Ptr>, k: Ptr)
        requires
            self.wf(s),
            self.queries@.contains_key(k.idx),
            forall|j: int|
                0 <= j < ds.len() ==> self.queries@.contains_key(#[trigger] ds[j].idx) && ds[j] == (Ptr {
                    idx: ds[j].idx,
                }),
        ensures
            occ(ds.map_values(|d: Ptr| Record::Insert(self.kvs@[d.idx])), Record::Insert(self.kvs@[k.idx]))
                == occ(ds, k),
        decreases ds.len(),
    {
        if ds.len() > 0 {
            let f = |d: Ptr| Record::Insert(self.kvs@[d.idx]);
            self.lemma_occ_dep_inserts(s, ds.drop_last(), k);
            assert(ds.map_values(f).drop_last() =~= ds.drop_last().map_values(f));
            let q = ds.last();
            assert(self.queries@.contains_key(ds[ds.len() - 1].idx));
            if self.kvs@[q.idx] == self.kvs@[k.idx] {
                assert(s.node(self.kvs@[q.idx])->Cons_0 == Ptr { idx: q.idx });
                assert(s.node(self.kvs@[k.idx])->Cons_0 == Ptr { idx: k.idx });
            }
        }
    }

    /// On an empty memo table, a query memoizes its key and one key per number below it.
    proof fn lemma_fresh_counts(&self, o: &Scope, s: &Store, form: Ptr)
        requires
            s.wf(),
            is_form(s, form),
            o.queries@.dom() == Set::<usize>::empty(),
            o.internal_insertions@.is_prefix_of(self.internal_insertions@),
            is_chain(s, o.queries@.dom(), form, form_measure(s, form), added(o.internal_insertions@, self.internal_insertions@)),
            forall|k: usize| #[trigger]
                self.queries@.contains_key(k) <==> o.queries@.contains_key(k) || k == form.idx || added(
                    o.internal_insertions@,
                    self.internal_insertions@,
                ).contains(Ptr { idx: k }),
        ensures
            self.internal_insertions@.len() == o.internal_insertions@.len() + form_measure(s, form),
            self.queries@.dom().len() == 1 + form_measure(s, form),
    {
        let m = form_measure(s, form);
        let d = added(o.internal_insertions@, self.internal_insertions@);
        assert(o.queries@.dom() =~= Set::<usize>::empty());
        lemma_fresh_chain(s, form, m, d);
        let e = seq![form] + d;
        let ids = e.map_values(|p: Ptr| p.idx);
        s.lemma_z(form);
        let a = decode(s, form)->Some_0.arg();
        assert(s.valid(a));
        s.lemma_z(a);
        assert(m < 0x1_0000_0000_0000_0000);
        assert forall|i: int, j: int| 0 <= i < ids.len() && 0 <= j < ids.len() && i != j implies ids[i]
            != ids[j] by {
            if i > 0 && j > 0 {
                lemma_fact_forms_differ(s, d[i - 1], d[j - 1], (m - i) as nat, (m - j) as nat);
            } else {
                let t = if i == 0 { j } else { i };
                assert(is_fact_form(s, d[t - 1], (m - t) as nat));
                if e[t] == form {
                    assert(s.node(a) == NodeV::Num(Fe { v: (m - t) as u64 }));
                    assert(s.z(a).value.v == (m - t) as u64);
                }
                assert(e[t] != form);
                assert(e[t] == Ptr { idx: e[t].idx });
            }
        }
        assert(ids.no_duplicates());
        ids.unique_seq_to_set();
        assert forall|k: usize| #[trigger] self.queries@.dom().contains(k) <==> ids.to_set().contains(k) by {
            if self.queries@.contains_key(k) {
                if k == form.idx {
                    assert(ids[0] == k);
                } else {
                    let j = choose|j: int| 0 <= j < d.len() && d[j] == Ptr { idx: k };
                    assert(ids[j + 1] == k);
                }
            }
            if ids.to_set().contains(k) {
                let j = choose|j: int| 0 <= j < ids.len() && ids[j] == k;
                if j > 0 {
                    assert(d[j - 1] == Ptr { idx: k });
                    assert(d.contains(Ptr { idx: k }));
                }
            }
        }
        assert(self.queries@.dom() =~= ids.to_set());
    }

    /// Puts `kv` in the bucket of its key, and lists the key under its family if it is new.
    fn bucket_record(
        &self,
        s: &Store,
        kv: Ptr,
        insertions: &mut HashMap<usize, IndexSet<usize>>,
        unique_keys: &mut HashMap<usize, Vec<Ptr>>,
        seen: Ghost<Seq<Ptr>>,
    )
        requires
            self.wf(s),
            s.valid(kv),
            s.node(kv) is Cons,
            self.queries@.contains_key(s.node(kv)->Cons_0.idx),
            kv == self.kvs@[s.node(kv)->Cons_0.idx],
            self.buckets(old(insertions)@, old(unique_keys)@, seen@),
        ensures
            self.buckets(final(insertions)@, final(unique_keys)@, seen@.push(s.node(kv)->Cons_0)),
    {
        let key = match s.car_cdr(kv) {
            Some((k, _)) => k,
            None => kv,
        };
        let ghost d = dedup(seen@);
        proof {
            assert(seen@.push(key).drop_last() =~= seen@);
            assert(Ptr { idx: key.idx } == key);
            assert(is_form(s, Ptr { idx: key.idx }));
        }
        match insertions.remove(&key.idx) {
            Some(mut kvs) => {
                let ghost before = kvs;
                proof {
                    assert(d.contains(key));
                    let j = choose|j: int| 0 <= j < d.len() && d[j] == key;
                    assert(index_set_items(kvs) == seq![self.kvs@[d[j].idx].idx]);
                    assert(index_set_items(kvs)[0] == kv.idx);
                }
                index_set_insert(&mut kvs, kv.idx);
                insertions.insert(key.idx, kvs);
                proof {
                    assert(dedup(seen@.push(key)) == d);
                    assert(index_set_items(kvs) == index_set_items(before));
                    assert forall|k: usize| #[trigger] insertions@.contains_key(k) <==> d.contains(
                        Ptr { idx: k },
                    ) by {
                        assert(old(insertions)@.contains_key(k) <==> d.contains(Ptr { idx: k }));
                    }
                    assert forall|j: int| 0 <= j < d.len() implies #[trigger] index_set_items(
                        insertions@[d[j].idx],
                    ) == seq![self.kvs@[d[j].idx].idx] by {
                        if d[j].idx != key.idx {
                            assert(insertions@[d[j].idx] == old(insertions)@[d[j].idx]);
                        } else {
                            assert(d[j] == key);
                        }
                    }
                }
            },
            None => {
                let query = DemoQuery::from_ptr(s, key).unwrap();
                let index = query.index();
                let mut keys: Vec<Ptr> = match unique_keys.remove(&index) {
                    Some(v) => v,
                    None => Vec::new(),
                };
                keys.push(key);
                unique_keys.insert(index, keys);
                let mut x = index_set_new();
                index_set_insert(&mut x, kv.idx);
                insertions.insert(key.idx, x);
                proof {
                    let d2 = d.push(key);
                    assert(dedup(seen@.push(key)) == d2);
                    if d.len() == 0 {
                        assert(unique_keys@.dom() =~= set![0usize]);
                        assert(unique_keys@[0]@ =~= d2);
                    } else {
                        assert(unique_keys@.dom() =~= set![0usize]);
                        assert(unique_keys@[0]@ =~= d2);
                    }
                    assert forall|k: usize| #[trigger] insertions@.contains_key(k) <==> d2.contains(
                        Ptr { idx: k },
                    ) by {
                        if k == key.idx {
                            assert(d2[d.len() as int] == key);
                            assert(Ptr { idx: k } == key);
                        } else {
                            assert(Ptr { idx: k } != key);
                            assert(old(insertions)@.contains_key(k) <==> d.contains(Ptr { idx: k }));
                            if d2.contains(Ptr { idx: k }) {
                                let j = choose|j: int| 0 <= j < d2.len() && d2[j] == Ptr { idx: k };
                                assert(j < d.len());
                                assert(d[j] == Ptr { idx: k });
                            }
                            if d.contains(Ptr { idx: k }) {
                                let j = choose|j: int| 0 <= j < d.len() && d[j] == Ptr { idx: k };
                                assert(d2[j] == Ptr { idx: k });
                            }
                        }
                    }
                    assert forall|j: int| 0 <= j < d2.len() implies #[trigger] index_set_items(
                        insertions@[d2[j].idx],
                    ) == seq![self.kvs@[d2[j].idx].idx] by {
                        if j < d.len() {
                            assert(d2[j] == d[j]);
                            if d[j].idx == key.idx {
                                assert(d.contains(key));
                            }
                        }
                    }
                    assert forall|j: int| 0 <= j < d2.len() implies self.queries@.contains_key(
                        #[trigger] d2[j].idx,
                    ) by {
                        if j < d.len() {
                            assert(d2[j] == d[j]);
                        }
                    }
                }
            },
        }
    }
}

/// Encodings stay what they are as the store grows.
proof fn lemma_encodes_extends(o: &Store, s: &Store, items: Seq<Ptr>, recs: Seq<Record>)
    requires
        s.extends(o),
        encodes_all(o, items, recs),
    ensures
        encodes_all(s, items, recs),
{
    assert forall|i: int| 0 <= i < items.len() implies encodes(s, #[trigger] items[i], recs[i]) by {
        assert(encodes(o, items[i], recs[i]));
        assert(o.valid(items[i]));
        match recs[i] {
            Record::Insert(_) => {},
            Record::Remove(_, _) => {
                assert(o.valid(o.node(items[i])->Cons_1));
            },
        }
    }
}

proof fn lemma_encodes_push(s: &Store, items: Seq<Ptr>, recs: Seq<Record>, p: Ptr, rec: Record)
    requires
        encodes_all(s, items, recs),
        encodes(s, p, rec),
    ensures
        encodes_all(s, items.push(p), recs.push(rec)),
{
    assert forall|i: int| 0 <= i < items.len() + 1 implies encodes(
        s,
        #[trigger] items.push(p)[i],
        recs.push(rec)[i],
    ) by {
        if i < items.len() {
            assert(items.push(p)[i] == items[i]);
            assert(recs.push(rec)[i] == recs[i]);
        }
    }
}

/// The family of the query a record is about.
pub open spec fn record_family(s: &Store, rec: Record) -> nat {
    let kv = match rec {
        Record::Insert(kv) => kv,
        Record::Remove(kv, _) => kv,
    };
    decode(s, s.node(kv)->Cons_0)->Some_0.index_spec()
}

/// Transcript determinism: a transcript is fixed by the records it holds. Two transcripts in one
/// store that hold the same record sequence are the same list and have the same challenge.
pub proof fn lemma_transcript_determined(s: &Store, t1: Transcript, t2: Transcript, recs: Seq<Record>)
    requires
        s.wf(),
        t1.wf(s),
        t2.wf(s),
        encodes_all(s, t1.items(), recs),
        encodes_all(s, t2.items(), recs),
    ensures
        t1.items() == t2.items(),
        t1.head() == t2.head(),
        s.z(t1.head()) == s.z(t2.head()),
{
    assert forall|i: int| 0 <= i < t1.items().len() implies t1.items()[i] == t2.items()[i] by {
        let p1 = t1.items()[i];
        let p2 = t2.items()[i];
        assert(encodes(s, p1, recs[i]));
        assert(encodes(s, p2, recs[i]));
        match recs[i] {
            Record::Insert(_) => {},
            Record::Remove(_, _) => {
                s.lemma_unique(s.node(p1)->Cons_1, s.node(p2)->Cons_1);
                s.lemma_unique(p1, p2);
            },
        }
    }
    assert(t1.items() =~= t2.items());
    s.lemma_list_unique(t1.head(), t2.head(), t1.items());
}

/// Transcript determinism: the record sequence is a function of the scope's state. Two scopes
/// with the same memo table, dependencies, insertions, multiplicities and settings give the same
/// records.
pub proof fn lemma_records_determined(a: &Scope, b: &Scope, s: &Store)
    requires
        a.same_records(b),
    ensures
        a.records(s) == b.records(s),
{
    a.lemma_same_records(b, s);
}

/// Family grouping: every removal of a family comes before every removal of a later family.
pub proof fn lemma_family_grouping(scope: &Scope, s: &Store, i: int, j: int)
    requires
        0 <= i < j < scope.records(s).len(),
        scope.records(s)[i] is Remove,
        scope.records(s)[j] is Remove,
    ensures
        record_family(s, scope.records(s)[i]) <= record_family(s, scope.records(s)[j]),
{
}

/// Multiplicity: the count that the removal record of the key `k` carries is the number of
/// top-level insertion records of `(k . value)` plus the number of times `k` was used as a
/// subquery.
pub proof fn lemma_multiplicity(scope: &Scope, s: &Store, k: Ptr)
    requires
        scope.wf(s),
        scope.queries_view().contains_key(k.idx),
    ensures
        scope.memo().count_of(scope.kv_of(k.idx)) == occ(scope.toplevel(), scope.kv_of(k.idx))
            + occ(scope.internal(), k),
        scope.section(k).last() == Record::Remove(
            scope.kv_of(k.idx),
            occ(scope.toplevel(), scope.kv_of(k.idx)) + occ(scope.internal(), k),
        ),
{
    scope.lemma_multiplicity(s, k);
}

/// Sum, over the keys `ks`, of the occurrences of `x` among the entries logged under each key.
pub open spec fn sum_filtered(ks: Seq<Ptr>, log: Seq<Ptr>, parents: Seq<Ptr>, x: Ptr) -> nat
    decreases ks.len(),
{
    if ks.len() == 0 {
        0
    } else {
        sum_filtered(ks.drop_last(), log, parents, x) + occ(filter_parent(log, parents, ks.last()), x)
    }
}

proof fn lemma_sum_filtered_empty(ks: Seq<Ptr>, x: Ptr)
    ensures
        sum_filtered(ks, Seq::empty(), Seq::empty(), x) == 0,
    decreases ks.len(),
{
    if ks.len() > 0 {
        lemma_sum_filtered_empty(ks.drop_last(), x);
    }
}

proof fn lemma_sum_filtered_push(ks: Seq<Ptr>, log: Seq<Ptr>, parents: Seq<Ptr>, c: Ptr, pl: Ptr, x: Ptr)
    requires
        log.len() == parents.len(),
    ensures
        sum_filtered(ks, log.push(c), parents.push(pl), x) == sum_filtered(ks, log, parents, x) + if c
            == x {
            occ(ks, pl)
        } else {
            0nat
        },
    decreases ks.len(),
{
    lemma_filter_push(log, parents, c, pl);
    if ks.len() > 0 {
        lemma_sum_filtered_push(ks.drop_last(), log, parents, c, pl, x);
        let p = ks.last();
        lemma_occ_push(filter_parent(log, parents, p), c);
    }
}

/// Over keys that hold each parent exactly once, the entries logged under them are the log.
proof fn lemma_sum_filtered_log(ks: Seq<Ptr>, log: Seq<Ptr>, parents: Seq<Ptr>, x: Ptr)
    requires
        log.len() == parents.len(),
        forall|i: int| 0 <= i < parents.len() ==> occ(ks, #[trigger] parents[i]) == 1,
    ensures
        sum_filtered(ks, log, parents, x) == occ(log, x),
    decreases log.len(),
{
    if log.len() == 0 {
        assert(log =~= Seq::<Ptr>::empty());
        assert(parents =~= Seq::<Ptr>::empty());
        lemma_sum_filtered_empty(ks, x);
    } else {
        let l0 = log.drop_last();
        let p0 = parents.drop_last();
        assert(forall|i: int| 0 <= i < p0.len() ==> p0[i] == parents[i]);
        lemma_sum_filtered_log(ks, l0, p0, x);
        assert(l0.push(log.last()) =~= log);
        assert(p0.push(parents.last()) =~= parents);
        lemma_sum_filtered_push(ks, l0, p0, log.last(), parents.last(), x);
        assert(occ(ks, parents[parents.len() - 1]) == 1);
    }
}

pub proof fn lemma_occ_contains<A>(s: Seq<A>, x: A)
    ensures
        occ(s, x) > 0 <==> s.contains(x),
    decreases s.len(),
{
    if s.len() > 0 {
        lemma_occ_contains(s.drop_last(), x);
        if s.drop_last().contains(x) {
            let j = choose|j: int| 0 <= j < s.drop_last().len() && s.drop_last()[j] == x;
            assert(s[j] == x);
        }
        if s.contains(x) && s.last() != x {
            let j = choose|j: int| 0 <= j < s.len() && s[j] == x;
            assert(s.drop_last()[j] == x);
        }
    }
}

/// `dedup` keeps every value once.
proof fn lemma_dedup(ks: Seq<Ptr>, x: Ptr)
    ensures
        dedup(ks).contains(x) <==> ks.contains(x),
        occ(dedup(ks), x) <= 1,
    decreases ks.len(),
{
    if ks.len() > 0 {
        let d = dedup(ks.drop_last());
        lemma_dedup(ks.drop_last(), x);
        lemma_occ_contains(d, x);
        if !d.contains(ks.last()) {
            lemma_occ_push(d, ks.last());
            if d.push(ks.last()).contains(x) && x != ks.last() {
                let j = choose|j: int| 0 <= j < d.len() + 1 && d.push(ks.last())[j] == x;
                assert(d[j] == x);
            }
            if ks.last() == x {
                assert(d.push(ks.last())[d.len() as int] == x);
            }
            if d.contains(x) {
                let j = choose|j: int| 0 <= j < d.len() && d[j] == x;
                assert(d.push(ks.last())[j] == x);
            }
        }
        if ks.drop_last().contains(x) {
            let j = choose|j: int| 0 <= j < ks.drop_last().len() && ks.drop_last()[j] == x;
            assert(ks[j] == x);
        }
        if ks.contains(x) && ks.last() != x {
            let j = choose|j: int| 0 <= j < ks.len() && ks[j] == x;
            assert(ks.drop_last()[j] == x);
        }
        if ks.last() == x {
            assert(ks[ks.len() - 1] == x);
        }
    }
}

/// A sequence of pointers mapped to insertion records: the records occur as often as their
/// pointers.
proof fn lemma_occ_inserts(ps: Seq<Ptr>, y: Ptr)
    ensures
        occ(ps.map_values(|p: Ptr| Record::Insert(p)), Record::Insert(y)) == occ(ps, y),
    decreases ps.len(),
{
    if ps.len() > 0 {
        lemma_occ_inserts(ps.drop_last(), y);
        assert(ps.map_values(|p: Ptr| Record::Insert(p)).drop_last() =~= ps.drop_last().map_values(
            |p: Ptr| Record::Insert(p),
        ));
    }
}

/// Multiplicity faithfulness: where internal insertions are transcribed, the count that the
/// removal record of each memoized key carries is the number of insertion records of
/// `(key . value)` in the transcript.
pub proof fn lemma_multiplicity_faithful(scope: &Scope, s: &Store, k: Ptr)
    requires
        scope.wf(s),
        scope.transcribe(),
        scope.queries_view().contains_key(k.idx),
    ensures
        occ(scope.records(s), Record::Insert(scope.kv_of(k.idx))) == scope.memo().count_of(
            scope.kv_of(k.idx),
        ),
        scope.section(k).last() == Record::Remove(
            scope.kv_of(k.idx),
            occ(scope.records(s), Record::Insert(scope.kv_of(k.idx))),
        ),
{
    scope.lemma_multiplicity_faithful(s, k);
}

impl DemoQuery {
    /// Evaluates the query, recording its subqueries in `scope`: `n! = n * (n - 1)!`, `0! = 1`.
    /// The subqueries are recorded under this query's form, which `scope` need not hold as a key:
    /// `Scope::query` is the entry point that keeps the records balanced.
    pub fn eval(&self, s: &mut Store, scope: &mut Scope) -> (r: Ptr)
        requires
            old(scope).wf_memo(old(s)),
            old(s).valid(self.arg()),
            old(scope).added_count() + bound_eval(self.measure(old(s))) < usize::MAX,
        ensures
            final(scope).wf_memo(final(s)),
            final(s).wf(),
            final(s).extends(old(s)),
            final(s).valid(r),
            final(s).node(r) == NodeV::Num(self.result(old(s))),
            final(scope).added_count() <= old(scope).added_count() + bound_eval(self.measure(old(s))),
    {
        let ghost s0 = *s;
        let form = self.to_ptr(s);
        let ghost s1 = *s;
        proof {
            scope.lemma_store_extends(&s0, s, Set::empty());
            assert(s.z(self.arg()) == s0.z(self.arg()));
        }
        let r = self.eval_pending(s, scope, Ghost(Set::empty()), Ghost(form));
        proof {
            Store::lemma_extends_trans(&s0, &s1, s);
        }
        r
    }

    #[verifier::rlimit(90)]
    fn eval_pending(
        &self,
        s: &mut Store,
        scope: &mut Scope,
        pending: Ghost<Set<usize>>,
        form: Ghost<Ptr>,
    ) -> (r: Ptr)
        requires
            old(scope).wf_pending(old(s), pending@),
            decode(old(s), form@) == Some(*self),
            old(s).valid(self.arg()),
            old(scope).added_count() + bound_eval(self.measure(old(s))) < usize::MAX,
        ensures
            final(scope).wf_pending(final(s), pending@),
            final(scope).keeps(old(scope)),
            final(s).extends(old(s)),
            final(s).valid(r),
            final(s).node(r) == NodeV::Num(self.result(old(s))),
            final(scope).added_count() <= old(scope).added_count() + bound_eval(self.measure(old(s))),
            forall|x: Ptr| #[trigger]
                occ(final(scope).uses(), x) + occ(old(scope).internal(), x) == occ(old(scope).uses(), x)
                    + occ(final(scope).internal(), x),
            final(scope).logs_grow(old(scope), form@),
            is_step_chain(
                final(s),
                old(scope).queries_view().dom(),
                self.measure(old(s)),
                added(old(scope).internal(), final(scope).internal()),
            ),
            forall|k: usize| #[trigger]
                final(scope).queries_view().contains_key(k) <==> old(scope).queries_view().contains_key(k)
                    || added(old(scope).internal(), final(scope).internal()).contains(Ptr { idx: k }),
        decreases self.measure(old(s)), 1nat,
    {
        let ghost s0 = *s;
        match self {
            DemoQuery::Factorial(n) => {
                let n_z = s.hash_ptr(*n);
                let nv = n_z.value;
                if nv.is_zero() {
                    let r = s.num(Fe::one());
                    proof {
                        scope.lemma_store_extends(&s0, s, pending@);
                    }
                    r
                } else {
                    let m1 = nv.sub(Fe::one());
                    let np = s.num(m1);
                    let ghost s1 = *s;
                    proof {
                        scope.lemma_store_extends(&s0, s, pending@);
                        s.lemma_z(np);
                    }
                    let child = DemoQuery::Factorial(np);
                    proof {
                        assert(s0.valid(form@));
                        s0.lemma_z(form@);
                        assert(s0.valid(s0.node(form@)->Cons_0));
                        assert(decode(&s1, form@) == Some(*self));
                    }
                    let ghost sq = *scope;
                    let m_ptr = scope.query_recursively(s, self, child, pending, form);
                    let ghost s2 = *s;
                    let ghost sq2 = *scope;
                    proof {
                        s.lemma_z(m_ptr);
                    }
                    let m_z = s.hash_ptr(m_ptr);
                    let prod = nv.mul(m_z.value);
                    let r = s.num(prod);
                    proof {
                        scope.lemma_store_extends(&s2, s, pending@);
                        let d = added(sq.internal_insertions@, sq2.internal_insertions@);
                        let m = self.measure(&s0);
                        assert(s1.z(np) == s0.z(*n) || true);
                        assert(m1.v == m - 1);
                        assert(child.measure(&s1) == m - 1);
                        assert(sq.queries@.dom() == old(scope).queries@.dom());
                        assert(sq.internal_insertions@ == old(scope).internal_insertions@);
                        lemma_eval_chain(&s2, s, old(scope).queries@.dom(), m, d, child);
                        Store::lemma_extends_trans(&s0, &s1, &s2);
                        Store::lemma_extends_trans(&s0, &s2, s);
                    }
                    r
                }
            },
        }
    }
}

} // verus!
