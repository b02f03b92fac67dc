//! The transcript: an append-only, content-addressed list of insertion and removal records whose
//! top-level hash is the Fiat-Shamir challenge `r`.
use crate::field::Fe;
use crate::store::{cons_hash, NodeV, Ptr, Store, ZPtr, TAG_CONS};
use vstd::prelude::*;

verus! {

/// A transcript: `acc` is the right-nested list of the records added so far, the last one first.
#[derive(Clone, Copy)]
pub struct Transcript {
    acc: Ptr,
    items: Ghost<Seq<Ptr>>,
}

impl Transcript {
    /// The records, in the order they were added.
    pub closed spec fn items(self) -> Seq<Ptr> {
        self.items@
    }

    /// The list that holds the records.
    pub closed spec fn head(self) -> Ptr {
        self.acc
    }

    pub open spec fn wf(self, s: &Store) -> bool {
        s.is_list(self.head(), self.items())
    }

    /// The empty transcript: nil.
    pub fn new(s: &mut Store) -> (r: Transcript)
        requires
            old(s).wf(),
        ensures
            final(s).wf(),
            final(s).extends(old(s)),
            r.wf(final(s)),
            r.items() == Seq::<Ptr>::empty(),
    {
        let nil = s.intern_nil();
        Transcript { acc: nil, items: Ghost(Seq::empty()) }
    }

    /// Prepends `item` to the list.
    pub fn add(&mut self, s: &mut Store, item: Ptr)
        requires
            old(s).wf(),
            old(self).wf(old(s)),
            old(s).valid(item),
        ensures
            final(s).wf(),
            final(s).extends(old(s)),
            final(self).wf(final(s)),
            final(self).items() == old(self).items().push(item),
            final(s).node(final(self).head()) == NodeV::Cons(item, old(self).head()),
    {
        let ghost s0 = *s;
        proof {
            assert(s.valid(self.acc));
        }
        let acc = s.cons(item, self.acc);
        proof {
            Store::lemma_list_extends(&s0, s, self.acc, self.items@);
            assert(self.items@.push(item).drop_last() =~= self.items@);
        }
        self.acc = acc;
        self.items = Ghost(self.items@.push(item));
    }

    /// The insertion record `(key . value)`.
    pub fn make_kv(s: &mut Store, key: Ptr, value: Ptr) -> (r: Ptr)
        requires
            old(s).wf(),
            old(s).valid(key),
            old(s).valid(value),
        ensures
            final(s).wf(),
            final(s).extends(old(s)),
            final(s).valid(r),
            final(s).node(r) == NodeV::Cons(key, value),
    {
        s.cons(key, value)
    }

    /// The removal record `(kv . count)`, the count as a number.
    pub fn make_kv_count(s: &mut Store, kv: Ptr, count: usize) -> (r: Ptr)
        requires
            old(s).wf(),
            old(s).valid(kv),
        ensures
            final(s).wf(),
            final(s).extends(old(s)),
            final(s).valid(r),
            final(s).node(r) is Cons,
            final(s).node(r)->Cons_0 == kv,
            final(s).node(final(s).node(r)->Cons_1) == NodeV::Num(count_fe(count as nat)),
    {
        let ghost s0 = *s;
        let n = s.num_u64(count as u64);
        let ghost s1 = *s;
        let r = s.cons(kv, n);
        proof {
            Store::lemma_extends_trans(&s0, &s1, s);
        }
        r
    }

    /// The challenge: the hash value of the list's top-level cons.
    pub fn r(&self, s: &Store) -> (r: Fe)
        requires
            s.wf(),
            self.wf(s),
            self.items().len() > 0,
        ensures
            r == s.z(self.head()).value,
            r.wf(),
            s.z(self.head()).tag == TAG_CONS,
    {
        proof {
            s.lemma_z(self.acc);
        }
        let z = s.hash_ptr(self.acc);
        z.value
    }

    /// The list's simple text, as UTF-8 bytes.
    pub fn fmt_to_string_simple(&self, s: &Store) -> (r: Vec<u8>)
        requires
            s.wf(),
            self.wf(s),
        ensures
            r@ == crate::store::show(s, self.head()),
    {
        s.fmt_to_string_simple(self.acc)
    }

    /// The list's pointer.
    pub fn ptr(&self) -> (r: Ptr)
        ensures
            r == self.head(),
    {
        self.acc
    }
}

/// A multiplicity as a field element.
pub open spec fn count_fe(n: nat) -> Fe {
    Fe { v: (n as int % (crate::field::MODULUS as int)) as u64 }
}

/// The hashed form of the list that prepending `item` to the list `acc` gives.
pub open spec fn prepend_z(item: ZPtr, acc: ZPtr) -> ZPtr {
    ZPtr { tag: TAG_CONS, value: cons_hash(item, acc) }
}

} // verus!
