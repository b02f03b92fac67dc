//! The query family: a factorial query `(factorial . n)` over field numbers, with its heap
//! encoding, family index and dummy instance.
use crate::field::{Fe, MODULUS};
use crate::store::{NodeV, Ptr, Store};
use vstd::prelude::*;

verus! {

/// The name of the factorial family's symbol.
pub open spec fn factorial_name() -> Seq<u8> {
    seq![102u8, 97u8, 99u8, 116u8, 111u8, 114u8, 105u8, 97u8, 108u8]
}

/// `n!` in the field, for `n` a field value.
pub open spec fn fact(n: nat) -> Fe
    decreases n,
{
    if n == 0 {
        Fe { v: 1 }
    } else {
        Fe { v: ((n * fact((n - 1) as nat).v) % (MODULUS as int)) as u64 }
    }
}

/// A query of the factorial family: its argument is a heap pointer whose hash value is `n`.
#[derive(Clone, Copy, Debug, PartialEq, Eq, Structural)]
pub enum DemoQuery {
    Factorial(Ptr),
}

/// The query that the heap form `p` encodes: `(factorial . arg)`.
pub open spec fn decode(s: &Store, p: Ptr) -> Option<DemoQuery> {
    if s.valid(p) && s.node(p) is Cons && s.node(s.node(p)->Cons_0) == NodeV::Sym(factorial_name()) {
        Some(DemoQuery::Factorial(s.node(p)->Cons_1))
    } else {
        None
    }
}

/// `p` is the heap form of a query.
pub open spec fn is_form(s: &Store, p: Ptr) -> bool {
    decode(s, p) is Some
}

impl DemoQuery {
    pub open spec fn arg(self) -> Ptr {
        match self {
            DemoQuery::Factorial(n) => n,
        }
    }

    /// The number the query is about: the hash value of its argument.
    pub open spec fn measure(self, s: &Store) -> nat {
        s.z(self.arg()).value.v as nat
    }

    /// The value the query evaluates to.
    pub open spec fn result(self, s: &Store) -> Fe {
        fact(self.measure(s))
    }

    pub open spec fn index_spec(self) -> nat {
        0
    }

    /// Number of query families.
    pub open spec fn count_spec() -> nat {
        1
    }
}

/// A family of queries: its heap encoding, its family index and its dummy instance.
pub trait Query: Sized {
    /// The query that the heap form `p` encodes, where it is a form of this family.
    spec fn decoded(s: &Store, p: Ptr) -> Option<Self>;

    /// The query's heap arguments are in the store.
    spec fn args_in(&self, s: &Store) -> bool;

    /// The canonical name of the family.
    spec fn family_name(&self) -> Seq<u8>;

    /// The family's index.
    spec fn family_index(&self) -> nat;

    /// The number of families.
    spec fn family_count() -> nat;

    /// The canonical name of the query's family.
    fn symbol(&self) -> (r: Vec<u8>)
        ensures
            r@ == self.family_name(),
    ;

    /// Decodes a heap form; `None` where `ptr` is not a form of this family.
    fn from_ptr(s: &Store, ptr: Ptr) -> (r: Option<Self>)
        requires
            s.wf(),
            s.valid(ptr),
        ensures
            r == Self::decoded(s, ptr),
    ;

    /// Encodes the query as a heap form; decoding that form gives the query back.
    fn to_ptr(&self, s: &mut Store) -> (r: Ptr)
        requires
            old(s).wf(),
            self.args_in(old(s)),
        ensures
            final(s).wf(),
            final(s).extends(old(s)),
            final(s).valid(r),
            Self::decoded(final(s), r) == Some(*self),
    ;

    /// The canonical dummy of the family `index`, used to pad fixed-width batches.
    fn dummy_from_index(s: &mut Store, index: usize) -> (r: Self)
        requires
            old(s).wf(),
            index < Self::family_count(),
        ensures
            final(s).wf(),
            final(s).extends(old(s)),
            r.args_in(final(s)),
            r.family_index() == index,
    ;

    /// The query's family index.
    fn index(&self) -> (r: usize)
        ensures
            r == self.family_index(),
            r < Self::family_count(),
    ;

    /// The number of families.
    fn count() -> (r: usize)
        ensures
            r == Self::family_count(),
    ;
}

impl Query for DemoQuery {
    open spec fn decoded(s: &Store, p: Ptr) -> Option<DemoQuery> {
        decode(s, p)
    }

    open spec fn args_in(&self, s: &Store) -> bool {
        s.valid(self.arg())
    }

    open spec fn family_name(&self) -> Seq<u8> {
        factorial_name()
    }

    open spec fn family_index(&self) -> nat {
        self.index_spec()
    }

    open spec fn family_count() -> nat {
        DemoQuery::count_spec()
    }

    /// The canonical name of the query's family.
    fn symbol(&self) -> (r: Vec<u8>) {
        let r = vec![102u8, 97u8, 99u8, 116u8, 111u8, 114u8, 105u8, 97u8, 108u8];
        assert(r@ =~= factorial_name());
        r
    }

    /// Decodes a heap form; `None` where `ptr` is not a form of this family.
    fn from_ptr(s: &Store, ptr: Ptr) -> (r: Option<DemoQuery>) {
        match s.car_cdr(ptr) {
            Some((head, body)) => {
                let name = vec![102u8, 97u8, 99u8, 116u8, 111u8, 114u8, 105u8, 97u8, 108u8];
                assert(name@ =~= factorial_name());
                if s.is_symbol(head, &name) {
                    Some(DemoQuery::Factorial(body))
                } else {
                    None
                }
            },
            None => None,
        }
    }

    /// Encodes the query as the heap form `(factorial . arg)`.
    fn to_ptr(&self, s: &mut Store) -> (r: Ptr) {
        match self {
            DemoQuery::Factorial(n) => {
                let name = self.symbol();
                let ghost s0 = *s;
                let sym = s.intern_symbol(&name);
                let ghost s1 = *s;
                let r = s.cons(sym, *n);
                proof {
                    Store::lemma_extends_trans(&s0, &s1, s);
                }
                r
            },
        }
    }

    /// The canonical dummy of the family `index`, used to pad fixed-width batches.
    fn dummy_from_index(s: &mut Store, index: usize) -> (r: DemoQuery)
        ensures
            final(s).node(r.arg()) == NodeV::Num(Fe { v: 0 }),
    {
        let zero = s.num(Fe::zero());
        DemoQuery::Factorial(zero)
    }

    /// The query's family index.
    fn index(&self) -> (r: usize) {
        0
    }

    /// The number of query families.
    fn count() -> (r: usize) {
        1
    }
}

/// Decoding the encoding of a query gives the query back, in the store `to_ptr` left.
pub proof fn lemma_round_trip(s: &Store, q: DemoQuery, p: Ptr)
    requires
        s.wf(),
        s.valid(p),
        s.node(p) is Cons,
        s.node(p)->Cons_1 == q.arg(),
        s.node(s.node(p)->Cons_0) == NodeV::Sym(factorial_name()),
    ensures
        decode(s, p) == Some(q),
{
}

/// A query has one heap form: two forms that decode to the same query are the same pointer.
pub proof fn lemma_form_unique(s: &Store, p: Ptr, p2: Ptr)
    requires
        s.wf(),
        decode(s, p) is Some,
        decode(s, p) == decode(s, p2),
    ensures
        p == p2,
{
    let h = s.node(p)->Cons_0;
    let h2 = s.node(p2)->Cons_0;
    s.lemma_z(p);
    s.lemma_z(p2);
    s.lemma_unique(h, h2);
    s.lemma_unique(p, p2);
}

} // verus!
