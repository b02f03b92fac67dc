//! A content-addressed heap: every distinct expression is interned once, so pointers are equal
//! exactly when the expressions they point to are equal. Each node carries its hashed form
//! (`ZPtr`), a tag and a field element.
use crate::field::{fadd, fmul, Fe, MODULUS};
use vstd::prelude::*;

verus! {

pub const TAG_NIL: u64 = 0;

pub const TAG_NUM: u64 = 1;

pub const TAG_SYM: u64 = 2;

pub const TAG_CONS: u64 = 3;

/// The constant that each absorption step adds.
pub const ROUND_CONSTANT: u64 = 0x243f_6a88_85a3_08d3;

/// A handle into a `Store`.
#[derive(Clone, Copy, Debug, PartialEq, Eq, Structural)]
pub struct Ptr {
    pub idx: usize,
}

/// The hashed form of a pointer: its tag and its hash value.
#[derive(Clone, Copy, Debug, PartialEq, Eq, Structural)]
pub struct ZPtr {
    pub tag: u64,
    pub value: Fe,
}

/// One interned expression.
#[derive(Debug)]
pub enum Node {
    Nil,
    Num(Fe),
    Sym(Vec<u8>),
    Cons(Ptr, Ptr),
}

/// What a node holds, as a mathematical value.
pub enum NodeV {
    Nil,
    Num(Fe),
    Sym(Seq<u8>),
    Cons(Ptr, Ptr),
}

impl View for Node {
    type V = NodeV;

    open spec fn view(&self) -> NodeV {
        match self {
            Node::Nil => NodeV::Nil,
            Node::Num(f) => NodeV::Num(*f),
            Node::Sym(b) => NodeV::Sym(b@),
            Node::Cons(a, b) => NodeV::Cons(*a, *b),
        }
    }
}

pub open spec fn pow7(x: Fe) -> Fe {
    let x2 = fmul(x, x);
    let x4 = fmul(x2, x2);
    fmul(fmul(x4, x2), x)
}

/// One step of the store's sponge: `(s + x)^7 + c`.
pub open spec fn absorb(s: Fe, x: Fe) -> Fe {
    fadd(pow7(fadd(s, x)), Fe { v: ROUND_CONSTANT })
}

/// The hash value of a symbol's name: its bytes absorbed in order.
pub open spec fn sym_hash(name: Seq<u8>) -> Fe
    decreases name.len(),
{
    if name.len() == 0 {
        Fe { v: 0 }
    } else {
        absorb(sym_hash(name.drop_last()), Fe { v: name.last() as u64 })
    }
}

/// The hash value of a cons of two hashed pointers.
pub open spec fn cons_hash(a: ZPtr, b: ZPtr) -> Fe {
    absorb(absorb(absorb(absorb(Fe { v: 0 }, Fe { v: a.tag }), a.value), Fe { v: b.tag }), b.value)
}

/// The hashed form of a node, given the hashed forms of the nodes before it.
pub open spec fn node_z(n: NodeV, zs: Seq<ZPtr>) -> ZPtr {
    match n {
        NodeV::Nil => ZPtr { tag: TAG_NIL, value: Fe { v: 0 } },
        NodeV::Num(f) => ZPtr { tag: TAG_NUM, value: f },
        NodeV::Sym(b) => ZPtr { tag: TAG_SYM, value: sym_hash(b) },
        NodeV::Cons(a, b) => ZPtr { tag: TAG_CONS, value: cons_hash(zs[a.idx as int], zs[b.idx as int]) },
    }
}

pub open spec fn node_wf(n: NodeV, bound: int) -> bool {
    match n {
        NodeV::Num(f) => f.wf(),
        NodeV::Cons(a, b) => a.idx < bound && b.idx < bound,
        _ => true,
    }
}

/// The heap of interned expressions.
pub struct Store {
    nodes: Vec<Node>,
    zs: Vec<ZPtr>,
}

impl Store {
    /// Number of interned expressions.
    pub closed spec fn len(&self) -> nat {
        self.nodes@.len()
    }

    pub open spec fn valid(&self, p: Ptr) -> bool {
        p.idx < self.len()
    }

    /// What `p` points to.
    pub closed spec fn node(&self, p: Ptr) -> NodeV {
        self.nodes@[p.idx as int]@
    }

    /// The hashed form of `p`.
    pub closed spec fn z(&self, p: Ptr) -> ZPtr {
        self.zs@[p.idx as int]
    }

    pub closed spec fn wf(&self) -> bool {
        &&& self.zs@.len() == self.nodes@.len()
        &&& forall|i: int|
            0 <= i < self.nodes@.len() ==> node_wf(#[trigger] self.nodes@[i]@, i)
        &&& forall|i: int|
            0 <= i < self.nodes@.len() ==> #[trigger] self.zs@[i] == node_z(self.nodes@[i]@, self.zs@)
        &&& forall|i: int|
            0 <= i < self.nodes@.len() ==> #[trigger] self.zs@[i].value.wf() && self.zs@[i].tag
                <= TAG_CONS
        &&& forall|i: int, j: int|
            0 <= i < self.nodes@.len() && 0 <= j < self.nodes@.len() && i != j ==> #[trigger] self.nodes@[i]@
                != #[trigger] self.nodes@[j]@
    }

    /// `self` holds everything `o` holds, unchanged.
    pub open spec fn extends(&self, o: &Store) -> bool {
        &&& o.len() <= self.len()
        &&& forall|p: Ptr| #[trigger] o.valid(p) ==> self.node(p) == o.node(p) && self.z(p) == o.z(p)
    }

    /// `p` points to the list whose elements, last first, are `items`: the list that prepending
    /// `items` in order to nil builds.
    pub open spec fn is_list(&self, p: Ptr, items: Seq<Ptr>) -> bool
        decreases items.len(),
    {
        if items.len() == 0 {
            self.valid(p) && self.node(p) == NodeV::Nil
        } else {
            self.valid(p) && self.node(p) is Cons && self.node(p)->Cons_0 == items.last()
                && self.is_list(self.node(p)->Cons_1, items.drop_last())
        }
    }

    pub open spec fn z_valid(&self, z: ZPtr) -> bool {
        exists|p: Ptr| self.valid(p) && #[trigger] self.z(p) == z
    }

    /// `p` is the earliest pointer whose hashed form is `z`.
    pub open spec fn is_first_with(&self, p: Ptr, z: ZPtr) -> bool {
        &&& self.valid(p)
        &&& self.z(p) == z
        &&& forall|q: Ptr| #[trigger] self.valid(q) && q.idx < p.idx ==> self.z(q) != z
    }

    /// The earliest pointer whose hashed form is `z`, if any.
    pub open spec fn lookup(&self, z: ZPtr) -> Option<Ptr> {
        if self.z_valid(z) {
            Some(choose|p: Ptr| self.is_first_with(p, z))
        } else {
            None
        }
    }

    /// Interning is injective: two pointers to the same expression are the same pointer.
    pub proof fn lemma_unique(&self, p: Ptr, q: Ptr)
        requires
            self.wf(),
            self.valid(p),
            self.valid(q),
            self.node(p) == self.node(q),
        ensures
            p == q,
    {
    }

    /// The hashed form of a pointer is determined by what it points to.
    pub proof fn lemma_z(&self, p: Ptr)
        requires
            self.wf(),
            self.valid(p),
        ensures
            node_wf(self.node(p), p.idx as int),
            self.z(p) == node_z(self.node(p), self.zs_view()),
            forall|q: Ptr| #[trigger] self.valid(q) ==> self.zs_view()[q.idx as int] == self.z(q),
    {
        assert(node_wf(self.nodes@[p.idx as int]@, p.idx as int));
    }

    pub closed spec fn zs_view(&self) -> Seq<ZPtr> {
        self.zs@
    }

    /// Extension is transitive.
    pub proof fn lemma_extends_trans(a: &Store, b: &Store, c: &Store)
        requires
            b.extends(a),
            c.extends(b),
        ensures
            c.extends(a),
    {
        assert forall|p: Ptr| #[trigger] a.valid(p) implies c.node(p) == a.node(p) && c.z(p) == a.z(
            p,
        ) by {
            assert(b.valid(p));
        }
    }

    /// A list in `o` is the same list in every store that extends `o`.
    pub proof fn lemma_list_extends(o: &Store, s: &Store, p: Ptr, items: Seq<Ptr>)
        requires
            s.extends(o),
            o.is_list(p, items),
        ensures
            s.is_list(p, items),
        decreases items.len(),
    {
        assert(o.valid(p));
        if items.len() > 0 {
            let q = o.node(p)->Cons_1;
            Store::lemma_list_extends(o, s, q, items.drop_last());
        }
    }

    /// A list is determined by its elements: two pointers to lists of the same elements are the
    /// same pointer.
    pub proof fn lemma_list_unique(&self, p: Ptr, q: Ptr, items: Seq<Ptr>)
        requires
            self.wf(),
            self.is_list(p, items),
            self.is_list(q, items),
        ensures
            p == q,
        decreases items.len(),
    {
        if items.len() > 0 {
            self.lemma_list_unique(self.node(p)->Cons_1, self.node(q)->Cons_1, items.drop_last());
        }
        self.lemma_unique(p, q);
    }

    /// A store holding nil alone.
    pub fn new() -> (r: Store)
        ensures
            r.wf(),
            r.len() == 1,
    {
        let mut nodes: Vec<Node> = Vec::new();
        let mut zs: Vec<ZPtr> = Vec::new();
        nodes.push(Node::Nil);
        zs.push(ZPtr { tag: TAG_NIL, value: Fe { v: 0 } });
        let r = Store { nodes, zs };
        assert(r.zs@[0] == node_z(r.nodes@[0]@, r.zs@));
        r
    }

    fn intern(&mut self, n: Node) -> (r: Ptr)
        requires
            old(self).wf(),
            node_wf(n@, old(self).len() as int),
        ensures
            final(self).wf(),
            final(self).extends(old(self)),
            final(self).valid(r),
            final(self).node(r) == n@,
            final(self).z(r) == node_z(n@, final(self).zs_view()),
    {
        let len = self.nodes.len();
        let mut i: usize = 0;
        while i < len
            invariant
                self.wf(),
                len == self.nodes@.len(),
                i <= len,
                forall|j: int| 0 <= j < i ==> self.nodes@[j]@ != n@,
            decreases len - i,
        {
            if node_eq(&self.nodes[i], &n) {
                let r = Ptr { idx: i };
                proof {
                    assert(node_wf(self.nodes@[i as int]@, i as int));
                }
                return r;
            }
            i = i + 1;
        }
        let z = self.node_hash(&n);
        proof {
            if n@ is Sym {
                lemma_sym_hash_wf(n@->Sym_0);
            }
        }
        let ghost old_zs = self.zs@;
        let ghost old_nodes = self.nodes@;
        self.nodes.push(n);
        self.zs.push(z);
        proof {
            assert forall|i: int| 0 <= i < self.nodes@.len() implies #[trigger] self.zs@[i] == node_z(
                self.nodes@[i]@,
                self.zs@,
            ) by {
                if i < len {
                    assert(node_z(old_nodes[i]@, old_zs) == old_zs[i]);
                    assert(node_wf(old_nodes[i]@, i));
                    assert(node_z(old_nodes[i]@, old_zs) == node_z(old_nodes[i]@, self.zs@));
                }
            }
            assert forall|i: int| 0 <= i < self.nodes@.len() implies node_wf(
                #[trigger] self.nodes@[i]@,
                i,
            ) by {
                if i < len {
                    assert(node_wf(old_nodes[i]@, i));
                }
            }
        }
        Ptr { idx: len }
    }

    fn node_hash(&self, n: &Node) -> (r: ZPtr)
        requires
            self.wf(),
            node_wf(n@, self.len() as int),
        ensures
            r == node_z(n@, self.zs@),
    {
        proof {
            if n@ is Cons {
                let a = n@->Cons_0;
                let b = n@->Cons_1;
                assert(self.zs@[a.idx as int].value.wf());
                assert(self.zs@[b.idx as int].value.wf());
            }
        }
        match n {
            Node::Nil => ZPtr { tag: TAG_NIL, value: Fe { v: 0 } },
            Node::Num(f) => ZPtr { tag: TAG_NUM, value: *f },
            Node::Sym(b) => ZPtr { tag: TAG_SYM, value: hash_bytes(b) },
            Node::Cons(a, b) => {
                let za = self.zs[a.idx];
                let zb = self.zs[b.idx];
                ZPtr { tag: TAG_CONS, value: hash_cons(za, zb) }
            },
        }
    }

    pub fn intern_nil(&mut self) -> (r: Ptr)
        requires
            old(self).wf(),
        ensures
            final(self).wf(),
            final(self).extends(old(self)),
            final(self).valid(r),
            final(self).node(r) == NodeV::Nil,
            final(self).z(r) == (ZPtr { tag: TAG_NIL, value: Fe { v: 0 } }),
    {
        self.intern(Node::Nil)
    }

    pub fn num(&mut self, f: Fe) -> (r: Ptr)
        requires
            old(self).wf(),
            f.wf(),
        ensures
            final(self).wf(),
            final(self).extends(old(self)),
            final(self).valid(r),
            final(self).node(r) == NodeV::Num(f),
            final(self).z(r) == (ZPtr { tag: TAG_NUM, value: f }),
    {
        self.intern(Node::Num(f))
    }

    /// The number `n`, reduced into the field.
    pub fn num_u64(&mut self, n: u64) -> (r: Ptr)
        requires
            old(self).wf(),
        ensures
            final(self).wf(),
            final(self).extends(old(self)),
            final(self).valid(r),
            final(self).node(r) == NodeV::Num(Fe { v: (n as int % MODULUS as int) as u64 }),
    {
        let f = Fe::from_u64(n);
        self.num(f)
    }

    pub fn intern_symbol(&mut self, name: &Vec<u8>) -> (r: Ptr)
        requires
            old(self).wf(),
        ensures
            final(self).wf(),
            final(self).extends(old(self)),
            final(self).valid(r),
            final(self).node(r) == NodeV::Sym(name@),
            final(self).z(r) == (ZPtr { tag: TAG_SYM, value: sym_hash(name@) }),
    {
        self.intern(Node::Sym(name.clone()))
    }

    pub fn cons(&mut self, a: Ptr, b: Ptr) -> (r: Ptr)
        requires
            old(self).wf(),
            old(self).valid(a),
            old(self).valid(b),
        ensures
            final(self).wf(),
            final(self).extends(old(self)),
            final(self).valid(r),
            final(self).node(r) == NodeV::Cons(a, b),
            final(self).z(r) == (ZPtr { tag: TAG_CONS, value: cons_hash(old(self).z(a), old(self).z(b)) }),
    {
        let r = self.intern(Node::Cons(a, b));
        proof {
            self.lemma_z(r);
        }
        r
    }

    /// The two halves of a cons; `None` for any other expression.
    pub fn car_cdr(&self, p: Ptr) -> (r: Option<(Ptr, Ptr)>)
        requires
            self.wf(),
            self.valid(p),
        ensures
            r matches Some(ab) ==> self.node(p) == NodeV::Cons(ab.0, ab.1) && self.valid(ab.0)
                && self.valid(ab.1),
            r is None ==> !(self.node(p) is Cons),
    {
        proof {
            self.lemma_z(p);
        }
        match &self.nodes[p.idx] {
            Node::Cons(a, b) => Some((*a, *b)),
            _ => None,
        }
    }

    /// The number `p` points to; `None` for any other expression.
    pub fn fetch_num(&self, p: Ptr) -> (r: Option<Fe>)
        requires
            self.wf(),
            self.valid(p),
        ensures
            r matches Some(f) ==> self.node(p) == NodeV::Num(f) && f.wf(),
            r is None ==> !(self.node(p) is Num),
    {
        proof {
            self.lemma_z(p);
        }
        match &self.nodes[p.idx] {
            Node::Num(f) => Some(*f),
            _ => None,
        }
    }

    /// Whether `p` points to the symbol named `name`.
    pub fn is_symbol(&self, p: Ptr, name: &Vec<u8>) -> (r: bool)
        requires
            self.wf(),
            self.valid(p),
        ensures
            r == (self.node(p) == NodeV::Sym(name@)),
    {
        match &self.nodes[p.idx] {
            Node::Sym(b) => bytes_eq(b, name),
            _ => false,
        }
    }

    pub fn hash_ptr(&self, p: Ptr) -> (r: ZPtr)
        requires
            self.wf(),
            self.valid(p),
        ensures
            r == self.z(p),
            r.value.wf(),
            r.tag <= TAG_CONS,
    {
        self.zs[p.idx]
    }

    /// A pointer whose hashed form is `z`, if the store holds one.
    pub fn to_ptr(&self, z: ZPtr) -> (r: Option<Ptr>)
        requires
            self.wf(),
        ensures
            r == self.lookup(z),
    {
        let mut i: usize = 0;
        while i < self.zs.len()
            invariant
                self.wf(),
                i <= self.zs@.len(),
                forall|j: int| 0 <= j < i ==> self.zs@[j] != z,
            decreases self.zs@.len() - i,
        {
            if self.zs[i] == z {
                let p = Ptr { idx: i };
                proof {
                    assert(self.is_first_with(p, z));
                    assert(self.z_valid(z));
                    let c = choose|c: Ptr| self.is_first_with(c, z);
                    if c.idx < p.idx {
                        assert(self.zs@[c.idx as int] != z);
                    }
                    if p.idx < c.idx {
                        assert(self.z(p) != z);
                    }
                    assert(c == Ptr { idx: c.idx });
                }
                return Some(p);
            }
            i = i + 1;
        }
        proof {
            assert forall|p: Ptr| self.valid(p) implies #[trigger] self.z(p) != z by {
                assert(self.zs@[p.idx as int] != z);
            }
        }
        None
    }
}

proof fn lemma_sym_hash_wf(b: Seq<u8>)
    ensures
        sym_hash(b).wf(),
    decreases b.len(),
{
    if b.len() > 0 {
        lemma_sym_hash_wf(b.drop_last());
    }
}

/// The decimal digits of `n`, as ASCII.
pub open spec fn decimal(n: nat) -> Seq<u8>
    decreases n,
{
    if n < 10 {
        seq![(48 + n) as u8]
    } else {
        decimal(n / 10).push((48 + n % 10) as u8)
    }
}

#[verifier::opaque]
/// The simple text of the expression `p`: `nil`, a number in decimal, a symbol's name, or
/// `(car . cdr)`.
pub open spec fn show(s: &Store, p: Ptr) -> Seq<u8>
    decreases p.idx,
{
    match s.node(p) {
        NodeV::Nil => seq![110u8, 105u8, 108u8],
        NodeV::Num(f) => decimal(f.v as nat),
        NodeV::Sym(name) => name,
        NodeV::Cons(a, b) => if a.idx < p.idx && b.idx < p.idx {
            seq![40u8] + show(s, a) + seq![32u8, 46u8, 32u8] + show(s, b) + seq![41u8]
        } else {
            Seq::empty()
        },
    }
}

fn write_decimal(n: u64, out: &mut Vec<u8>)
    ensures
        final(out)@ == old(out)@ + decimal(n as nat),
    decreases n,
{
    if n < 10 {
        out.push((48 + n) as u8);
    } else {
        write_decimal(n / 10, out);
        out.push((48 + n % 10) as u8);
    }
}

fn append_bytes(out: &mut Vec<u8>, b: &Vec<u8>)
    ensures
        final(out)@ == old(out)@ + b@,
{
    let mut i: usize = 0;
    while i < b.len()
        invariant
            i <= b@.len(),
            out@ == old(out)@ + b@.subrange(0, i as int),
        decreases b@.len() - i,
    {
        out.push(b[i]);
        proof {
            assert(b@.subrange(0, i as int + 1) =~= b@.subrange(0, i as int).push(b@[i as int]));
        }
        i = i + 1;
    }
    assert(b@.subrange(0, b@.len() as int) =~= b@);
}

impl Store {
    /// Every cons points to earlier nodes.
    pub closed spec fn acyclic(&self) -> bool {
        forall|i: int| 0 <= i < self.nodes@.len() ==> node_wf(#[trigger] self.nodes@[i]@, i)
    }

    proof fn lemma_acyclic(&self)
        requires
            self.wf(),
        ensures
            self.acyclic(),
    {
    }

    /// Appends the simple text of `p` to `out`.
    pub fn write_simple(&self, p: Ptr, out: &mut Vec<u8>)
        requires
            self.acyclic(),
            self.valid(p),
        ensures
            final(out)@ == old(out)@ + show(self, p),
        decreases p.idx,
    {
        proof {
            assert(node_wf(self.nodes@[p.idx as int]@, p.idx as int));
        }
        match &self.nodes[p.idx] {
            Node::Nil => {
                proof {
                    assert(self.node(p) == NodeV::Nil);
                    assert(show(self, p) == seq![110u8, 105u8, 108u8]) by {
                        reveal(show);
                    }
                }
                out.push(110u8);
                out.push(105u8);
                out.push(108u8);
                proof {
                    assert(out@ =~= old(out)@ + show(self, p));
                }
            },
            Node::Num(f) => {
                proof {
                    assert(self.node(p) == NodeV::Num(*f));
                    assert(show(self, p) == decimal(f.v as nat)) by {
                        reveal(show);
                    }
                }
                write_decimal(f.v, out);
            },
            Node::Sym(name) => {
                proof {
                    assert(self.node(p) == NodeV::Sym(name@));
                    assert(show(self, p) == name@) by {
                        reveal(show);
                    }
                }
                append_bytes(out, name);
            },
            Node::Cons(a, b) => {
                let ghost o0 = out@;
                proof {
                    assert(self.node(p) == NodeV::Cons(*a, *b));
                    assert(a.idx < p.idx && b.idx < p.idx);
                    assert(show(self, p) == seq![40u8] + show(self, *a) + seq![32u8, 46u8, 32u8] + show(
                        self,
                        *b,
                    ) + seq![41u8]) by {
                        reveal(show);
                    }
                }
                out.push(40u8);
                self.write_simple(*a, out);
                out.push(32u8);
                out.push(46u8);
                out.push(32u8);
                self.write_simple(*b, out);
                out.push(41u8);
                proof {
                    assert(out@ =~= o0 + show(self, p));
                }
            },
        }
    }

    /// The simple text of `p`, as UTF-8 bytes.
    pub fn fmt_to_string_simple(&self, p: Ptr) -> (r: Vec<u8>)
        requires
            self.wf(),
            self.valid(p),
        ensures
            r@ == show(self, p),
    {
        let mut out: Vec<u8> = Vec::new();
        proof {
            self.lemma_acyclic();
        }
        self.write_simple(p, &mut out);
        assert(out@ =~= show(self, p));
        out
    }
}

fn bytes_eq(a: &Vec<u8>, b: &Vec<u8>) -> (r: bool)
    ensures
        r == (a@ == b@),
{
    if a.len() != b.len() {
        return false;
    }
    let mut i: usize = 0;
    while i < a.len()
        invariant
            a@.len() == b@.len(),
            i <= a@.len(),
            forall|j: int| 0 <= j < i ==> a@[j] == b@[j],
        decreases a@.len() - i,
    {
        if a[i] != b[i] {
            return false;
        }
        i = i + 1;
    }
    assert(a@ =~= b@);
    true
}

fn node_eq(a: &Node, b: &Node) -> (r: bool)
    ensures
        r == (a@ == b@),
{
    match (a, b) {
        (Node::Nil, Node::Nil) => true,
        (Node::Num(x), Node::Num(y)) => x.v == y.v,
        (Node::Sym(x), Node::Sym(y)) => bytes_eq(x, y),
        (Node::Cons(x1, x2), Node::Cons(y1, y2)) => x1.idx == y1.idx && x2.idx == y2.idx,
        _ => false,
    }
}

fn fe_absorb(s: Fe, x: Fe) -> (r: Fe)
    requires
        s.wf(),
        x.wf(),
    ensures
        r == absorb(s, x),
        r.wf(),
{
    let t = s.add(x);
    let t2 = t.mul(t);
    let t4 = t2.mul(t2);
    let t7 = t4.mul(t2).mul(t);
    t7.add(Fe { v: ROUND_CONSTANT })
}

/// The hashed form of the symbol named `name`.
pub fn symbol_z(name: &Vec<u8>) -> (r: ZPtr)
    ensures
        r == (ZPtr { tag: TAG_SYM, value: sym_hash(name@) }),
        r.value.wf(),
{
    proof {
        lemma_sym_hash_wf(name@);
    }
    ZPtr { tag: TAG_SYM, value: hash_bytes(name) }
}

fn hash_bytes(b: &Vec<u8>) -> (r: Fe)
    ensures
        r == sym_hash(b@),
{
    let mut h = Fe { v: 0 };
    let mut i: usize = 0;
    while i < b.len()
        invariant
            i <= b@.len(),
            h == sym_hash(b@.subrange(0, i as int)),
            h.wf(),
        decreases b@.len() - i,
    {
        proof {
            assert(b@.subrange(0, i as int + 1).drop_last() =~= b@.subrange(0, i as int));
        }
        h = fe_absorb(h, Fe { v: b[i] as u64 });
        i = i + 1;
    }
    assert(b@.subrange(0, b@.len() as int) =~= b@);
    h
}

/// The hash value of the cons of two hashed pointers.
pub fn hash_cons(a: ZPtr, b: ZPtr) -> (r: Fe)
    requires
        a.value.wf(),
        b.value.wf(),
        a.tag < MODULUS,
        b.tag < MODULUS,
    ensures
        r == cons_hash(a, b),
{
    let h = fe_absorb(Fe { v: 0 }, Fe { v: a.tag });
    let h = fe_absorb(h, a.value);
    let h = fe_absorb(h, Fe { v: b.tag });
    fe_absorb(h, b.value)
}

} // verus!
