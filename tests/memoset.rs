use memoset::circuit::{
    CircuitQuery, CircuitScope, ConstraintSystem, CoroutineCircuit, DemoCircuitQuery, SynthesisError,
};
use memoset::field::{Fe, MODULUS};
use memoset::memo::{LogMemo, MemoSet};
use memoset::query::{DemoQuery, Query};
use memoset::scope::Scope;
use memoset::store::{Ptr, Store, ZPtr};
use memoset::transcript::Transcript;

fn num(s: &mut Store, n: u64) -> Ptr {
    s.num_u64(n)
}

fn fact_form(s: &mut Store, n: u64) -> Ptr {
    let np = s.num_u64(n);
    DemoQuery::Factorial(np).to_ptr(s)
}

fn value_of(s: &Store, p: Ptr) -> u64 {
    s.fetch_num(p).expect("a number").v
}

fn fact_forms(s: &mut Store, ns: &[u64]) -> Vec<Ptr> {
    ns.iter().map(|n| fact_form(s, *n)).collect()
}

#[test]
fn test_factorial() {
    let mut s = Store::new();
    let mut scope = Scope::default();
    let zero = num(&mut s, 0);
    let one = num(&mut s, 1);
    let two = num(&mut s, 2);
    let three = num(&mut s, 3);
    let four = num(&mut s, 4);
    let six = num(&mut s, 6);
    let twenty_four = num(&mut s, 24);
    assert_eq!(one, DemoQuery::Factorial(zero).eval(&mut s, &mut scope));
    assert_eq!(one, DemoQuery::Factorial(one).eval(&mut s, &mut scope));
    assert_eq!(two, DemoQuery::Factorial(two).eval(&mut s, &mut scope));
    assert_eq!(six, DemoQuery::Factorial(three).eval(&mut s, &mut scope));
    assert_eq!(twenty_four, DemoQuery::Factorial(four).eval(&mut s, &mut scope));
}

fn query_aux(transcribe_internal_insertions: bool, circuit_query_rc: usize) {
    let mut s = Store::new();
    let fact_4 = fact_form(&mut s, 4);
    let fact_3 = fact_form(&mut s, 3);
    {
        let mut scope = Scope::new(transcribe_internal_insertions, circuit_query_rc);
        scope.query(&mut s, fact_4);
        // fact(4), fact(3), fact(2), fact(1) and fact(0) are memoized
        assert_eq!(5, scope.queries_len());
        assert_eq!(1, scope.toplevel_insertions_len());
        assert_eq!(4, scope.internal_insertions_len());

        scope.finalize_transcript(&mut s);
        let mut cs = ConstraintSystem::new();
        scope.synthesize(&mut cs, &mut s).unwrap();
        assert!(cs.is_satisfied());
    }
    {
        let mut scope = Scope::new(transcribe_internal_insertions, circuit_query_rc);
        scope.query(&mut s, fact_4);
        scope.query(&mut s, fact_3);
        // no new queries
        assert_eq!(5, scope.queries_len());
        // one new top-level insertion
        assert_eq!(2, scope.toplevel_insertions_len());
        // no new internal insertions
        assert_eq!(4, scope.internal_insertions_len());

        scope.finalize_transcript(&mut s);
        let mut cs = ConstraintSystem::new();
        scope.synthesize(&mut cs, &mut s).unwrap();
        assert!(cs.is_satisfied());
    }
}

#[test]
fn test_query_with_internal_insertion_transcript() {
    query_aux(true, 1);
    query_aux(true, 3);
    query_aux(true, 10);
}

#[test]
fn test_query_without_internal_insertion_transcript() {
    query_aux(false, 1);
    query_aux(false, 3);
    query_aux(false, 10);
}

#[test]
fn query_of_zero_factorial() {
    let mut s = Store::new();
    let mut scope = Scope::new(false, 1);
    let form = fact_form(&mut s, 0);
    let r = scope.query(&mut s, form);
    assert_eq!(1, value_of(&s, r));
    assert_eq!(1, scope.queries_len());
    assert_eq!(1, scope.toplevel_insertions_len());
    assert_eq!(0, scope.internal_insertions_len());
}

#[test]
fn query_of_four_factorial_memoizes_every_argument() {
    let mut s = Store::new();
    let mut scope = Scope::new(false, 1);
    let form = fact_form(&mut s, 4);
    let r = scope.query(&mut s, form);
    assert_eq!(24, value_of(&s, r));
    assert_eq!(5, scope.queries_len());
    assert_eq!(1, scope.toplevel_insertions_len());
    assert_eq!(4, scope.internal_insertions_len());
}

#[test]
fn repeated_query_is_memoized() {
    let mut s = Store::new();
    let mut scope = Scope::new(false, 1);
    let f4 = fact_form(&mut s, 4);
    let f3 = fact_form(&mut s, 3);
    scope.query(&mut s, f4);
    let r = scope.query(&mut s, f3);
    assert_eq!(6, value_of(&s, r));
    assert_eq!(5, scope.queries_len());
    assert_eq!(2, scope.toplevel_insertions_len());
    assert_eq!(4, scope.internal_insertions_len());
}

#[test]
fn factorial_wraps_in_the_field() {
    let mut s = Store::new();
    let mut scope = Scope::new(false, 1);
    let f = fact_form(&mut s, 25);
    let r = scope.query(&mut s, f);
    // 25! mod (2^64 - 2^32 + 1)
    let mut expected: u128 = 1;
    for i in 1..=25u128 {
        expected = expected * i % (MODULUS as u128);
    }
    assert_eq!(expected as u64, value_of(&s, r));
}

#[test]
fn multiplicities_count_every_use() {
    let mut s = Store::new();
    let mut scope = Scope::new(true, 1);
    let f4 = fact_form(&mut s, 4);
    let f3 = fact_form(&mut s, 3);
    let v4 = scope.query(&mut s, f4);
    let v3 = scope.query(&mut s, f3);
    let kv4 = Transcript::make_kv(&mut s, f4, v4);
    let kv3 = Transcript::make_kv(&mut s, f3, v3);
    // fact(4): one top-level use; fact(3): one subquery use and one top-level use
    assert_eq!(1, scope.memoset().count(kv4));
    assert_eq!(2, scope.memoset().count(kv3));
    let f9 = fact_form(&mut s, 9);
    assert_eq!(0, scope.memoset().count(f9));
}

#[test]
fn finalizing_twice_changes_nothing() {
    let mut s = Store::new();
    let mut scope = Scope::new(true, 1);
    let f = fact_form(&mut s, 4);
    scope.query(&mut s, f);
    assert!(!scope.memoset().is_finalized());
    assert!(scope.memoset().r().is_none());
    scope.ensure_transcript_finalized(&mut s);
    let r1 = scope.memoset().r().unwrap();
    let t1 = scope.memoset().transcript().unwrap().ptr();
    scope.ensure_transcript_finalized(&mut s);
    assert_eq!(r1, scope.memoset().r().unwrap());
    assert_eq!(t1, scope.memoset().transcript().unwrap().ptr());
}

#[test]
fn transcript_is_a_function_of_the_scope() {
    let mut s = Store::new();
    let f4 = fact_form(&mut s, 4);
    let f2 = fact_form(&mut s, 2);
    let mut a = Scope::new(true, 1);
    let mut b = Scope::new(true, 3);
    a.query(&mut s, f4);
    a.query(&mut s, f2);
    b.query(&mut s, f4);
    b.query(&mut s, f2);
    let ta = a.finalize_transcript(&mut s);
    let tb = b.finalize_transcript(&mut s);
    assert_eq!(ta.ptr(), tb.ptr());
    assert_eq!(a.memoset().r(), b.memoset().r());
    assert_eq!(ta.r(&s), a.memoset().r().unwrap());

    // another order of top-level queries gives another transcript
    let mut c = Scope::new(true, 1);
    c.query(&mut s, f2);
    c.query(&mut s, f4);
    let tc = c.finalize_transcript(&mut s);
    assert_ne!(ta.ptr(), tc.ptr());
}

#[test]
fn transcribing_internal_insertions_changes_the_transcript() {
    let mut s = Store::new();
    let f = fact_form(&mut s, 3);
    let mut a = Scope::new(true, 1);
    let mut b = Scope::new(false, 1);
    a.query(&mut s, f);
    b.query(&mut s, f);
    let ta = a.finalize_transcript(&mut s);
    let tb = b.finalize_transcript(&mut s);
    assert_ne!(ta.ptr(), tb.ptr());
}

#[test]
fn transcript_text_lists_records_last_first() {
    let mut s = Store::new();
    let f = fact_form(&mut s, 0);
    let mut scope = Scope::new(false, 1);
    scope.query(&mut s, f);
    let t = scope.finalize_transcript(&mut s);
    let text = String::from_utf8(t.fmt_to_string_simple(&s)).unwrap();
    assert_eq!(
        "((((factorial . 0) . 1) . 1) . (((factorial . 0) . 1) . nil))",
        text
    );
}

#[test]
fn round_trip_encoding() {
    let mut s = Store::new();
    for n in [0u64, 1, 7, 123456789] {
        let np = s.num_u64(n);
        let q = DemoQuery::Factorial(np);
        let p = q.to_ptr(&mut s);
        assert_eq!(Some(q), DemoQuery::from_ptr(&s, p));
    }
    let nil = s.intern_nil();
    assert_eq!(None, DemoQuery::from_ptr(&s, nil));
    let other = s.intern_symbol(&b"other".to_vec());
    let one = s.num_u64(1);
    let p = s.cons(other, one);
    assert_eq!(None, DemoQuery::from_ptr(&s, p));
}

#[test]
fn family_and_dummy() {
    let mut s = Store::new();
    let d = DemoQuery::dummy_from_index(&mut s, 0);
    assert_eq!(0, d.index());
    assert_eq!(1, DemoQuery::count());
    let zero = s.num_u64(0);
    assert_eq!(DemoQuery::Factorial(zero), d);
    assert_eq!(b"factorial".to_vec(), d.symbol());
}

#[test]
fn store_interns_each_expression_once() {
    let mut s = Store::new();
    let a = s.num_u64(5);
    let b = s.num_u64(5);
    assert_eq!(a, b);
    let nil = s.intern_nil();
    let c1 = s.cons(a, nil);
    let c2 = s.cons(b, nil);
    assert_eq!(c1, c2);
    assert_eq!(Some((a, nil)), s.car_cdr(c1));
    assert_eq!(None, s.car_cdr(a));
    let z = s.hash_ptr(c1);
    assert_eq!(Some(c1), s.to_ptr(z));
    let c3 = s.cons(nil, a);
    assert_ne!(s.hash_ptr(c1), s.hash_ptr(c3));
}

#[test]
fn field_arithmetic() {
    let p = MODULUS;
    let a = Fe::from_u64(p - 1);
    let one = Fe::one();
    assert_eq!(0, a.add(one).v);
    assert_eq!(p - 1, Fe::zero().sub(one).v);
    assert_eq!(1, a.mul(a).v);
    assert_eq!(5, Fe::from_u64(p + 5).v);
    let x = Fe::from_u64(12345);
    let inv = x.invert().unwrap();
    assert_eq!(1, x.mul(inv).v);
    assert_eq!(None, Fe::zero().invert());
    assert_eq!(Some(one), one.invert());
}

#[test]
fn map_to_element_needs_the_challenge() {
    let mut s = Store::new();
    let f = fact_form(&mut s, 2);
    let mut scope = Scope::new(false, 1);
    scope.query(&mut s, f);
    let x = Fe::from_u64(77);
    assert_eq!(None, scope.memoset().map_to_element(x));
    scope.finalize_transcript(&mut s);
    let r = scope.memoset().r().unwrap();
    let e = scope.memoset().map_to_element(x).unwrap();
    assert_eq!(1, r.add(x).mul(e).v);
    let minus_r = Fe::zero().sub(r);
    assert_eq!(None, scope.memoset().map_to_element(minus_r));
}

fn honest_or_fabricated(fabricate: bool) -> bool {
    let mut s = Store::new();
    let mut scope = Scope::new(true, 1);
    let f4 = fact_form(&mut s, 4);
    scope.query(&mut s, f4);
    scope.finalize_transcript(&mut s);

    // the same multiplicities as the scope's, one of them raised where `fabricate`
    let mut memo = LogMemo::new();
    let forms = fact_forms(&mut s, &[4, 3, 2, 1, 0]);
    let values = [24u64, 6, 2, 1, 1];
    for (i, form) in forms.iter().enumerate() {
        let v = s.num_u64(values[i]);
        let kv = Transcript::make_kv(&mut s, *form, v);
        memo.add(kv);
        if fabricate && i == 2 {
            memo.add(kv);
        }
    }
    memo.finalize_transcript(&s, scope.memoset().transcript().unwrap());

    let mut circuit_scope =
        CircuitScope::from_queries(&s, memo.to_circuit(), scope.queries_map(), true);
    circuit_scope.init();
    circuit_scope.synthesize_insert_toplevel_queries(&scope, &s).unwrap();
    for key in forms {
        circuit_scope.synthesize_prove_key_query(&s, Some(key), 0).unwrap();
    }
    let mut cs = ConstraintSystem::new();
    circuit_scope.finalize(&mut cs);
    cs.is_satisfied()
}

#[test]
fn honest_multiplicities_satisfy_the_circuit() {
    assert!(honest_or_fabricated(false));
}

#[test]
fn fabricated_multiplicity_is_unsatisfiable() {
    assert!(!honest_or_fabricated(true));
}

#[test]
fn dummy_slot_leaves_accumulator_and_transcript() {
    let mut s = Store::new();
    let mut scope = Scope::new(true, 1);
    let f = fact_form(&mut s, 3);
    scope.query(&mut s, f);
    scope.finalize_transcript(&mut s);
    let mut circuit_scope =
        CircuitScope::from_queries(&s, scope.memoset().to_circuit(), scope.queries_map(), true);
    circuit_scope.init();
    circuit_scope.synthesize_insert_toplevel_queries(&scope, &s).unwrap();
    let before = circuit_scope.io();
    circuit_scope.synthesize_prove_key_query(&s, None, 0).unwrap();
    assert_eq!(before, circuit_scope.io());
    circuit_scope.synthesize_prove_key_query(&s, Some(f), 0).unwrap();
    assert_ne!(before, circuit_scope.io());
}

#[test]
fn padded_fold_step_matches_unpadded() {
    let mut s = Store::new();
    let mut scope = Scope::new(true, 1);
    let f = fact_form(&mut s, 2);
    scope.query(&mut s, f);
    scope.finalize_transcript(&mut s);
    let mut circuit_scope =
        CircuitScope::from_queries(&s, scope.memoset().to_circuit(), scope.queries_map(), true);
    circuit_scope.init();
    circuit_scope.synthesize_insert_toplevel_queries(&scope, &s).unwrap();
    let (acc, transcript, r) = circuit_scope.io();
    let nil = ZPtr { tag: 0, value: Fe::zero() };
    let r_ptr = ZPtr { tag: 1, value: r };
    let z = vec![nil, nil, nil, acc, transcript, r_ptr];

    let mut narrow = CoroutineCircuit::new(&scope, &s, scope.memoset().to_circuit(), vec![f], 0, 1);
    let mut wide = CoroutineCircuit::new(&scope, &s, scope.memoset().to_circuit(), vec![f], 0, 4);
    let (pc1, z1) = narrow.synthesize(&s, &z).unwrap();
    let (pc2, z2) = wide.synthesize(&s, &z).unwrap();
    assert_eq!(None, pc1);
    assert_eq!(None, pc2);
    assert_eq!(z1, z2);
    assert_ne!(z[3], z1[3]);
    assert_ne!(z[4], z1[4]);

    let mut empty = CoroutineCircuit::new(&scope, &s, scope.memoset().to_circuit(), vec![], 0, 3);
    let (_, z3) = empty.synthesize(&s, &z).unwrap();
    assert_eq!(z, z3);
}

#[test]
fn missing_witness_is_an_error() {
    let mut s = Store::new();
    let mut scope = Scope::new(false, 1);
    let f = fact_form(&mut s, 1);
    scope.query(&mut s, f);
    scope.finalize_transcript(&mut s);
    let empty = Scope::new(false, 1);
    let circuit_scope =
        CircuitScope::from_queries(&s, scope.memoset().to_circuit(), empty.queries_map(), false);
    let key = s.hash_ptr(f);
    let acc = ZPtr { tag: 1, value: Fe::zero() };
    let t = memoset::circuit::CircuitTranscript::new();
    assert_eq!(
        Err(SynthesisError::AssignmentMissing),
        circuit_scope.synthesize_query(&s, &key, &acc, &t, true)
    );
    // a dummy slot needs no witness
    assert!(circuit_scope.synthesize_query(&s, &key, &acc, &t, false).is_ok());
}

#[test]
fn inverting_zero_is_an_error() {
    let mut s = Store::new();
    let mut scope = Scope::new(false, 1);
    let f = fact_form(&mut s, 1);
    let v = scope.query(&mut s, f);
    scope.finalize_transcript(&mut s);
    let mut circuit_scope =
        CircuitScope::from_queries(&s, scope.memoset().to_circuit(), scope.queries_map(), false);
    circuit_scope.init();
    let kv = Transcript::make_kv(&mut s, f, v);
    let x = s.hash_ptr(kv).value;
    let (acc, transcript, _) = circuit_scope.io();
    // make r + x zero
    let r = ZPtr { tag: 1, value: Fe::zero().sub(x) };
    circuit_scope.update_from_io(acc, transcript, &r);
    let key = s.hash_ptr(f);
    let t = memoset::circuit::CircuitTranscript::from_ptr(transcript);
    assert_eq!(
        Err(SynthesisError::DivisionByZero),
        circuit_scope.synthesize_query(&s, &key, &acc, &t, true)
    );
}

#[test]
fn circuit_factorial_step() {
    let mut s = Store::new();
    let mut scope = Scope::new(true, 1);
    let f = fact_form(&mut s, 3);
    scope.query(&mut s, f);
    scope.finalize_transcript(&mut s);
    let mut circuit_scope =
        CircuitScope::from_queries(&s, scope.memoset().to_circuit(), scope.queries_map(), true);
    circuit_scope.init();
    let (acc, transcript, _) = circuit_scope.io();
    let t = memoset::circuit::CircuitTranscript::from_ptr(transcript);
    let q = DemoCircuitQuery::from_ptr(&s, f).unwrap();
    let (value, acc2, t2) = q.synthesize_eval(&s, &circuit_scope, &acc, &t).unwrap();
    assert_eq!(ZPtr { tag: 1, value: Fe::from_u64(6) }, value);
    assert_ne!(acc, acc2);
    assert_ne!(t, t2);
    let base = DemoCircuitQuery::dummy_from_index(0);
    let (value, acc3, t3) = base.synthesize_eval(&s, &circuit_scope, &acc, &t).unwrap();
    assert_eq!(ZPtr { tag: 1, value: Fe::one() }, value);
    assert_eq!(acc, acc3);
    assert_eq!(t, t3);
}
