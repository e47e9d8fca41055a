use std::rc::Rc;

use script_descriptor::ast::{E, T, V, W};

#[test]
fn translate_keeps_shape() {
    let e: E<u32> = E::ParallelOr(Rc::new(E::CheckMultiSig(1, vec![1, 2])), Rc::new(W::CheckSig(3)));
    let f = |p: &u32| -> Result<u64, String> { Ok(*p as u64 * 10) };
    let out = e.translate(&f).unwrap();
    assert_eq!(out, E::ParallelOr(Rc::new(E::CheckMultiSig(1, vec![10, 20])), Rc::new(W::CheckSig(30))));
}

#[test]
fn translate_stops_at_first_error() {
    let t: T<u32> = T::And(Rc::new(V::CheckSig(5)), Rc::new(T::CastE(E::CheckSig(6))));
    let f = |p: &u32| -> Result<u32, String> {
        if *p >= 5 { Err(format!("bad {}", p)) } else { Ok(*p) }
    };
    assert_eq!(t.translate(&f), Err("bad 5".to_string()));
}

#[test]
fn threshold_translates_wrapped_parts() {
    let e: E<u8> = E::Threshold(1, Rc::new(E::CheckSig(1)), vec![Rc::new(W::CheckSig(2)), Rc::new(W::Time(4))]);
    let f = |p: &u8| -> Result<u16, ()> { Ok(*p as u16 + 100) };
    assert_eq!(
        e.translate(&f),
        Ok(E::Threshold(1, Rc::new(E::CheckSig(101)), vec![Rc::new(W::CheckSig(102)), Rc::new(W::Time(4))]))
    );
}

#[test]
fn translating_with_a_clone_gives_a_clone() {
    let e: E<u32> = E::Threshold(
        1,
        Rc::new(E::CheckMultiSig(1, vec![7, 8])),
        vec![Rc::new(W::CheckSig(9)), Rc::new(W::Time(4))],
    );
    let f = |p: &u32| -> Result<u32, ()> { Ok(p.clone()) };
    assert_eq!(e.translate(&f), Ok(e.clone()));
    let t: T<u32> = T::And(Rc::new(V::CheckSig(5)), Rc::new(T::CastE(E::CheckSig(6))));
    assert_eq!(t.translate(&f), Ok(t.clone()));
}

#[test]
fn translating_maps_each_key_in_order() {
    let t: T<u32> = T::ParallelOr(Rc::new(E::CheckMultiSig(2, vec![1, 2, 3])), Rc::new(W::CheckSig(4)));
    let g = |p: &u32| -> Result<String, ()> { Ok(format!("k{}", p)) };
    let want: T<String> = T::ParallelOr(
        Rc::new(E::CheckMultiSig(2, vec!["k1".to_string(), "k2".to_string(), "k3".to_string()])),
        Rc::new(W::CheckSig("k4".to_string())),
    );
    assert_eq!(t.translate(&g), Ok(want));
}
