//! Translation of a fragment's keys into another key type.

use std::rc::Rc;
use vstd::prelude::*;
use crate::ast::{E, W, F, V, T, ws_same};

verus! {

/// `f` can give an ok result on the key `p`.
pub open spec fn ok_on<P, Q, Er, Func: Fn(&P) -> Result<Q, Er>>(f: Func, p: P) -> bool {
    exists|q: Q| #[trigger] call_ensures(f, (&p,), Ok::<Q, Er>(q))
}

/// `f` can give an ok result on each of the keys `ks`.
pub open spec fn oks_on<P, Q, Er, Func: Fn(&P) -> Result<Q, Er>>(f: Func, ks: Seq<P>) -> bool {
    forall|i: int| 0 <= i < ks.len() ==> #[trigger] ok_on::<P, Q, Er, Func>(f, ks[i])
}

/// `f` gives the error `e` on one of the keys `ks`, having given an ok
/// result on each key before it: the error at which a walk of the keys in
/// order stops.
pub open spec fn fails_first<P, Q, Er, Func: Fn(&P) -> Result<Q, Er>>(f: Func, ks: Seq<P>, e: Er) -> bool {
    exists|i: int| 0 <= i < ks.len() && #[trigger] call_ensures(f, (&ks[i],), Err::<Q, Er>(e)) && oks_on(f, ks.take(i))
}

/// `f` can give no error on any of the keys `ks`.
pub open spec fn succeeds_on<P, Q, Er, Func: Fn(&P) -> Result<Q, Er>>(f: Func, ks: Seq<P>) -> bool {
    forall|i: int, res: Result<Q, Er>| 0 <= i < ks.len() && #[trigger] call_ensures(f, (&ks[i],), res) ==> res is Ok
}

/// `f` may be called on each of the keys `ks`.
pub open spec fn callable_on<P, Q, Er, Func: Fn(&P) -> Result<Q, Er>>(f: Func, ks: Seq<P>) -> bool {
    forall|i: int| 0 <= i < ks.len() ==> #[trigger] call_requires(f, (&ks[i],))
}

/// Translating the keys of two lists, one after the other: what may be
/// called on, or succeeds on, the whole does on each; what translates each
/// translates the whole; and the first failure is the first list's, or,
/// where the first list translates, the second's.
pub proof fn lemma_on_concat<P, Q, Er, Func: Fn(&P) -> Result<Q, Er>>(f: Func, a: Seq<P>, b: Seq<P>)
    ensures
        callable_on(f, a + b) ==> callable_on(f, a) && callable_on(f, b),
        succeeds_on(f, a + b) ==> succeeds_on(f, a) && succeeds_on(f, b),
        oks_on(f, a) && oks_on(f, b) ==> oks_on(f, a + b),
        forall|e: Er| fails_first(f, a, e) ==> #[trigger] fails_first(f, a + b, e),
        forall|e: Er| oks_on(f, a) && fails_first(f, b, e) ==> #[trigger] fails_first(f, a + b, e),
{
    lemma_oks_concat(f, a, b);
    assert forall|e: Er| fails_first(f, a, e) implies #[trigger] fails_first(f, a + b, e) by {
        let i = choose|i: int| 0 <= i < a.len() && #[trigger] call_ensures(f, (&a[i],), Err::<Q, Er>(e)) && oks_on(f, a.take(i));
        assert((a + b)[i] == a[i]);
        assert((a + b).take(i) =~= a.take(i));
    }
    assert forall|e: Er| oks_on(f, a) && fails_first(f, b, e) implies #[trigger] fails_first(f, a + b, e) by {
        let i = choose|i: int| 0 <= i < b.len() && #[trigger] call_ensures(f, (&b[i],), Err::<Q, Er>(e)) && oks_on(f, b.take(i));
        assert((a + b)[a.len() + i] == b[i]);
        assert((a + b).take(a.len() + i) =~= a + b.take(i));
        lemma_oks_concat(f, a, b.take(i));
    }
    if callable_on(f, a + b) {
        assert forall|i: int| 0 <= i < a.len() implies #[trigger] call_requires(f, (&a[i],)) by {
            assert((a + b)[i] == a[i]);
        }
        assert forall|i: int| 0 <= i < b.len() implies #[trigger] call_requires(f, (&b[i],)) by {
            assert((a + b)[a.len() + i] == b[i]);
        }
    }
    if succeeds_on(f, a + b) {
        assert forall|i: int, res: Result<Q, Er>| 0 <= i < a.len() && #[trigger] call_ensures(f, (&a[i],), res) implies res is Ok by {
            assert((a + b)[i] == a[i]);
        }
        assert forall|i: int, res: Result<Q, Er>| 0 <= i < b.len() && #[trigger] call_ensures(f, (&b[i],), res) implies res is Ok by {
            assert((a + b)[a.len() + i] == b[i]);
        }
    }
}

/// Every key of two lists translates where every key of each does.
proof fn lemma_oks_concat<P, Q, Er, Func: Fn(&P) -> Result<Q, Er>>(f: Func, a: Seq<P>, b: Seq<P>)
    ensures
        oks_on(f, a) && oks_on(f, b) ==> oks_on(f, a + b),
{
    if oks_on(f, a) && oks_on(f, b) {
        assert forall|i: int| 0 <= i < (a + b).len() implies #[trigger] ok_on::<P, Q, Er, Func>(f, (a + b)[i]) by {
            if i < a.len() {
                assert((a + b)[i] == a[i]);
            } else {
                assert((a + b)[i] == b[i - a.len()]);
            }
        }
    }
}

/// The keys of the wrapped parts of a threshold, in order.
pub open spec fn ws_keys<P>(ws: Seq<Rc<W<P>>>) -> Seq<P>
    decreases ws,
{
    if ws.len() == 0 {
        Seq::empty()
    } else {
        ws_keys(ws.subrange(0, ws.len() - 1)) + ws.last().keys()
    }
}

/// Each key of `qs` is what `f` gave for the key of `ps` in its place.
pub open spec fn keys_translated<P, Q, Er, Func: Fn(&P) -> Result<Q, Er>>(ps: Seq<P>, qs: Seq<Q>, f: Func) -> bool {
    &&& ps.len() == qs.len()
    &&& forall|i: int| 0 <= i < ps.len() ==> #[trigger] call_ensures(f, (&ps[i],), Ok::<Q, Er>(qs[i]))
}

/// Each wrapped part of `ws2` is the one of `ws` in its place, translated by `f`.
pub open spec fn ws_translated<P, Q, Er, Func: Fn(&P) -> Result<Q, Er>>(
    ws: Seq<Rc<W<P>>>,
    ws2: Seq<Rc<W<Q>>>,
    f: Func,
) -> bool
    decreases ws,
{
    if ws.len() == 0 {
        ws2.len() == 0
    } else {
        &&& ws2.len() == ws.len()
        &&& ws_translated(ws.subrange(0, ws.len() - 1), ws2.subrange(0, ws2.len() - 1), f)
        &&& ws.last().translated(*ws2.last(), f)
    }
}

impl<P> E<P> {
    /// The keys of the fragment, in the order `translate` visits them.
    pub open spec fn keys(&self) -> Seq<P>
        decreases self,
    {
        match self {
            E::CheckSig(p) => seq![*p],
            E::CheckMultiSig(_, pks) => pks@,
            E::Time(_) => Seq::empty(),
            E::Threshold(_, e, ws) => ws_keys(ws@) + e.keys(),
            E::ParallelAnd(l, r) => l.keys() + r.keys(),
            E::CascadeAnd(l, r) => l.keys() + r.keys(),
            E::ParallelOr(l, r) => l.keys() + r.keys(),
            E::CascadeOr(l, r) => l.keys() + r.keys(),
            E::SwitchOrLeft(l, r) => l.keys() + r.keys(),
            E::SwitchOrRight(l, r) => l.keys() + r.keys(),
            E::Likely(x) => x.keys(),
            E::Unlikely(x) => x.keys(),
        }
    }

    /// `t` has the shape of this fragment, with each key translated by `f`.
    pub open spec fn translated<Q, Er, Func: Fn(&P) -> Result<Q, Er>>(self, t: E<Q>, f: Func) -> bool
        decreases self,
    {
        match self {
            E::CheckSig(p) => t matches E::CheckSig(q) && call_ensures(f, (&p,), Ok::<Q, Er>(q)),
            E::CheckMultiSig(k, pks) => t matches E::CheckMultiSig(k2, qs) && k2 == k && keys_translated(pks@, qs@, f),
            E::Time(n) => t == E::<Q>::Time(n),
            E::Threshold(k, e, ws) => t matches E::Threshold(k2, e2, ws2) && k2 == k && e.translated(*e2, f) && ws_translated(ws@, ws2@, f),
            E::ParallelAnd(l, r) => t matches E::ParallelAnd(l2, r2) && l.translated(*l2, f) && r.translated(*r2, f),
            E::CascadeAnd(l, r) => t matches E::CascadeAnd(l2, r2) && l.translated(*l2, f) && r.translated(*r2, f),
            E::ParallelOr(l, r) => t matches E::ParallelOr(l2, r2) && l.translated(*l2, f) && r.translated(*r2, f),
            E::CascadeOr(l, r) => t matches E::CascadeOr(l2, r2) && l.translated(*l2, f) && r.translated(*r2, f),
            E::SwitchOrLeft(l, r) => t matches E::SwitchOrLeft(l2, r2) && l.translated(*l2, f) && r.translated(*r2, f),
            E::SwitchOrRight(l, r) => t matches E::SwitchOrRight(l2, r2) && l.translated(*l2, f) && r.translated(*r2, f),
            E::Likely(x) => t matches E::Likely(x2) && x.translated(*x2, f),
            E::Unlikely(x) => t matches E::Unlikely(x2) && x.translated(*x2, f),
        }
    }

    /// Translates every key with `translatefn`, keeping the shape; the first
    /// error that `translatefn` gives is returned.
    pub fn translate<Q, Er, Func: Fn(&P) -> Result<Q, Er>>(&self, translatefn: &Func) -> (r: Result<E<Q>, Er>)
        requires
            callable_on(*translatefn, self.keys()),
        ensures
            r matches Ok(t) ==> self.translated(t, *translatefn),
            r matches Err(e) ==> fails_first(*translatefn, self.keys(), e),
            r is Ok ==> oks_on(*translatefn, self.keys()),
            succeeds_on(*translatefn, self.keys()) ==> r is Ok,
        decreases self,
    {
        match self {
            E::CheckSig(p) => {
                proof {
                    assert(self.keys()[0] == *p);
                }
                match translatefn(p) {
                    Ok(q) => Ok(E::CheckSig(q)),
                    Err(e) => Err(e),
                }
            },
            E::CheckMultiSig(k, pks) => match translate_keys(pks, translatefn) {
                Ok(ret) => Ok(E::CheckMultiSig(*k, ret)),
                Err(e) => Err(e),
            },
            E::Time(n) => Ok(E::Time(*n)),
            E::Threshold(k, sube, subw) => {
                proof {
                    lemma_on_concat(*translatefn, ws_keys(subw@), sube.keys());
                }
                match translate_ws(subw, translatefn) {
                    Ok(ret) => match sube.translate(translatefn) {
                        Ok(e2) => Ok(E::Threshold(*k, Rc::new(e2), ret)),
                        Err(e) => Err(e),
                    },
                    Err(e) => Err(e),
                }
            },
            E::ParallelAnd(left, right) => {
                proof {
                    lemma_on_concat(*translatefn, left.keys(), right.keys());
                }
                match left.translate(translatefn) {
                    Ok(l2) => match right.translate(translatefn) {
                        Ok(r2) => Ok(E::ParallelAnd(Rc::new(l2), Rc::new(r2))),
                        Err(e) => Err(e),
                    },
                    Err(e) => Err(e),
                }
            },
            E::CascadeAnd(left, right) => {
                proof {
                    lemma_on_concat(*translatefn, left.keys(), right.keys());
                }
                match left.translate(translatefn) {
                    Ok(l2) => match right.translate(translatefn) {
                        Ok(r2) => Ok(E::CascadeAnd(Rc::new(l2), Rc::new(r2))),
                        Err(e) => Err(e),
                    },
                    Err(e) => Err(e),
                }
            },
            E::ParallelOr(left, right) => {
                proof {
                    lemma_on_concat(*translatefn, left.keys(), right.keys());
                }
                match left.translate(translatefn) {
                    Ok(l2) => match right.translate(translatefn) {
                        Ok(r2) => Ok(E::ParallelOr(Rc::new(l2), Rc::new(r2))),
                        Err(e) => Err(e),
                    },
                    Err(e) => Err(e),
                }
            },
            E::CascadeOr(left, right) => {
                proof {
                    lemma_on_concat(*translatefn, left.keys(), right.keys());
                }
                match left.translate(translatefn) {
                    Ok(l2) => match right.translate(translatefn) {
                        Ok(r2) => Ok(E::CascadeOr(Rc::new(l2), Rc::new(r2))),
                        Err(e) => Err(e),
                    },
                    Err(e) => Err(e),
                }
            },
            E::SwitchOrLeft(left, right) => {
                proof {
                    lemma_on_concat(*translatefn, left.keys(), right.keys());
                }
                match left.translate(translatefn) {
                    Ok(l2) => match right.translate(translatefn) {
                        Ok(r2) => Ok(E::SwitchOrLeft(Rc::new(l2), Rc::new(r2))),
                        Err(e) => Err(e),
                    },
                    Err(e) => Err(e),
                }
            },
            E::SwitchOrRight(left, right) => {
                proof {
                    lemma_on_concat(*translatefn, left.keys(), right.keys());
                }
                match left.translate(translatefn) {
                    Ok(l2) => match right.translate(translatefn) {
                        Ok(r2) => Ok(E::SwitchOrRight(Rc::new(l2), Rc::new(r2))),
                        Err(e) => Err(e),
                    },
                    Err(e) => Err(e),
                }
            },
            E::Likely(sub) => match sub.translate(translatefn) {
                Ok(s2) => Ok(E::Likely(Rc::new(s2))),
                Err(e) => Err(e),
            },
            E::Unlikely(sub) => match sub.translate(translatefn) {
                Ok(s2) => Ok(E::Unlikely(Rc::new(s2))),
                Err(e) => Err(e),
            },
        }
    }
}

impl<P> W<P> {
    /// The keys of the fragment, in the order `translate` visits them.
    pub open spec fn keys(&self) -> Seq<P>
        decreases self,
    {
        match self {
            W::CheckSig(p) => seq![*p],
            W::HashEqual(_) => Seq::empty(),
            W::Time(_) => Seq::empty(),
            W::CastE(x) => x.keys(),
        }
    }

    /// `t` has the shape of this fragment, with each key translated by `f`.
    pub open spec fn translated<Q, Er, Func: Fn(&P) -> Result<Q, Er>>(self, t: W<Q>, f: Func) -> bool
        decreases self,
    {
        match self {
            W::CheckSig(p) => t matches W::CheckSig(q) && call_ensures(f, (&p,), Ok::<Q, Er>(q)),
            W::HashEqual(n) => t == W::<Q>::HashEqual(n),
            W::Time(n) => t == W::<Q>::Time(n),
            W::CastE(x) => t matches W::CastE(x2) && x.translated(*x2, f),
        }
    }

    /// Translates every key with `translatefn`, keeping the shape; the first
    /// error that `translatefn` gives is returned.
    pub fn translate<Q, Er, Func: Fn(&P) -> Result<Q, Er>>(&self, translatefn: &Func) -> (r: Result<W<Q>, Er>)
        requires
            callable_on(*translatefn, self.keys()),
        ensures
            r matches Ok(t) ==> self.translated(t, *translatefn),
            r matches Err(e) ==> fails_first(*translatefn, self.keys(), e),
            r is Ok ==> oks_on(*translatefn, self.keys()),
            succeeds_on(*translatefn, self.keys()) ==> r is Ok,
        decreases self,
    {
        match self {
            W::CheckSig(p) => {
                proof {
                    assert(self.keys()[0] == *p);
                }
                match translatefn(p) {
                    Ok(q) => Ok(W::CheckSig(q)),
                    Err(e) => Err(e),
                }
            },
            W::HashEqual(n) => Ok(W::HashEqual(*n)),
            W::Time(n) => Ok(W::Time(*n)),
            W::CastE(sub) => match sub.translate(translatefn) {
                Ok(s2) => Ok(W::CastE(Rc::new(s2))),
                Err(e) => Err(e),
            },
        }
    }
}

impl<P> F<P> {
    /// The keys of the fragment, in the order `translate` visits them.
    pub open spec fn keys(&self) -> Seq<P>
        decreases self,
    {
        match self {
            F::CheckSig(p) => seq![*p],
            F::CheckMultiSig(_, pks) => pks@,
            F::Time(_) => Seq::empty(),
            F::HashEqual(_) => Seq::empty(),
            F::Threshold(_, e, ws) => ws_keys(ws@) + e.keys(),
            F::And(l, r) => l.keys() + r.keys(),
            F::CascadeOr(l, r) => l.keys() + r.keys(),
            F::SwitchOr(l, r) => l.keys() + r.keys(),
            F::SwitchOrV(l, r) => l.keys() + r.keys(),
        }
    }

    /// `t` has the shape of this fragment, with each key translated by `f`.
    pub open spec fn translated<Q, Er, Func: Fn(&P) -> Result<Q, Er>>(self, t: F<Q>, f: Func) -> bool
        decreases self,
    {
        match self {
            F::CheckSig(p) => t matches F::CheckSig(q) && call_ensures(f, (&p,), Ok::<Q, Er>(q)),
            F::CheckMultiSig(k, pks) => t matches F::CheckMultiSig(k2, qs) && k2 == k && keys_translated(pks@, qs@, f),
            F::Time(n) => t == F::<Q>::Time(n),
            F::HashEqual(n) => t == F::<Q>::HashEqual(n),
            F::Threshold(k, e, ws) => t matches F::Threshold(k2, e2, ws2) && k2 == k && e.translated(*e2, f) && ws_translated(ws@, ws2@, f),
            F::And(l, r) => t matches F::And(l2, r2) && l.translated(*l2, f) && r.translated(*r2, f),
            F::CascadeOr(l, r) => t matches F::CascadeOr(l2, r2) && l.translated(*l2, f) && r.translated(*r2, f),
            F::SwitchOr(l, r) => t matches F::SwitchOr(l2, r2) && l.translated(*l2, f) && r.translated(*r2, f),
            F::SwitchOrV(l, r) => t matches F::SwitchOrV(l2, r2) && l.translated(*l2, f) && r.translated(*r2, f),
        }
    }

    /// Translates every key with `translatefn`, keeping the shape; the first
    /// error that `translatefn` gives is returned.
    pub fn translate<Q, Er, Func: Fn(&P) -> Result<Q, Er>>(&self, translatefn: &Func) -> (r: Result<F<Q>, Er>)
        requires
            callable_on(*translatefn, self.keys()),
        ensures
            r matches Ok(t) ==> self.translated(t, *translatefn),
            r matches Err(e) ==> fails_first(*translatefn, self.keys(), e),
            r is Ok ==> oks_on(*translatefn, self.keys()),
            succeeds_on(*translatefn, self.keys()) ==> r is Ok,
        decreases self,
    {
        match self {
            F::CheckSig(p) => {
                proof {
                    assert(self.keys()[0] == *p);
                }
                match translatefn(p) {
                    Ok(q) => Ok(F::CheckSig(q)),
                    Err(e) => Err(e),
                }
            },
            F::CheckMultiSig(k, pks) => match translate_keys(pks, translatefn) {
                Ok(ret) => Ok(F::CheckMultiSig(*k, ret)),
                Err(e) => Err(e),
            },
            F::Time(n) => Ok(F::Time(*n)),
            F::HashEqual(n) => Ok(F::HashEqual(*n)),
            F::Threshold(k, sube, subw) => {
                proof {
                    lemma_on_concat(*translatefn, ws_keys(subw@), sube.keys());
                }
                match translate_ws(subw, translatefn) {
                    Ok(ret) => match sube.translate(translatefn) {
                        Ok(e2) => Ok(F::Threshold(*k, Rc::new(e2), ret)),
                        Err(e) => Err(e),
                    },
                    Err(e) => Err(e),
                }
            },
            F::And(left, right) => {
                proof {
                    lemma_on_concat(*translatefn, left.keys(), right.keys());
                }
                match left.translate(translatefn) {
                    Ok(l2) => match right.translate(translatefn) {
                        Ok(r2) => Ok(F::And(Rc::new(l2), Rc::new(r2))),
                        Err(e) => Err(e),
                    },
                    Err(e) => Err(e),
                }
            },
            F::CascadeOr(left, right) => {
                proof {
                    lemma_on_concat(*translatefn, left.keys(), right.keys());
                }
                match left.translate(translatefn) {
                    Ok(l2) => match right.translate(translatefn) {
                        Ok(r2) => Ok(F::CascadeOr(Rc::new(l2), Rc::new(r2))),
                        Err(e) => Err(e),
                    },
                    Err(e) => Err(e),
                }
            },
            F::SwitchOr(left, right) => {
                proof {
                    lemma_on_concat(*translatefn, left.keys(), right.keys());
                }
                match left.translate(translatefn) {
                    Ok(l2) => match right.translate(translatefn) {
                        Ok(r2) => Ok(F::SwitchOr(Rc::new(l2), Rc::new(r2))),
                        Err(e) => Err(e),
                    },
                    Err(e) => Err(e),
                }
            },
            F::SwitchOrV(left, right) => {
                proof {
                    lemma_on_concat(*translatefn, left.keys(), right.keys());
                }
                match left.translate(translatefn) {
                    Ok(l2) => match right.translate(translatefn) {
                        Ok(r2) => Ok(F::SwitchOrV(Rc::new(l2), Rc::new(r2))),
                        Err(e) => Err(e),
                    },
                    Err(e) => Err(e),
                }
            },
        }
    }
}

impl<P> V<P> {
    /// The keys of the fragment, in the order `translate` visits them.
    pub open spec fn keys(&self) -> Seq<P>
        decreases self,
    {
        match self {
            V::CheckSig(p) => seq![*p],
            V::CheckMultiSig(_, pks) => pks@,
            V::Time(_) => Seq::empty(),
            V::HashEqual(_) => Seq::empty(),
            V::Threshold(_, e, ws) => ws_keys(ws@) + e.keys(),
            V::And(l, r) => l.keys() + r.keys(),
            V::CascadeOr(l, r) => l.keys() + r.keys(),
            V::SwitchOr(l, r) => l.keys() + r.keys(),
            V::SwitchOrT(l, r) => l.keys() + r.keys(),
        }
    }

    /// `t` has the shape of this fragment, with each key translated by `f`.
    pub open spec fn translated<Q, Er, Func: Fn(&P) -> Result<Q, Er>>(self, t: V<Q>, f: Func) -> bool
        decreases self,
    {
        match self {
            V::CheckSig(p) => t matches V::CheckSig(q) && call_ensures(f, (&p,), Ok::<Q, Er>(q)),
            V::CheckMultiSig(k, pks) => t matches V::CheckMultiSig(k2, qs) && k2 == k && keys_translated(pks@, qs@, f),
            V::Time(n) => t == V::<Q>::Time(n),
            V::HashEqual(n) => t == V::<Q>::HashEqual(n),
            V::Threshold(k, e, ws) => t matches V::Threshold(k2, e2, ws2) && k2 == k && e.translated(*e2, f) && ws_translated(ws@, ws2@, f),
            V::And(l, r) => t matches V::And(l2, r2) && l.translated(*l2, f) && r.translated(*r2, f),
            V::CascadeOr(l, r) => t matches V::CascadeOr(l2, r2) && l.translated(*l2, f) && r.translated(*r2, f),
            V::SwitchOr(l, r) => t matches V::SwitchOr(l2, r2) && l.translated(*l2, f) && r.translated(*r2, f),
            V::SwitchOrT(l, r) => t matches V::SwitchOrT(l2, r2) && l.translated(*l2, f) && r.translated(*r2, f),
        }
    }

    /// Translates every key with `translatefn`, keeping the shape; the first
    /// error that `translatefn` gives is returned.
    pub fn translate<Q, Er, Func: Fn(&P) -> Result<Q, Er>>(&self, translatefn: &Func) -> (r: Result<V<Q>, Er>)
        requires
            callable_on(*translatefn, self.keys()),
        ensures
            r matches Ok(t) ==> self.translated(t, *translatefn),
            r matches Err(e) ==> fails_first(*translatefn, self.keys(), e),
            r is Ok ==> oks_on(*translatefn, self.keys()),
            succeeds_on(*translatefn, self.keys()) ==> r is Ok,
        decreases self,
    {
        match self {
            V::CheckSig(p) => {
                proof {
                    assert(self.keys()[0] == *p);
                }
                match translatefn(p) {
                    Ok(q) => Ok(V::CheckSig(q)),
                    Err(e) => Err(e),
                }
            },
            V::CheckMultiSig(k, pks) => match translate_keys(pks, translatefn) {
                Ok(ret) => Ok(V::CheckMultiSig(*k, ret)),
                Err(e) => Err(e),
            },
            V::Time(n) => Ok(V::Time(*n)),
            V::HashEqual(n) => Ok(V::HashEqual(*n)),
            V::Threshold(k, sube, subw) => {
                proof {
                    lemma_on_concat(*translatefn, ws_keys(subw@), sube.keys());
                }
                match translate_ws(subw, translatefn) {
                    Ok(ret) => match sube.translate(translatefn) {
                        Ok(e2) => Ok(V::Threshold(*k, Rc::new(e2), ret)),
                        Err(e) => Err(e),
                    },
                    Err(e) => Err(e),
                }
            },
            V::And(left, right) => {
                proof {
                    lemma_on_concat(*translatefn, left.keys(), right.keys());
                }
                match left.translate(translatefn) {
                    Ok(l2) => match right.translate(translatefn) {
                        Ok(r2) => Ok(V::And(Rc::new(l2), Rc::new(r2))),
                        Err(e) => Err(e),
                    },
                    Err(e) => Err(e),
                }
            },
            V::CascadeOr(left, right) => {
                proof {
                    lemma_on_concat(*translatefn, left.keys(), right.keys());
                }
                match left.translate(translatefn) {
                    Ok(l2) => match right.translate(translatefn) {
                        Ok(r2) => Ok(V::CascadeOr(Rc::new(l2), Rc::new(r2))),
                        Err(e) => Err(e),
                    },
                    Err(e) => Err(e),
                }
            },
            V::SwitchOr(left, right) => {
                proof {
                    lemma_on_concat(*translatefn, left.keys(), right.keys());
                }
                match left.translate(translatefn) {
                    Ok(l2) => match right.translate(translatefn) {
                        Ok(r2) => Ok(V::SwitchOr(Rc::new(l2), Rc::new(r2))),
                        Err(e) => Err(e),
                    },
                    Err(e) => Err(e),
                }
            },
            V::SwitchOrT(left, right) => {
                proof {
                    lemma_on_concat(*translatefn, left.keys(), right.keys());
                }
                match left.translate(translatefn) {
                    Ok(l2) => match right.translate(translatefn) {
                        Ok(r2) => Ok(V::SwitchOrT(Rc::new(l2), Rc::new(r2))),
                        Err(e) => Err(e),
                    },
                    Err(e) => Err(e),
                }
            },
        }
    }
}

impl<P> T<P> {
    /// The keys of the fragment, in the order `translate` visits them.
    pub open spec fn keys(&self) -> Seq<P>
        decreases self,
    {
        match self {
            T::Time(_) => Seq::empty(),
            T::HashEqual(_) => Seq::empty(),
            T::And(l, r) => l.keys() + r.keys(),
            T::ParallelOr(l, r) => l.keys() + r.keys(),
            T::CascadeOr(l, r) => l.keys() + r.keys(),
            T::CascadeOrV(l, r) => l.keys() + r.keys(),
            T::SwitchOr(l, r) => l.keys() + r.keys(),
            T::SwitchOrV(l, r) => l.keys() + r.keys(),
            T::CastE(x) => x.keys(),
        }
    }

    /// `t` has the shape of this fragment, with each key translated by `f`.
    pub open spec fn translated<Q, Er, Func: Fn(&P) -> Result<Q, Er>>(self, t: T<Q>, f: Func) -> bool
        decreases self,
    {
        match self {
            T::Time(n) => t == T::<Q>::Time(n),
            T::HashEqual(n) => t == T::<Q>::HashEqual(n),
            T::And(l, r) => t matches T::And(l2, r2) && l.translated(*l2, f) && r.translated(*r2, f),
            T::ParallelOr(l, r) => t matches T::ParallelOr(l2, r2) && l.translated(*l2, f) && r.translated(*r2, f),
            T::CascadeOr(l, r) => t matches T::CascadeOr(l2, r2) && l.translated(*l2, f) && r.translated(*r2, f),
            T::CascadeOrV(l, r) => t matches T::CascadeOrV(l2, r2) && l.translated(*l2, f) && r.translated(*r2, f),
            T::SwitchOr(l, r) => t matches T::SwitchOr(l2, r2) && l.translated(*l2, f) && r.translated(*r2, f),
            T::SwitchOrV(l, r) => t matches T::SwitchOrV(l2, r2) && l.translated(*l2, f) && r.translated(*r2, f),
            T::CastE(x) => t matches T::CastE(x2) && x.translated(x2, f),
        }
    }

    /// Translates every key with `translatefn`, keeping the shape; the first
    /// error that `translatefn` gives is returned.
    pub fn translate<Q, Er, Func: Fn(&P) -> Result<Q, Er>>(&self, translatefn: &Func) -> (r: Result<T<Q>, Er>)
        requires
            callable_on(*translatefn, self.keys()),
        ensures
            r matches Ok(t) ==> self.translated(t, *translatefn),
            r matches Err(e) ==> fails_first(*translatefn, self.keys(), e),
            r is Ok ==> oks_on(*translatefn, self.keys()),
            succeeds_on(*translatefn, self.keys()) ==> r is Ok,
        decreases self,
    {
        match self {
            T::Time(n) => Ok(T::Time(*n)),
            T::HashEqual(n) => Ok(T::HashEqual(*n)),
            T::And(left, right) => {
                proof {
                    lemma_on_concat(*translatefn, left.keys(), right.keys());
                }
                match left.translate(translatefn) {
                    Ok(l2) => match right.translate(translatefn) {
                        Ok(r2) => Ok(T::And(Rc::new(l2), Rc::new(r2))),
                        Err(e) => Err(e),
                    },
                    Err(e) => Err(e),
                }
            },
            T::ParallelOr(left, right) => {
                proof {
                    lemma_on_concat(*translatefn, left.keys(), right.keys());
                }
                match left.translate(translatefn) {
                    Ok(l2) => match right.translate(translatefn) {
                        Ok(r2) => Ok(T::ParallelOr(Rc::new(l2), Rc::new(r2))),
                        Err(e) => Err(e),
                    },
                    Err(e) => Err(e),
                }
            },
            T::CascadeOr(left, right) => {
                proof {
                    lemma_on_concat(*translatefn, left.keys(), right.keys());
                }
                match left.translate(translatefn) {
                    Ok(l2) => match right.translate(translatefn) {
                        Ok(r2) => Ok(T::CascadeOr(Rc::new(l2), Rc::new(r2))),
                        Err(e) => Err(e),
                    },
                    Err(e) => Err(e),
                }
            },
            T::CascadeOrV(left, right) => {
                proof {
                    lemma_on_concat(*translatefn, left.keys(), right.keys());
                }
                match left.translate(translatefn) {
                    Ok(l2) => match right.translate(translatefn) {
                        Ok(r2) => Ok(T::CascadeOrV(Rc::new(l2), Rc::new(r2))),
                        Err(e) => Err(e),
                    },
                    Err(e) => Err(e),
                }
            },
            T::SwitchOr(left, right) => {
                proof {
                    lemma_on_concat(*translatefn, left.keys(), right.keys());
                }
                match left.translate(translatefn) {
                    Ok(l2) => match right.translate(translatefn) {
                        Ok(r2) => Ok(T::SwitchOr(Rc::new(l2), Rc::new(r2))),
                        Err(e) => Err(e),
                    },
                    Err(e) => Err(e),
                }
            },
            T::SwitchOrV(left, right) => {
                proof {
                    lemma_on_concat(*translatefn, left.keys(), right.keys());
                }
                match left.translate(translatefn) {
                    Ok(l2) => match right.translate(translatefn) {
                        Ok(r2) => Ok(T::SwitchOrV(Rc::new(l2), Rc::new(r2))),
                        Err(e) => Err(e),
                    },
                    Err(e) => Err(e),
                }
            },
            T::CastE(sub) => match sub.translate(translatefn) {
                Ok(s2) => Ok(T::CastE(s2)),
                Err(e) => Err(e),
            },
        }
    }
}

/// Translates each key in turn; the first error is returned.
fn translate_keys<P, Q, Er, Func: Fn(&P) -> Result<Q, Er>>(pks: &Vec<P>, translatefn: &Func) -> (r: Result<Vec<Q>, Er>)
    requires
        callable_on(*translatefn, pks@),
    ensures
        r matches Ok(qs) ==> keys_translated(pks@, qs@, *translatefn),
        r matches Err(e) ==> fails_first(*translatefn, pks@, e),
        r is Ok ==> oks_on(*translatefn, pks@),
        succeeds_on(*translatefn, pks@) ==> r is Ok,
{
    let mut ret: Vec<Q> = Vec::new();
    let mut i: usize = 0;
    while i < pks.len()
        invariant
            i <= pks@.len(),
            callable_on(*translatefn, pks@),
            ret@.len() == i,
            forall|j: int| 0 <= j < i ==> #[trigger] call_ensures(*translatefn, (&pks@[j],), Ok::<Q, Er>(ret@[j])),
        decreases pks.len() - i,
    {
        assert(call_requires(*translatefn, (&pks@[i as int],)));
        match translatefn(&pks[i]) {
            Ok(q) => {
                ret.push(q);
            },
            Err(e) => {
                proof {
                    let before = pks@.take(i as int);
                    assert forall|j: int| 0 <= j < before.len() implies #[trigger] ok_on::<P, Q, Er, Func>(
                        *translatefn,
                        before[j],
                    ) by {
                        assert(call_ensures(*translatefn, (&pks@[j],), Ok::<Q, Er>(ret@[j])));
                    }
                    assert(call_ensures(*translatefn, (&pks@[i as int],), Err::<Q, Er>(e)));
                }
                return Err(e);
            },
        }
        i = i + 1;
    }
    proof {
        assert forall|j: int| 0 <= j < pks@.len() implies #[trigger] ok_on::<P, Q, Er, Func>(*translatefn, pks@[j]) by {
            assert(call_ensures(*translatefn, (&pks@[j],), Ok::<Q, Er>(ret@[j])));
        }
    }
    Ok(ret)
}

/// Translates each wrapped part in turn; the first error is returned.
fn translate_ws<P, Q, Er, Func: Fn(&P) -> Result<Q, Er>>(ws: &Vec<Rc<W<P>>>, translatefn: &Func) -> (r: Result<
    Vec<Rc<W<Q>>>,
    Er,
>)
    requires
        callable_on(*translatefn, ws_keys(ws@)),
    ensures
        r matches Ok(ws2) ==> ws_translated(ws@, ws2@, *translatefn),
        r matches Err(e) ==> fails_first(*translatefn, ws_keys(ws@), e),
        r is Ok ==> oks_on(*translatefn, ws_keys(ws@)),
        succeeds_on(*translatefn, ws_keys(ws@)) ==> r is Ok,
    decreases ws@, 0nat,
{
    let mut ret: Vec<Rc<W<Q>>> = Vec::new();
    let mut i: usize = 0;
    proof {
        assert(ws@.subrange(0, 0).len() == 0);
    }
    while i < ws.len()
        invariant
            i <= ws@.len(),
            callable_on(*translatefn, ws_keys(ws@)),
            ret@.len() == i,
            ws_translated(ws@.subrange(0, i as int), ret@, *translatefn),
            oks_on(*translatefn, ws_keys(ws@.subrange(0, i as int))),
        decreases ws.len() - i,
    {
        proof {
            lemma_ws_keys_split(ws@, i as int);
            lemma_on_concat(*translatefn, ws_keys(ws@.subrange(0, i as int)), ws_keys(ws@.subrange(i as int, ws@.len() as int)));
            let rest = ws@.subrange(i as int, ws@.len() as int);
            lemma_ws_keys_split(rest, 1);
            let one = rest.subrange(0, 1);
            assert(one.subrange(0, 0) =~= Seq::<Rc<W<P>>>::empty());
            assert(ws_keys(one.subrange(0, 0)) =~= Seq::<P>::empty());
            assert(one.last() == ws@[i as int]);
            assert(ws_keys(one) =~= ws@[i as int].keys());
            lemma_on_concat(*translatefn, ws_keys(rest.subrange(0, 1)), ws_keys(rest.subrange(1, rest.len() as int)));
        }
        match ws[i].translate(translatefn) {
            Ok(w2) => {
                let ghost prev = ret@;
                ret.push(Rc::new(w2));
                proof {
                    let s2 = ws@.subrange(0, i + 1);
                    assert(s2.subrange(0, s2.len() - 1) =~= ws@.subrange(0, i as int));
                    assert(ret@.subrange(0, ret@.len() - 1) =~= prev);
                    lemma_oks_concat(*translatefn, ws_keys(ws@.subrange(0, i as int)), ws@[i as int].keys());
                    assert(ws_keys(s2) == ws_keys(ws@.subrange(0, i as int)) + ws@[i as int].keys());
                }
            },
            Err(e) => {
                proof {
                    let rest = ws@.subrange(i as int, ws@.len() as int);
                    assert(fails_first(*translatefn, ws_keys(rest.subrange(0, 1)) + ws_keys(rest.subrange(1, rest.len() as int)), e));
                    assert(fails_first(*translatefn, ws_keys(rest), e));
                    assert(fails_first(*translatefn, ws_keys(ws@.subrange(0, i as int)) + ws_keys(rest), e));
                }
                return Err(e);
            },
        }
        i = i + 1;
    }
    proof {
        assert(ws@.subrange(0, ws@.len() as int) =~= ws@);
    }
    Ok(ret)
}

/// The keys of the wrapped parts split at any point.
pub proof fn lemma_ws_keys_split<P>(ws: Seq<Rc<W<P>>>, j: int)
    requires
        0 <= j <= ws.len(),
    ensures
        ws_keys(ws) == ws_keys(ws.subrange(0, j)) + ws_keys(ws.subrange(j, ws.len() as int)),
    decreases ws.len(),
{
    if j == ws.len() {
        assert(ws.subrange(0, j) =~= ws);
        assert(ws.subrange(j, ws.len() as int) =~= Seq::<Rc<W<P>>>::empty());
        assert(ws_keys(ws.subrange(j, ws.len() as int)) =~= Seq::<P>::empty());
        assert(ws_keys(ws) + Seq::<P>::empty() =~= ws_keys(ws));
    } else {
        let init = ws.subrange(0, ws.len() - 1);
        lemma_ws_keys_split(init, j);
        assert(init.subrange(0, j) =~= ws.subrange(0, j));
        let tail = ws.subrange(j, ws.len() as int);
        assert(tail.subrange(0, tail.len() - 1) =~= init.subrange(j, init.len() as int));
        assert(tail.last() == ws.last());
        assert(ws_keys(ws) =~= ws_keys(ws.subrange(0, j)) + ws_keys(tail));
    }
}

/// Translating wrapped parts with a function that gives each key back gives
/// the same parts.
pub proof fn lemma_ws_translated_same<P, Er, Func: Fn(&P) -> Result<P, Er>>(
    ws: Seq<Rc<W<P>>>,
    ws2: Seq<Rc<W<P>>>,
    f: Func,
)
    requires
        ws_translated(ws, ws2, f),
        forall|p: P, r: Result<P, Er>| #[trigger] call_ensures(f, (&p,), r) ==> r == Ok::<P, Er>(p),
    ensures
        ws_same(ws, ws2),
    decreases ws,
{
    if ws.len() > 0 {
        lemma_ws_translated_same(ws.subrange(0, ws.len() - 1), ws2.subrange(0, ws2.len() - 1), f);
        let w2 = ws2.last();
        ws.last().lemma_translated_same(&w2, f);
    }
}

/// Translating wrapped parts with a function that gives `g` of each key
/// gives parts whose keys are `g` of theirs.
pub proof fn lemma_ws_translated_keys<P, Q, Er, Func: Fn(&P) -> Result<Q, Er>>(
    ws: Seq<Rc<W<P>>>,
    ws2: Seq<Rc<W<Q>>>,
    f: Func,
    g: spec_fn(P) -> Q,
)
    requires
        ws_translated(ws, ws2, f),
        forall|p: P, r: Result<Q, Er>| #[trigger] call_ensures(f, (&p,), r) ==> r == Ok::<Q, Er>(g(p)),
    ensures
        ws_keys(ws2) == ws_keys(ws).map_values(g),
    decreases ws,
{
    if ws.len() > 0 {
        let a = ws.subrange(0, ws.len() - 1);
        lemma_ws_translated_keys(a, ws2.subrange(0, ws2.len() - 1), f, g);
        let w2 = ws2.last();
        ws.last().lemma_translated_keys(&w2, f, g);
        assert((ws_keys(a) + ws.last().keys()).map_values(g) =~= ws_keys(a).map_values(g) + ws.last().keys().map_values(g));
    }
}

impl<P> E<P> {
    /// Translating with a function that gives each key back (a clone of
    /// it, for keys whose clones are equal) gives the same fragment.
    pub proof fn lemma_translated_same<Er, Func: Fn(&P) -> Result<P, Er>>(&self, t: &E<P>, f: Func)
        requires
            self.translated(*t, f),
            forall|p: P, r: Result<P, Er>| #[trigger] call_ensures(f, (&p,), r) ==> r == Ok::<P, Er>(p),
        ensures
            self.same(*t),
        decreases *self,
    {
        match (self, t) {
            (E::CheckSig(p), E::CheckSig(q)) => {
                assert(call_ensures(f, (p,), Ok::<P, Er>(*q)));
            },
            (E::CheckMultiSig(_, pks), E::CheckMultiSig(_, qs)) => {
                assert forall|i: int| 0 <= i < pks@.len() implies qs@[i] == pks@[i] by {
                    assert(call_ensures(f, (&pks@[i],), Ok::<P, Er>(qs@[i])));
                }
                assert(qs@ =~= pks@);
            },
            (E::Threshold(_, e, ws), E::Threshold(_, e2, ws2)) => {
                e.lemma_translated_same(e2, f);
                lemma_ws_translated_same(ws@, ws2@, f);
            },
            (E::ParallelAnd(l, r), E::ParallelAnd(l2, r2)) => {
                l.lemma_translated_same(l2, f);
                r.lemma_translated_same(r2, f);
            },
            (E::CascadeAnd(l, r), E::CascadeAnd(l2, r2)) => {
                l.lemma_translated_same(l2, f);
                r.lemma_translated_same(r2, f);
            },
            (E::ParallelOr(l, r), E::ParallelOr(l2, r2)) => {
                l.lemma_translated_same(l2, f);
                r.lemma_translated_same(r2, f);
            },
            (E::CascadeOr(l, r), E::CascadeOr(l2, r2)) => {
                l.lemma_translated_same(l2, f);
                r.lemma_translated_same(r2, f);
            },
            (E::SwitchOrLeft(l, r), E::SwitchOrLeft(l2, r2)) => {
                l.lemma_translated_same(l2, f);
                r.lemma_translated_same(r2, f);
            },
            (E::SwitchOrRight(l, r), E::SwitchOrRight(l2, r2)) => {
                l.lemma_translated_same(l2, f);
                r.lemma_translated_same(r2, f);
            },
            (E::Likely(x), E::Likely(x2)) => {
                x.lemma_translated_same(x2, f);
            },
            (E::Unlikely(x), E::Unlikely(x2)) => {
                x.lemma_translated_same(x2, f);
            },
            _ => {},
        }
    }

    /// Translating with a function that gives `g` of each key keeps the
    /// shape (see `translated`) and maps each key by `g`, in order.
    pub proof fn lemma_translated_keys<Q, Er, Func: Fn(&P) -> Result<Q, Er>>(&self, t: &E<Q>, f: Func, g: spec_fn(P) -> Q)
        requires
            self.translated(*t, f),
            forall|p: P, r: Result<Q, Er>| #[trigger] call_ensures(f, (&p,), r) ==> r == Ok::<Q, Er>(g(p)),
        ensures
            t.keys() == self.keys().map_values(g),
        decreases *self,
    {
        match (self, t) {
            (E::CheckSig(p), E::CheckSig(q)) => {
                assert(call_ensures(f, (p,), Ok::<Q, Er>(*q)));
                assert(seq![*q] =~= seq![*p].map_values(g));
            },
            (E::CheckMultiSig(_, pks), E::CheckMultiSig(_, qs)) => {
                assert forall|i: int| 0 <= i < pks@.len() implies qs@[i] == g(pks@[i]) by {
                    assert(call_ensures(f, (&pks@[i],), Ok::<Q, Er>(qs@[i])));
                }
                assert(qs@ =~= pks@.map_values(g));
            },
            (E::Time(_), E::Time(_)) => {
                assert(Seq::<P>::empty().map_values(g) =~= Seq::<Q>::empty());
            },
            (E::Threshold(_, e, ws), E::Threshold(_, e2, ws2)) => {
                e.lemma_translated_keys(e2, f, g);
                lemma_ws_translated_keys(ws@, ws2@, f, g);
                assert((ws_keys(ws@) + e.keys()).map_values(g) =~= ws_keys(ws@).map_values(g) + e.keys().map_values(g));
            },
            (E::ParallelAnd(l, r), E::ParallelAnd(l2, r2)) => {
                l.lemma_translated_keys(l2, f, g);
                r.lemma_translated_keys(r2, f, g);
                assert((l.keys() + r.keys()).map_values(g) =~= l.keys().map_values(g) + r.keys().map_values(g));
            },
            (E::CascadeAnd(l, r), E::CascadeAnd(l2, r2)) => {
                l.lemma_translated_keys(l2, f, g);
                r.lemma_translated_keys(r2, f, g);
                assert((l.keys() + r.keys()).map_values(g) =~= l.keys().map_values(g) + r.keys().map_values(g));
            },
            (E::ParallelOr(l, r), E::ParallelOr(l2, r2)) => {
                l.lemma_translated_keys(l2, f, g);
                r.lemma_translated_keys(r2, f, g);
                assert((l.keys() + r.keys()).map_values(g) =~= l.keys().map_values(g) + r.keys().map_values(g));
            },
            (E::CascadeOr(l, r), E::CascadeOr(l2, r2)) => {
                l.lemma_translated_keys(l2, f, g);
                r.lemma_translated_keys(r2, f, g);
                assert((l.keys() + r.keys()).map_values(g) =~= l.keys().map_values(g) + r.keys().map_values(g));
            },
            (E::SwitchOrLeft(l, r), E::SwitchOrLeft(l2, r2)) => {
                l.lemma_translated_keys(l2, f, g);
                r.lemma_translated_keys(r2, f, g);
                assert((l.keys() + r.keys()).map_values(g) =~= l.keys().map_values(g) + r.keys().map_values(g));
            },
            (E::SwitchOrRight(l, r), E::SwitchOrRight(l2, r2)) => {
                l.lemma_translated_keys(l2, f, g);
                r.lemma_translated_keys(r2, f, g);
                assert((l.keys() + r.keys()).map_values(g) =~= l.keys().map_values(g) + r.keys().map_values(g));
            },
            (E::Likely(x), E::Likely(x2)) => {
                x.lemma_translated_keys(x2, f, g);
            },
            (E::Unlikely(x), E::Unlikely(x2)) => {
                x.lemma_translated_keys(x2, f, g);
            },
            _ => {},
        }
    }
}

impl<P> W<P> {
    /// Translating with a function that gives each key back (a clone of
    /// it, for keys whose clones are equal) gives the same fragment.
    pub proof fn lemma_translated_same<Er, Func: Fn(&P) -> Result<P, Er>>(&self, t: &W<P>, f: Func)
        requires
            self.translated(*t, f),
            forall|p: P, r: Result<P, Er>| #[trigger] call_ensures(f, (&p,), r) ==> r == Ok::<P, Er>(p),
        ensures
            self.same(*t),
        decreases *self,
    {
        match (self, t) {
            (W::CheckSig(p), W::CheckSig(q)) => {
                assert(call_ensures(f, (p,), Ok::<P, Er>(*q)));
            },
            (W::CastE(x), W::CastE(x2)) => {
                x.lemma_translated_same(x2, f);
            },
            _ => {},
        }
    }

    /// Translating with a function that gives `g` of each key keeps the
    /// shape (see `translated`) and maps each key by `g`, in order.
    pub proof fn lemma_translated_keys<Q, Er, Func: Fn(&P) -> Result<Q, Er>>(&self, t: &W<Q>, f: Func, g: spec_fn(P) -> Q)
        requires
            self.translated(*t, f),
            forall|p: P, r: Result<Q, Er>| #[trigger] call_ensures(f, (&p,), r) ==> r == Ok::<Q, Er>(g(p)),
        ensures
            t.keys() == self.keys().map_values(g),
        decreases *self,
    {
        match (self, t) {
            (W::CheckSig(p), W::CheckSig(q)) => {
                assert(call_ensures(f, (p,), Ok::<Q, Er>(*q)));
                assert(seq![*q] =~= seq![*p].map_values(g));
            },
            (W::HashEqual(_), W::HashEqual(_)) => {
                assert(Seq::<P>::empty().map_values(g) =~= Seq::<Q>::empty());
            },
            (W::Time(_), W::Time(_)) => {
                assert(Seq::<P>::empty().map_values(g) =~= Seq::<Q>::empty());
            },
            (W::CastE(x), W::CastE(x2)) => {
                x.lemma_translated_keys(x2, f, g);
            },
            _ => {},
        }
    }
}

impl<P> F<P> {
    /// Translating with a function that gives each key back (a clone of
    /// it, for keys whose clones are equal) gives the same fragment.
    pub proof fn lemma_translated_same<Er, Func: Fn(&P) -> Result<P, Er>>(&self, t: &F<P>, f: Func)
        requires
            self.translated(*t, f),
            forall|p: P, r: Result<P, Er>| #[trigger] call_ensures(f, (&p,), r) ==> r == Ok::<P, Er>(p),
        ensures
            self.same(*t),
        decreases *self,
    {
        match (self, t) {
            (F::CheckSig(p), F::CheckSig(q)) => {
                assert(call_ensures(f, (p,), Ok::<P, Er>(*q)));
            },
            (F::CheckMultiSig(_, pks), F::CheckMultiSig(_, qs)) => {
                assert forall|i: int| 0 <= i < pks@.len() implies qs@[i] == pks@[i] by {
                    assert(call_ensures(f, (&pks@[i],), Ok::<P, Er>(qs@[i])));
                }
                assert(qs@ =~= pks@);
            },
            (F::Threshold(_, e, ws), F::Threshold(_, e2, ws2)) => {
                e.lemma_translated_same(e2, f);
                lemma_ws_translated_same(ws@, ws2@, f);
            },
            (F::And(l, r), F::And(l2, r2)) => {
                l.lemma_translated_same(l2, f);
                r.lemma_translated_same(r2, f);
            },
            (F::CascadeOr(l, r), F::CascadeOr(l2, r2)) => {
                l.lemma_translated_same(l2, f);
                r.lemma_translated_same(r2, f);
            },
            (F::SwitchOr(l, r), F::SwitchOr(l2, r2)) => {
                l.lemma_translated_same(l2, f);
                r.lemma_translated_same(r2, f);
            },
            (F::SwitchOrV(l, r), F::SwitchOrV(l2, r2)) => {
                l.lemma_translated_same(l2, f);
                r.lemma_translated_same(r2, f);
            },
            _ => {},
        }
    }

    /// Translating with a function that gives `g` of each key keeps the
    /// shape (see `translated`) and maps each key by `g`, in order.
    pub proof fn lemma_translated_keys<Q, Er, Func: Fn(&P) -> Result<Q, Er>>(&self, t: &F<Q>, f: Func, g: spec_fn(P) -> Q)
        requires
            self.translated(*t, f),
            forall|p: P, r: Result<Q, Er>| #[trigger] call_ensures(f, (&p,), r) ==> r == Ok::<Q, Er>(g(p)),
        ensures
            t.keys() == self.keys().map_values(g),
        decreases *self,
    {
        match (self, t) {
            (F::CheckSig(p), F::CheckSig(q)) => {
                assert(call_ensures(f, (p,), Ok::<Q, Er>(*q)));
                assert(seq![*q] =~= seq![*p].map_values(g));
            },
            (F::CheckMultiSig(_, pks), F::CheckMultiSig(_, qs)) => {
                assert forall|i: int| 0 <= i < pks@.len() implies qs@[i] == g(pks@[i]) by {
                    assert(call_ensures(f, (&pks@[i],), Ok::<Q, Er>(qs@[i])));
                }
                assert(qs@ =~= pks@.map_values(g));
            },
            (F::Time(_), F::Time(_)) => {
                assert(Seq::<P>::empty().map_values(g) =~= Seq::<Q>::empty());
            },
            (F::HashEqual(_), F::HashEqual(_)) => {
                assert(Seq::<P>::empty().map_values(g) =~= Seq::<Q>::empty());
            },
            (F::Threshold(_, e, ws), F::Threshold(_, e2, ws2)) => {
                e.lemma_translated_keys(e2, f, g);
                lemma_ws_translated_keys(ws@, ws2@, f, g);
                assert((ws_keys(ws@) + e.keys()).map_values(g) =~= ws_keys(ws@).map_values(g) + e.keys().map_values(g));
            },
            (F::And(l, r), F::And(l2, r2)) => {
                l.lemma_translated_keys(l2, f, g);
                r.lemma_translated_keys(r2, f, g);
                assert((l.keys() + r.keys()).map_values(g) =~= l.keys().map_values(g) + r.keys().map_values(g));
            },
            (F::CascadeOr(l, r), F::CascadeOr(l2, r2)) => {
                l.lemma_translated_keys(l2, f, g);
                r.lemma_translated_keys(r2, f, g);
                assert((l.keys() + r.keys()).map_values(g) =~= l.keys().map_values(g) + r.keys().map_values(g));
            },
            (F::SwitchOr(l, r), F::SwitchOr(l2, r2)) => {
                l.lemma_translated_keys(l2, f, g);
                r.lemma_translated_keys(r2, f, g);
                assert((l.keys() + r.keys()).map_values(g) =~= l.keys().map_values(g) + r.keys().map_values(g));
            },
            (F::SwitchOrV(l, r), F::SwitchOrV(l2, r2)) => {
                l.lemma_translated_keys(l2, f, g);
                r.lemma_translated_keys(r2, f, g);
                assert((l.keys() + r.keys()).map_values(g) =~= l.keys().map_values(g) + r.keys().map_values(g));
            },
            _ => {},
        }
    }
}

impl<P> V<P> {
    /// Translating with a function that gives each key back (a clone of
    /// it, for keys whose clones are equal) gives the same fragment.
    pub proof fn lemma_translated_same<Er, Func: Fn(&P) -> Result<P, Er>>(&self, t: &V<P>, f: Func)
        requires
            self.translated(*t, f),
            forall|p: P, r: Result<P, Er>| #[trigger] call_ensures(f, (&p,), r) ==> r == Ok::<P, Er>(p),
        ensures
            self.same(*t),
        decreases *self,
    {
        match (self, t) {
            (V::CheckSig(p), V::CheckSig(q)) => {
                assert(call_ensures(f, (p,), Ok::<P, Er>(*q)));
            },
            (V::CheckMultiSig(_, pks), V::CheckMultiSig(_, qs)) => {
                assert forall|i: int| 0 <= i < pks@.len() implies qs@[i] == pks@[i] by {
                    assert(call_ensures(f, (&pks@[i],), Ok::<P, Er>(qs@[i])));
                }
                assert(qs@ =~= pks@);
            },
            (V::Threshold(_, e, ws), V::Threshold(_, e2, ws2)) => {
                e.lemma_translated_same(e2, f);
                lemma_ws_translated_same(ws@, ws2@, f);
            },
            (V::And(l, r), V::And(l2, r2)) => {
                l.lemma_translated_same(l2, f);
                r.lemma_translated_same(r2, f);
            },
            (V::CascadeOr(l, r), V::CascadeOr(l2, r2)) => {
                l.lemma_translated_same(l2, f);
                r.lemma_translated_same(r2, f);
            },
            (V::SwitchOr(l, r), V::SwitchOr(l2, r2)) => {
                l.lemma_translated_same(l2, f);
                r.lemma_translated_same(r2, f);
            },
            (V::SwitchOrT(l, r), V::SwitchOrT(l2, r2)) => {
                l.lemma_translated_same(l2, f);
                r.lemma_translated_same(r2, f);
            },
            _ => {},
        }
    }

    /// Translating with a function that gives `g` of each key keeps the
    /// shape (see `translated`) and maps each key by `g`, in order.
    pub proof fn lemma_translated_keys<Q, Er, Func: Fn(&P) -> Result<Q, Er>>(&self, t: &V<Q>, f: Func, g: spec_fn(P) -> Q)
        requires
            self.translated(*t, f),
            forall|p: P, r: Result<Q, Er>| #[trigger] call_ensures(f, (&p,), r) ==> r == Ok::<Q, Er>(g(p)),
        ensures
            t.keys() == self.keys().map_values(g),
        decreases *self,
    {
        match (self, t) {
            (V::CheckSig(p), V::CheckSig(q)) => {
                assert(call_ensures(f, (p,), Ok::<Q, Er>(*q)));
                assert(seq![*q] =~= seq![*p].map_values(g));
            },
            (V::CheckMultiSig(_, pks), V::CheckMultiSig(_, qs)) => {
                assert forall|i: int| 0 <= i < pks@.len() implies qs@[i] == g(pks@[i]) by {
                    assert(call_ensures(f, (&pks@[i],), Ok::<Q, Er>(qs@[i])));
                }
                assert(qs@ =~= pks@.map_values(g));
            },
            (V::Time(_), V::Time(_)) => {
                assert(Seq::<P>::empty().map_values(g) =~= Seq::<Q>::empty());
            },
            (V::HashEqual(_), V::HashEqual(_)) => {
                assert(Seq::<P>::empty().map_values(g) =~= Seq::<Q>::empty());
            },
            (V::Threshold(_, e, ws), V::Threshold(_, e2, ws2)) => {
                e.lemma_translated_keys(e2, f, g);
                lemma_ws_translated_keys(ws@, ws2@, f, g);
                assert((ws_keys(ws@) + e.keys()).map_values(g) =~= ws_keys(ws@).map_values(g) + e.keys().map_values(g));
            },
            (V::And(l, r), V::And(l2, r2)) => {
                l.lemma_translated_keys(l2, f, g);
                r.lemma_translated_keys(r2, f, g);
                assert((l.keys() + r.keys()).map_values(g) =~= l.keys().map_values(g) + r.keys().map_values(g));
            },
            (V::CascadeOr(l, r), V::CascadeOr(l2, r2)) => {
                l.lemma_translated_keys(l2, f, g);
                r.lemma_translated_keys(r2, f, g);
                assert((l.keys() + r.keys()).map_values(g) =~= l.keys().map_values(g) + r.keys().map_values(g));
            },
            (V::SwitchOr(l, r), V::SwitchOr(l2, r2)) => {
                l.lemma_translated_keys(l2, f, g);
                r.lemma_translated_keys(r2, f, g);
                assert((l.keys() + r.keys()).map_values(g) =~= l.keys().map_values(g) + r.keys().map_values(g));
            },
            (V::SwitchOrT(l, r), V::SwitchOrT(l2, r2)) => {
                l.lemma_translated_keys(l2, f, g);
                r.lemma_translated_keys(r2, f, g);
                assert((l.keys() + r.keys()).map_values(g) =~= l.keys().map_values(g) + r.keys().map_values(g));
            },
            _ => {},
        }
    }
}

impl<P> T<P> {
    /// Translating with a function that gives each key back (a clone of
    /// it, for keys whose clones are equal) gives the same fragment.
    pub proof fn lemma_translated_same<Er, Func: Fn(&P) -> Result<P, Er>>(&self, t: &T<P>, f: Func)
        requires
            self.translated(*t, f),
            forall|p: P, r: Result<P, Er>| #[trigger] call_ensures(f, (&p,), r) ==> r == Ok::<P, Er>(p),
        ensures
            self.same(*t),
        decreases *self,
    {
        match (self, t) {
            (T::And(l, r), T::And(l2, r2)) => {
                l.lemma_translated_same(l2, f);
                r.lemma_translated_same(r2, f);
            },
            (T::ParallelOr(l, r), T::ParallelOr(l2, r2)) => {
                l.lemma_translated_same(l2, f);
                r.lemma_translated_same(r2, f);
            },
            (T::CascadeOr(l, r), T::CascadeOr(l2, r2)) => {
                l.lemma_translated_same(l2, f);
                r.lemma_translated_same(r2, f);
            },
            (T::CascadeOrV(l, r), T::CascadeOrV(l2, r2)) => {
                l.lemma_translated_same(l2, f);
                r.lemma_translated_same(r2, f);
            },
            (T::SwitchOr(l, r), T::SwitchOr(l2, r2)) => {
                l.lemma_translated_same(l2, f);
                r.lemma_translated_same(r2, f);
            },
            (T::SwitchOrV(l, r), T::SwitchOrV(l2, r2)) => {
                l.lemma_translated_same(l2, f);
                r.lemma_translated_same(r2, f);
            },
            (T::CastE(x), T::CastE(x2)) => {
                x.lemma_translated_same(x2, f);
            },
            _ => {},
        }
    }

    /// Translating with a function that gives `g` of each key keeps the
    /// shape (see `translated`) and maps each key by `g`, in order.
    pub proof fn lemma_translated_keys<Q, Er, Func: Fn(&P) -> Result<Q, Er>>(&self, t: &T<Q>, f: Func, g: spec_fn(P) -> Q)
        requires
            self.translated(*t, f),
            forall|p: P, r: Result<Q, Er>| #[trigger] call_ensures(f, (&p,), r) ==> r == Ok::<Q, Er>(g(p)),
        ensures
            t.keys() == self.keys().map_values(g),
        decreases *self,
    {
        match (self, t) {
            (T::Time(_), T::Time(_)) => {
                assert(Seq::<P>::empty().map_values(g) =~= Seq::<Q>::empty());
            },
            (T::HashEqual(_), T::HashEqual(_)) => {
                assert(Seq::<P>::empty().map_values(g) =~= Seq::<Q>::empty());
            },
            (T::And(l, r), T::And(l2, r2)) => {
                l.lemma_translated_keys(l2, f, g);
                r.lemma_translated_keys(r2, f, g);
                assert((l.keys() + r.keys()).map_values(g) =~= l.keys().map_values(g) + r.keys().map_values(g));
            },
            (T::ParallelOr(l, r), T::ParallelOr(l2, r2)) => {
                l.lemma_translated_keys(l2, f, g);
                r.lemma_translated_keys(r2, f, g);
                assert((l.keys() + r.keys()).map_values(g) =~= l.keys().map_values(g) + r.keys().map_values(g));
            },
            (T::CascadeOr(l, r), T::CascadeOr(l2, r2)) => {
                l.lemma_translated_keys(l2, f, g);
                r.lemma_translated_keys(r2, f, g);
                assert((l.keys() + r.keys()).map_values(g) =~= l.keys().map_values(g) + r.keys().map_values(g));
            },
            (T::CascadeOrV(l, r), T::CascadeOrV(l2, r2)) => {
                l.lemma_translated_keys(l2, f, g);
                r.lemma_translated_keys(r2, f, g);
                assert((l.keys() + r.keys()).map_values(g) =~= l.keys().map_values(g) + r.keys().map_values(g));
            },
            (T::SwitchOr(l, r), T::SwitchOr(l2, r2)) => {
                l.lemma_translated_keys(l2, f, g);
                r.lemma_translated_keys(r2, f, g);
                assert((l.keys() + r.keys()).map_values(g) =~= l.keys().map_values(g) + r.keys().map_values(g));
            },
            (T::SwitchOrV(l, r), T::SwitchOrV(l2, r2)) => {
                l.lemma_translated_keys(l2, f, g);
                r.lemma_translated_keys(r2, f, g);
                assert((l.keys() + r.keys()).map_values(g) =~= l.keys().map_values(g) + r.keys().map_values(g));
            },
            (T::CastE(x), T::CastE(x2)) => {
                x.lemma_translated_keys(x2, f, g);
            },
            _ => {},
        }
    }
}

} // verus!
