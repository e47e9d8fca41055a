//! Any one script fragment, whichever its kind, and the casts between kinds.

use std::rc::Rc;
use vstd::prelude::*;
use bitcoin::blockdata::script::Builder;
use crate::ast::{E, W, F, V, T, Instr, no_min_push};
use crate::error::Error;
use crate::keys::PublicKey;
use crate::script::{builder_bytes, script_bytes};

verus! {

/// A script fragment of any of the five kinds.
#[derive(Clone, PartialEq, Eq, Debug)]
pub enum Elem {
    E(E<PublicKey>),
    W(W<PublicKey>),
    F(F<PublicKey>),
    V(V<PublicKey>),
    T(T<PublicKey>),
}

impl Elem {
    /// The script of the fragment.
    pub open spec fn instrs(self) -> Seq<Instr<PublicKey>> {
        match self {
            Elem::E(x) => x.instrs(),
            Elem::W(x) => x.instrs(),
            Elem::F(x) => x.instrs(),
            Elem::V(x) => x.instrs(),
            Elem::T(x) => x.instrs(),
        }
    }

    /// The text form of the fragment.
    pub open spec fn display(self) -> Seq<char> {
        match self {
            Elem::E(x) => x.display(),
            Elem::W(x) => x.display(),
            Elem::F(x) => x.display(),
            Elem::V(x) => x.display(),
            Elem::T(x) => x.display(),
        }
    }

    /// The fragment as an `E`, where it is one.
    pub open spec fn cast_e(self) -> Option<E<PublicKey>> {
        match self {
            Elem::E(x) => Some(x),
            _ => None,
        }
    }

    /// The fragment as a `W`, where it is one.
    pub open spec fn cast_w(self) -> Option<W<PublicKey>> {
        match self {
            Elem::W(x) => Some(x),
            _ => None,
        }
    }

    /// The fragment as an `F`, where it is one.
    pub open spec fn cast_f(self) -> Option<F<PublicKey>> {
        match self {
            Elem::F(x) => Some(x),
            _ => None,
        }
    }

    /// The fragment as a `V`, where it is one.
    pub open spec fn cast_v(self) -> Option<V<PublicKey>> {
        match self {
            Elem::V(x) => Some(x),
            _ => None,
        }
    }

    /// The fragment as a `T`: every `E` (a parallel or becomes the `T` one,
    /// any other is wrapped), the `F`s `or_v` and `or_a`, and every `T`.
    pub open spec fn cast_t(self) -> Option<T<PublicKey>> {
        match self {
            Elem::E(E::ParallelOr(l, r)) => Some(T::ParallelOr(l, r)),
            Elem::E(x) => Some(T::CastE(x)),
            Elem::F(F::CascadeOr(l, r)) => Some(T::CascadeOrV(l, r)),
            Elem::F(F::SwitchOrV(l, r)) => Some(T::SwitchOrV(l, r)),
            Elem::T(x) => Some(x),
            _ => None,
        }
    }
}

/// Casting a fragment to a `T` keeps its script: the `T` form has the same
/// instructions.
pub proof fn lemma_cast_t_keeps_script(x: Elem)
    requires
        x.cast_t() is Some,
    ensures
        x.cast_t().unwrap().instrs() == x.instrs(),
{
}

/// An expression cast to a `T` adds no instruction: its script is the
/// expression's.
pub proof fn lemma_cast_e_to_t_adds_nothing(e: E<PublicKey>)
    ensures
        T::CastE(e).instrs() == e.instrs(),
        script_bytes(T::CastE(e).instrs()) == script_bytes(e.instrs()),
{
}

/// `r` is the outcome of a cast of `x` whose result, if any, is `c`: the
/// result, or an `Unexpected` error that names `x`.
pub open spec fn cast_outcome<X>(c: Option<X>, r: Result<Rc<X>, Error>, x: Elem) -> bool {
    match c {
        Some(y) => r matches Ok(p) && *p == y,
        None => r matches Err(Error::Unexpected(s)) && s@ == x.display(),
    }
}

/// `is_X` holds of a fragment exactly when `into_X` succeeds on it: both go
/// by the same cast, and a cast's outcome is a success exactly when the
/// cast gives a fragment.
pub proof fn lemma_castable_iff_cast_succeeds<X>(c: Option<X>, r: Result<Rc<X>, Error>, x: Elem)
    requires
        cast_outcome(c, r, x),
    ensures
        (c is Some) <==> (r is Ok),
{
}

/// The casts between kinds: an `E` casts to `E` and `T`, a `W` to `W` only,
/// an `F` to `F`, and to `T` where it is an `or_v` or an `or_a`, a `V` to
/// `V` only, a `T` to `T` only.
pub proof fn lemma_cast_table(x: Elem)
    ensures
        x.cast_e() is Some <==> x is E,
        x.cast_w() is Some <==> x is W,
        x.cast_f() is Some <==> x is F,
        x.cast_v() is Some <==> x is V,
        x.cast_t() is Some <==> (x is E || x is T || (x matches Elem::F(f) && (f is CascadeOr || f is SwitchOrV))),
{
}

/// A script fragment: what each of the five kinds can be cast to, its
/// script, and its text.
pub trait AstElem: Sized {
    /// This fragment, tagged with its kind.
    spec fn elem(&self) -> Elem;

    /// Attempt cast into E
    fn into_e(self) -> (r: Result<Rc<E<PublicKey>>, Error>)
        ensures
            cast_outcome(self.elem().cast_e(), r, self.elem()),
    ;

    /// Attempt cast into W
    fn into_w(self) -> (r: Result<Rc<W<PublicKey>>, Error>)
        ensures
            cast_outcome(self.elem().cast_w(), r, self.elem()),
    ;

    /// Attempt cast into F
    fn into_f(self) -> (r: Result<Rc<F<PublicKey>>, Error>)
        ensures
            cast_outcome(self.elem().cast_f(), r, self.elem()),
    ;

    /// Attempt cast into V
    fn into_v(self) -> (r: Result<Rc<V<PublicKey>>, Error>)
        ensures
            cast_outcome(self.elem().cast_v(), r, self.elem()),
    ;

    /// Attempt cast into T
    fn into_t(self) -> (r: Result<Rc<T<PublicKey>>, Error>)
        ensures
            cast_outcome(self.elem().cast_t(), r, self.elem()),
    ;

    /// Is the element castable to E?
    fn is_e(&self) -> (r: bool)
        ensures
            r == self.elem().cast_e() is Some,
    ;

    /// Is the element castable to W?
    fn is_w(&self) -> (r: bool)
        ensures
            r == self.elem().cast_w() is Some,
    ;

    /// Is the element castable to F?
    fn is_f(&self) -> (r: bool)
        ensures
            r == self.elem().cast_f() is Some,
    ;

    /// Is the element castable to V?
    fn is_v(&self) -> (r: bool)
        ensures
            r == self.elem().cast_v() is Some,
    ;

    /// Is the element castable to T?
    fn is_t(&self) -> (r: bool)
        ensures
            r == self.elem().cast_t() is Some,
    ;

    /// Serialize the element as a fragment of Bitcoin Script. The inverse
    /// function, from Script to an AST element, is `parse_subexpression`.
    fn serialize(&self, builder: Builder) -> (r: Builder)
        requires
            no_min_push(self.elem().instrs()),
        ensures
            builder_bytes(r) == builder_bytes(builder) + script_bytes(self.elem().instrs()),
    ;

    /// The text form of the element.
    fn to_string(&self) -> (r: String)
        ensures
            r@ == self.elem().display(),
    ;
}

impl AstElem for E<PublicKey> {
    open spec fn elem(&self) -> Elem {
        Elem::E(*self)
    }

    fn into_e(self) -> (r: Result<Rc<E<PublicKey>>, Error>) {
        Ok(Rc::new(self))
    }

    fn into_w(self) -> (r: Result<Rc<W<PublicKey>>, Error>) {
        Err(Error::Unexpected(self.to_string()))
    }

    fn into_f(self) -> (r: Result<Rc<F<PublicKey>>, Error>) {
        Err(Error::Unexpected(self.to_string()))
    }

    fn into_v(self) -> (r: Result<Rc<V<PublicKey>>, Error>) {
        Err(Error::Unexpected(self.to_string()))
    }

    fn into_t(self) -> (r: Result<Rc<T<PublicKey>>, Error>) {
        match self {
            E::ParallelOr(l, r) => Ok(Rc::new(T::ParallelOr(l, r))),
            x => Ok(Rc::new(T::CastE(x))),
        }
    }

    fn is_e(&self) -> (r: bool) {
        true
    }

    fn is_w(&self) -> (r: bool) {
        false
    }

    fn is_f(&self) -> (r: bool) {
        false
    }

    fn is_v(&self) -> (r: bool) {
        false
    }

    fn is_t(&self) -> (r: bool) {
        true
    }

    fn serialize(&self, builder: Builder) -> (r: Builder) {
        self.push_script(builder)
    }

    fn to_string(&self) -> (r: String) {
        E::<PublicKey>::to_string(self)
    }
}

impl AstElem for W<PublicKey> {
    open spec fn elem(&self) -> Elem {
        Elem::W(*self)
    }

    fn into_e(self) -> (r: Result<Rc<E<PublicKey>>, Error>) {
        Err(Error::Unexpected(self.to_string()))
    }

    fn into_w(self) -> (r: Result<Rc<W<PublicKey>>, Error>) {
        Ok(Rc::new(self))
    }

    fn into_f(self) -> (r: Result<Rc<F<PublicKey>>, Error>) {
        Err(Error::Unexpected(self.to_string()))
    }

    fn into_v(self) -> (r: Result<Rc<V<PublicKey>>, Error>) {
        Err(Error::Unexpected(self.to_string()))
    }

    fn into_t(self) -> (r: Result<Rc<T<PublicKey>>, Error>) {
        Err(Error::Unexpected(self.to_string()))
    }

    fn is_e(&self) -> (r: bool) {
        false
    }

    fn is_w(&self) -> (r: bool) {
        true
    }

    fn is_f(&self) -> (r: bool) {
        false
    }

    fn is_v(&self) -> (r: bool) {
        false
    }

    fn is_t(&self) -> (r: bool) {
        false
    }

    fn serialize(&self, builder: Builder) -> (r: Builder) {
        self.push_script(builder)
    }

    fn to_string(&self) -> (r: String) {
        W::<PublicKey>::to_string(self)
    }
}

impl AstElem for F<PublicKey> {
    open spec fn elem(&self) -> Elem {
        Elem::F(*self)
    }

    fn into_e(self) -> (r: Result<Rc<E<PublicKey>>, Error>) {
        Err(Error::Unexpected(self.to_string()))
    }

    fn into_w(self) -> (r: Result<Rc<W<PublicKey>>, Error>) {
        Err(Error::Unexpected(self.to_string()))
    }

    fn into_f(self) -> (r: Result<Rc<F<PublicKey>>, Error>) {
        Ok(Rc::new(self))
    }

    fn into_v(self) -> (r: Result<Rc<V<PublicKey>>, Error>) {
        Err(Error::Unexpected(self.to_string()))
    }

    fn into_t(self) -> (r: Result<Rc<T<PublicKey>>, Error>) {
        match self {
            F::CascadeOr(l, r) => Ok(Rc::new(T::CascadeOrV(l, r))),
            F::SwitchOrV(l, r) => Ok(Rc::new(T::SwitchOrV(l, r))),
            x => Err(Error::Unexpected(x.to_string())),
        }
    }

    fn is_e(&self) -> (r: bool) {
        false
    }

    fn is_w(&self) -> (r: bool) {
        false
    }

    fn is_f(&self) -> (r: bool) {
        true
    }

    fn is_v(&self) -> (r: bool) {
        false
    }

    fn is_t(&self) -> (r: bool) {
        match self {
            F::CascadeOr(..) | F::SwitchOrV(..) => true,
            _ => false,
        }
    }

    fn serialize(&self, builder: Builder) -> (r: Builder) {
        self.push_script(builder)
    }

    fn to_string(&self) -> (r: String) {
        F::<PublicKey>::to_string(self)
    }
}

impl AstElem for V<PublicKey> {
    open spec fn elem(&self) -> Elem {
        Elem::V(*self)
    }

    fn into_e(self) -> (r: Result<Rc<E<PublicKey>>, Error>) {
        Err(Error::Unexpected(self.to_string()))
    }

    fn into_w(self) -> (r: Result<Rc<W<PublicKey>>, Error>) {
        Err(Error::Unexpected(self.to_string()))
    }

    fn into_f(self) -> (r: Result<Rc<F<PublicKey>>, Error>) {
        Err(Error::Unexpected(self.to_string()))
    }

    fn into_v(self) -> (r: Result<Rc<V<PublicKey>>, Error>) {
        Ok(Rc::new(self))
    }

    fn into_t(self) -> (r: Result<Rc<T<PublicKey>>, Error>) {
        Err(Error::Unexpected(self.to_string()))
    }

    fn is_e(&self) -> (r: bool) {
        false
    }

    fn is_w(&self) -> (r: bool) {
        false
    }

    fn is_f(&self) -> (r: bool) {
        false
    }

    fn is_v(&self) -> (r: bool) {
        true
    }

    fn is_t(&self) -> (r: bool) {
        false
    }

    fn serialize(&self, builder: Builder) -> (r: Builder) {
        self.push_script(builder)
    }

    fn to_string(&self) -> (r: String) {
        V::<PublicKey>::to_string(self)
    }
}

impl AstElem for T<PublicKey> {
    open spec fn elem(&self) -> Elem {
        Elem::T(*self)
    }

    fn into_e(self) -> (r: Result<Rc<E<PublicKey>>, Error>) {
        Err(Error::Unexpected(self.to_string()))
    }

    fn into_w(self) -> (r: Result<Rc<W<PublicKey>>, Error>) {
        Err(Error::Unexpected(self.to_string()))
    }

    fn into_f(self) -> (r: Result<Rc<F<PublicKey>>, Error>) {
        Err(Error::Unexpected(self.to_string()))
    }

    fn into_v(self) -> (r: Result<Rc<V<PublicKey>>, Error>) {
        Err(Error::Unexpected(self.to_string()))
    }

    fn into_t(self) -> (r: Result<Rc<T<PublicKey>>, Error>) {
        Ok(Rc::new(self))
    }

    fn is_e(&self) -> (r: bool) {
        false
    }

    fn is_w(&self) -> (r: bool) {
        false
    }

    fn is_f(&self) -> (r: bool) {
        false
    }

    fn is_v(&self) -> (r: bool) {
        false
    }

    fn is_t(&self) -> (r: bool) {
        true
    }

    fn serialize(&self, builder: Builder) -> (r: Builder) {
        self.push_script(builder)
    }

    fn to_string(&self) -> (r: String) {
        T::<PublicKey>::to_string(self)
    }
}

impl AstElem for Elem {
    open spec fn elem(&self) -> Elem {
        *self
    }

    fn into_e(self) -> (r: Result<Rc<E<PublicKey>>, Error>) {
        match self {
            Elem::E(x) => Ok(Rc::new(x)),
            other => Err(Error::Unexpected(other.to_string())),
        }
    }

    fn into_w(self) -> (r: Result<Rc<W<PublicKey>>, Error>) {
        match self {
            Elem::W(x) => Ok(Rc::new(x)),
            other => Err(Error::Unexpected(other.to_string())),
        }
    }

    fn into_f(self) -> (r: Result<Rc<F<PublicKey>>, Error>) {
        match self {
            Elem::F(x) => Ok(Rc::new(x)),
            other => Err(Error::Unexpected(other.to_string())),
        }
    }

    fn into_v(self) -> (r: Result<Rc<V<PublicKey>>, Error>) {
        match self {
            Elem::V(x) => Ok(Rc::new(x)),
            other => Err(Error::Unexpected(other.to_string())),
        }
    }

    fn into_t(self) -> (r: Result<Rc<T<PublicKey>>, Error>) {
        match self {
            Elem::E(x) => x.into_t(),
            Elem::F(x) => x.into_t(),
            Elem::T(x) => Ok(Rc::new(x)),
            other => Err(Error::Unexpected(other.to_string())),
        }
    }

    fn is_e(&self) -> (r: bool) {
        match self {
            Elem::E(x) => x.is_e(),
            Elem::W(x) => x.is_e(),
            Elem::F(x) => x.is_e(),
            Elem::V(x) => x.is_e(),
            Elem::T(x) => x.is_e(),
        }
    }

    fn is_w(&self) -> (r: bool) {
        match self {
            Elem::E(x) => x.is_w(),
            Elem::W(x) => x.is_w(),
            Elem::F(x) => x.is_w(),
            Elem::V(x) => x.is_w(),
            Elem::T(x) => x.is_w(),
        }
    }

    fn is_f(&self) -> (r: bool) {
        match self {
            Elem::E(x) => x.is_f(),
            Elem::W(x) => x.is_f(),
            Elem::F(x) => x.is_f(),
            Elem::V(x) => x.is_f(),
            Elem::T(x) => x.is_f(),
        }
    }

    fn is_v(&self) -> (r: bool) {
        match self {
            Elem::E(x) => x.is_v(),
            Elem::W(x) => x.is_v(),
            Elem::F(x) => x.is_v(),
            Elem::V(x) => x.is_v(),
            Elem::T(x) => x.is_v(),
        }
    }

    fn is_t(&self) -> (r: bool) {
        match self {
            Elem::E(x) => x.is_t(),
            Elem::W(x) => x.is_t(),
            Elem::F(x) => x.is_t(),
            Elem::V(x) => x.is_t(),
            Elem::T(x) => x.is_t(),
        }
    }

    fn serialize(&self, builder: Builder) -> (r: Builder) {
        match self {
            Elem::E(x) => x.push_script(builder),
            Elem::W(x) => x.push_script(builder),
            Elem::F(x) => x.push_script(builder),
            Elem::V(x) => x.push_script(builder),
            Elem::T(x) => x.push_script(builder),
        }
    }

    fn to_string(&self) -> (r: String) {
        match self {
            Elem::E(x) => E::<PublicKey>::to_string(x),
            Elem::W(x) => W::<PublicKey>::to_string(x),
            Elem::F(x) => F::<PublicKey>::to_string(x),
            Elem::V(x) => V::<PublicKey>::to_string(x),
            Elem::T(x) => T::<PublicKey>::to_string(x),
        }
    }
}

} // verus!
