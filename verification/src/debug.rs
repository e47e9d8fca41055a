//! The debug form of script fragments: the text form with each part
//! tagged by its kind (`E.pk(..)`, and `W` or `T` before an expression cast
//! to that kind). Each key prints in its own debug form.

use std::rc::Rc;
use vstd::prelude::*;
use vstd::string::StringExecFns;
use crate::ast::{E, W, F, V, T};
use crate::display::{KeyText, hash_text, keys_text, push_hex_rev, ws_text};
use crate::expression::is_digit;
use crate::keys::PublicKey;
use crate::printed::lemma_dec_reads;
use crate::text::{dec, hex, hex_digit, push_dec};

verus! {

/// Each text of `ts` is one that the debug form of the key of `ks` in its
/// place can be.
pub open spec fn pieces_ok<P: KeyText>(ks: Seq<P>, ts: Seq<Seq<char>>) -> bool {
    &&& ts.len() == ks.len()
    &&& forall|i: int| 0 <= i < ks.len() ==> #[trigger] ks[i].key_debug_form(ts[i])
}

/// The texts of two runs of keys, one after the other, are the texts of
/// the keys one after the other, and split back where the first run ends.
proof fn lemma_join<P: KeyText>(a: Seq<P>, ta: Seq<Seq<char>>, b: Seq<P>, tb: Seq<Seq<char>>)
    requires
        pieces_ok(a, ta),
        pieces_ok(b, tb),
    ensures
        pieces_ok(a + b, ta + tb),
        (ta + tb).take(a.len() as int) == ta,
        (ta + tb).skip(a.len() as int) == tb,
{
    assert forall|i: int| 0 <= i < (a + b).len() implies #[trigger] (a + b)[i].key_debug_form((ta + tb)[i]) by {
        if i >= a.len() {
            assert((a + b)[i] == b[i - a.len()]);
            assert((ta + tb)[i] == tb[i - a.len()]);
        }
    }
    assert((ta + tb).take(a.len() as int) =~= ta);
    assert((ta + tb).skip(a.len() as int) =~= tb);
}

/// The texts, each preceded by a comma.
pub open spec fn commas(ts: Seq<Seq<char>>) -> Seq<char>
    decreases ts.len(),
{
    if ts.len() == 0 {
        Seq::empty()
    } else {
        commas(ts.drop_last()) + ","@ + ts.last()
    }
}

/// Appends the debug form of each key, preceded by a comma, and gives them.
fn write_keys_debug<P: KeyText>(s: &mut String, ps: &Vec<P>) -> (ts: Ghost<Seq<Seq<char>>>)
    ensures
        pieces_ok(ps@, ts@),
        final(s)@ == old(s)@ + commas(ts@),
{
    let ghost s0 = s@;
    let mut acc: Ghost<Seq<Seq<char>>> = Ghost(Seq::empty());
    let mut i: usize = 0;
    while i < ps.len()
        invariant
            i <= ps@.len(),
            pieces_ok(ps@.subrange(0, i as int), acc@),
            s@ == s0 + commas(acc@),
        decreases ps.len() - i,
    {
        s.append(",");
        let t = ps[i].write_key_debug(s);
        proof {
            lemma_join(ps@.subrange(0, i as int), acc@, seq![ps@[i as int]], seq![t@]);
            assert(ps@.subrange(0, i as int) + seq![ps@[i as int]] =~= ps@.subrange(0, i + 1));
            assert((acc@ + seq![t@]).drop_last() =~= acc@);
            assert(s@ =~= s0 + commas(acc@ + seq![t@]));
        }
        acc = Ghost(acc@ + seq![t@]);
        i = i + 1;
    }
    proof {
        assert(ps@.subrange(0, ps@.len() as int) =~= ps@);
    }
    acc
}

/// The keys of wrapped parts, in the order their debug forms print them.
pub open spec fn ws_debug_keys<P: KeyText>(ws: Seq<Rc<W<P>>>) -> Seq<P>
    decreases ws,
{
    if ws.len() == 0 {
        Seq::empty()
    } else {
        ws_debug_keys(ws.subrange(0, ws.len() - 1)) + ws.last().debug_keys()
    }
}

/// Each wrapped part's debug form, preceded by a comma, the keys printed
/// as `ts` in order.
pub open spec fn ws_debug_with<P: KeyText>(ws: Seq<Rc<W<P>>>, ts: Seq<Seq<char>>) -> Seq<char>
    decreases ws,
{
    if ws.len() == 0 {
        Seq::empty()
    } else {
        let n = ts.len() - ws.last().debug_keys().len();
        ws_debug_with(ws.subrange(0, ws.len() - 1), ts.take(n)) + ","@ + ws.last().debug_with(ts.skip(n))
    }
}

/// Appends each wrapped part's debug form, preceded by a comma, and gives
/// the texts of its keys.
fn write_ws_debug<P: KeyText>(s: &mut String, ws: &Vec<Rc<W<P>>>) -> (ts: Ghost<Seq<Seq<char>>>)
    ensures
        pieces_ok(ws_debug_keys(ws@), ts@),
        final(s)@ == old(s)@ + ws_debug_with(ws@, ts@),
    decreases ws@, 0nat,
{
    let ghost s0 = s@;
    let mut acc: Ghost<Seq<Seq<char>>> = Ghost(Seq::empty());
    let mut i: usize = 0;
    while i < ws.len()
        invariant
            i <= ws@.len(),
            pieces_ok(ws_debug_keys(ws@.subrange(0, i as int)), acc@),
            s@ == s0 + ws_debug_with(ws@.subrange(0, i as int), acc@),
        decreases ws.len() - i,
    {
        s.append(",");
        let t = ws[i].write_debug(s);
        proof {
            let w2 = ws@.subrange(0, i + 1);
            assert(w2.subrange(0, w2.len() - 1) =~= ws@.subrange(0, i as int));
            assert(w2.last() == ws@[i as int]);
            lemma_join(ws_debug_keys(ws@.subrange(0, i as int)), acc@, ws@[i as int].debug_keys(), t@);
            assert(s@ =~= s0 + ws_debug_with(w2, acc@ + t@));
        }
        acc = Ghost(acc@ + t@);
        i = i + 1;
    }
    proof {
        assert(ws@.subrange(0, ws@.len() as int) =~= ws@);
    }
    acc
}

impl<P: KeyText> E<P> {
    /// The keys of the fragment, in the order its debug form prints them.
    pub open spec fn debug_keys(&self) -> Seq<P>
        decreases self,
    {
        match self {
            E::CheckSig(p) => seq![*p],
            E::CheckMultiSig(_, ps) => ps@,
            E::Time(_) => Seq::empty(),
            E::Threshold(_, e, subs) => e.debug_keys() + ws_debug_keys(subs@),
            E::ParallelAnd(l, r) => l.debug_keys() + r.debug_keys(),
            E::CascadeAnd(l, r) => l.debug_keys() + r.debug_keys(),
            E::ParallelOr(l, r) => l.debug_keys() + r.debug_keys(),
            E::CascadeOr(l, r) => l.debug_keys() + r.debug_keys(),
            E::SwitchOrLeft(l, r) => l.debug_keys() + r.debug_keys(),
            E::SwitchOrRight(l, r) => l.debug_keys() + r.debug_keys(),
            E::Likely(x) => x.debug_keys(),
            E::Unlikely(x) => x.debug_keys(),
        }
    }

    /// The debug form of this fragment, its keys printed as `ts` in order:
    /// its text form, each part tagged with its kind.
    pub open spec fn debug_with(&self, ts: Seq<Seq<char>>) -> Seq<char>
        decreases self,
    {
        match self {
            E::CheckSig(_) => "E.pk("@ + ts[0] + ")"@,
            E::CheckMultiSig(k, _) => "E.multi("@ + dec(*k as nat) + commas(ts) + ")"@,
            E::Time(n) => "E.time("@ + dec(*n as nat) + ")"@,
            E::Threshold(k, e, subs) => {
                let n = e.debug_keys().len() as int;
                "E.thres("@ + dec(*k as nat) + ","@ + e.debug_with(ts.take(n)) + ws_debug_with(subs@, ts.skip(n)) + ")"@
            },
            E::ParallelAnd(l, r) => {
                let n = l.debug_keys().len() as int;
                "E.and_p("@ + l.debug_with(ts.take(n)) + ","@ + r.debug_with(ts.skip(n)) + ")"@
            },
            E::CascadeAnd(l, r) => {
                let n = l.debug_keys().len() as int;
                "E.and_c("@ + l.debug_with(ts.take(n)) + ","@ + r.debug_with(ts.skip(n)) + ")"@
            },
            E::ParallelOr(l, r) => {
                let n = l.debug_keys().len() as int;
                "E.or_p("@ + l.debug_with(ts.take(n)) + ","@ + r.debug_with(ts.skip(n)) + ")"@
            },
            E::CascadeOr(l, r) => {
                let n = l.debug_keys().len() as int;
                "E.or_c("@ + l.debug_with(ts.take(n)) + ","@ + r.debug_with(ts.skip(n)) + ")"@
            },
            E::SwitchOrLeft(l, r) => {
                let n = l.debug_keys().len() as int;
                "E.or_s("@ + l.debug_with(ts.take(n)) + ","@ + r.debug_with(ts.skip(n)) + ")"@
            },
            E::SwitchOrRight(l, r) => {
                let n = l.debug_keys().len() as int;
                "E.or_a("@ + l.debug_with(ts.take(n)) + ","@ + r.debug_with(ts.skip(n)) + ")"@
            },
            E::Likely(x) => "E.lift_l("@ + x.debug_with(ts) + ")"@,
            E::Unlikely(x) => "E.lift_u("@ + x.debug_with(ts) + ")"@,
        }
    }

    /// The texts that the debug form of this fragment can be: one for each
    /// choice of its keys' debug forms.
    pub open spec fn debug_form(&self, t: Seq<char>) -> bool {
        exists|ts: Seq<Seq<char>>| pieces_ok(self.debug_keys(), ts) && t == #[trigger] self.debug_with(ts)
    }

    /// Appends the debug form of this fragment, and gives the texts of its
    /// keys.
    fn write_debug(&self, s: &mut String) -> (ts: Ghost<Seq<Seq<char>>>)
        ensures
            pieces_ok(self.debug_keys(), ts@),
            final(s)@ == old(s)@ + self.debug_with(ts@),
        decreases self,
    {
        let ghost s0 = s@;
        let ts: Ghost<Seq<Seq<char>>> = match self {
            E::CheckSig(p) => {
                s.append("E.pk(");
                let t = p.write_key_debug(s);
                s.append(")");
                let g: Ghost<Seq<Seq<char>>> = Ghost(Seq::empty().push(t@));
                g
            },
            E::CheckMultiSig(k, ps) => {
                s.append("E.multi(");
                push_dec(s, *k as u64);
                let ts = write_keys_debug(s, ps);
                s.append(")");
                ts
            },
            E::Time(n) => {
                s.append("E.time(");
                push_dec(s, *n as u64);
                s.append(")");
                let g: Ghost<Seq<Seq<char>>> = Ghost(Seq::empty());
                g
            },
            E::Threshold(k, e, subs) => {
                s.append("E.thres(");
                push_dec(s, *k as u64);
                s.append(",");
                let te = e.write_debug(s);
                let tw = write_ws_debug(s, subs);
                s.append(")");
                proof {
                    lemma_join(e.debug_keys(), te@, ws_debug_keys(subs@), tw@);
                }
                let g: Ghost<Seq<Seq<char>>> = Ghost(te@ + tw@);
                g
            },
            E::ParallelAnd(l, r) => {
                s.append("E.and_p(");
                let tl = l.write_debug(s);
                s.append(",");
                let tr = r.write_debug(s);
                s.append(")");
                proof {
                    lemma_join(l.debug_keys(), tl@, r.debug_keys(), tr@);
                }
                let g: Ghost<Seq<Seq<char>>> = Ghost(tl@ + tr@);
                g
            },
            E::CascadeAnd(l, r) => {
                s.append("E.and_c(");
                let tl = l.write_debug(s);
                s.append(",");
                let tr = r.write_debug(s);
                s.append(")");
                proof {
                    lemma_join(l.debug_keys(), tl@, r.debug_keys(), tr@);
                }
                let g: Ghost<Seq<Seq<char>>> = Ghost(tl@ + tr@);
                g
            },
            E::ParallelOr(l, r) => {
                s.append("E.or_p(");
                let tl = l.write_debug(s);
                s.append(",");
                let tr = r.write_debug(s);
                s.append(")");
                proof {
                    lemma_join(l.debug_keys(), tl@, r.debug_keys(), tr@);
                }
                let g: Ghost<Seq<Seq<char>>> = Ghost(tl@ + tr@);
                g
            },
            E::CascadeOr(l, r) => {
                s.append("E.or_c(");
                let tl = l.write_debug(s);
                s.append(",");
                let tr = r.write_debug(s);
                s.append(")");
                proof {
                    lemma_join(l.debug_keys(), tl@, r.debug_keys(), tr@);
                }
                let g: Ghost<Seq<Seq<char>>> = Ghost(tl@ + tr@);
                g
            },
            E::SwitchOrLeft(l, r) => {
                s.append("E.or_s(");
                let tl = l.write_debug(s);
                s.append(",");
                let tr = r.write_debug(s);
                s.append(")");
                proof {
                    lemma_join(l.debug_keys(), tl@, r.debug_keys(), tr@);
                }
                let g: Ghost<Seq<Seq<char>>> = Ghost(tl@ + tr@);
                g
            },
            E::SwitchOrRight(l, r) => {
                s.append("E.or_a(");
                let tl = l.write_debug(s);
                s.append(",");
                let tr = r.write_debug(s);
                s.append(")");
                proof {
                    lemma_join(l.debug_keys(), tl@, r.debug_keys(), tr@);
                }
                let g: Ghost<Seq<Seq<char>>> = Ghost(tl@ + tr@);
                g
            },
            E::Likely(x) => {
                s.append("E.lift_l(");
                let t = x.write_debug(s);
                s.append(")");
                t
            },
            E::Unlikely(x) => {
                s.append("E.lift_u(");
                let t = x.write_debug(s);
                s.append(")");
                t
            },
        };
        proof {
            assert(s@ =~= s0 + self.debug_with(ts@));
        }
        ts
    }

    /// The debug form of this fragment: its text form, each part tagged
    /// with its kind, each key in its own debug form.
    pub fn debug_string(&self) -> (r: String)
        ensures
            self.debug_form(r@),
    {
        let mut s = String::new();
        let ts = self.write_debug(&mut s);
        proof {
            assert(s@ =~= self.debug_with(ts@));
        }
        s
    }
}

impl<P: KeyText> W<P> {
    /// The keys of the fragment, in the order its debug form prints them.
    pub open spec fn debug_keys(&self) -> Seq<P>
        decreases self,
    {
        match self {
            W::CheckSig(p) => seq![*p],
            W::HashEqual(_) => Seq::empty(),
            W::Time(_) => Seq::empty(),
            W::CastE(x) => x.debug_keys(),
        }
    }

    /// The debug form of this fragment, its keys printed as `ts` in order:
    /// its text form, each part tagged with its kind.
    pub open spec fn debug_with(&self, ts: Seq<Seq<char>>) -> Seq<char>
        decreases self,
    {
        match self {
            W::CheckSig(_) => "W.pk("@ + ts[0] + ")"@,
            W::HashEqual(h) => "W.hash("@ + hash_text(*h) + ")"@,
            W::Time(n) => "W.time("@ + dec(*n as nat) + ")"@,
            W::CastE(x) => "W"@ + x.debug_with(ts),
        }
    }

    /// The texts that the debug form of this fragment can be: one for each
    /// choice of its keys' debug forms.
    pub open spec fn debug_form(&self, t: Seq<char>) -> bool {
        exists|ts: Seq<Seq<char>>| pieces_ok(self.debug_keys(), ts) && t == #[trigger] self.debug_with(ts)
    }

    /// Appends the debug form of this fragment, and gives the texts of its
    /// keys.
    fn write_debug(&self, s: &mut String) -> (ts: Ghost<Seq<Seq<char>>>)
        ensures
            pieces_ok(self.debug_keys(), ts@),
            final(s)@ == old(s)@ + self.debug_with(ts@),
        decreases self,
    {
        let ghost s0 = s@;
        let ts: Ghost<Seq<Seq<char>>> = match self {
            W::CheckSig(p) => {
                s.append("W.pk(");
                let t = p.write_key_debug(s);
                s.append(")");
                let g: Ghost<Seq<Seq<char>>> = Ghost(Seq::empty().push(t@));
                g
            },
            W::HashEqual(h) => {
                s.append("W.hash(");
                push_hex_rev(s, h.bytes.as_slice());
                s.append(")");
                let g: Ghost<Seq<Seq<char>>> = Ghost(Seq::empty());
                g
            },
            W::Time(n) => {
                s.append("W.time(");
                push_dec(s, *n as u64);
                s.append(")");
                let g: Ghost<Seq<Seq<char>>> = Ghost(Seq::empty());
                g
            },
            W::CastE(x) => {
                s.append("W");
                x.write_debug(s)
            },
        };
        proof {
            assert(s@ =~= s0 + self.debug_with(ts@));
        }
        ts
    }

    /// The debug form of this fragment: its text form, each part tagged
    /// with its kind, each key in its own debug form.
    pub fn debug_string(&self) -> (r: String)
        ensures
            self.debug_form(r@),
    {
        let mut s = String::new();
        let ts = self.write_debug(&mut s);
        proof {
            assert(s@ =~= self.debug_with(ts@));
        }
        s
    }
}

impl<P: KeyText> F<P> {
    /// The keys of the fragment, in the order its debug form prints them.
    pub open spec fn debug_keys(&self) -> Seq<P>
        decreases self,
    {
        match self {
            F::CheckSig(p) => seq![*p],
            F::CheckMultiSig(_, ps) => ps@,
            F::Time(_) => Seq::empty(),
            F::HashEqual(_) => Seq::empty(),
            F::Threshold(_, e, subs) => e.debug_keys() + ws_debug_keys(subs@),
            F::And(l, r) => l.debug_keys() + r.debug_keys(),
            F::CascadeOr(l, r) => l.debug_keys() + r.debug_keys(),
            F::SwitchOr(l, r) => l.debug_keys() + r.debug_keys(),
            F::SwitchOrV(l, r) => l.debug_keys() + r.debug_keys(),
        }
    }

    /// The debug form of this fragment, its keys printed as `ts` in order:
    /// its text form, each part tagged with its kind.
    pub open spec fn debug_with(&self, ts: Seq<Seq<char>>) -> Seq<char>
        decreases self,
    {
        match self {
            F::CheckSig(_) => "F.pk("@ + ts[0] + ")"@,
            F::CheckMultiSig(k, _) => "F.multi("@ + dec(*k as nat) + commas(ts) + ")"@,
            F::Time(n) => "F.time("@ + dec(*n as nat) + ")"@,
            F::HashEqual(h) => "F.hash("@ + hash_text(*h) + ")"@,
            F::Threshold(k, e, subs) => {
                let n = e.debug_keys().len() as int;
                "F.thres("@ + dec(*k as nat) + ","@ + e.debug_with(ts.take(n)) + ws_debug_with(subs@, ts.skip(n)) + ")"@
            },
            F::And(l, r) => {
                let n = l.debug_keys().len() as int;
                "F.and_p("@ + l.debug_with(ts.take(n)) + ","@ + r.debug_with(ts.skip(n)) + ")"@
            },
            F::CascadeOr(l, r) => {
                let n = l.debug_keys().len() as int;
                "F.or_v("@ + l.debug_with(ts.take(n)) + ","@ + r.debug_with(ts.skip(n)) + ")"@
            },
            F::SwitchOr(l, r) => {
                let n = l.debug_keys().len() as int;
                "F.or_s("@ + l.debug_with(ts.take(n)) + ","@ + r.debug_with(ts.skip(n)) + ")"@
            },
            F::SwitchOrV(l, r) => {
                let n = l.debug_keys().len() as int;
                "F.or_a("@ + l.debug_with(ts.take(n)) + ","@ + r.debug_with(ts.skip(n)) + ")"@
            },
        }
    }

    /// The texts that the debug form of this fragment can be: one for each
    /// choice of its keys' debug forms.
    pub open spec fn debug_form(&self, t: Seq<char>) -> bool {
        exists|ts: Seq<Seq<char>>| pieces_ok(self.debug_keys(), ts) && t == #[trigger] self.debug_with(ts)
    }

    /// Appends the debug form of this fragment, and gives the texts of its
    /// keys.
    fn write_debug(&self, s: &mut String) -> (ts: Ghost<Seq<Seq<char>>>)
        ensures
            pieces_ok(self.debug_keys(), ts@),
            final(s)@ == old(s)@ + self.debug_with(ts@),
        decreases self,
    {
        let ghost s0 = s@;
        let ts: Ghost<Seq<Seq<char>>> = match self {
            F::CheckSig(p) => {
                s.append("F.pk(");
                let t = p.write_key_debug(s);
                s.append(")");
                let g: Ghost<Seq<Seq<char>>> = Ghost(Seq::empty().push(t@));
                g
            },
            F::CheckMultiSig(k, ps) => {
                s.append("F.multi(");
                push_dec(s, *k as u64);
                let ts = write_keys_debug(s, ps);
                s.append(")");
                ts
            },
            F::Time(n) => {
                s.append("F.time(");
                push_dec(s, *n as u64);
                s.append(")");
                let g: Ghost<Seq<Seq<char>>> = Ghost(Seq::empty());
                g
            },
            F::HashEqual(h) => {
                s.append("F.hash(");
                push_hex_rev(s, h.bytes.as_slice());
                s.append(")");
                let g: Ghost<Seq<Seq<char>>> = Ghost(Seq::empty());
                g
            },
            F::Threshold(k, e, subs) => {
                s.append("F.thres(");
                push_dec(s, *k as u64);
                s.append(",");
                let te = e.write_debug(s);
                let tw = write_ws_debug(s, subs);
                s.append(")");
                proof {
                    lemma_join(e.debug_keys(), te@, ws_debug_keys(subs@), tw@);
                }
                let g: Ghost<Seq<Seq<char>>> = Ghost(te@ + tw@);
                g
            },
            F::And(l, r) => {
                s.append("F.and_p(");
                let tl = l.write_debug(s);
                s.append(",");
                let tr = r.write_debug(s);
                s.append(")");
                proof {
                    lemma_join(l.debug_keys(), tl@, r.debug_keys(), tr@);
                }
                let g: Ghost<Seq<Seq<char>>> = Ghost(tl@ + tr@);
                g
            },
            F::CascadeOr(l, r) => {
                s.append("F.or_v(");
                let tl = l.write_debug(s);
                s.append(",");
                let tr = r.write_debug(s);
                s.append(")");
                proof {
                    lemma_join(l.debug_keys(), tl@, r.debug_keys(), tr@);
                }
                let g: Ghost<Seq<Seq<char>>> = Ghost(tl@ + tr@);
                g
            },
            F::SwitchOr(l, r) => {
                s.append("F.or_s(");
                let tl = l.write_debug(s);
                s.append(",");
                let tr = r.write_debug(s);
                s.append(")");
                proof {
                    lemma_join(l.debug_keys(), tl@, r.debug_keys(), tr@);
                }
                let g: Ghost<Seq<Seq<char>>> = Ghost(tl@ + tr@);
                g
            },
            F::SwitchOrV(l, r) => {
                s.append("F.or_a(");
                let tl = l.write_debug(s);
                s.append(",");
                let tr = r.write_debug(s);
                s.append(")");
                proof {
                    lemma_join(l.debug_keys(), tl@, r.debug_keys(), tr@);
                }
                let g: Ghost<Seq<Seq<char>>> = Ghost(tl@ + tr@);
                g
            },
        };
        proof {
            assert(s@ =~= s0 + self.debug_with(ts@));
        }
        ts
    }

    /// The debug form of this fragment: its text form, each part tagged
    /// with its kind, each key in its own debug form.
    pub fn debug_string(&self) -> (r: String)
        ensures
            self.debug_form(r@),
    {
        let mut s = String::new();
        let ts = self.write_debug(&mut s);
        proof {
            assert(s@ =~= self.debug_with(ts@));
        }
        s
    }
}

impl<P: KeyText> V<P> {
    /// The keys of the fragment, in the order its debug form prints them.
    pub open spec fn debug_keys(&self) -> Seq<P>
        decreases self,
    {
        match self {
            V::CheckSig(p) => seq![*p],
            V::CheckMultiSig(_, ps) => ps@,
            V::Time(_) => Seq::empty(),
            V::HashEqual(_) => Seq::empty(),
            V::Threshold(_, e, subs) => e.debug_keys() + ws_debug_keys(subs@),
            V::And(l, r) => l.debug_keys() + r.debug_keys(),
            V::CascadeOr(l, r) => l.debug_keys() + r.debug_keys(),
            V::SwitchOr(l, r) => l.debug_keys() + r.debug_keys(),
            V::SwitchOrT(l, r) => l.debug_keys() + r.debug_keys(),
        }
    }

    /// The debug form of this fragment, its keys printed as `ts` in order:
    /// its text form, each part tagged with its kind.
    pub open spec fn debug_with(&self, ts: Seq<Seq<char>>) -> Seq<char>
        decreases self,
    {
        match self {
            V::CheckSig(_) => "V.pk("@ + ts[0] + ")"@,
            V::CheckMultiSig(k, _) => "V.multi("@ + dec(*k as nat) + commas(ts) + ")"@,
            V::Time(n) => "V.time("@ + dec(*n as nat) + ")"@,
            V::HashEqual(h) => "V.hash("@ + hash_text(*h) + ")"@,
            V::Threshold(k, e, subs) => {
                let n = e.debug_keys().len() as int;
                "V.thres("@ + dec(*k as nat) + ","@ + e.debug_with(ts.take(n)) + ws_debug_with(subs@, ts.skip(n)) + ")"@
            },
            V::And(l, r) => {
                let n = l.debug_keys().len() as int;
                "V.and_p("@ + l.debug_with(ts.take(n)) + ","@ + r.debug_with(ts.skip(n)) + ")"@
            },
            V::CascadeOr(l, r) => {
                let n = l.debug_keys().len() as int;
                "V.or_v("@ + l.debug_with(ts.take(n)) + ","@ + r.debug_with(ts.skip(n)) + ")"@
            },
            V::SwitchOr(l, r) => {
                let n = l.debug_keys().len() as int;
                "V.or_s("@ + l.debug_with(ts.take(n)) + ","@ + r.debug_with(ts.skip(n)) + ")"@
            },
            V::SwitchOrT(l, r) => {
                let n = l.debug_keys().len() as int;
                "V.or_a("@ + l.debug_with(ts.take(n)) + ","@ + r.debug_with(ts.skip(n)) + ")"@
            },
        }
    }

    /// The texts that the debug form of this fragment can be: one for each
    /// choice of its keys' debug forms.
    pub open spec fn debug_form(&self, t: Seq<char>) -> bool {
        exists|ts: Seq<Seq<char>>| pieces_ok(self.debug_keys(), ts) && t == #[trigger] self.debug_with(ts)
    }

    /// Appends the debug form of this fragment, and gives the texts of its
    /// keys.
    fn write_debug(&self, s: &mut String) -> (ts: Ghost<Seq<Seq<char>>>)
        ensures
            pieces_ok(self.debug_keys(), ts@),
            final(s)@ == old(s)@ + self.debug_with(ts@),
        decreases self,
    {
        let ghost s0 = s@;
        let ts: Ghost<Seq<Seq<char>>> = match self {
            V::CheckSig(p) => {
                s.append("V.pk(");
                let t = p.write_key_debug(s);
                s.append(")");
                let g: Ghost<Seq<Seq<char>>> = Ghost(Seq::empty().push(t@));
                g
            },
            V::CheckMultiSig(k, ps) => {
                s.append("V.multi(");
                push_dec(s, *k as u64);
                let ts = write_keys_debug(s, ps);
                s.append(")");
                ts
            },
            V::Time(n) => {
                s.append("V.time(");
                push_dec(s, *n as u64);
                s.append(")");
                let g: Ghost<Seq<Seq<char>>> = Ghost(Seq::empty());
                g
            },
            V::HashEqual(h) => {
                s.append("V.hash(");
                push_hex_rev(s, h.bytes.as_slice());
                s.append(")");
                let g: Ghost<Seq<Seq<char>>> = Ghost(Seq::empty());
                g
            },
            V::Threshold(k, e, subs) => {
                s.append("V.thres(");
                push_dec(s, *k as u64);
                s.append(",");
                let te = e.write_debug(s);
                let tw = write_ws_debug(s, subs);
                s.append(")");
                proof {
                    lemma_join(e.debug_keys(), te@, ws_debug_keys(subs@), tw@);
                }
                let g: Ghost<Seq<Seq<char>>> = Ghost(te@ + tw@);
                g
            },
            V::And(l, r) => {
                s.append("V.and_p(");
                let tl = l.write_debug(s);
                s.append(",");
                let tr = r.write_debug(s);
                s.append(")");
                proof {
                    lemma_join(l.debug_keys(), tl@, r.debug_keys(), tr@);
                }
                let g: Ghost<Seq<Seq<char>>> = Ghost(tl@ + tr@);
                g
            },
            V::CascadeOr(l, r) => {
                s.append("V.or_v(");
                let tl = l.write_debug(s);
                s.append(",");
                let tr = r.write_debug(s);
                s.append(")");
                proof {
                    lemma_join(l.debug_keys(), tl@, r.debug_keys(), tr@);
                }
                let g: Ghost<Seq<Seq<char>>> = Ghost(tl@ + tr@);
                g
            },
            V::SwitchOr(l, r) => {
                s.append("V.or_s(");
                let tl = l.write_debug(s);
                s.append(",");
                let tr = r.write_debug(s);
                s.append(")");
                proof {
                    lemma_join(l.debug_keys(), tl@, r.debug_keys(), tr@);
                }
                let g: Ghost<Seq<Seq<char>>> = Ghost(tl@ + tr@);
                g
            },
            V::SwitchOrT(l, r) => {
                s.append("V.or_a(");
                let tl = l.write_debug(s);
                s.append(",");
                let tr = r.write_debug(s);
                s.append(")");
                proof {
                    lemma_join(l.debug_keys(), tl@, r.debug_keys(), tr@);
                }
                let g: Ghost<Seq<Seq<char>>> = Ghost(tl@ + tr@);
                g
            },
        };
        proof {
            assert(s@ =~= s0 + self.debug_with(ts@));
        }
        ts
    }

    /// The debug form of this fragment: its text form, each part tagged
    /// with its kind, each key in its own debug form.
    pub fn debug_string(&self) -> (r: String)
        ensures
            self.debug_form(r@),
    {
        let mut s = String::new();
        let ts = self.write_debug(&mut s);
        proof {
            assert(s@ =~= self.debug_with(ts@));
        }
        s
    }
}

impl<P: KeyText> T<P> {
    /// The keys of the fragment, in the order its debug form prints them.
    pub open spec fn debug_keys(&self) -> Seq<P>
        decreases self,
    {
        match self {
            T::CastE(x) => x.debug_keys(),
            T::Time(_) => Seq::empty(),
            T::HashEqual(_) => Seq::empty(),
            T::And(l, r) => l.debug_keys() + r.debug_keys(),
            T::ParallelOr(l, r) => l.debug_keys() + r.debug_keys(),
            T::CascadeOr(l, r) => l.debug_keys() + r.debug_keys(),
            T::CascadeOrV(l, r) => l.debug_keys() + r.debug_keys(),
            T::SwitchOr(l, r) => l.debug_keys() + r.debug_keys(),
            T::SwitchOrV(l, r) => l.debug_keys() + r.debug_keys(),
        }
    }

    /// The debug form of this fragment, its keys printed as `ts` in order:
    /// its text form, each part tagged with its kind.
    pub open spec fn debug_with(&self, ts: Seq<Seq<char>>) -> Seq<char>
        decreases self,
    {
        match self {
            T::CastE(x) => "T"@ + x.debug_with(ts),
            T::Time(n) => "T.time("@ + dec(*n as nat) + ")"@,
            T::HashEqual(h) => "T.hash("@ + hash_text(*h) + ")"@,
            T::And(l, r) => {
                let n = l.debug_keys().len() as int;
                "T.and_p("@ + l.debug_with(ts.take(n)) + ","@ + r.debug_with(ts.skip(n)) + ")"@
            },
            T::ParallelOr(l, r) => {
                let n = l.debug_keys().len() as int;
                "T.or_p("@ + l.debug_with(ts.take(n)) + ","@ + r.debug_with(ts.skip(n)) + ")"@
            },
            T::CascadeOr(l, r) => {
                let n = l.debug_keys().len() as int;
                "T.or_c("@ + l.debug_with(ts.take(n)) + ","@ + r.debug_with(ts.skip(n)) + ")"@
            },
            T::CascadeOrV(l, r) => {
                let n = l.debug_keys().len() as int;
                "T.or_v("@ + l.debug_with(ts.take(n)) + ","@ + r.debug_with(ts.skip(n)) + ")"@
            },
            T::SwitchOr(l, r) => {
                let n = l.debug_keys().len() as int;
                "T.or_s("@ + l.debug_with(ts.take(n)) + ","@ + r.debug_with(ts.skip(n)) + ")"@
            },
            T::SwitchOrV(l, r) => {
                let n = l.debug_keys().len() as int;
                "T.or_a("@ + l.debug_with(ts.take(n)) + ","@ + r.debug_with(ts.skip(n)) + ")"@
            },
        }
    }

    /// The texts that the debug form of this fragment can be: one for each
    /// choice of its keys' debug forms.
    pub open spec fn debug_form(&self, t: Seq<char>) -> bool {
        exists|ts: Seq<Seq<char>>| pieces_ok(self.debug_keys(), ts) && t == #[trigger] self.debug_with(ts)
    }

    /// Appends the debug form of this fragment, and gives the texts of its
    /// keys.
    fn write_debug(&self, s: &mut String) -> (ts: Ghost<Seq<Seq<char>>>)
        ensures
            pieces_ok(self.debug_keys(), ts@),
            final(s)@ == old(s)@ + self.debug_with(ts@),
        decreases self,
    {
        let ghost s0 = s@;
        let ts: Ghost<Seq<Seq<char>>> = match self {
            T::CastE(x) => {
                s.append("T");
                x.write_debug(s)
            },
            T::Time(n) => {
                s.append("T.time(");
                push_dec(s, *n as u64);
                s.append(")");
                let g: Ghost<Seq<Seq<char>>> = Ghost(Seq::empty());
                g
            },
            T::HashEqual(h) => {
                s.append("T.hash(");
                push_hex_rev(s, h.bytes.as_slice());
                s.append(")");
                let g: Ghost<Seq<Seq<char>>> = Ghost(Seq::empty());
                g
            },
            T::And(l, r) => {
                s.append("T.and_p(");
                let tl = l.write_debug(s);
                s.append(",");
                let tr = r.write_debug(s);
                s.append(")");
                proof {
                    lemma_join(l.debug_keys(), tl@, r.debug_keys(), tr@);
                }
                let g: Ghost<Seq<Seq<char>>> = Ghost(tl@ + tr@);
                g
            },
            T::ParallelOr(l, r) => {
                s.append("T.or_p(");
                let tl = l.write_debug(s);
                s.append(",");
                let tr = r.write_debug(s);
                s.append(")");
                proof {
                    lemma_join(l.debug_keys(), tl@, r.debug_keys(), tr@);
                }
                let g: Ghost<Seq<Seq<char>>> = Ghost(tl@ + tr@);
                g
            },
            T::CascadeOr(l, r) => {
                s.append("T.or_c(");
                let tl = l.write_debug(s);
                s.append(",");
                let tr = r.write_debug(s);
                s.append(")");
                proof {
                    lemma_join(l.debug_keys(), tl@, r.debug_keys(), tr@);
                }
                let g: Ghost<Seq<Seq<char>>> = Ghost(tl@ + tr@);
                g
            },
            T::CascadeOrV(l, r) => {
                s.append("T.or_v(");
                let tl = l.write_debug(s);
                s.append(",");
                let tr = r.write_debug(s);
                s.append(")");
                proof {
                    lemma_join(l.debug_keys(), tl@, r.debug_keys(), tr@);
                }
                let g: Ghost<Seq<Seq<char>>> = Ghost(tl@ + tr@);
                g
            },
            T::SwitchOr(l, r) => {
                s.append("T.or_s(");
                let tl = l.write_debug(s);
                s.append(",");
                let tr = r.write_debug(s);
                s.append(")");
                proof {
                    lemma_join(l.debug_keys(), tl@, r.debug_keys(), tr@);
                }
                let g: Ghost<Seq<Seq<char>>> = Ghost(tl@ + tr@);
                g
            },
            T::SwitchOrV(l, r) => {
                s.append("T.or_a(");
                let tl = l.write_debug(s);
                s.append(",");
                let tr = r.write_debug(s);
                s.append(")");
                proof {
                    lemma_join(l.debug_keys(), tl@, r.debug_keys(), tr@);
                }
                let g: Ghost<Seq<Seq<char>>> = Ghost(tl@ + tr@);
                g
            },
        };
        proof {
            assert(s@ =~= s0 + self.debug_with(ts@));
        }
        ts
    }

    /// The debug form of this fragment: its text form, each part tagged
    /// with its kind, each key in its own debug form.
    pub fn debug_string(&self) -> (r: String)
        ensures
            self.debug_form(r@),
    {
        let mut s = String::new();
        let ts = self.write_debug(&mut s);
        proof {
            assert(s@ =~= self.debug_with(ts@));
        }
        s
    }
}

/// A letter of a kind's tag, or the dot after one: no text form holds one.
pub open spec fn tag_char(c: char) -> bool {
    c == 'E' || c == 'W' || c == 'F' || c == 'V' || c == 'T' || c == '.'
}

/// The text with the kind tags taken out.
pub open spec fn untagged(s: Seq<char>) -> Seq<char>
    decreases s.len(),
{
    if s.len() == 0 {
        Seq::empty()
    } else {
        untagged(s.drop_last()) + if tag_char(s.last()) {
            Seq::<char>::empty()
        } else {
            seq![s.last()]
        }
    }
}

/// The text forms of keys, in order.
pub open spec fn key_texts<P: KeyText>(ks: Seq<P>) -> Seq<Seq<char>> {
    ks.map_values(|p: P| p.key_str())
}

/// No key's text holds a letter of a kind's tag or a dot.
pub open spec fn keys_untagged<P: KeyText>(ks: Seq<P>) -> bool {
    forall|i: int| 0 <= i < ks.len() ==> untagged(#[trigger] ks[i].key_str()) == ks[i].key_str()
}

/// Taking the tags out of two texts one after the other takes them out of
/// each.
pub broadcast proof fn lemma_untagged_concat(a: Seq<char>, b: Seq<char>)
    ensures
        #[trigger] untagged(a + b) == untagged(a) + untagged(b),
    decreases b.len(),
{
    if b.len() == 0 {
        assert(a + b =~= a);
        assert(untagged(b) =~= Seq::<char>::empty());
        assert(untagged(a) + untagged(b) =~= untagged(a));
    } else {
        lemma_untagged_concat(a, b.drop_last());
        assert((a + b).drop_last() =~= a + b.drop_last());
        assert((a + b).last() == b.last());
        assert(untagged(a + b) =~= untagged(a) + untagged(b));
    }
}

/// A text with no letter of a tag and no dot is its own untagged text.
pub proof fn lemma_untagged_free(s: Seq<char>)
    requires
        forall|i: int| 0 <= i < s.len() ==> !#[trigger] tag_char(s[i]),
    ensures
        untagged(s) == s,
    decreases s.len(),
{
    if s.len() > 0 {
        let p = s.drop_last();
        assert forall|i: int| 0 <= i < p.len() implies !#[trigger] tag_char(p[i]) by {
            assert(p[i] == s[i]);
        }
        lemma_untagged_free(p);
        assert(!tag_char(s[s.len() - 1]));
        assert(p + seq![s.last()] =~= s);
    }
}

/// A tag letter followed by a dot is taken out whole.
proof fn lemma_untagged_tag(k: char)
    requires
        tag_char(k),
    ensures
        untagged(seq![k, '.']) == Seq::<char>::empty(),
        untagged(seq![k]) == Seq::<char>::empty(),
{
    assert(seq![k, '.'].drop_last() =~= seq![k]);
    assert(seq![k].drop_last() =~= Seq::<char>::empty());
    assert(untagged(Seq::<char>::empty()) =~= Seq::<char>::empty());
    assert(seq![k].last() == k);
    assert(untagged(seq![k]) =~= untagged(Seq::<char>::empty()) + Seq::<char>::empty());
    assert(untagged(seq![k]) =~= Seq::<char>::empty());
    assert(seq![k, '.'].last() == '.');
    assert(untagged(seq![k, '.']) =~= Seq::<char>::empty());
}

/// Decimal text holds no tag letter.
proof fn lemma_dec_untagged(n: nat)
    ensures
        untagged(dec(n)) == dec(n),
{
    lemma_dec_reads(n);
    assert forall|i: int| 0 <= i < dec(n).len() implies !#[trigger] tag_char(dec(n)[i]) by {
        assert(is_digit(dec(n)[i]));
    }
    lemma_untagged_free(dec(n));
}

/// Lowercase hex text holds no tag letter.
proof fn lemma_hex_untagged(b: Seq<u8>)
    ensures
        untagged(hex(b)) == hex(b),
    decreases b.len(),
{
    if b.len() > 0 {
        lemma_hex_untagged(b.drop_last());
        let x = b.last();
        let pair = seq![hex_digit(x as nat / 16), hex_digit(x as nat % 16)];
        assert(!tag_char(hex_digit(x as nat / 16)));
        assert(!tag_char(hex_digit(x as nat % 16)));
        lemma_untagged_free(pair);
        lemma_untagged_concat(hex(b.drop_last()), pair);
    } else {
        assert(untagged(hex(b)) =~= hex(b));
    }
}

/// The text of a public key holds no tag letter.
pub proof fn lemma_public_keys_untagged(ks: Seq<PublicKey>)
    ensures
        keys_untagged(ks),
{
    assert forall|i: int| 0 <= i < ks.len() implies untagged(#[trigger] ks[i].key_str()) == ks[i].key_str() by {
        lemma_hex_untagged(ks[i].bytes@);
    }
}

/// The text of a number standing for a key holds no tag letter.
pub proof fn lemma_number_keys_untagged(ks: Seq<u32>)
    ensures
        keys_untagged(ks),
{
    assert forall|i: int| 0 <= i < ks.len() implies untagged(#[trigger] ks[i].key_str()) == ks[i].key_str() by {
        lemma_dec_untagged(ks[i] as nat);
    }
}

/// The texts of two runs of keys split where the first run ends.
proof fn lemma_key_texts_split<P: KeyText>(a: Seq<P>, b: Seq<P>)
    ensures
        key_texts(a + b).take(a.len() as int) == key_texts(a),
        key_texts(a + b).skip(a.len() as int) == key_texts(b),
        keys_untagged(a + b) ==> keys_untagged(a) && keys_untagged(b),
{
    assert(key_texts(a + b).take(a.len() as int) =~= key_texts(a));
    assert(key_texts(a + b).skip(a.len() as int) =~= key_texts(b));
    if keys_untagged(a + b) {
        assert forall|i: int| 0 <= i < a.len() implies untagged(#[trigger] a[i].key_str()) == a[i].key_str() by {
            assert((a + b)[i] == a[i]);
        }
        assert forall|i: int| 0 <= i < b.len() implies untagged(#[trigger] b[i].key_str()) == b[i].key_str() by {
            assert((a + b)[a.len() + i] == b[i]);
        }
    }
}

/// The debug texts of keys, each after a comma, with the tags taken out,
/// are the keys' text, each after a comma.
proof fn lemma_commas_untagged<P: KeyText>(ks: Seq<P>)
    requires
        keys_untagged(ks),
    ensures
        untagged(commas(key_texts(ks))) == keys_text(ks),
    decreases ks.len(),
{
    broadcast use lemma_untagged_concat;
    lemma_punct_untagged();
    if ks.len() > 0 {
        let p = ks.drop_last();
        assert forall|i: int| 0 <= i < p.len() implies untagged(#[trigger] p[i].key_str()) == p[i].key_str() by {
            assert(p[i] == ks[i]);
        }
        lemma_commas_untagged(p);
        assert(key_texts(ks).drop_last() =~= key_texts(p));
        assert(key_texts(ks).last() == ks.last().key_str());
        assert(untagged(ks[ks.len() - 1].key_str()) == ks[ks.len() - 1].key_str());
    } else {
        assert(key_texts(ks) =~= Seq::<Seq<char>>::empty());
    }
}

/// Wrapped parts' debug forms, their keys printed as text, with the tags
/// taken out, are the parts' text forms.
proof fn lemma_ws_debug_untagged<P: KeyText>(ws: Seq<Rc<W<P>>>)
    requires
        keys_untagged(ws_debug_keys(ws)),
    ensures
        untagged(ws_debug_with(ws, key_texts(ws_debug_keys(ws)))) == ws_text(ws),
    decreases ws,
{
    broadcast use lemma_untagged_concat;
    lemma_punct_untagged();
    if ws.len() > 0 {
        let p = ws.subrange(0, ws.len() - 1);
        let w = ws.last();
        lemma_key_texts_split(ws_debug_keys(p), w.debug_keys());
        lemma_ws_debug_untagged(p);
        w.lemma_debug_untagged();
    }
}

/// `,`, `)` and a cast's tag letter, untagged.
proof fn lemma_punct_untagged()
    ensures
        untagged(","@) == ","@,
        untagged(")"@) == ")"@,
        untagged("W"@) == Seq::<char>::empty(),
        untagged("T"@) == Seq::<char>::empty(),
        "W"@ == seq!['W'],
        "T"@ == seq!['T'],
{
    reveal_strlit(",");
    reveal_strlit(")");
    reveal_strlit("W");
    reveal_strlit("T");
    assert(","@ =~= seq![',']);
    assert(")"@ =~= seq![')']);
    lemma_untagged_free(seq![',']);
    lemma_untagged_free(seq![')']);
    assert("W"@ =~= seq!['W']);
    assert("T"@ =~= seq!['T']);
    lemma_untagged_tag('W');
    lemma_untagged_tag('T');
}

/// The tags of the debug forms of kind `E`, untagged: their names.
proof fn lemma_e_tags_untagged()
    ensures
        untagged("E.pk("@) == "pk("@,
        "E.pk("@[0] == 'E',
        "E.pk("@.len() > 2,
        "E.pk("@[1] == '.',
        !tag_char("E.pk("@[2]),
        untagged("E.multi("@) == "multi("@,
        "E.multi("@[0] == 'E',
        "E.multi("@.len() > 2,
        "E.multi("@[1] == '.',
        !tag_char("E.multi("@[2]),
        untagged("E.time("@) == "time("@,
        "E.time("@[0] == 'E',
        "E.time("@.len() > 2,
        "E.time("@[1] == '.',
        !tag_char("E.time("@[2]),
        untagged("E.thres("@) == "thres("@,
        "E.thres("@[0] == 'E',
        "E.thres("@.len() > 2,
        "E.thres("@[1] == '.',
        !tag_char("E.thres("@[2]),
        untagged("E.and_p("@) == "and_p("@,
        "E.and_p("@[0] == 'E',
        "E.and_p("@.len() > 2,
        "E.and_p("@[1] == '.',
        !tag_char("E.and_p("@[2]),
        untagged("E.and_c("@) == "and_c("@,
        "E.and_c("@[0] == 'E',
        "E.and_c("@.len() > 2,
        "E.and_c("@[1] == '.',
        !tag_char("E.and_c("@[2]),
        untagged("E.or_p("@) == "or_p("@,
        "E.or_p("@[0] == 'E',
        "E.or_p("@.len() > 2,
        "E.or_p("@[1] == '.',
        !tag_char("E.or_p("@[2]),
        untagged("E.or_c("@) == "or_c("@,
        "E.or_c("@[0] == 'E',
        "E.or_c("@.len() > 2,
        "E.or_c("@[1] == '.',
        !tag_char("E.or_c("@[2]),
        untagged("E.or_s("@) == "or_s("@,
        "E.or_s("@[0] == 'E',
        "E.or_s("@.len() > 2,
        "E.or_s("@[1] == '.',
        !tag_char("E.or_s("@[2]),
        untagged("E.or_a("@) == "or_a("@,
        "E.or_a("@[0] == 'E',
        "E.or_a("@.len() > 2,
        "E.or_a("@[1] == '.',
        !tag_char("E.or_a("@[2]),
        untagged("E.lift_l("@) == "lift_l("@,
        "E.lift_l("@[0] == 'E',
        "E.lift_l("@.len() > 2,
        "E.lift_l("@[1] == '.',
        !tag_char("E.lift_l("@[2]),
        untagged("E.lift_u("@) == "lift_u("@,
        "E.lift_u("@[0] == 'E',
        "E.lift_u("@.len() > 2,
        "E.lift_u("@[1] == '.',
        !tag_char("E.lift_u("@[2]),
{
    lemma_untagged_tag('E');
    reveal_strlit("E.pk(");
    reveal_strlit("pk(");
    assert("E.pk("@ =~= seq!['E', '.'] + "pk("@);
    lemma_untagged_free("pk("@);
    lemma_untagged_concat(seq!['E', '.'], "pk("@);
    reveal_strlit("E.multi(");
    reveal_strlit("multi(");
    assert("E.multi("@ =~= seq!['E', '.'] + "multi("@);
    lemma_untagged_free("multi("@);
    lemma_untagged_concat(seq!['E', '.'], "multi("@);
    reveal_strlit("E.time(");
    reveal_strlit("time(");
    assert("E.time("@ =~= seq!['E', '.'] + "time("@);
    lemma_untagged_free("time("@);
    lemma_untagged_concat(seq!['E', '.'], "time("@);
    reveal_strlit("E.thres(");
    reveal_strlit("thres(");
    assert("E.thres("@ =~= seq!['E', '.'] + "thres("@);
    lemma_untagged_free("thres("@);
    lemma_untagged_concat(seq!['E', '.'], "thres("@);
    reveal_strlit("E.and_p(");
    reveal_strlit("and_p(");
    assert("E.and_p("@ =~= seq!['E', '.'] + "and_p("@);
    lemma_untagged_free("and_p("@);
    lemma_untagged_concat(seq!['E', '.'], "and_p("@);
    reveal_strlit("E.and_c(");
    reveal_strlit("and_c(");
    assert("E.and_c("@ =~= seq!['E', '.'] + "and_c("@);
    lemma_untagged_free("and_c("@);
    lemma_untagged_concat(seq!['E', '.'], "and_c("@);
    reveal_strlit("E.or_p(");
    reveal_strlit("or_p(");
    assert("E.or_p("@ =~= seq!['E', '.'] + "or_p("@);
    lemma_untagged_free("or_p("@);
    lemma_untagged_concat(seq!['E', '.'], "or_p("@);
    reveal_strlit("E.or_c(");
    reveal_strlit("or_c(");
    assert("E.or_c("@ =~= seq!['E', '.'] + "or_c("@);
    lemma_untagged_free("or_c("@);
    lemma_untagged_concat(seq!['E', '.'], "or_c("@);
    reveal_strlit("E.or_s(");
    reveal_strlit("or_s(");
    assert("E.or_s("@ =~= seq!['E', '.'] + "or_s("@);
    lemma_untagged_free("or_s("@);
    lemma_untagged_concat(seq!['E', '.'], "or_s("@);
    reveal_strlit("E.or_a(");
    reveal_strlit("or_a(");
    assert("E.or_a("@ =~= seq!['E', '.'] + "or_a("@);
    lemma_untagged_free("or_a("@);
    lemma_untagged_concat(seq!['E', '.'], "or_a("@);
    reveal_strlit("E.lift_l(");
    reveal_strlit("lift_l(");
    assert("E.lift_l("@ =~= seq!['E', '.'] + "lift_l("@);
    lemma_untagged_free("lift_l("@);
    lemma_untagged_concat(seq!['E', '.'], "lift_l("@);
    reveal_strlit("E.lift_u(");
    reveal_strlit("lift_u(");
    assert("E.lift_u("@ =~= seq!['E', '.'] + "lift_u("@);
    lemma_untagged_free("lift_u("@);
    lemma_untagged_concat(seq!['E', '.'], "lift_u("@);
}

/// The tags of the debug forms of kind `W`, untagged: their names.
proof fn lemma_w_tags_untagged()
    ensures
        untagged("W.pk("@) == "pk("@,
        "W.pk("@[0] == 'W',
        "W.pk("@.len() > 2,
        "W.pk("@[1] == '.',
        !tag_char("W.pk("@[2]),
        untagged("W.hash("@) == "hash("@,
        "W.hash("@[0] == 'W',
        "W.hash("@.len() > 2,
        "W.hash("@[1] == '.',
        !tag_char("W.hash("@[2]),
        untagged("W.time("@) == "time("@,
        "W.time("@[0] == 'W',
        "W.time("@.len() > 2,
        "W.time("@[1] == '.',
        !tag_char("W.time("@[2]),
{
    lemma_untagged_tag('W');
    reveal_strlit("W.pk(");
    reveal_strlit("pk(");
    assert("W.pk("@ =~= seq!['W', '.'] + "pk("@);
    lemma_untagged_free("pk("@);
    lemma_untagged_concat(seq!['W', '.'], "pk("@);
    reveal_strlit("W.hash(");
    reveal_strlit("hash(");
    assert("W.hash("@ =~= seq!['W', '.'] + "hash("@);
    lemma_untagged_free("hash("@);
    lemma_untagged_concat(seq!['W', '.'], "hash("@);
    reveal_strlit("W.time(");
    reveal_strlit("time(");
    assert("W.time("@ =~= seq!['W', '.'] + "time("@);
    lemma_untagged_free("time("@);
    lemma_untagged_concat(seq!['W', '.'], "time("@);
}

/// The tags of the debug forms of kind `F`, untagged: their names.
proof fn lemma_f_tags_untagged()
    ensures
        untagged("F.pk("@) == "pk("@,
        "F.pk("@[0] == 'F',
        "F.pk("@.len() > 2,
        "F.pk("@[1] == '.',
        !tag_char("F.pk("@[2]),
        untagged("F.multi("@) == "multi("@,
        "F.multi("@[0] == 'F',
        "F.multi("@.len() > 2,
        "F.multi("@[1] == '.',
        !tag_char("F.multi("@[2]),
        untagged("F.time("@) == "time("@,
        "F.time("@[0] == 'F',
        "F.time("@.len() > 2,
        "F.time("@[1] == '.',
        !tag_char("F.time("@[2]),
        untagged("F.hash("@) == "hash("@,
        "F.hash("@[0] == 'F',
        "F.hash("@.len() > 2,
        "F.hash("@[1] == '.',
        !tag_char("F.hash("@[2]),
        untagged("F.thres("@) == "thres("@,
        "F.thres("@[0] == 'F',
        "F.thres("@.len() > 2,
        "F.thres("@[1] == '.',
        !tag_char("F.thres("@[2]),
        untagged("F.and_p("@) == "and_p("@,
        "F.and_p("@[0] == 'F',
        "F.and_p("@.len() > 2,
        "F.and_p("@[1] == '.',
        !tag_char("F.and_p("@[2]),
        untagged("F.or_v("@) == "or_v("@,
        "F.or_v("@[0] == 'F',
        "F.or_v("@.len() > 2,
        "F.or_v("@[1] == '.',
        !tag_char("F.or_v("@[2]),
        untagged("F.or_s("@) == "or_s("@,
        "F.or_s("@[0] == 'F',
        "F.or_s("@.len() > 2,
        "F.or_s("@[1] == '.',
        !tag_char("F.or_s("@[2]),
        untagged("F.or_a("@) == "or_a("@,
        "F.or_a("@[0] == 'F',
        "F.or_a("@.len() > 2,
        "F.or_a("@[1] == '.',
        !tag_char("F.or_a("@[2]),
{
    lemma_untagged_tag('F');
    reveal_strlit("F.pk(");
    reveal_strlit("pk(");
    assert("F.pk("@ =~= seq!['F', '.'] + "pk("@);
    lemma_untagged_free("pk("@);
    lemma_untagged_concat(seq!['F', '.'], "pk("@);
    reveal_strlit("F.multi(");
    reveal_strlit("multi(");
    assert("F.multi("@ =~= seq!['F', '.'] + "multi("@);
    lemma_untagged_free("multi("@);
    lemma_untagged_concat(seq!['F', '.'], "multi("@);
    reveal_strlit("F.time(");
    reveal_strlit("time(");
    assert("F.time("@ =~= seq!['F', '.'] + "time("@);
    lemma_untagged_free("time("@);
    lemma_untagged_concat(seq!['F', '.'], "time("@);
    reveal_strlit("F.hash(");
    reveal_strlit("hash(");
    assert("F.hash("@ =~= seq!['F', '.'] + "hash("@);
    lemma_untagged_free("hash("@);
    lemma_untagged_concat(seq!['F', '.'], "hash("@);
    reveal_strlit("F.thres(");
    reveal_strlit("thres(");
    assert("F.thres("@ =~= seq!['F', '.'] + "thres("@);
    lemma_untagged_free("thres("@);
    lemma_untagged_concat(seq!['F', '.'], "thres("@);
    reveal_strlit("F.and_p(");
    reveal_strlit("and_p(");
    assert("F.and_p("@ =~= seq!['F', '.'] + "and_p("@);
    lemma_untagged_free("and_p("@);
    lemma_untagged_concat(seq!['F', '.'], "and_p("@);
    reveal_strlit("F.or_v(");
    reveal_strlit("or_v(");
    assert("F.or_v("@ =~= seq!['F', '.'] + "or_v("@);
    lemma_untagged_free("or_v("@);
    lemma_untagged_concat(seq!['F', '.'], "or_v("@);
    reveal_strlit("F.or_s(");
    reveal_strlit("or_s(");
    assert("F.or_s("@ =~= seq!['F', '.'] + "or_s("@);
    lemma_untagged_free("or_s("@);
    lemma_untagged_concat(seq!['F', '.'], "or_s("@);
    reveal_strlit("F.or_a(");
    reveal_strlit("or_a(");
    assert("F.or_a("@ =~= seq!['F', '.'] + "or_a("@);
    lemma_untagged_free("or_a("@);
    lemma_untagged_concat(seq!['F', '.'], "or_a("@);
}

/// The tags of the debug forms of kind `V`, untagged: their names.
proof fn lemma_v_tags_untagged()
    ensures
        untagged("V.pk("@) == "pk("@,
        "V.pk("@[0] == 'V',
        "V.pk("@.len() > 2,
        "V.pk("@[1] == '.',
        !tag_char("V.pk("@[2]),
        untagged("V.multi("@) == "multi("@,
        "V.multi("@[0] == 'V',
        "V.multi("@.len() > 2,
        "V.multi("@[1] == '.',
        !tag_char("V.multi("@[2]),
        untagged("V.time("@) == "time("@,
        "V.time("@[0] == 'V',
        "V.time("@.len() > 2,
        "V.time("@[1] == '.',
        !tag_char("V.time("@[2]),
        untagged("V.hash("@) == "hash("@,
        "V.hash("@[0] == 'V',
        "V.hash("@.len() > 2,
        "V.hash("@[1] == '.',
        !tag_char("V.hash("@[2]),
        untagged("V.thres("@) == "thres("@,
        "V.thres("@[0] == 'V',
        "V.thres("@.len() > 2,
        "V.thres("@[1] == '.',
        !tag_char("V.thres("@[2]),
        untagged("V.and_p("@) == "and_p("@,
        "V.and_p("@[0] == 'V',
        "V.and_p("@.len() > 2,
        "V.and_p("@[1] == '.',
        !tag_char("V.and_p("@[2]),
        untagged("V.or_v("@) == "or_v("@,
        "V.or_v("@[0] == 'V',
        "V.or_v("@.len() > 2,
        "V.or_v("@[1] == '.',
        !tag_char("V.or_v("@[2]),
        untagged("V.or_s("@) == "or_s("@,
        "V.or_s("@[0] == 'V',
        "V.or_s("@.len() > 2,
        "V.or_s("@[1] == '.',
        !tag_char("V.or_s("@[2]),
        untagged("V.or_a("@) == "or_a("@,
        "V.or_a("@[0] == 'V',
        "V.or_a("@.len() > 2,
        "V.or_a("@[1] == '.',
        !tag_char("V.or_a("@[2]),
{
    lemma_untagged_tag('V');
    reveal_strlit("V.pk(");
    reveal_strlit("pk(");
    assert("V.pk("@ =~= seq!['V', '.'] + "pk("@);
    lemma_untagged_free("pk("@);
    lemma_untagged_concat(seq!['V', '.'], "pk("@);
    reveal_strlit("V.multi(");
    reveal_strlit("multi(");
    assert("V.multi("@ =~= seq!['V', '.'] + "multi("@);
    lemma_untagged_free("multi("@);
    lemma_untagged_concat(seq!['V', '.'], "multi("@);
    reveal_strlit("V.time(");
    reveal_strlit("time(");
    assert("V.time("@ =~= seq!['V', '.'] + "time("@);
    lemma_untagged_free("time("@);
    lemma_untagged_concat(seq!['V', '.'], "time("@);
    reveal_strlit("V.hash(");
    reveal_strlit("hash(");
    assert("V.hash("@ =~= seq!['V', '.'] + "hash("@);
    lemma_untagged_free("hash("@);
    lemma_untagged_concat(seq!['V', '.'], "hash("@);
    reveal_strlit("V.thres(");
    reveal_strlit("thres(");
    assert("V.thres("@ =~= seq!['V', '.'] + "thres("@);
    lemma_untagged_free("thres("@);
    lemma_untagged_concat(seq!['V', '.'], "thres("@);
    reveal_strlit("V.and_p(");
    reveal_strlit("and_p(");
    assert("V.and_p("@ =~= seq!['V', '.'] + "and_p("@);
    lemma_untagged_free("and_p("@);
    lemma_untagged_concat(seq!['V', '.'], "and_p("@);
    reveal_strlit("V.or_v(");
    reveal_strlit("or_v(");
    assert("V.or_v("@ =~= seq!['V', '.'] + "or_v("@);
    lemma_untagged_free("or_v("@);
    lemma_untagged_concat(seq!['V', '.'], "or_v("@);
    reveal_strlit("V.or_s(");
    reveal_strlit("or_s(");
    assert("V.or_s("@ =~= seq!['V', '.'] + "or_s("@);
    lemma_untagged_free("or_s("@);
    lemma_untagged_concat(seq!['V', '.'], "or_s("@);
    reveal_strlit("V.or_a(");
    reveal_strlit("or_a(");
    assert("V.or_a("@ =~= seq!['V', '.'] + "or_a("@);
    lemma_untagged_free("or_a("@);
    lemma_untagged_concat(seq!['V', '.'], "or_a("@);
}

/// The tags of the debug forms of kind `T`, untagged: their names.
proof fn lemma_t_tags_untagged()
    ensures
        untagged("T.time("@) == "time("@,
        "T.time("@[0] == 'T',
        "T.time("@.len() > 2,
        "T.time("@[1] == '.',
        !tag_char("T.time("@[2]),
        untagged("T.hash("@) == "hash("@,
        "T.hash("@[0] == 'T',
        "T.hash("@.len() > 2,
        "T.hash("@[1] == '.',
        !tag_char("T.hash("@[2]),
        untagged("T.and_p("@) == "and_p("@,
        "T.and_p("@[0] == 'T',
        "T.and_p("@.len() > 2,
        "T.and_p("@[1] == '.',
        !tag_char("T.and_p("@[2]),
        untagged("T.or_p("@) == "or_p("@,
        "T.or_p("@[0] == 'T',
        "T.or_p("@.len() > 2,
        "T.or_p("@[1] == '.',
        !tag_char("T.or_p("@[2]),
        untagged("T.or_c("@) == "or_c("@,
        "T.or_c("@[0] == 'T',
        "T.or_c("@.len() > 2,
        "T.or_c("@[1] == '.',
        !tag_char("T.or_c("@[2]),
        untagged("T.or_v("@) == "or_v("@,
        "T.or_v("@[0] == 'T',
        "T.or_v("@.len() > 2,
        "T.or_v("@[1] == '.',
        !tag_char("T.or_v("@[2]),
        untagged("T.or_s("@) == "or_s("@,
        "T.or_s("@[0] == 'T',
        "T.or_s("@.len() > 2,
        "T.or_s("@[1] == '.',
        !tag_char("T.or_s("@[2]),
        untagged("T.or_a("@) == "or_a("@,
        "T.or_a("@[0] == 'T',
        "T.or_a("@.len() > 2,
        "T.or_a("@[1] == '.',
        !tag_char("T.or_a("@[2]),
{
    lemma_untagged_tag('T');
    reveal_strlit("T.time(");
    reveal_strlit("time(");
    assert("T.time("@ =~= seq!['T', '.'] + "time("@);
    lemma_untagged_free("time("@);
    lemma_untagged_concat(seq!['T', '.'], "time("@);
    reveal_strlit("T.hash(");
    reveal_strlit("hash(");
    assert("T.hash("@ =~= seq!['T', '.'] + "hash("@);
    lemma_untagged_free("hash("@);
    lemma_untagged_concat(seq!['T', '.'], "hash("@);
    reveal_strlit("T.and_p(");
    reveal_strlit("and_p(");
    assert("T.and_p("@ =~= seq!['T', '.'] + "and_p("@);
    lemma_untagged_free("and_p("@);
    lemma_untagged_concat(seq!['T', '.'], "and_p("@);
    reveal_strlit("T.or_p(");
    reveal_strlit("or_p(");
    assert("T.or_p("@ =~= seq!['T', '.'] + "or_p("@);
    lemma_untagged_free("or_p("@);
    lemma_untagged_concat(seq!['T', '.'], "or_p("@);
    reveal_strlit("T.or_c(");
    reveal_strlit("or_c(");
    assert("T.or_c("@ =~= seq!['T', '.'] + "or_c("@);
    lemma_untagged_free("or_c("@);
    lemma_untagged_concat(seq!['T', '.'], "or_c("@);
    reveal_strlit("T.or_v(");
    reveal_strlit("or_v(");
    assert("T.or_v("@ =~= seq!['T', '.'] + "or_v("@);
    lemma_untagged_free("or_v("@);
    lemma_untagged_concat(seq!['T', '.'], "or_v("@);
    reveal_strlit("T.or_s(");
    reveal_strlit("or_s(");
    assert("T.or_s("@ =~= seq!['T', '.'] + "or_s("@);
    lemma_untagged_free("or_s("@);
    lemma_untagged_concat(seq!['T', '.'], "or_s("@);
    reveal_strlit("T.or_a(");
    reveal_strlit("or_a(");
    assert("T.or_a("@ =~= seq!['T', '.'] + "or_a("@);
    lemma_untagged_free("or_a("@);
    lemma_untagged_concat(seq!['T', '.'], "or_a("@);
}

impl<P: KeyText> E<P> {
    /// The debug form is the text form with each part tagged by its kind:
    /// with each key printed as its text, taking the tags out of the debug
    /// form gives the text form (where no key's text holds a tag letter).
    #[verifier::spinoff_prover]
    pub proof fn lemma_debug_untagged(&self)
        requires
            keys_untagged(self.debug_keys()),
        ensures
            untagged(self.debug_with(key_texts(self.debug_keys()))) == self.display(),
        decreases *self,
    {
        lemma_punct_untagged();
        lemma_e_tags_untagged();
        match self {
            E::CheckSig(p) => {
                assert(key_texts(self.debug_keys())[0] == p.key_str());
                lemma_untagged_concat("E.pk("@ + key_texts(self.debug_keys())[0], ")"@);
                lemma_untagged_concat("E.pk("@, key_texts(self.debug_keys())[0]);
            },
            E::CheckMultiSig(k, ps) => {
                lemma_dec_untagged(*k as nat);
                lemma_commas_untagged(ps@);
                lemma_untagged_concat("E.multi("@ + dec(*k as nat) + commas(key_texts(self.debug_keys())), ")"@);
                lemma_untagged_concat("E.multi("@ + dec(*k as nat), commas(key_texts(self.debug_keys())));
                lemma_untagged_concat("E.multi("@, dec(*k as nat));
            },
            E::Time(n) => {
                lemma_dec_untagged(*n as nat);
                lemma_untagged_concat("E.time("@ + dec(*n as nat), ")"@);
                lemma_untagged_concat("E.time("@, dec(*n as nat));
            },
            E::Threshold(k, e, subs) => {
                lemma_dec_untagged(*k as nat);
                lemma_key_texts_split(e.debug_keys(), ws_debug_keys(subs@));
                e.lemma_debug_untagged();
                lemma_ws_debug_untagged(subs@);
                lemma_untagged_concat("E.thres("@ + dec(*k as nat) + ","@ + e.debug_with(key_texts(self.debug_keys()).take(e.debug_keys().len() as int)) + ws_debug_with(subs@, key_texts(self.debug_keys()).skip(e.debug_keys().len() as int)), ")"@);
                lemma_untagged_concat("E.thres("@ + dec(*k as nat) + ","@ + e.debug_with(key_texts(self.debug_keys()).take(e.debug_keys().len() as int)), ws_debug_with(subs@, key_texts(self.debug_keys()).skip(e.debug_keys().len() as int)));
                lemma_untagged_concat("E.thres("@ + dec(*k as nat) + ","@, e.debug_with(key_texts(self.debug_keys()).take(e.debug_keys().len() as int)));
                lemma_untagged_concat("E.thres("@ + dec(*k as nat), ","@);
                lemma_untagged_concat("E.thres("@, dec(*k as nat));
            },
            E::ParallelAnd(l, r) => {
                lemma_key_texts_split(l.debug_keys(), r.debug_keys());
                l.lemma_debug_untagged();
                r.lemma_debug_untagged();
                lemma_untagged_concat("E.and_p("@ + l.debug_with(key_texts(self.debug_keys()).take(l.debug_keys().len() as int)) + ","@ + r.debug_with(key_texts(self.debug_keys()).skip(l.debug_keys().len() as int)), ")"@);
                lemma_untagged_concat("E.and_p("@ + l.debug_with(key_texts(self.debug_keys()).take(l.debug_keys().len() as int)) + ","@, r.debug_with(key_texts(self.debug_keys()).skip(l.debug_keys().len() as int)));
                lemma_untagged_concat("E.and_p("@ + l.debug_with(key_texts(self.debug_keys()).take(l.debug_keys().len() as int)), ","@);
                lemma_untagged_concat("E.and_p("@, l.debug_with(key_texts(self.debug_keys()).take(l.debug_keys().len() as int)));
            },
            E::CascadeAnd(l, r) => {
                lemma_key_texts_split(l.debug_keys(), r.debug_keys());
                l.lemma_debug_untagged();
                r.lemma_debug_untagged();
                lemma_untagged_concat("E.and_c("@ + l.debug_with(key_texts(self.debug_keys()).take(l.debug_keys().len() as int)) + ","@ + r.debug_with(key_texts(self.debug_keys()).skip(l.debug_keys().len() as int)), ")"@);
                lemma_untagged_concat("E.and_c("@ + l.debug_with(key_texts(self.debug_keys()).take(l.debug_keys().len() as int)) + ","@, r.debug_with(key_texts(self.debug_keys()).skip(l.debug_keys().len() as int)));
                lemma_untagged_concat("E.and_c("@ + l.debug_with(key_texts(self.debug_keys()).take(l.debug_keys().len() as int)), ","@);
                lemma_untagged_concat("E.and_c("@, l.debug_with(key_texts(self.debug_keys()).take(l.debug_keys().len() as int)));
            },
            E::ParallelOr(l, r) => {
                lemma_key_texts_split(l.debug_keys(), r.debug_keys());
                l.lemma_debug_untagged();
                r.lemma_debug_untagged();
                lemma_untagged_concat("E.or_p("@ + l.debug_with(key_texts(self.debug_keys()).take(l.debug_keys().len() as int)) + ","@ + r.debug_with(key_texts(self.debug_keys()).skip(l.debug_keys().len() as int)), ")"@);
                lemma_untagged_concat("E.or_p("@ + l.debug_with(key_texts(self.debug_keys()).take(l.debug_keys().len() as int)) + ","@, r.debug_with(key_texts(self.debug_keys()).skip(l.debug_keys().len() as int)));
                lemma_untagged_concat("E.or_p("@ + l.debug_with(key_texts(self.debug_keys()).take(l.debug_keys().len() as int)), ","@);
                lemma_untagged_concat("E.or_p("@, l.debug_with(key_texts(self.debug_keys()).take(l.debug_keys().len() as int)));
            },
            E::CascadeOr(l, r) => {
                lemma_key_texts_split(l.debug_keys(), r.debug_keys());
                l.lemma_debug_untagged();
                r.lemma_debug_untagged();
                lemma_untagged_concat("E.or_c("@ + l.debug_with(key_texts(self.debug_keys()).take(l.debug_keys().len() as int)) + ","@ + r.debug_with(key_texts(self.debug_keys()).skip(l.debug_keys().len() as int)), ")"@);
                lemma_untagged_concat("E.or_c("@ + l.debug_with(key_texts(self.debug_keys()).take(l.debug_keys().len() as int)) + ","@, r.debug_with(key_texts(self.debug_keys()).skip(l.debug_keys().len() as int)));
                lemma_untagged_concat("E.or_c("@ + l.debug_with(key_texts(self.debug_keys()).take(l.debug_keys().len() as int)), ","@);
                lemma_untagged_concat("E.or_c("@, l.debug_with(key_texts(self.debug_keys()).take(l.debug_keys().len() as int)));
            },
            E::SwitchOrLeft(l, r) => {
                lemma_key_texts_split(l.debug_keys(), r.debug_keys());
                l.lemma_debug_untagged();
                r.lemma_debug_untagged();
                lemma_untagged_concat("E.or_s("@ + l.debug_with(key_texts(self.debug_keys()).take(l.debug_keys().len() as int)) + ","@ + r.debug_with(key_texts(self.debug_keys()).skip(l.debug_keys().len() as int)), ")"@);
                lemma_untagged_concat("E.or_s("@ + l.debug_with(key_texts(self.debug_keys()).take(l.debug_keys().len() as int)) + ","@, r.debug_with(key_texts(self.debug_keys()).skip(l.debug_keys().len() as int)));
                lemma_untagged_concat("E.or_s("@ + l.debug_with(key_texts(self.debug_keys()).take(l.debug_keys().len() as int)), ","@);
                lemma_untagged_concat("E.or_s("@, l.debug_with(key_texts(self.debug_keys()).take(l.debug_keys().len() as int)));
            },
            E::SwitchOrRight(l, r) => {
                lemma_key_texts_split(l.debug_keys(), r.debug_keys());
                l.lemma_debug_untagged();
                r.lemma_debug_untagged();
                lemma_untagged_concat("E.or_a("@ + l.debug_with(key_texts(self.debug_keys()).take(l.debug_keys().len() as int)) + ","@ + r.debug_with(key_texts(self.debug_keys()).skip(l.debug_keys().len() as int)), ")"@);
                lemma_untagged_concat("E.or_a("@ + l.debug_with(key_texts(self.debug_keys()).take(l.debug_keys().len() as int)) + ","@, r.debug_with(key_texts(self.debug_keys()).skip(l.debug_keys().len() as int)));
                lemma_untagged_concat("E.or_a("@ + l.debug_with(key_texts(self.debug_keys()).take(l.debug_keys().len() as int)), ","@);
                lemma_untagged_concat("E.or_a("@, l.debug_with(key_texts(self.debug_keys()).take(l.debug_keys().len() as int)));
            },
            E::Likely(x) => {
                x.lemma_debug_untagged();
                lemma_untagged_concat("E.lift_l("@ + x.debug_with(key_texts(self.debug_keys())), ")"@);
                lemma_untagged_concat("E.lift_l("@, x.debug_with(key_texts(self.debug_keys())));
            },
            E::Unlikely(x) => {
                x.lemma_debug_untagged();
                lemma_untagged_concat("E.lift_u("@ + x.debug_with(key_texts(self.debug_keys())), ")"@);
                lemma_untagged_concat("E.lift_u("@, x.debug_with(key_texts(self.debug_keys())));
            },
        }
    }

    /// The debug form of a fragment of kind `E` starts with its tag,
    /// whatever its keys print as: the kind's letter, then a dot and the
    /// form's name.
    pub proof fn lemma_debug_tag(&self, ts: Seq<Seq<char>>)
        ensures
            self.debug_with(ts).len() > 2,
            self.debug_with(ts)[0] == 'E',
            self.debug_with(ts)[1] == '.' && !tag_char(self.debug_with(ts)[2]),
        decreases *self,
    {
        lemma_punct_untagged();
        lemma_e_tags_untagged();
    }
}

impl<P: KeyText> W<P> {
    /// The debug form is the text form with each part tagged by its kind:
    /// with each key printed as its text, taking the tags out of the debug
    /// form gives the text form (where no key's text holds a tag letter).
    #[verifier::spinoff_prover]
    pub proof fn lemma_debug_untagged(&self)
        requires
            keys_untagged(self.debug_keys()),
        ensures
            untagged(self.debug_with(key_texts(self.debug_keys()))) == self.display(),
        decreases *self,
    {
        lemma_punct_untagged();
        lemma_w_tags_untagged();
        match self {
            W::CheckSig(p) => {
                assert(key_texts(self.debug_keys())[0] == p.key_str());
                lemma_untagged_concat("W.pk("@ + key_texts(self.debug_keys())[0], ")"@);
                lemma_untagged_concat("W.pk("@, key_texts(self.debug_keys())[0]);
            },
            W::HashEqual(h) => {
                lemma_hex_untagged(h.bytes@.reverse());
                lemma_untagged_concat("W.hash("@ + hash_text(*h), ")"@);
                lemma_untagged_concat("W.hash("@, hash_text(*h));
            },
            W::Time(n) => {
                lemma_dec_untagged(*n as nat);
                lemma_untagged_concat("W.time("@ + dec(*n as nat), ")"@);
                lemma_untagged_concat("W.time("@, dec(*n as nat));
            },
            W::CastE(x) => {
                x.lemma_debug_untagged();
                lemma_untagged_concat("W"@, x.debug_with(key_texts(self.debug_keys())));
            },
        }
    }

    /// The debug form of a fragment of kind `W` starts with its tag,
    /// whatever its keys print as: the kind's letter, then a dot and the
    /// form's name, or, for a cast, the tag of the expression cast.
    pub proof fn lemma_debug_tag(&self, ts: Seq<Seq<char>>)
        ensures
            self.debug_with(ts).len() > 2,
            self.debug_with(ts)[0] == 'W',
            self is CastE ==> self.debug_with(ts)[1] == 'E' && self.debug_with(ts)[2] == '.',
            !(self is CastE) ==> self.debug_with(ts)[1] == '.' && !tag_char(self.debug_with(ts)[2]),
        decreases *self,
    {
        lemma_punct_untagged();
        lemma_w_tags_untagged();
        match self {
            W::CastE(x) => {
                x.lemma_debug_tag(ts);
                assert(("W"@ + x.debug_with(ts))[0] == 'W');
                assert(("W"@ + x.debug_with(ts))[1] == x.debug_with(ts)[0]);
                assert(("W"@ + x.debug_with(ts))[2] == x.debug_with(ts)[1]);
            },
            _ => {},
        }
    }
}

impl<P: KeyText> F<P> {
    /// The debug form is the text form with each part tagged by its kind:
    /// with each key printed as its text, taking the tags out of the debug
    /// form gives the text form (where no key's text holds a tag letter).
    #[verifier::spinoff_prover]
    pub proof fn lemma_debug_untagged(&self)
        requires
            keys_untagged(self.debug_keys()),
        ensures
            untagged(self.debug_with(key_texts(self.debug_keys()))) == self.display(),
        decreases *self,
    {
        lemma_punct_untagged();
        lemma_f_tags_untagged();
        match self {
            F::CheckSig(p) => {
                assert(key_texts(self.debug_keys())[0] == p.key_str());
                lemma_untagged_concat("F.pk("@ + key_texts(self.debug_keys())[0], ")"@);
                lemma_untagged_concat("F.pk("@, key_texts(self.debug_keys())[0]);
            },
            F::CheckMultiSig(k, ps) => {
                lemma_dec_untagged(*k as nat);
                lemma_commas_untagged(ps@);
                lemma_untagged_concat("F.multi("@ + dec(*k as nat) + commas(key_texts(self.debug_keys())), ")"@);
                lemma_untagged_concat("F.multi("@ + dec(*k as nat), commas(key_texts(self.debug_keys())));
                lemma_untagged_concat("F.multi("@, dec(*k as nat));
            },
            F::Time(n) => {
                lemma_dec_untagged(*n as nat);
                lemma_untagged_concat("F.time("@ + dec(*n as nat), ")"@);
                lemma_untagged_concat("F.time("@, dec(*n as nat));
            },
            F::HashEqual(h) => {
                lemma_hex_untagged(h.bytes@.reverse());
                lemma_untagged_concat("F.hash("@ + hash_text(*h), ")"@);
                lemma_untagged_concat("F.hash("@, hash_text(*h));
            },
            F::Threshold(k, e, subs) => {
                lemma_dec_untagged(*k as nat);
                lemma_key_texts_split(e.debug_keys(), ws_debug_keys(subs@));
                e.lemma_debug_untagged();
                lemma_ws_debug_untagged(subs@);
                lemma_untagged_concat("F.thres("@ + dec(*k as nat) + ","@ + e.debug_with(key_texts(self.debug_keys()).take(e.debug_keys().len() as int)) + ws_debug_with(subs@, key_texts(self.debug_keys()).skip(e.debug_keys().len() as int)), ")"@);
                lemma_untagged_concat("F.thres("@ + dec(*k as nat) + ","@ + e.debug_with(key_texts(self.debug_keys()).take(e.debug_keys().len() as int)), ws_debug_with(subs@, key_texts(self.debug_keys()).skip(e.debug_keys().len() as int)));
                lemma_untagged_concat("F.thres("@ + dec(*k as nat) + ","@, e.debug_with(key_texts(self.debug_keys()).take(e.debug_keys().len() as int)));
                lemma_untagged_concat("F.thres("@ + dec(*k as nat), ","@);
                lemma_untagged_concat("F.thres("@, dec(*k as nat));
            },
            F::And(l, r) => {
                lemma_key_texts_split(l.debug_keys(), r.debug_keys());
                l.lemma_debug_untagged();
                r.lemma_debug_untagged();
                lemma_untagged_concat("F.and_p("@ + l.debug_with(key_texts(self.debug_keys()).take(l.debug_keys().len() as int)) + ","@ + r.debug_with(key_texts(self.debug_keys()).skip(l.debug_keys().len() as int)), ")"@);
                lemma_untagged_concat("F.and_p("@ + l.debug_with(key_texts(self.debug_keys()).take(l.debug_keys().len() as int)) + ","@, r.debug_with(key_texts(self.debug_keys()).skip(l.debug_keys().len() as int)));
                lemma_untagged_concat("F.and_p("@ + l.debug_with(key_texts(self.debug_keys()).take(l.debug_keys().len() as int)), ","@);
                lemma_untagged_concat("F.and_p("@, l.debug_with(key_texts(self.debug_keys()).take(l.debug_keys().len() as int)));
            },
            F::CascadeOr(l, r) => {
                lemma_key_texts_split(l.debug_keys(), r.debug_keys());
                l.lemma_debug_untagged();
                r.lemma_debug_untagged();
                lemma_untagged_concat("F.or_v("@ + l.debug_with(key_texts(self.debug_keys()).take(l.debug_keys().len() as int)) + ","@ + r.debug_with(key_texts(self.debug_keys()).skip(l.debug_keys().len() as int)), ")"@);
                lemma_untagged_concat("F.or_v("@ + l.debug_with(key_texts(self.debug_keys()).take(l.debug_keys().len() as int)) + ","@, r.debug_with(key_texts(self.debug_keys()).skip(l.debug_keys().len() as int)));
                lemma_untagged_concat("F.or_v("@ + l.debug_with(key_texts(self.debug_keys()).take(l.debug_keys().len() as int)), ","@);
                lemma_untagged_concat("F.or_v("@, l.debug_with(key_texts(self.debug_keys()).take(l.debug_keys().len() as int)));
            },
            F::SwitchOr(l, r) => {
                lemma_key_texts_split(l.debug_keys(), r.debug_keys());
                l.lemma_debug_untagged();
                r.lemma_debug_untagged();
                lemma_untagged_concat("F.or_s("@ + l.debug_with(key_texts(self.debug_keys()).take(l.debug_keys().len() as int)) + ","@ + r.debug_with(key_texts(self.debug_keys()).skip(l.debug_keys().len() as int)), ")"@);
                lemma_untagged_concat("F.or_s("@ + l.debug_with(key_texts(self.debug_keys()).take(l.debug_keys().len() as int)) + ","@, r.debug_with(key_texts(self.debug_keys()).skip(l.debug_keys().len() as int)));
                lemma_untagged_concat("F.or_s("@ + l.debug_with(key_texts(self.debug_keys()).take(l.debug_keys().len() as int)), ","@);
                lemma_untagged_concat("F.or_s("@, l.debug_with(key_texts(self.debug_keys()).take(l.debug_keys().len() as int)));
            },
            F::SwitchOrV(l, r) => {
                lemma_key_texts_split(l.debug_keys(), r.debug_keys());
                l.lemma_debug_untagged();
                r.lemma_debug_untagged();
                lemma_untagged_concat("F.or_a("@ + l.debug_with(key_texts(self.debug_keys()).take(l.debug_keys().len() as int)) + ","@ + r.debug_with(key_texts(self.debug_keys()).skip(l.debug_keys().len() as int)), ")"@);
                lemma_untagged_concat("F.or_a("@ + l.debug_with(key_texts(self.debug_keys()).take(l.debug_keys().len() as int)) + ","@, r.debug_with(key_texts(self.debug_keys()).skip(l.debug_keys().len() as int)));
                lemma_untagged_concat("F.or_a("@ + l.debug_with(key_texts(self.debug_keys()).take(l.debug_keys().len() as int)), ","@);
                lemma_untagged_concat("F.or_a("@, l.debug_with(key_texts(self.debug_keys()).take(l.debug_keys().len() as int)));
            },
        }
    }

    /// The debug form of a fragment of kind `F` starts with its tag,
    /// whatever its keys print as: the kind's letter, then a dot and the
    /// form's name.
    pub proof fn lemma_debug_tag(&self, ts: Seq<Seq<char>>)
        ensures
            self.debug_with(ts).len() > 2,
            self.debug_with(ts)[0] == 'F',
            self.debug_with(ts)[1] == '.' && !tag_char(self.debug_with(ts)[2]),
        decreases *self,
    {
        lemma_punct_untagged();
        lemma_f_tags_untagged();
    }
}

impl<P: KeyText> V<P> {
    /// The debug form is the text form with each part tagged by its kind:
    /// with each key printed as its text, taking the tags out of the debug
    /// form gives the text form (where no key's text holds a tag letter).
    #[verifier::spinoff_prover]
    pub proof fn lemma_debug_untagged(&self)
        requires
            keys_untagged(self.debug_keys()),
        ensures
            untagged(self.debug_with(key_texts(self.debug_keys()))) == self.display(),
        decreases *self,
    {
        lemma_punct_untagged();
        lemma_v_tags_untagged();
        match self {
            V::CheckSig(p) => {
                assert(key_texts(self.debug_keys())[0] == p.key_str());
                lemma_untagged_concat("V.pk("@ + key_texts(self.debug_keys())[0], ")"@);
                lemma_untagged_concat("V.pk("@, key_texts(self.debug_keys())[0]);
            },
            V::CheckMultiSig(k, ps) => {
                lemma_dec_untagged(*k as nat);
                lemma_commas_untagged(ps@);
                lemma_untagged_concat("V.multi("@ + dec(*k as nat) + commas(key_texts(self.debug_keys())), ")"@);
                lemma_untagged_concat("V.multi("@ + dec(*k as nat), commas(key_texts(self.debug_keys())));
                lemma_untagged_concat("V.multi("@, dec(*k as nat));
            },
            V::Time(n) => {
                lemma_dec_untagged(*n as nat);
                lemma_untagged_concat("V.time("@ + dec(*n as nat), ")"@);
                lemma_untagged_concat("V.time("@, dec(*n as nat));
            },
            V::HashEqual(h) => {
                lemma_hex_untagged(h.bytes@.reverse());
                lemma_untagged_concat("V.hash("@ + hash_text(*h), ")"@);
                lemma_untagged_concat("V.hash("@, hash_text(*h));
            },
            V::Threshold(k, e, subs) => {
                lemma_dec_untagged(*k as nat);
                lemma_key_texts_split(e.debug_keys(), ws_debug_keys(subs@));
                e.lemma_debug_untagged();
                lemma_ws_debug_untagged(subs@);
                lemma_untagged_concat("V.thres("@ + dec(*k as nat) + ","@ + e.debug_with(key_texts(self.debug_keys()).take(e.debug_keys().len() as int)) + ws_debug_with(subs@, key_texts(self.debug_keys()).skip(e.debug_keys().len() as int)), ")"@);
                lemma_untagged_concat("V.thres("@ + dec(*k as nat) + ","@ + e.debug_with(key_texts(self.debug_keys()).take(e.debug_keys().len() as int)), ws_debug_with(subs@, key_texts(self.debug_keys()).skip(e.debug_keys().len() as int)));
                lemma_untagged_concat("V.thres("@ + dec(*k as nat) + ","@, e.debug_with(key_texts(self.debug_keys()).take(e.debug_keys().len() as int)));
                lemma_untagged_concat("V.thres("@ + dec(*k as nat), ","@);
                lemma_untagged_concat("V.thres("@, dec(*k as nat));
            },
            V::And(l, r) => {
                lemma_key_texts_split(l.debug_keys(), r.debug_keys());
                l.lemma_debug_untagged();
                r.lemma_debug_untagged();
                lemma_untagged_concat("V.and_p("@ + l.debug_with(key_texts(self.debug_keys()).take(l.debug_keys().len() as int)) + ","@ + r.debug_with(key_texts(self.debug_keys()).skip(l.debug_keys().len() as int)), ")"@);
                lemma_untagged_concat("V.and_p("@ + l.debug_with(key_texts(self.debug_keys()).take(l.debug_keys().len() as int)) + ","@, r.debug_with(key_texts(self.debug_keys()).skip(l.debug_keys().len() as int)));
                lemma_untagged_concat("V.and_p("@ + l.debug_with(key_texts(self.debug_keys()).take(l.debug_keys().len() as int)), ","@);
                lemma_untagged_concat("V.and_p("@, l.debug_with(key_texts(self.debug_keys()).take(l.debug_keys().len() as int)));
            },
            V::CascadeOr(l, r) => {
                lemma_key_texts_split(l.debug_keys(), r.debug_keys());
                l.lemma_debug_untagged();
                r.lemma_debug_untagged();
                lemma_untagged_concat("V.or_v("@ + l.debug_with(key_texts(self.debug_keys()).take(l.debug_keys().len() as int)) + ","@ + r.debug_with(key_texts(self.debug_keys()).skip(l.debug_keys().len() as int)), ")"@);
                lemma_untagged_concat("V.or_v("@ + l.debug_with(key_texts(self.debug_keys()).take(l.debug_keys().len() as int)) + ","@, r.debug_with(key_texts(self.debug_keys()).skip(l.debug_keys().len() as int)));
                lemma_untagged_concat("V.or_v("@ + l.debug_with(key_texts(self.debug_keys()).take(l.debug_keys().len() as int)), ","@);
                lemma_untagged_concat("V.or_v("@, l.debug_with(key_texts(self.debug_keys()).take(l.debug_keys().len() as int)));
            },
            V::SwitchOr(l, r) => {
                lemma_key_texts_split(l.debug_keys(), r.debug_keys());
                l.lemma_debug_untagged();
                r.lemma_debug_untagged();
                lemma_untagged_concat("V.or_s("@ + l.debug_with(key_texts(self.debug_keys()).take(l.debug_keys().len() as int)) + ","@ + r.debug_with(key_texts(self.debug_keys()).skip(l.debug_keys().len() as int)), ")"@);
                lemma_untagged_concat("V.or_s("@ + l.debug_with(key_texts(self.debug_keys()).take(l.debug_keys().len() as int)) + ","@, r.debug_with(key_texts(self.debug_keys()).skip(l.debug_keys().len() as int)));
                lemma_untagged_concat("V.or_s("@ + l.debug_with(key_texts(self.debug_keys()).take(l.debug_keys().len() as int)), ","@);
                lemma_untagged_concat("V.or_s("@, l.debug_with(key_texts(self.debug_keys()).take(l.debug_keys().len() as int)));
            },
            V::SwitchOrT(l, r) => {
                lemma_key_texts_split(l.debug_keys(), r.debug_keys());
                l.lemma_debug_untagged();
                r.lemma_debug_untagged();
                lemma_untagged_concat("V.or_a("@ + l.debug_with(key_texts(self.debug_keys()).take(l.debug_keys().len() as int)) + ","@ + r.debug_with(key_texts(self.debug_keys()).skip(l.debug_keys().len() as int)), ")"@);
                lemma_untagged_concat("V.or_a("@ + l.debug_with(key_texts(self.debug_keys()).take(l.debug_keys().len() as int)) + ","@, r.debug_with(key_texts(self.debug_keys()).skip(l.debug_keys().len() as int)));
                lemma_untagged_concat("V.or_a("@ + l.debug_with(key_texts(self.debug_keys()).take(l.debug_keys().len() as int)), ","@);
                lemma_untagged_concat("V.or_a("@, l.debug_with(key_texts(self.debug_keys()).take(l.debug_keys().len() as int)));
            },
        }
    }

    /// The debug form of a fragment of kind `V` starts with its tag,
    /// whatever its keys print as: the kind's letter, then a dot and the
    /// form's name.
    pub proof fn lemma_debug_tag(&self, ts: Seq<Seq<char>>)
        ensures
            self.debug_with(ts).len() > 2,
            self.debug_with(ts)[0] == 'V',
            self.debug_with(ts)[1] == '.' && !tag_char(self.debug_with(ts)[2]),
        decreases *self,
    {
        lemma_punct_untagged();
        lemma_v_tags_untagged();
    }
}

impl<P: KeyText> T<P> {
    /// The debug form is the text form with each part tagged by its kind:
    /// with each key printed as its text, taking the tags out of the debug
    /// form gives the text form (where no key's text holds a tag letter).
    #[verifier::spinoff_prover]
    pub proof fn lemma_debug_untagged(&self)
        requires
            keys_untagged(self.debug_keys()),
        ensures
            untagged(self.debug_with(key_texts(self.debug_keys()))) == self.display(),
        decreases *self,
    {
        lemma_punct_untagged();
        lemma_t_tags_untagged();
        match self {
            T::CastE(x) => {
                x.lemma_debug_untagged();
                lemma_untagged_concat("T"@, x.debug_with(key_texts(self.debug_keys())));
            },
            T::Time(n) => {
                lemma_dec_untagged(*n as nat);
                lemma_untagged_concat("T.time("@ + dec(*n as nat), ")"@);
                lemma_untagged_concat("T.time("@, dec(*n as nat));
            },
            T::HashEqual(h) => {
                lemma_hex_untagged(h.bytes@.reverse());
                lemma_untagged_concat("T.hash("@ + hash_text(*h), ")"@);
                lemma_untagged_concat("T.hash("@, hash_text(*h));
            },
            T::And(l, r) => {
                lemma_key_texts_split(l.debug_keys(), r.debug_keys());
                l.lemma_debug_untagged();
                r.lemma_debug_untagged();
                lemma_untagged_concat("T.and_p("@ + l.debug_with(key_texts(self.debug_keys()).take(l.debug_keys().len() as int)) + ","@ + r.debug_with(key_texts(self.debug_keys()).skip(l.debug_keys().len() as int)), ")"@);
                lemma_untagged_concat("T.and_p("@ + l.debug_with(key_texts(self.debug_keys()).take(l.debug_keys().len() as int)) + ","@, r.debug_with(key_texts(self.debug_keys()).skip(l.debug_keys().len() as int)));
                lemma_untagged_concat("T.and_p("@ + l.debug_with(key_texts(self.debug_keys()).take(l.debug_keys().len() as int)), ","@);
                lemma_untagged_concat("T.and_p("@, l.debug_with(key_texts(self.debug_keys()).take(l.debug_keys().len() as int)));
            },
            T::ParallelOr(l, r) => {
                lemma_key_texts_split(l.debug_keys(), r.debug_keys());
                l.lemma_debug_untagged();
                r.lemma_debug_untagged();
                lemma_untagged_concat("T.or_p("@ + l.debug_with(key_texts(self.debug_keys()).take(l.debug_keys().len() as int)) + ","@ + r.debug_with(key_texts(self.debug_keys()).skip(l.debug_keys().len() as int)), ")"@);
                lemma_untagged_concat("T.or_p("@ + l.debug_with(key_texts(self.debug_keys()).take(l.debug_keys().len() as int)) + ","@, r.debug_with(key_texts(self.debug_keys()).skip(l.debug_keys().len() as int)));
                lemma_untagged_concat("T.or_p("@ + l.debug_with(key_texts(self.debug_keys()).take(l.debug_keys().len() as int)), ","@);
                lemma_untagged_concat("T.or_p("@, l.debug_with(key_texts(self.debug_keys()).take(l.debug_keys().len() as int)));
            },
            T::CascadeOr(l, r) => {
                lemma_key_texts_split(l.debug_keys(), r.debug_keys());
                l.lemma_debug_untagged();
                r.lemma_debug_untagged();
                lemma_untagged_concat("T.or_c("@ + l.debug_with(key_texts(self.debug_keys()).take(l.debug_keys().len() as int)) + ","@ + r.debug_with(key_texts(self.debug_keys()).skip(l.debug_keys().len() as int)), ")"@);
                lemma_untagged_concat("T.or_c("@ + l.debug_with(key_texts(self.debug_keys()).take(l.debug_keys().len() as int)) + ","@, r.debug_with(key_texts(self.debug_keys()).skip(l.debug_keys().len() as int)));
                lemma_untagged_concat("T.or_c("@ + l.debug_with(key_texts(self.debug_keys()).take(l.debug_keys().len() as int)), ","@);
                lemma_untagged_concat("T.or_c("@, l.debug_with(key_texts(self.debug_keys()).take(l.debug_keys().len() as int)));
            },
            T::CascadeOrV(l, r) => {
                lemma_key_texts_split(l.debug_keys(), r.debug_keys());
                l.lemma_debug_untagged();
                r.lemma_debug_untagged();
                lemma_untagged_concat("T.or_v("@ + l.debug_with(key_texts(self.debug_keys()).take(l.debug_keys().len() as int)) + ","@ + r.debug_with(key_texts(self.debug_keys()).skip(l.debug_keys().len() as int)), ")"@);
                lemma_untagged_concat("T.or_v("@ + l.debug_with(key_texts(self.debug_keys()).take(l.debug_keys().len() as int)) + ","@, r.debug_with(key_texts(self.debug_keys()).skip(l.debug_keys().len() as int)));
                lemma_untagged_concat("T.or_v("@ + l.debug_with(key_texts(self.debug_keys()).take(l.debug_keys().len() as int)), ","@);
                lemma_untagged_concat("T.or_v("@, l.debug_with(key_texts(self.debug_keys()).take(l.debug_keys().len() as int)));
            },
            T::SwitchOr(l, r) => {
                lemma_key_texts_split(l.debug_keys(), r.debug_keys());
                l.lemma_debug_untagged();
                r.lemma_debug_untagged();
                lemma_untagged_concat("T.or_s("@ + l.debug_with(key_texts(self.debug_keys()).take(l.debug_keys().len() as int)) + ","@ + r.debug_with(key_texts(self.debug_keys()).skip(l.debug_keys().len() as int)), ")"@);
                lemma_untagged_concat("T.or_s("@ + l.debug_with(key_texts(self.debug_keys()).take(l.debug_keys().len() as int)) + ","@, r.debug_with(key_texts(self.debug_keys()).skip(l.debug_keys().len() as int)));
                lemma_untagged_concat("T.or_s("@ + l.debug_with(key_texts(self.debug_keys()).take(l.debug_keys().len() as int)), ","@);
                lemma_untagged_concat("T.or_s("@, l.debug_with(key_texts(self.debug_keys()).take(l.debug_keys().len() as int)));
            },
            T::SwitchOrV(l, r) => {
                lemma_key_texts_split(l.debug_keys(), r.debug_keys());
                l.lemma_debug_untagged();
                r.lemma_debug_untagged();
                lemma_untagged_concat("T.or_a("@ + l.debug_with(key_texts(self.debug_keys()).take(l.debug_keys().len() as int)) + ","@ + r.debug_with(key_texts(self.debug_keys()).skip(l.debug_keys().len() as int)), ")"@);
                lemma_untagged_concat("T.or_a("@ + l.debug_with(key_texts(self.debug_keys()).take(l.debug_keys().len() as int)) + ","@, r.debug_with(key_texts(self.debug_keys()).skip(l.debug_keys().len() as int)));
                lemma_untagged_concat("T.or_a("@ + l.debug_with(key_texts(self.debug_keys()).take(l.debug_keys().len() as int)), ","@);
                lemma_untagged_concat("T.or_a("@, l.debug_with(key_texts(self.debug_keys()).take(l.debug_keys().len() as int)));
            },
        }
    }

    /// The debug form of a fragment of kind `T` starts with its tag,
    /// whatever its keys print as: the kind's letter, then a dot and the
    /// form's name, or, for a cast, the tag of the expression cast.
    pub proof fn lemma_debug_tag(&self, ts: Seq<Seq<char>>)
        ensures
            self.debug_with(ts).len() > 2,
            self.debug_with(ts)[0] == 'T',
            self is CastE ==> self.debug_with(ts)[1] == 'E' && self.debug_with(ts)[2] == '.',
            !(self is CastE) ==> self.debug_with(ts)[1] == '.' && !tag_char(self.debug_with(ts)[2]),
        decreases *self,
    {
        lemma_punct_untagged();
        lemma_t_tags_untagged();
        match self {
            T::CastE(x) => {
                x.lemma_debug_tag(ts);
                assert(("T"@ + x.debug_with(ts))[0] == 'T');
                assert(("T"@ + x.debug_with(ts))[1] == x.debug_with(ts)[0]);
                assert(("T"@ + x.debug_with(ts))[2] == x.debug_with(ts)[1]);
            },
            _ => {},
        }
    }
}

} // verus!
