//! The text of an expression tree, and the round trip between a fragment
//! and its text: a fragment read from a tree whose leaves are written as the
//! library writes them prints as that tree's text; the tree in which the
//! library writes a fragment has the fragment's text, and names it again
//! where it reads back; so printing, reading back and printing again gives
//! the same text.

use std::rc::Rc;
use vstd::prelude::*;
use crate::ast::{E, W, F, V, T, ws_same};
use crate::display::{key_text, keys_text, ws_text, hash_text};
use crate::expression::{Tree, tree_ok, trees_ok, lemma_tree_ok_ready, e_ready, w_ready, f_ready, v_ready, t_ready, parse_u32, dec_value, is_digit, named, keys_denoted, ws_denoted, lemma_names, key_leaf};
use crate::keys::{PublicKey, key_from_str, hash_from_hex, hex_value, unhex};
use crate::text::{dec, dec_digit, hex, hex_digit};

verus! {

/// The text of an expression tree: its name, then, where it has arguments,
/// their texts between brackets, separated by commas.
pub open spec fn tree_text(t: Tree) -> Seq<char>
    decreases t,
{
    if t.args@.len() == 0 {
        t.name@
    } else {
        let l = list_text(t.args@);
        t.name@ + "("@ + l.subrange(1, l.len() as int) + ")"@
    }
}

/// The texts of the trees, each preceded by a comma.
pub open spec fn list_text(ts: Seq<Tree>) -> Seq<char>
    decreases ts,
{
    if ts.len() == 0 {
        Seq::empty()
    } else {
        list_text(ts.drop_last()) + ","@ + tree_text(ts.last())
    }
}

/// A number leaf that is written as the library writes numbers: in
/// decimal, with no sign and no leading zero.
pub open spec fn tidy_num(l: Tree) -> bool {
    parse_u32(l.name@) matches Some(m) ==> l.name@ == dec(m as nat)
}

/// A key leaf that is written as the library writes keys: the compressed
/// serialization in lowercase hex.
pub open spec fn tidy_key(l: Tree) -> bool {
    key_from_str(l.name@) matches Some(b) ==> l.name@ == hex(b)
}

/// A hash leaf that is written as the library writes hashes: in lowercase
/// hex, last byte first.
pub open spec fn tidy_hash(l: Tree) -> bool {
    hash_from_hex(l.name@) matches Some(b) ==> l.name@ == hex(b.reverse())
}

/// A tree whose leaves are written as the library writes them: the
/// numbers, keys and hashes that it reads print back as they stand.
pub open spec fn tidy(t: Tree) -> bool
    decreases t,
{
    if t.args@.len() == 1 && (t.name@ == "pk"@ || t.name@ == "time"@ || t.name@ == "hash"@) {
        if t.name@ == "pk"@ {
            tidy_key(t.args@[0])
        } else if t.name@ == "time"@ {
            tidy_num(t.args@[0])
        } else {
            tidy_hash(t.args@[0])
        }
    } else if t.args@.len() >= 1 && t.name@ == "multi"@ {
        &&& tidy_num(t.args@[0])
        &&& forall|i: int| 1 <= i < t.args@.len() ==> #[trigger] tidy_key(t.args@[i])
    } else if t.args@.len() >= 1 && t.name@ == "thres"@ {
        tidy_num(t.args@[0]) && tidy_from(t.args@, 1)
    } else {
        tidy_from(t.args@, 0)
    }
}

/// The trees from place `start` on are tidy.
pub open spec fn tidy_from(ts: Seq<Tree>, start: int) -> bool
    decreases ts,
{
    if ts.len() == 0 || ts.len() <= start {
        true
    } else {
        tidy_from(ts.subrange(0, ts.len() - 1), start) && tidy(ts[ts.len() - 1])
    }
}

/// Each tree from place `start` on of tidy trees is tidy.
pub proof fn lemma_tidy_from_index(ts: Seq<Tree>, start: int, i: int)
    requires
        tidy_from(ts, start),
        0 <= start <= i < ts.len(),
    ensures
        tidy(ts[i]),
    decreases ts.len(),
{
    let p = ts.subrange(0, ts.len() - 1);
    assert(p.len() == ts.len() - 1);
    if i < ts.len() - 1 {
        assert(p[i] == ts[i]);
        lemma_tidy_from_index(p, start, i);
    }
}

/// The digit for `d < 10` is one, of value `d`.
proof fn lemma_dec_digit(d: nat)
    requires
        d < 10,
    ensures
        dec_digit(d) as nat == 48 + d,
        is_digit(dec_digit(d)),
{
}

/// The decimal text of `n` is digits only, and reads as `n`: as a `u32`
/// where it fits in one.
pub proof fn lemma_dec_reads(n: nat)
    ensures
        dec(n).len() > 0,
        forall|i: int| 0 <= i < dec(n).len() ==> #[trigger] is_digit(dec(n)[i]),
        dec_value(dec(n)) == n,
        parse_u32(dec(n)) == (if n <= u32::MAX { Some(n as u32) } else { None::<u32> }),
    decreases n,
{
    if n < 10 {
        lemma_dec_digit(n);
        assert(dec(n).drop_last() =~= Seq::<char>::empty());
        assert(dec(n).last() == dec_digit(n));
        assert(dec_value(dec(n)) == dec_value(Seq::<char>::empty()) * 10 + (dec_digit(n) as nat - '0' as nat) as nat);
    } else {
        lemma_dec_digit(n % 10);
        lemma_dec_reads(n / 10);
        let s = dec(n / 10);
        assert(dec(n).drop_last() =~= s);
        assert(dec(n).last() == dec_digit(n % 10));
        assert(dec_value(dec(n)) == n / 10 * 10 + n % 10);
        assert forall|i: int| 0 <= i < dec(n).len() implies #[trigger] is_digit(dec(n)[i]) by {
            if i < s.len() {
                assert(dec(n)[i] == s[i]);
            }
        }
    }
    assert(dec(n)[0] != '+') by {
        assert(is_digit(dec(n)[0]));
    }
}

/// A read number prints back as its text, where the text was written in
/// decimal.
pub proof fn lemma_dec_tidy(n: nat)
    ensures
        parse_u32(dec(n)) matches Some(m) ==> dec(n) == dec(m as nat),
{
    lemma_dec_reads(n);
}

/// The digit of `d < 16` reads as `d`.
proof fn lemma_hex_digit(d: nat)
    requires
        d < 16,
    ensures
        hex_value(hex_digit(d)) == Some(d),
{
}

/// Bytes after an even number of hex digits read after those digits' bytes.
proof fn lemma_unhex_push(s: Seq<char>, a: char, b: char)
    requires
        s.len() % 2 == 0,
    ensures
        unhex(s + seq![a, b]) == unhex(s).push((hex_value(a).unwrap() * 16 + hex_value(b).unwrap()) as u8),
    decreases s.len(),
{
    let t = s + seq![a, b];
    if s.len() == 0 {
        assert(t.len() == 2 && t[0] == a && t[1] == b);
        assert(t.subrange(2, t.len() as int) =~= Seq::<char>::empty());
        assert(unhex(t.subrange(2, t.len() as int)) =~= Seq::<u8>::empty());
        assert(unhex(s) =~= Seq::<u8>::empty());
        assert(unhex(t) =~= unhex(s).push((hex_value(a).unwrap() * 16 + hex_value(b).unwrap()) as u8));
    } else {
        let r = s.subrange(2, s.len() as int);
        lemma_unhex_push(r, a, b);
        assert(t.subrange(2, t.len() as int) =~= r + seq![a, b]);
        assert(unhex(t) =~= unhex(s).push((hex_value(a).unwrap() * 16 + hex_value(b).unwrap()) as u8));
    }
}

/// Hex digits read back as the bytes they were written from.
pub proof fn lemma_hex_reads(bytes: Seq<u8>)
    ensures
        hex(bytes).len() == 2 * bytes.len(),
        forall|i: int| 0 <= i < hex(bytes).len() ==> #[trigger] hex_value(hex(bytes)[i]) is Some,
        unhex(hex(bytes)) == bytes,
    decreases bytes.len(),
{
    if bytes.len() > 0 {
        let p = bytes.drop_last();
        let x = bytes.last();
        lemma_hex_reads(p);
        lemma_hex_digit(x as nat / 16);
        lemma_hex_digit(x as nat % 16);
        let hi = hex_digit(x as nat / 16);
        let lo = hex_digit(x as nat % 16);
        lemma_unhex_push(hex(p), hi, lo);
        assert((hex_value(hi).unwrap() * 16 + hex_value(lo).unwrap()) as u8 == x);
        assert forall|i: int| 0 <= i < hex(bytes).len() implies #[trigger] hex_value(hex(bytes)[i]) is Some by {
            if i < hex(p).len() {
                assert(hex(bytes)[i] == hex(p)[i]);
            }
        }
        assert(p.push(x) =~= bytes);
    } else {
        assert(unhex(hex(bytes)) =~= bytes);
    }
}

/// A read hash prints back as its text, where the text was written as the
/// library writes hashes.
pub proof fn lemma_hash_tidy(bytes: Seq<u8>)
    requires
        bytes.len() == 32,
    ensures
        hash_from_hex(hex(bytes.reverse())) == Some(bytes),
{
    lemma_hex_reads(bytes.reverse());
    assert(bytes.reverse().reverse() =~= bytes);
}

/// The names of the descriptor language, each followed by an opening
/// bracket, and the brackets and the comma, character by character.
pub proof fn lemma_bracketed()
    ensures
        "("@ == seq!['('],
        ")"@ == seq![')'],
        ","@ == seq![','],
        "pk("@ == "pk"@ + "("@,
        "multi("@ == "multi"@ + "("@,
        "time("@ == "time"@ + "("@,
        "thres("@ == "thres"@ + "("@,
        "hash("@ == "hash"@ + "("@,
        "and_p("@ == "and_p"@ + "("@,
        "and_c("@ == "and_c"@ + "("@,
        "or_p("@ == "or_p"@ + "("@,
        "or_c("@ == "or_c"@ + "("@,
        "or_s("@ == "or_s"@ + "("@,
        "or_a("@ == "or_a"@ + "("@,
        "or_v("@ == "or_v"@ + "("@,
        "lift_l("@ == "lift_l"@ + "("@,
        "lift_u("@ == "lift_u"@ + "("@,
{
    lemma_names();
    reveal_strlit("(");
    reveal_strlit(")");
    reveal_strlit(",");
    reveal_strlit("pk(");
    reveal_strlit("multi(");
    reveal_strlit("time(");
    reveal_strlit("thres(");
    reveal_strlit("hash(");
    reveal_strlit("and_p(");
    reveal_strlit("and_c(");
    reveal_strlit("or_p(");
    reveal_strlit("or_c(");
    reveal_strlit("or_s(");
    reveal_strlit("or_a(");
    reveal_strlit("or_v(");
    reveal_strlit("lift_l(");
    reveal_strlit("lift_u(");
    assert("pk("@ =~= "pk"@ + "("@);
    assert("multi("@ =~= "multi"@ + "("@);
    assert("time("@ =~= "time"@ + "("@);
    assert("thres("@ =~= "thres"@ + "("@);
    assert("hash("@ =~= "hash"@ + "("@);
    assert("and_p("@ =~= "and_p"@ + "("@);
    assert("and_c("@ =~= "and_c"@ + "("@);
    assert("or_p("@ =~= "or_p"@ + "("@);
    assert("or_c("@ =~= "or_c"@ + "("@);
    assert("or_s("@ =~= "or_s"@ + "("@);
    assert("or_a("@ =~= "or_a"@ + "("@);
    assert("or_v("@ =~= "or_v"@ + "("@);
    assert("lift_l("@ =~= "lift_l"@ + "("@);
    assert("lift_u("@ =~= "lift_u"@ + "("@);
}

/// The texts of two lists of trees, one after the other.
pub proof fn lemma_list_concat(a: Seq<Tree>, b: Seq<Tree>)
    ensures
        list_text(a + b) == list_text(a) + list_text(b),
    decreases b.len(),
{
    if b.len() == 0 {
        assert(a + b =~= a);
    } else {
        lemma_list_concat(a, b.drop_last());
        assert((a + b).drop_last() =~= a + b.drop_last());
        assert((a + b).last() == b.last());
    }
}

/// The text of a tree with no arguments is its name; with one or two, the
/// name and the arguments' texts.
pub proof fn lemma_text_shapes(t: Tree)
    ensures
        t.args@.len() == 0 ==> tree_text(t) == t.name@,
        t.args@.len() == 1 ==> tree_text(t) == t.name@ + "("@ + tree_text(t.args@[0]) + ")"@,
        t.args@.len() == 2 ==> tree_text(t) == t.name@ + "("@ + tree_text(t.args@[0]) + ","@ + tree_text(t.args@[1])
            + ")"@,
{
    lemma_bracketed();
    let a = t.args@;
    assert(list_text(Seq::<Tree>::empty()) =~= Seq::<char>::empty());
    if a.len() == 1 {
        assert(a.drop_last() =~= Seq::<Tree>::empty());
        let l = list_text(a);
        assert(l =~= ","@ + tree_text(a[0]));
        assert(l.subrange(1, l.len() as int) =~= tree_text(a[0]));
    } else if a.len() == 2 {
        assert(a.drop_last().drop_last() =~= Seq::<Tree>::empty());
        assert(a.drop_last().last() == a[0]);
        assert(list_text(a.drop_last()) =~= ","@ + tree_text(a[0]));
        let l = list_text(a);
        assert(l =~= ","@ + tree_text(a[0]) + ","@ + tree_text(a[1]));
        assert(l.subrange(1, l.len() as int) =~= tree_text(a[0]) + ","@ + tree_text(a[1]));
    }
}

/// A list of key leaves, each a key written as the library writes keys,
/// reads as the text of the keys it names.
proof fn lemma_keys_printed(ts: Seq<Tree>, pks: Seq<PublicKey>)
    requires
        keys_denoted(ts, pks),
        forall|i: int| 0 <= i < ts.len() ==> #[trigger] tidy_key(ts[i]),
    ensures
        list_text(ts) == keys_text(pks),
    decreases ts.len(),
{
    if ts.len() > 0 {
        let ts2 = ts.drop_last();
        let pks2 = pks.drop_last();
        assert forall|i: int| 0 <= i < ts2.len() implies #[trigger] crate::expression::key_leaf(ts2[i], pks2[i]) by {
            assert(crate::expression::key_leaf(ts[i], pks[i]));
        }
        assert forall|i: int| 0 <= i < ts2.len() implies #[trigger] tidy_key(ts2[i]) by {
            assert(tidy_key(ts[i]));
        }
        lemma_keys_printed(ts2, pks2);
        let last = ts.len() - 1;
        assert(crate::expression::key_leaf(ts[last], pks[last]));
        assert(tidy_key(ts[last]));
        lemma_text_shapes(ts[last]);
    }
}

/// A `multi` tree, its threshold and keys written as the library writes
/// them: its text.
proof fn lemma_multi_printed(t: Tree, k: nat, pks: Seq<PublicKey>)
    requires
        t.args@.len() == pks.len() + 1,
        t.args@[0].args@.len() == 0,
        t.args@[0].name@ == dec(k),
        keys_denoted(t.args@.subrange(1, t.args@.len() as int), pks),
        forall|i: int| 1 <= i < t.args@.len() ==> #[trigger] tidy_key(t.args@[i]),
    ensures
        tree_text(t) == t.name@ + "("@ + dec(k) + keys_text(pks) + ")"@,
{
    lemma_bracketed();
    let a = t.args@;
    let rest = a.subrange(1, a.len() as int);
    assert(a =~= seq![a[0]] + rest);
    lemma_list_concat(seq![a[0]], rest);
    assert(seq![a[0]].drop_last() =~= Seq::<Tree>::empty());
    assert(list_text(Seq::<Tree>::empty()) =~= Seq::<char>::empty());
    lemma_text_shapes(a[0]);
    assert forall|i: int| 0 <= i < rest.len() implies #[trigger] tidy_key(rest[i]) by {
        assert(tidy_key(a[i + 1]));
    }
    lemma_keys_printed(rest, pks);
    let l = list_text(a);
    assert(l =~= ","@ + (dec(k) + keys_text(pks)));
    assert(l.subrange(1, l.len() as int) =~= dec(k) + keys_text(pks));
}

/// A `thres` tree, its threshold written in decimal, its expression and
/// wrapped parts printing as `e` and `ws`: its text.
proof fn lemma_thres_text(t: Tree, k: nat, e: Seq<char>, ws: Seq<char>)
    requires
        t.args@.len() >= 2,
        t.args@[0].args@.len() == 0,
        t.args@[0].name@ == dec(k),
        tree_text(t.args@[1]) == e,
        list_text(t.args@.subrange(2, t.args@.len() as int)) == ws,
    ensures
        tree_text(t) == t.name@ + "("@ + dec(k) + ","@ + e + ws + ")"@,
{
    lemma_bracketed();
    let a = t.args@;
    let rest = a.subrange(2, a.len() as int);
    assert(a =~= seq![a[0], a[1]] + rest);
    lemma_list_concat(seq![a[0], a[1]], rest);
    assert(seq![a[0], a[1]].drop_last().drop_last() =~= Seq::<Tree>::empty());
    assert(seq![a[0], a[1]].drop_last() =~= seq![a[0]]);
    assert(list_text(Seq::<Tree>::empty()) =~= Seq::<char>::empty());
    lemma_text_shapes(a[0]);
    assert(list_text(seq![a[0]]) =~= ","@ + dec(k));
    assert(list_text(seq![a[0], a[1]]) =~= ","@ + dec(k) + ","@ + e);
    let l = list_text(a);
    assert(l =~= ","@ + (dec(k) + ","@ + e + ws));
    assert(l.subrange(1, l.len() as int) =~= dec(k) + ","@ + e + ws);
}

/// Wrapped parts read from trees whose leaves are tidy print as the trees'
/// texts.
pub proof fn lemma_ws_printed(ws: Seq<Rc<W<PublicKey>>>, ts: Seq<Tree>)
    requires
        ws_denoted(ws, ts),
        forall|i: int| 0 <= i < ts.len() ==> #[trigger] tidy(ts[i]),
    ensures
        ws_text(ws) == list_text(ts),
    decreases ws,
{
    if ws.len() > 0 {
        let ws2 = ws.subrange(0, ws.len() - 1);
        let ts2 = ts.subrange(0, ts.len() - 1);
        assert forall|i: int| 0 <= i < ts2.len() implies #[trigger] tidy(ts2[i]) by {
            assert(tidy(ts[i]));
        }
        lemma_ws_printed(ws2, ts2);
        let w = ws.last();
        assert(tidy(ts[ts.len() - 1]));
        w.lemma_printed(ts.last());
        assert(ts.drop_last() =~= ts2);
    } else {
        assert(ts =~= Seq::<Tree>::empty());
    }
}

/// A tree whose name has two arguments of its own, other than the leaf
/// forms: both arguments are tidy where it is.
proof fn lemma_tidy_two(t: Tree)
    requires
        tidy(t),
        t.args@.len() == 2,
        t.name@ != "multi"@,
        t.name@ != "thres"@,
    ensures
        tidy(t.args@[0]),
        tidy(t.args@[1]),
{
    lemma_tidy_from_index(t.args@, 0, 0);
    lemma_tidy_from_index(t.args@, 0, 1);
}

/// A tree of one argument, not a leaf form: its argument is tidy where it
/// is.
proof fn lemma_tidy_one(t: Tree)
    requires
        tidy(t),
        t.args@.len() == 1,
        t.name@ != "pk"@ && t.name@ != "time"@ && t.name@ != "hash"@,
        t.name@ != "multi"@,
        t.name@ != "thres"@,
    ensures
        tidy(t.args@[0]),
{
    lemma_tidy_from_index(t.args@, 0, 0);
}

/// A `thres` tree that is tidy: its threshold and each argument after it.
proof fn lemma_tidy_thres(t: Tree)
    requires
        tidy(t),
        t.args@.len() >= 2,
        t.name@ == "thres"@,
    ensures
        tidy_num(t.args@[0]),
        forall|i: int| 0 <= i < t.args@.len() - 2 ==> #[trigger] tidy(t.args@.subrange(2, t.args@.len() as int)[i]),
        tidy(t.args@[1]),
{
    lemma_names();
    lemma_tidy_from_index(t.args@, 1, 1);
    assert forall|i: int| 0 <= i < t.args@.len() - 2 implies #[trigger] tidy(
        t.args@.subrange(2, t.args@.len() as int)[i],
    ) by {
        lemma_tidy_from_index(t.args@, 1, i + 2);
    }
}

impl E<PublicKey> {
    /// What the library reads from a tree whose leaves are written as it
    /// writes them prints as the tree's text.
    pub proof fn lemma_printed(&self, t: Tree)
        requires
            self.denoted_by(t),
            tidy(t),
        ensures
            self.display() == tree_text(t),
        decreases *self,
    {
        lemma_names();
        lemma_bracketed();
        lemma_text_shapes(t);
        let a = t.args@;
        match self {
            E::CheckSig(p) => {
                lemma_text_shapes(a[0]);
            },
            E::CheckMultiSig(k, pks) => {
                lemma_dec_tidy(*k as nat);
                lemma_multi_printed(t, *k as nat, pks@);
            },
            E::Time(n) => {
                lemma_text_shapes(a[0]);
            },
            E::Threshold(k, e, ws) => {
                lemma_tidy_thres(t);
                e.lemma_printed(a[1]);
                lemma_ws_printed(ws@, a.subrange(2, a.len() as int));
                lemma_thres_text(t, *k as nat, tree_text(a[1]), ws_text(ws@));
            },
            E::ParallelAnd(l, r) => {
                lemma_tidy_two(t);
                l.lemma_printed(a[0]);
                r.lemma_printed(a[1]);
            },
            E::CascadeAnd(l, r) => {
                lemma_tidy_two(t);
                l.lemma_printed(a[0]);
                r.lemma_printed(a[1]);
            },
            E::ParallelOr(l, r) => {
                lemma_tidy_two(t);
                l.lemma_printed(a[0]);
                r.lemma_printed(a[1]);
            },
            E::CascadeOr(l, r) => {
                lemma_tidy_two(t);
                l.lemma_printed(a[0]);
                r.lemma_printed(a[1]);
            },
            E::SwitchOrLeft(l, r) => {
                lemma_tidy_two(t);
                l.lemma_printed(a[0]);
                r.lemma_printed(a[1]);
            },
            E::SwitchOrRight(l, r) => {
                lemma_tidy_two(t);
                l.lemma_printed(a[0]);
                r.lemma_printed(a[1]);
            },
            E::Likely(f) => {
                lemma_tidy_one(t);
                f.lemma_printed(a[0]);
            },
            E::Unlikely(f) => {
                lemma_tidy_one(t);
                f.lemma_printed(a[0]);
            },
        }
    }
}

impl W<PublicKey> {
    /// What the library reads from a tree whose leaves are written as it
    /// writes them prints as the tree's text.
    pub proof fn lemma_printed(&self, t: Tree)
        requires
            self.denoted_by(t),
            tidy(t),
        ensures
            self.display() == tree_text(t),
        decreases *self,
    {
        lemma_names();
        lemma_bracketed();
        lemma_text_shapes(t);
        match self {
            W::CastE(e) => {
                e.lemma_printed(t);
            },
            _ => {
                lemma_text_shapes(t.args@[0]);
            },
        }
    }
}

impl F<PublicKey> {
    /// What the library reads from a tree whose leaves are written as it
    /// writes them prints as the tree's text.
    pub proof fn lemma_printed(&self, t: Tree)
        requires
            self.denoted_by(t),
            tidy(t),
        ensures
            self.display() == tree_text(t),
        decreases *self,
    {
        lemma_names();
        lemma_bracketed();
        lemma_text_shapes(t);
        let a = t.args@;
        match self {
            F::CheckMultiSig(k, pks) => {
                lemma_dec_tidy(*k as nat);
                lemma_multi_printed(t, *k as nat, pks@);
            },
            F::Threshold(k, e, ws) => {
                lemma_tidy_thres(t);
                e.lemma_printed(a[1]);
                lemma_ws_printed(ws@, a.subrange(2, a.len() as int));
                lemma_thres_text(t, *k as nat, tree_text(a[1]), ws_text(ws@));
            },
            F::And(l, r) => {
                lemma_tidy_two(t);
                l.lemma_printed(a[0]);
                r.lemma_printed(a[1]);
            },
            F::CascadeOr(l, r) => {
                lemma_tidy_two(t);
                l.lemma_printed(a[0]);
                r.lemma_printed(a[1]);
            },
            F::SwitchOr(l, r) => {
                lemma_tidy_two(t);
                l.lemma_printed(a[0]);
                r.lemma_printed(a[1]);
            },
            F::SwitchOrV(l, r) => {
                lemma_tidy_two(t);
                l.lemma_printed(a[0]);
                r.lemma_printed(a[1]);
            },
            _ => {
                lemma_text_shapes(a[0]);
            },
        }
    }
}

impl V<PublicKey> {
    /// What the library reads from a tree whose leaves are written as it
    /// writes them prints as the tree's text.
    pub proof fn lemma_printed(&self, t: Tree)
        requires
            self.denoted_by(t),
            tidy(t),
        ensures
            self.display() == tree_text(t),
        decreases *self,
    {
        lemma_names();
        lemma_bracketed();
        lemma_text_shapes(t);
        let a = t.args@;
        match self {
            V::CheckMultiSig(k, pks) => {
                lemma_dec_tidy(*k as nat);
                lemma_multi_printed(t, *k as nat, pks@);
            },
            V::Threshold(k, e, ws) => {
                lemma_tidy_thres(t);
                e.lemma_printed(a[1]);
                lemma_ws_printed(ws@, a.subrange(2, a.len() as int));
                lemma_thres_text(t, *k as nat, tree_text(a[1]), ws_text(ws@));
            },
            V::And(l, r) => {
                lemma_tidy_two(t);
                l.lemma_printed(a[0]);
                r.lemma_printed(a[1]);
            },
            V::CascadeOr(l, r) => {
                lemma_tidy_two(t);
                l.lemma_printed(a[0]);
                r.lemma_printed(a[1]);
            },
            V::SwitchOr(l, r) => {
                lemma_tidy_two(t);
                l.lemma_printed(a[0]);
                r.lemma_printed(a[1]);
            },
            V::SwitchOrT(l, r) => {
                lemma_tidy_two(t);
                l.lemma_printed(a[0]);
                r.lemma_printed(a[1]);
            },
            _ => {
                lemma_text_shapes(a[0]);
            },
        }
    }
}

impl T<PublicKey> {
    /// What the library reads from a tree whose leaves are written as it
    /// writes them prints as the tree's text.
    pub proof fn lemma_printed(&self, t: Tree)
        requires
            self.denoted_by(t),
            tidy(t),
        ensures
            self.display() == tree_text(t),
        decreases *self,
    {
        lemma_names();
        lemma_bracketed();
        lemma_text_shapes(t);
        let a = t.args@;
        match self {
            T::And(l, r) => {
                lemma_tidy_two(t);
                l.lemma_printed(a[0]);
                r.lemma_printed(a[1]);
            },
            T::ParallelOr(l, r) => {
                lemma_tidy_two(t);
                l.lemma_printed(a[0]);
                r.lemma_printed(a[1]);
            },
            T::CascadeOr(l, r) => {
                lemma_tidy_two(t);
                l.lemma_printed(a[0]);
                r.lemma_printed(a[1]);
            },
            T::CascadeOrV(l, r) => {
                lemma_tidy_two(t);
                l.lemma_printed(a[0]);
                r.lemma_printed(a[1]);
            },
            T::SwitchOr(l, r) => {
                lemma_tidy_two(t);
                l.lemma_printed(a[0]);
                r.lemma_printed(a[1]);
            },
            T::SwitchOrV(l, r) => {
                lemma_tidy_two(t);
                l.lemma_printed(a[0]);
                r.lemma_printed(a[1]);
            },
            T::CastE(e) => {
                e.lemma_printed(t);
            },
            _ => {
                lemma_text_shapes(a[0]);
            },
        }
    }
}

/// A leaf whose name is `s`.
pub open spec fn leaf(t: Tree, s: Seq<char>) -> bool {
    t.args@.len() == 0 && t.name@ == s
}

/// A leaf that writes the key `p` (one that reads back from its text, as
/// every key that `PublicKey::from_str` gives does).
pub open spec fn key_written(t: Tree, p: PublicKey) -> bool {
    leaf(t, key_text(p)) && key_from_str(key_text(p)) == Some(p.bytes@)
}

/// The trees write the wrapped parts `ws`, in order.
pub open spec fn ws_written(ws: Seq<Rc<W<PublicKey>>>, ts: Seq<Tree>) -> bool
    decreases ws,
{
    if ws.len() == 0 {
        ts.len() == 0
    } else {
        &&& ts.len() == ws.len()
        &&& ws_written(ws.subrange(0, ws.len() - 1), ts.subrange(0, ts.len() - 1))
        &&& ws.last().written_as(ts.last())
    }
}

/// A `multi` tree that writes the threshold `k` and the keys `pks`.
pub open spec fn multi_written(t: Tree, k: usize, pks: Seq<PublicKey>) -> bool {
    &&& t.name@ == "multi"@
    &&& t.args@.len() == pks.len() + 1
    &&& leaf(t.args@[0], dec(k as nat))
    &&& forall|i: int| 0 <= i < pks.len() ==> #[trigger] key_written(t.args@[i + 1], pks[i])
}

/// A `thres` tree that writes the threshold `k`, with `n` wrapped parts
/// after its expression.
pub open spec fn thres_written(t: Tree, k: usize, n: nat) -> bool {
    &&& t.name@ == "thres"@
    &&& t.args@.len() == n + 2
    &&& leaf(t.args@[0], dec(k as nat))
}

impl E<PublicKey> {
    /// `t` is the expression tree in which the library writes this
    /// fragment: its text is the fragment's (see `lemma_written`).
    pub open spec fn written_as(self, t: Tree) -> bool
        decreases self,
    {
        match self {
            E::CheckSig(p) => named(t, "pk"@, 1) && key_written(t.args@[0], p),
            E::CheckMultiSig(k, pks) => multi_written(t, k, pks@),
            E::Time(n) => named(t, "time"@, 1) && leaf(t.args@[0], dec(n as nat)),
            E::Threshold(k, e, ws) => thres_written(t, k, ws@.len()) && e.written_as(t.args@[1]) && ws_written(
                ws@,
                t.args@.subrange(2, t.args@.len() as int),
            ),
            E::ParallelAnd(l, r) => named(t, "and_p"@, 2) && l.written_as(t.args@[0]) && r.written_as(t.args@[1]),
            E::CascadeAnd(l, r) => named(t, "and_c"@, 2) && l.written_as(t.args@[0]) && r.written_as(t.args@[1]),
            E::ParallelOr(l, r) => named(t, "or_p"@, 2) && l.written_as(t.args@[0]) && r.written_as(t.args@[1]),
            E::CascadeOr(l, r) => named(t, "or_c"@, 2) && l.written_as(t.args@[0]) && r.written_as(t.args@[1]),
            E::SwitchOrLeft(l, r) => named(t, "or_s"@, 2) && l.written_as(t.args@[0]) && r.written_as(t.args@[1]),
            E::SwitchOrRight(l, r) => named(t, "or_a"@, 2) && l.written_as(t.args@[0]) && r.written_as(t.args@[1]),
            E::Likely(f) => named(t, "lift_l"@, 1) && f.written_as(t.args@[0]),
            E::Unlikely(f) => named(t, "lift_u"@, 1) && f.written_as(t.args@[0]),
        }
    }
}

impl W<PublicKey> {
    /// `t` is the expression tree in which the library writes this
    /// fragment: its text is the fragment's (see `lemma_written`).
    pub open spec fn written_as(self, t: Tree) -> bool
        decreases self,
    {
        match self {
            W::CheckSig(p) => named(t, "pk"@, 1) && key_written(t.args@[0], p),
            W::HashEqual(h) => named(t, "hash"@, 1) && leaf(t.args@[0], hash_text(h)),
            W::Time(n) => named(t, "time"@, 1) && leaf(t.args@[0], dec(n as nat)),
            W::CastE(e) => e.written_as(t),
        }
    }
}

impl F<PublicKey> {
    /// `t` is the expression tree in which the library writes this
    /// fragment: its text is the fragment's (see `lemma_written`).
    pub open spec fn written_as(self, t: Tree) -> bool
        decreases self,
    {
        match self {
            F::CheckSig(p) => named(t, "pk"@, 1) && key_written(t.args@[0], p),
            F::CheckMultiSig(k, pks) => multi_written(t, k, pks@),
            F::Time(n) => named(t, "time"@, 1) && leaf(t.args@[0], dec(n as nat)),
            F::HashEqual(h) => named(t, "hash"@, 1) && leaf(t.args@[0], hash_text(h)),
            F::Threshold(k, e, ws) => thres_written(t, k, ws@.len()) && e.written_as(t.args@[1]) && ws_written(
                ws@,
                t.args@.subrange(2, t.args@.len() as int),
            ),
            F::And(l, r) => named(t, "and_p"@, 2) && l.written_as(t.args@[0]) && r.written_as(t.args@[1]),
            F::CascadeOr(l, r) => named(t, "or_v"@, 2) && l.written_as(t.args@[0]) && r.written_as(t.args@[1]),
            F::SwitchOr(l, r) => named(t, "or_s"@, 2) && l.written_as(t.args@[0]) && r.written_as(t.args@[1]),
            F::SwitchOrV(l, r) => named(t, "or_a"@, 2) && l.written_as(t.args@[0]) && r.written_as(t.args@[1]),
        }
    }
}

impl V<PublicKey> {
    /// `t` is the expression tree in which the library writes this
    /// fragment: its text is the fragment's (see `lemma_written`).
    pub open spec fn written_as(self, t: Tree) -> bool
        decreases self,
    {
        match self {
            V::CheckSig(p) => named(t, "pk"@, 1) && key_written(t.args@[0], p),
            V::CheckMultiSig(k, pks) => multi_written(t, k, pks@),
            V::Time(n) => named(t, "time"@, 1) && leaf(t.args@[0], dec(n as nat)),
            V::HashEqual(h) => named(t, "hash"@, 1) && leaf(t.args@[0], hash_text(h)),
            V::Threshold(k, e, ws) => thres_written(t, k, ws@.len()) && e.written_as(t.args@[1]) && ws_written(
                ws@,
                t.args@.subrange(2, t.args@.len() as int),
            ),
            V::And(l, r) => named(t, "and_p"@, 2) && l.written_as(t.args@[0]) && r.written_as(t.args@[1]),
            V::CascadeOr(l, r) => named(t, "or_v"@, 2) && l.written_as(t.args@[0]) && r.written_as(t.args@[1]),
            V::SwitchOr(l, r) => named(t, "or_s"@, 2) && l.written_as(t.args@[0]) && r.written_as(t.args@[1]),
            V::SwitchOrT(l, r) => named(t, "or_a"@, 2) && l.written_as(t.args@[0]) && r.written_as(t.args@[1]),
        }
    }
}

impl T<PublicKey> {
    /// `t` is the expression tree in which the library writes this
    /// fragment: its text is the fragment's (see `lemma_written`).
    pub open spec fn written_as(self, t: Tree) -> bool
        decreases self,
    {
        match self {
            T::Time(n) => named(t, "time"@, 1) && leaf(t.args@[0], dec(n as nat)),
            T::HashEqual(h) => named(t, "hash"@, 1) && leaf(t.args@[0], hash_text(h)),
            T::And(l, r) => named(t, "and_p"@, 2) && l.written_as(t.args@[0]) && r.written_as(t.args@[1]),
            T::ParallelOr(l, r) => named(t, "or_p"@, 2) && l.written_as(t.args@[0]) && r.written_as(t.args@[1]),
            T::CascadeOr(l, r) => named(t, "or_c"@, 2) && l.written_as(t.args@[0]) && r.written_as(t.args@[1]),
            T::CascadeOrV(l, r) => named(t, "or_v"@, 2) && l.written_as(t.args@[0]) && r.written_as(t.args@[1]),
            T::SwitchOr(l, r) => named(t, "or_s"@, 2) && l.written_as(t.args@[0]) && r.written_as(t.args@[1]),
            T::SwitchOrV(l, r) => named(t, "or_a"@, 2) && l.written_as(t.args@[0]) && r.written_as(t.args@[1]),
            T::CastE(e) => e.written_as(t),
        }
    }
}

/// Trees each tidy from place `start` on.
pub proof fn lemma_tidy_from_all(ts: Seq<Tree>, start: int)
    requires
        0 <= start,
        forall|i: int| start <= i < ts.len() ==> #[trigger] tidy(ts[i]),
    ensures
        tidy_from(ts, start),
    decreases ts.len(),
{
    if ts.len() > 0 && ts.len() > start {
        let p = ts.subrange(0, ts.len() - 1);
        assert forall|i: int| start <= i < p.len() implies #[trigger] tidy(p[i]) by {
            assert(tidy(ts[i]));
        }
        lemma_tidy_from_all(p, start);
        assert(tidy(ts[ts.len() - 1]));
    }
}

/// A tree of one or two tidy arguments, not of a form with leaves of its
/// own, is tidy.
proof fn lemma_tidy_of_args(t: Tree)
    requires
        1 <= t.args@.len() <= 2,
        forall|i: int| 0 <= i < t.args@.len() ==> #[trigger] tidy(t.args@[i]),
        t.args@.len() == 1 ==> t.name@ != "pk"@ && t.name@ != "time"@ && t.name@ != "hash"@,
        t.name@ != "multi"@,
        t.name@ != "thres"@,
    ensures
        tidy(t),
{
    lemma_tidy_from_all(t.args@, 0);
}

/// Trees that write wrapped parts are tidy, and their text is the parts'.
pub proof fn lemma_ws_written(ws: Seq<Rc<W<PublicKey>>>, ts: Seq<Tree>)
    requires
        ws_written(ws, ts),
    ensures
        ts.len() == ws.len(),
        list_text(ts) == ws_text(ws),
        forall|i: int| 0 <= i < ts.len() ==> #[trigger] tidy(ts[i]),
    decreases ws, 0nat,
{
    if ws.len() > 0 {
        let ws2 = ws.subrange(0, ws.len() - 1);
        let ts2 = ts.subrange(0, ts.len() - 1);
        lemma_ws_written(ws2, ts2);
        let w = ws.last();
        w.lemma_written(ts.last());
        assert(ts.drop_last() =~= ts2);
        assert forall|i: int| 0 <= i < ts.len() implies #[trigger] tidy(ts[i]) by {
            if i < ts.len() - 1 {
                assert(tidy(ts2[i]));
            }
        }
    } else {
        assert(ts =~= Seq::<Tree>::empty());
    }
}

/// The trees after the second of `t`'s arguments write the wrapped parts
/// `ws`: each is tidy, and their text is the parts'.
proof fn lemma_ws_written_in(t: Tree, ws: Seq<Rc<W<PublicKey>>>)
    requires
        t.args@.len() >= 2,
        ws_written(ws, t.args@.subrange(2, t.args@.len() as int)),
    ensures
        list_text(t.args@.subrange(2, t.args@.len() as int)) == ws_text(ws),
        forall|i: int| 2 <= i < t.args@.len() ==> #[trigger] tidy(t.args@[i]),
    decreases ws, 1nat,
{
    let rest = t.args@.subrange(2, t.args@.len() as int);
    lemma_ws_written(ws, rest);
    assert forall|i: int| 2 <= i < t.args@.len() implies #[trigger] tidy(t.args@[i]) by {
        assert(tidy(rest[i - 2]));
    }
}

/// A `multi` tree that writes a threshold and keys is tidy, and its text is
/// theirs.
proof fn lemma_multi_written(t: Tree, k: usize, pks: Seq<PublicKey>)
    requires
        multi_written(t, k, pks),
    ensures
        tidy(t),
        tree_text(t) == "multi"@ + "("@ + dec(k as nat) + keys_text(pks) + ")"@,
{
    lemma_names();
    let a = t.args@;
    let rest = a.subrange(1, a.len() as int);
    assert forall|i: int| 0 <= i < rest.len() implies #[trigger] crate::expression::key_leaf(rest[i], pks[i]) by {
        assert(key_written(a[i + 1], pks[i]));
    }
    assert forall|i: int| 1 <= i < a.len() implies #[trigger] tidy_key(a[i]) by {
        assert(key_written(a[(i - 1) + 1], pks[i - 1]));
    }
    lemma_multi_printed(t, k as nat, pks);
    lemma_dec_tidy(k as nat);
}

/// A `thres` tree that writes a threshold, with an expression of text `e`
/// and wrapped parts of text `ws`, is tidy where the trees of its
/// arguments are, and its text is theirs.
proof fn lemma_thres_written(t: Tree, k: usize, e: Seq<char>, ws: Seq<char>)
    requires
        t.name@ == "thres"@,
        t.args@.len() >= 2,
        leaf(t.args@[0], dec(k as nat)),
        tidy(t.args@[1]),
        tree_text(t.args@[1]) == e,
        list_text(t.args@.subrange(2, t.args@.len() as int)) == ws,
        forall|i: int| 2 <= i < t.args@.len() ==> #[trigger] tidy(t.args@[i]),
    ensures
        tidy(t),
        tree_text(t) == "thres"@ + "("@ + dec(k as nat) + ","@ + e + ws + ")"@,
{
    lemma_names();
    lemma_thres_text(t, k as nat, e, ws);
    lemma_tidy_from_all(t.args@, 1);
    lemma_dec_tidy(k as nat);
}

impl E<PublicKey> {
    /// The tree in which the library writes this fragment is tidy, and its
    /// text is the fragment's.
    pub proof fn lemma_written(&self, t: Tree)
        requires
            self.written_as(t),
        ensures
            tidy(t),
            tree_text(t) == self.display(),
        decreases *self,
    {
        lemma_names();
        lemma_bracketed();
        lemma_text_shapes(t);
        let a = t.args@;
        match self {
            E::CheckSig(p) => {
                lemma_text_shapes(a[0]);
            },
            E::CheckMultiSig(k, pks) => {
                lemma_multi_written(t, *k, pks@);
            },
            E::Time(n) => {
                lemma_text_shapes(a[0]);
                lemma_dec_tidy(*n as nat);
            },
            E::Threshold(k, e, ws) => {
                e.lemma_written(a[1]);
                lemma_ws_written_in(t, ws@);
                lemma_thres_written(t, *k, tree_text(a[1]), ws_text(ws@));
            },
            E::ParallelAnd(l, r) => {
                l.lemma_written(a[0]);
                r.lemma_written(a[1]);
                lemma_tidy_of_args(t);
            },
            E::CascadeAnd(l, r) => {
                l.lemma_written(a[0]);
                r.lemma_written(a[1]);
                lemma_tidy_of_args(t);
            },
            E::ParallelOr(l, r) => {
                l.lemma_written(a[0]);
                r.lemma_written(a[1]);
                lemma_tidy_of_args(t);
            },
            E::CascadeOr(l, r) => {
                l.lemma_written(a[0]);
                r.lemma_written(a[1]);
                lemma_tidy_of_args(t);
            },
            E::SwitchOrLeft(l, r) => {
                l.lemma_written(a[0]);
                r.lemma_written(a[1]);
                lemma_tidy_of_args(t);
            },
            E::SwitchOrRight(l, r) => {
                l.lemma_written(a[0]);
                r.lemma_written(a[1]);
                lemma_tidy_of_args(t);
            },
            E::Likely(f) => {
                f.lemma_written(a[0]);
                lemma_tidy_of_args(t);
            },
            E::Unlikely(f) => {
                f.lemma_written(a[0]);
                lemma_tidy_of_args(t);
            },
        }
    }
}

impl W<PublicKey> {
    /// The tree in which the library writes this fragment is tidy, and its
    /// text is the fragment's.
    pub proof fn lemma_written(&self, t: Tree)
        requires
            self.written_as(t),
        ensures
            tidy(t),
            tree_text(t) == self.display(),
        decreases *self,
    {
        lemma_names();
        lemma_bracketed();
        lemma_text_shapes(t);
        match self {
            W::CastE(e) => {
                e.lemma_written(t);
            },
            W::HashEqual(h) => {
                lemma_text_shapes(t.args@[0]);
                lemma_hash_tidy(h.bytes@);
            },
            W::Time(n) => {
                lemma_text_shapes(t.args@[0]);
                lemma_dec_tidy(*n as nat);
            },
            W::CheckSig(_) => {
                lemma_text_shapes(t.args@[0]);
            },
        }
    }
}

impl F<PublicKey> {
    /// The tree in which the library writes this fragment is tidy, and its
    /// text is the fragment's.
    pub proof fn lemma_written(&self, t: Tree)
        requires
            self.written_as(t),
        ensures
            tidy(t),
            tree_text(t) == self.display(),
        decreases *self,
    {
        lemma_names();
        lemma_bracketed();
        lemma_text_shapes(t);
        let a = t.args@;
        match self {
            F::CheckSig(_) => {
                lemma_text_shapes(a[0]);
            },
            F::CheckMultiSig(k, pks) => {
                lemma_multi_written(t, *k, pks@);
            },
            F::Time(n) => {
                lemma_text_shapes(a[0]);
                lemma_dec_tidy(*n as nat);
            },
            F::HashEqual(h) => {
                lemma_text_shapes(a[0]);
                lemma_hash_tidy(h.bytes@);
            },
            F::Threshold(k, e, ws) => {
                e.lemma_written(a[1]);
                lemma_ws_written_in(t, ws@);
                lemma_thres_written(t, *k, tree_text(a[1]), ws_text(ws@));
            },
            F::And(l, r) => {
                l.lemma_written(a[0]);
                r.lemma_written(a[1]);
                lemma_tidy_of_args(t);
            },
            F::CascadeOr(l, r) => {
                l.lemma_written(a[0]);
                r.lemma_written(a[1]);
                lemma_tidy_of_args(t);
            },
            F::SwitchOr(l, r) => {
                l.lemma_written(a[0]);
                r.lemma_written(a[1]);
                lemma_tidy_of_args(t);
            },
            F::SwitchOrV(l, r) => {
                l.lemma_written(a[0]);
                r.lemma_written(a[1]);
                lemma_tidy_of_args(t);
            },
        }
    }
}

impl V<PublicKey> {
    /// The tree in which the library writes this fragment is tidy, and its
    /// text is the fragment's.
    pub proof fn lemma_written(&self, t: Tree)
        requires
            self.written_as(t),
        ensures
            tidy(t),
            tree_text(t) == self.display(),
        decreases *self,
    {
        lemma_names();
        lemma_bracketed();
        lemma_text_shapes(t);
        let a = t.args@;
        match self {
            V::CheckSig(_) => {
                lemma_text_shapes(a[0]);
            },
            V::CheckMultiSig(k, pks) => {
                lemma_multi_written(t, *k, pks@);
            },
            V::Time(n) => {
                lemma_text_shapes(a[0]);
                lemma_dec_tidy(*n as nat);
            },
            V::HashEqual(h) => {
                lemma_text_shapes(a[0]);
                lemma_hash_tidy(h.bytes@);
            },
            V::Threshold(k, e, ws) => {
                e.lemma_written(a[1]);
                lemma_ws_written_in(t, ws@);
                lemma_thres_written(t, *k, tree_text(a[1]), ws_text(ws@));
            },
            V::And(l, r) => {
                l.lemma_written(a[0]);
                r.lemma_written(a[1]);
                lemma_tidy_of_args(t);
            },
            V::CascadeOr(l, r) => {
                l.lemma_written(a[0]);
                r.lemma_written(a[1]);
                lemma_tidy_of_args(t);
            },
            V::SwitchOr(l, r) => {
                l.lemma_written(a[0]);
                r.lemma_written(a[1]);
                lemma_tidy_of_args(t);
            },
            V::SwitchOrT(l, r) => {
                l.lemma_written(a[0]);
                r.lemma_written(a[1]);
                lemma_tidy_of_args(t);
            },
        }
    }
}

impl T<PublicKey> {
    /// The tree in which the library writes this fragment is tidy, and its
    /// text is the fragment's.
    pub proof fn lemma_written(&self, t: Tree)
        requires
            self.written_as(t),
        ensures
            tidy(t),
            tree_text(t) == self.display(),
        decreases *self,
    {
        lemma_names();
        lemma_bracketed();
        lemma_text_shapes(t);
        let a = t.args@;
        match self {
            T::Time(n) => {
                lemma_text_shapes(a[0]);
                lemma_dec_tidy(*n as nat);
            },
            T::HashEqual(h) => {
                lemma_text_shapes(a[0]);
                lemma_hash_tidy(h.bytes@);
            },
            T::And(l, r) => {
                l.lemma_written(a[0]);
                r.lemma_written(a[1]);
                lemma_tidy_of_args(t);
            },
            T::ParallelOr(l, r) => {
                l.lemma_written(a[0]);
                r.lemma_written(a[1]);
                lemma_tidy_of_args(t);
            },
            T::CascadeOr(l, r) => {
                l.lemma_written(a[0]);
                r.lemma_written(a[1]);
                lemma_tidy_of_args(t);
            },
            T::CascadeOrV(l, r) => {
                l.lemma_written(a[0]);
                r.lemma_written(a[1]);
                lemma_tidy_of_args(t);
            },
            T::SwitchOr(l, r) => {
                l.lemma_written(a[0]);
                r.lemma_written(a[1]);
                lemma_tidy_of_args(t);
            },
            T::SwitchOrV(l, r) => {
                l.lemma_written(a[0]);
                r.lemma_written(a[1]);
                lemma_tidy_of_args(t);
            },
            T::CastE(e) => {
                e.lemma_written(t);
            },
        }
    }
}

impl E<PublicKey> {
    /// Printing, reading back and printing again gives the same text: a
    /// fragment read from the tree in which the library writes this one
    /// prints as this one does.
    pub proof fn lemma_reprinted(&self, t: Tree, y: &E<PublicKey>)
        requires
            self.written_as(t),
            y.denoted_by(t),
        ensures
            y.display() == self.display(),
    {
        self.lemma_written(t);
        y.lemma_printed(t);
    }
}

impl W<PublicKey> {
    /// Printing, reading back and printing again gives the same text: a
    /// fragment read from the tree in which the library writes this one
    /// prints as this one does.
    pub proof fn lemma_reprinted(&self, t: Tree, y: &W<PublicKey>)
        requires
            self.written_as(t),
            y.denoted_by(t),
        ensures
            y.display() == self.display(),
    {
        self.lemma_written(t);
        y.lemma_printed(t);
    }
}

impl F<PublicKey> {
    /// Printing, reading back and printing again gives the same text: a
    /// fragment read from the tree in which the library writes this one
    /// prints as this one does.
    pub proof fn lemma_reprinted(&self, t: Tree, y: &F<PublicKey>)
        requires
            self.written_as(t),
            y.denoted_by(t),
        ensures
            y.display() == self.display(),
    {
        self.lemma_written(t);
        y.lemma_printed(t);
    }
}

impl V<PublicKey> {
    /// Printing, reading back and printing again gives the same text: a
    /// fragment read from the tree in which the library writes this one
    /// prints as this one does.
    pub proof fn lemma_reprinted(&self, t: Tree, y: &V<PublicKey>)
        requires
            self.written_as(t),
            y.denoted_by(t),
        ensures
            y.display() == self.display(),
    {
        self.lemma_written(t);
        y.lemma_printed(t);
    }
}

impl T<PublicKey> {
    /// Printing, reading back and printing again gives the same text: a
    /// fragment read from the tree in which the library writes this one
    /// prints as this one does.
    pub proof fn lemma_reprinted(&self, t: Tree, y: &T<PublicKey>)
        requires
            self.written_as(t),
            y.denoted_by(t),
        ensures
            y.display() == self.display(),
    {
        self.lemma_written(t);
        y.lemma_printed(t);
    }
}

/// The wrapped parts each read back from their text.
pub open spec fn ws_text_reads_back(ws: Seq<Rc<W<PublicKey>>>) -> bool
    decreases ws,
{
    if ws.len() == 0 {
        true
    } else {
        ws_text_reads_back(ws.subrange(0, ws.len() - 1)) && ws.last().text_reads_back()
    }
}

/// The expressions whose text is a `W` form of its own: a key check or a
/// timelock.
pub open spec fn e_text_is_w(e: E<PublicKey>) -> bool {
    e is CheckSig || e is Time
}

/// The expressions whose text is a `T` form of its own.
pub open spec fn e_text_is_t(e: E<PublicKey>) -> bool {
    e is Time || e is ParallelAnd || e is ParallelOr || e is CascadeOr || e is SwitchOrLeft || e is SwitchOrRight
}

impl E<PublicKey> {
    /// The fragment reads back from its text: each threshold is a `u32`
    /// no higher than the count it is of, and no part cast from an
    /// expression has the text of another form of its kind.
    pub open spec fn text_reads_back(self) -> bool
        decreases self,
    {
        match self {
            E::CheckSig(_) => true,
            E::CheckMultiSig(k, pks) => k <= u32::MAX && k <= pks@.len(),
            E::Time(_) => true,
            E::Threshold(k, e, ws) => k <= u32::MAX && k <= ws@.len() + 1 && e.text_reads_back()
                && ws_text_reads_back(ws@),
            E::ParallelAnd(l, r) => l.text_reads_back() && r.text_reads_back(),
            E::CascadeAnd(l, r) => l.text_reads_back() && r.text_reads_back(),
            E::ParallelOr(l, r) => l.text_reads_back() && r.text_reads_back(),
            E::CascadeOr(l, r) => l.text_reads_back() && r.text_reads_back(),
            E::SwitchOrLeft(l, r) => l.text_reads_back() && r.text_reads_back(),
            E::SwitchOrRight(l, r) => l.text_reads_back() && r.text_reads_back(),
            E::Likely(f) => f.text_reads_back(),
            E::Unlikely(f) => f.text_reads_back(),
        }
    }
}

impl W<PublicKey> {
    /// The fragment reads back from its text: see `E::text_reads_back`.
    pub open spec fn text_reads_back(self) -> bool
        decreases self,
    {
        match self {
            W::CastE(e) => !e_text_is_w(*e) && e.text_reads_back(),
            _ => true,
        }
    }
}

impl F<PublicKey> {
    /// The fragment reads back from its text: see `E::text_reads_back`.
    pub open spec fn text_reads_back(self) -> bool
        decreases self,
    {
        match self {
            F::CheckMultiSig(k, pks) => k <= u32::MAX && k <= pks@.len(),
            F::Threshold(k, e, ws) => k <= u32::MAX && k <= ws@.len() + 1 && e.text_reads_back()
                && ws_text_reads_back(ws@),
            F::And(l, r) => l.text_reads_back() && r.text_reads_back(),
            F::CascadeOr(l, r) => l.text_reads_back() && r.text_reads_back(),
            F::SwitchOr(l, r) => l.text_reads_back() && r.text_reads_back(),
            F::SwitchOrV(l, r) => l.text_reads_back() && r.text_reads_back(),
            _ => true,
        }
    }
}

impl V<PublicKey> {
    /// The fragment reads back from its text: see `E::text_reads_back`.
    pub open spec fn text_reads_back(self) -> bool
        decreases self,
    {
        match self {
            V::CheckMultiSig(k, pks) => k <= u32::MAX && k <= pks@.len(),
            V::Threshold(k, e, ws) => k <= u32::MAX && k <= ws@.len() + 1 && e.text_reads_back()
                && ws_text_reads_back(ws@),
            V::And(l, r) => l.text_reads_back() && r.text_reads_back(),
            V::CascadeOr(l, r) => l.text_reads_back() && r.text_reads_back(),
            V::SwitchOr(l, r) => l.text_reads_back() && r.text_reads_back(),
            V::SwitchOrT(l, r) => l.text_reads_back() && r.text_reads_back(),
            _ => true,
        }
    }
}

impl T<PublicKey> {
    /// The fragment reads back from its text: see `E::text_reads_back`.
    pub open spec fn text_reads_back(self) -> bool
        decreases self,
    {
        match self {
            T::And(l, r) => l.text_reads_back() && r.text_reads_back(),
            T::ParallelOr(l, r) => l.text_reads_back() && r.text_reads_back(),
            T::CascadeOr(l, r) => l.text_reads_back() && r.text_reads_back(),
            T::CascadeOrV(l, r) => l.text_reads_back() && r.text_reads_back(),
            T::SwitchOr(l, r) => l.text_reads_back() && r.text_reads_back(),
            T::SwitchOrV(l, r) => l.text_reads_back() && r.text_reads_back(),
            T::CastE(e) => !e_text_is_t(e) && e.text_reads_back(),
            _ => true,
        }
    }
}

/// The keys that a `multi` tree writes are the keys its leaves name.
proof fn lemma_keys_read_back(t: Tree, pks: Seq<PublicKey>)
    requires
        t.args@.len() == pks.len() + 1,
        forall|i: int| 0 <= i < pks.len() ==> #[trigger] key_written(t.args@[i + 1], pks[i]),
    ensures
        keys_denoted(t.args@.subrange(1, t.args@.len() as int), pks),
{
    let rest = t.args@.subrange(1, t.args@.len() as int);
    assert forall|i: int| 0 <= i < rest.len() implies #[trigger] key_leaf(rest[i], pks[i]) by {
        assert(key_written(t.args@[i + 1], pks[i]));
    }
}

/// The trees that write wrapped parts, each of which reads back from its
/// text, name those parts.
pub proof fn lemma_ws_read_back(ws: Seq<Rc<W<PublicKey>>>, ts: Seq<Tree>)
    requires
        ws_written(ws, ts),
        ws_text_reads_back(ws),
    ensures
        ws_denoted(ws, ts),
    decreases ws,
{
    if ws.len() > 0 {
        lemma_ws_read_back(ws.subrange(0, ws.len() - 1), ts.subrange(0, ts.len() - 1));
        let w = ws.last();
        w.lemma_read_back(ts.last());
    }
}

impl E<PublicKey> {
    /// The tree in which the library writes this fragment is well formed
    /// and names it, where it reads back from its text: so `from_tree` on
    /// that tree gives it back (a tree names at most one fragment of each
    /// kind).
    pub proof fn lemma_read_back(&self, t: Tree)
        requires
            self.written_as(t),
            self.text_reads_back(),
        ensures
            tree_ok(t),
            e_ready(t),
            self.denoted_by(t),
        decreases *self,
    {
        self.lemma_written_ok(t);
        lemma_tree_ok_ready(t);
        lemma_names();
        match self {
            E::Time(n) => {
                lemma_dec_reads(*n as nat);
            },
            E::Threshold(k, e, ws) => {
                lemma_dec_reads(*k as nat);
                e.lemma_read_back(t.args@[1]);
                lemma_ws_read_back(ws@, t.args@.subrange(2, t.args@.len() as int));
            },
            E::CheckMultiSig(k, pks) => {
                lemma_dec_reads(*k as nat);
                lemma_keys_read_back(t, pks@);
            },
            E::ParallelAnd(l, r) => {
                l.lemma_read_back(t.args@[0]);
                r.lemma_read_back(t.args@[1]);
            },
            E::CascadeAnd(l, r) => {
                l.lemma_read_back(t.args@[0]);
                r.lemma_read_back(t.args@[1]);
            },
            E::ParallelOr(l, r) => {
                l.lemma_read_back(t.args@[0]);
                r.lemma_read_back(t.args@[1]);
            },
            E::CascadeOr(l, r) => {
                l.lemma_read_back(t.args@[0]);
                r.lemma_read_back(t.args@[1]);
            },
            E::SwitchOrLeft(l, r) => {
                l.lemma_read_back(t.args@[0]);
                r.lemma_read_back(t.args@[1]);
            },
            E::SwitchOrRight(l, r) => {
                l.lemma_read_back(t.args@[0]);
                r.lemma_read_back(t.args@[1]);
            },
            E::Likely(f) => {
                f.lemma_read_back(t.args@[0]);
            },
            E::Unlikely(f) => {
                f.lemma_read_back(t.args@[0]);
            },
            _ => {},
        }
    }
}

impl W<PublicKey> {
    /// The tree in which the library writes this fragment is well formed
    /// and names it, where it reads back from its text: so `from_tree` on
    /// that tree gives it back (a tree names at most one fragment of each
    /// kind).
    pub proof fn lemma_read_back(&self, t: Tree)
        requires
            self.written_as(t),
            self.text_reads_back(),
        ensures
            tree_ok(t),
            w_ready(t),
            self.denoted_by(t),
        decreases *self,
    {
        self.lemma_written_ok(t);
        lemma_tree_ok_ready(t);
        lemma_names();
        match self {
            W::Time(n) => {
                lemma_dec_reads(*n as nat);
            },
            W::HashEqual(h) => {
                lemma_hash_tidy(h.bytes@);
            },
            W::CastE(e) => {
                e.lemma_read_back(t);
            },
            _ => {},
        }
    }
}

impl F<PublicKey> {
    /// The tree in which the library writes this fragment is well formed
    /// and names it, where it reads back from its text: so `from_tree` on
    /// that tree gives it back (a tree names at most one fragment of each
    /// kind).
    pub proof fn lemma_read_back(&self, t: Tree)
        requires
            self.written_as(t),
            self.text_reads_back(),
        ensures
            tree_ok(t),
            f_ready(t),
            self.denoted_by(t),
        decreases *self,
    {
        self.lemma_written_ok(t);
        lemma_tree_ok_ready(t);
        lemma_names();
        match self {
            F::Time(n) => {
                lemma_dec_reads(*n as nat);
            },
            F::HashEqual(h) => {
                lemma_hash_tidy(h.bytes@);
            },
            F::Threshold(k, e, ws) => {
                lemma_dec_reads(*k as nat);
                e.lemma_read_back(t.args@[1]);
                lemma_ws_read_back(ws@, t.args@.subrange(2, t.args@.len() as int));
            },
            F::CheckMultiSig(k, pks) => {
                lemma_dec_reads(*k as nat);
                lemma_keys_read_back(t, pks@);
            },
            F::And(l, r) => {
                l.lemma_read_back(t.args@[0]);
                r.lemma_read_back(t.args@[1]);
            },
            F::CascadeOr(l, r) => {
                l.lemma_read_back(t.args@[0]);
                r.lemma_read_back(t.args@[1]);
            },
            F::SwitchOr(l, r) => {
                l.lemma_read_back(t.args@[0]);
                r.lemma_read_back(t.args@[1]);
            },
            F::SwitchOrV(l, r) => {
                l.lemma_read_back(t.args@[0]);
                r.lemma_read_back(t.args@[1]);
            },
            _ => {},
        }
    }
}

impl V<PublicKey> {
    /// The tree in which the library writes this fragment is well formed
    /// and names it, where it reads back from its text: so `from_tree` on
    /// that tree gives it back (a tree names at most one fragment of each
    /// kind).
    pub proof fn lemma_read_back(&self, t: Tree)
        requires
            self.written_as(t),
            self.text_reads_back(),
        ensures
            tree_ok(t),
            v_ready(t),
            self.denoted_by(t),
        decreases *self,
    {
        self.lemma_written_ok(t);
        lemma_tree_ok_ready(t);
        lemma_names();
        match self {
            V::Time(n) => {
                lemma_dec_reads(*n as nat);
            },
            V::HashEqual(h) => {
                lemma_hash_tidy(h.bytes@);
            },
            V::Threshold(k, e, ws) => {
                lemma_dec_reads(*k as nat);
                e.lemma_read_back(t.args@[1]);
                lemma_ws_read_back(ws@, t.args@.subrange(2, t.args@.len() as int));
            },
            V::CheckMultiSig(k, pks) => {
                lemma_dec_reads(*k as nat);
                lemma_keys_read_back(t, pks@);
            },
            V::And(l, r) => {
                l.lemma_read_back(t.args@[0]);
                r.lemma_read_back(t.args@[1]);
            },
            V::CascadeOr(l, r) => {
                l.lemma_read_back(t.args@[0]);
                r.lemma_read_back(t.args@[1]);
            },
            V::SwitchOr(l, r) => {
                l.lemma_read_back(t.args@[0]);
                r.lemma_read_back(t.args@[1]);
            },
            V::SwitchOrT(l, r) => {
                l.lemma_read_back(t.args@[0]);
                r.lemma_read_back(t.args@[1]);
            },
            _ => {},
        }
    }
}

impl T<PublicKey> {
    /// The tree in which the library writes this fragment is well formed
    /// and names it, where it reads back from its text: so `from_tree` on
    /// that tree gives it back (a tree names at most one fragment of each
    /// kind).
    pub proof fn lemma_read_back(&self, t: Tree)
        requires
            self.written_as(t),
            self.text_reads_back(),
        ensures
            tree_ok(t),
            t_ready(t),
            self.denoted_by(t),
        decreases *self,
    {
        self.lemma_written_ok(t);
        lemma_tree_ok_ready(t);
        lemma_names();
        match self {
            T::Time(n) => {
                lemma_dec_reads(*n as nat);
            },
            T::HashEqual(h) => {
                lemma_hash_tidy(h.bytes@);
            },
            T::And(l, r) => {
                l.lemma_read_back(t.args@[0]);
                r.lemma_read_back(t.args@[1]);
            },
            T::ParallelOr(l, r) => {
                l.lemma_read_back(t.args@[0]);
                r.lemma_read_back(t.args@[1]);
            },
            T::CascadeOr(l, r) => {
                l.lemma_read_back(t.args@[0]);
                r.lemma_read_back(t.args@[1]);
            },
            T::CascadeOrV(l, r) => {
                l.lemma_read_back(t.args@[0]);
                r.lemma_read_back(t.args@[1]);
            },
            T::SwitchOr(l, r) => {
                l.lemma_read_back(t.args@[0]);
                r.lemma_read_back(t.args@[1]);
            },
            T::SwitchOrV(l, r) => {
                l.lemma_read_back(t.args@[0]);
                r.lemma_read_back(t.args@[1]);
            },
            T::CastE(e) => {
                e.lemma_read_back(t);
            },
        }
    }
}

/// A list of trees each of which is well formed is well formed.
proof fn lemma_trees_ok_all(ts: Seq<Tree>)
    requires
        forall|i: int| 0 <= i < ts.len() ==> #[trigger] tree_ok(ts[i]),
    ensures
        trees_ok(ts),
    decreases ts.len(),
{
    if ts.len() > 0 {
        let p = ts.subrange(0, ts.len() - 1);
        assert forall|i: int| 0 <= i < p.len() implies #[trigger] tree_ok(p[i]) by {
            assert(p[i] == ts[i]);
        }
        lemma_trees_ok_all(p);
        assert(tree_ok(ts[ts.len() - 1]));
    }
}

/// A tree whose arguments are well formed is, unless it is a `multi` or a
/// `thres` with no argument.
proof fn lemma_args_ok(t: Tree)
    requires
        forall|i: int| 0 <= i < t.args@.len() ==> #[trigger] tree_ok(t.args@[i]),
        (t.name@ == "multi"@ || t.name@ == "thres"@) ==> t.args@.len() >= 1,
    ensures
        tree_ok(t),
{
    lemma_trees_ok_all(t.args@);
}

/// A leaf that writes a number is well formed: its name is digits.
proof fn lemma_dec_leaf_ok(t: Tree, n: nat)
    requires
        leaf(t, dec(n)),
    ensures
        tree_ok(t),
{
    lemma_names();
    lemma_dec_reads(n);
    assert(is_digit(dec(n)[0]));
    assert(trees_ok(t.args@));
}

/// A leaf that writes at least three bytes in hex (a key or a hash) is
/// well formed: its name is longer than any name of the language.
proof fn lemma_hex_leaf_ok(t: Tree, b: Seq<u8>)
    requires
        leaf(t, hex(b)),
        b.len() >= 3,
    ensures
        tree_ok(t),
{
    lemma_names();
    lemma_hex_reads(b);
    assert(trees_ok(t.args@));
}

/// The trees that write wrapped parts are well formed.
proof fn lemma_ws_written_ok(ws: Seq<Rc<W<PublicKey>>>, ts: Seq<Tree>)
    requires
        ws_written(ws, ts),
    ensures
        forall|i: int| 0 <= i < ts.len() ==> #[trigger] tree_ok(ts[i]),
    decreases ws,
{
    if ws.len() > 0 {
        let p = ts.subrange(0, ts.len() - 1);
        lemma_ws_written_ok(ws.subrange(0, ws.len() - 1), p);
        ws.last().lemma_written_ok(ts.last());
        assert forall|i: int| 0 <= i < ts.len() implies #[trigger] tree_ok(ts[i]) by {
            if i < ts.len() - 1 {
                assert(p[i] == ts[i]);
            }
        }
    }
}

impl E<PublicKey> {
    /// The tree in which the library writes this fragment is well formed:
    /// `from_tree` takes it.
    pub proof fn lemma_written_ok(&self, t: Tree)
        requires
            self.written_as(t),
        ensures
            tree_ok(t),
        decreases *self,
    {
        lemma_names();
        match self {
            E::CheckSig(p) => {
                lemma_hex_leaf_ok(t.args@[0], p.bytes@);
                lemma_args_ok(t);
            },
            E::CheckMultiSig(k, pks) => {
                assert forall|i: int| 0 <= i < t.args@.len() implies #[trigger] tree_ok(t.args@[i]) by {
                    if i == 0 {
                        lemma_dec_leaf_ok(t.args@[0], *k as nat);
                    } else {
                        assert(key_written(t.args@[(i - 1) + 1], pks@[i - 1]));
                        lemma_hex_leaf_ok(t.args@[i], pks@[i - 1].bytes@);
                    }
                }
                lemma_args_ok(t);
            },
            E::Time(n) => {
                lemma_dec_leaf_ok(t.args@[0], *n as nat);
                lemma_args_ok(t);
            },
            E::Threshold(k, e, ws) => {
                let ts = t.args@.subrange(2, t.args@.len() as int);
                lemma_ws_written_ok(ws@, ts);
                e.lemma_written_ok(t.args@[1]);
                assert forall|i: int| 0 <= i < t.args@.len() implies #[trigger] tree_ok(t.args@[i]) by {
                    if i == 0 {
                        lemma_dec_leaf_ok(t.args@[0], *k as nat);
                    } else if i >= 2 {
                        assert(ts[i - 2] == t.args@[i]);
                    }
                }
                lemma_args_ok(t);
            },
            E::ParallelAnd(l, r) => {
                l.lemma_written_ok(t.args@[0]);
                r.lemma_written_ok(t.args@[1]);
                lemma_args_ok(t);
            },
            E::CascadeAnd(l, r) => {
                l.lemma_written_ok(t.args@[0]);
                r.lemma_written_ok(t.args@[1]);
                lemma_args_ok(t);
            },
            E::ParallelOr(l, r) => {
                l.lemma_written_ok(t.args@[0]);
                r.lemma_written_ok(t.args@[1]);
                lemma_args_ok(t);
            },
            E::CascadeOr(l, r) => {
                l.lemma_written_ok(t.args@[0]);
                r.lemma_written_ok(t.args@[1]);
                lemma_args_ok(t);
            },
            E::SwitchOrLeft(l, r) => {
                l.lemma_written_ok(t.args@[0]);
                r.lemma_written_ok(t.args@[1]);
                lemma_args_ok(t);
            },
            E::SwitchOrRight(l, r) => {
                l.lemma_written_ok(t.args@[0]);
                r.lemma_written_ok(t.args@[1]);
                lemma_args_ok(t);
            },
            E::Likely(x) => {
                x.lemma_written_ok(t.args@[0]);
                lemma_args_ok(t);
            },
            E::Unlikely(x) => {
                x.lemma_written_ok(t.args@[0]);
                lemma_args_ok(t);
            },
        }
    }
}

impl W<PublicKey> {
    /// The tree in which the library writes this fragment is well formed:
    /// `from_tree` takes it.
    pub proof fn lemma_written_ok(&self, t: Tree)
        requires
            self.written_as(t),
        ensures
            tree_ok(t),
        decreases *self,
    {
        lemma_names();
        match self {
            W::CheckSig(p) => {
                lemma_hex_leaf_ok(t.args@[0], p.bytes@);
                lemma_args_ok(t);
            },
            W::HashEqual(h) => {
                lemma_hex_leaf_ok(t.args@[0], h.bytes@.reverse());
                lemma_args_ok(t);
            },
            W::Time(n) => {
                lemma_dec_leaf_ok(t.args@[0], *n as nat);
                lemma_args_ok(t);
            },
            W::CastE(x) => {
                x.lemma_written_ok(t);
            },
        }
    }
}

impl F<PublicKey> {
    /// The tree in which the library writes this fragment is well formed:
    /// `from_tree` takes it.
    pub proof fn lemma_written_ok(&self, t: Tree)
        requires
            self.written_as(t),
        ensures
            tree_ok(t),
        decreases *self,
    {
        lemma_names();
        match self {
            F::CheckSig(p) => {
                lemma_hex_leaf_ok(t.args@[0], p.bytes@);
                lemma_args_ok(t);
            },
            F::CheckMultiSig(k, pks) => {
                assert forall|i: int| 0 <= i < t.args@.len() implies #[trigger] tree_ok(t.args@[i]) by {
                    if i == 0 {
                        lemma_dec_leaf_ok(t.args@[0], *k as nat);
                    } else {
                        assert(key_written(t.args@[(i - 1) + 1], pks@[i - 1]));
                        lemma_hex_leaf_ok(t.args@[i], pks@[i - 1].bytes@);
                    }
                }
                lemma_args_ok(t);
            },
            F::Time(n) => {
                lemma_dec_leaf_ok(t.args@[0], *n as nat);
                lemma_args_ok(t);
            },
            F::HashEqual(h) => {
                lemma_hex_leaf_ok(t.args@[0], h.bytes@.reverse());
                lemma_args_ok(t);
            },
            F::Threshold(k, e, ws) => {
                let ts = t.args@.subrange(2, t.args@.len() as int);
                lemma_ws_written_ok(ws@, ts);
                e.lemma_written_ok(t.args@[1]);
                assert forall|i: int| 0 <= i < t.args@.len() implies #[trigger] tree_ok(t.args@[i]) by {
                    if i == 0 {
                        lemma_dec_leaf_ok(t.args@[0], *k as nat);
                    } else if i >= 2 {
                        assert(ts[i - 2] == t.args@[i]);
                    }
                }
                lemma_args_ok(t);
            },
            F::And(l, r) => {
                l.lemma_written_ok(t.args@[0]);
                r.lemma_written_ok(t.args@[1]);
                lemma_args_ok(t);
            },
            F::CascadeOr(l, r) => {
                l.lemma_written_ok(t.args@[0]);
                r.lemma_written_ok(t.args@[1]);
                lemma_args_ok(t);
            },
            F::SwitchOr(l, r) => {
                l.lemma_written_ok(t.args@[0]);
                r.lemma_written_ok(t.args@[1]);
                lemma_args_ok(t);
            },
            F::SwitchOrV(l, r) => {
                l.lemma_written_ok(t.args@[0]);
                r.lemma_written_ok(t.args@[1]);
                lemma_args_ok(t);
            },
        }
    }
}

impl V<PublicKey> {
    /// The tree in which the library writes this fragment is well formed:
    /// `from_tree` takes it.
    pub proof fn lemma_written_ok(&self, t: Tree)
        requires
            self.written_as(t),
        ensures
            tree_ok(t),
        decreases *self,
    {
        lemma_names();
        match self {
            V::CheckSig(p) => {
                lemma_hex_leaf_ok(t.args@[0], p.bytes@);
                lemma_args_ok(t);
            },
            V::CheckMultiSig(k, pks) => {
                assert forall|i: int| 0 <= i < t.args@.len() implies #[trigger] tree_ok(t.args@[i]) by {
                    if i == 0 {
                        lemma_dec_leaf_ok(t.args@[0], *k as nat);
                    } else {
                        assert(key_written(t.args@[(i - 1) + 1], pks@[i - 1]));
                        lemma_hex_leaf_ok(t.args@[i], pks@[i - 1].bytes@);
                    }
                }
                lemma_args_ok(t);
            },
            V::Time(n) => {
                lemma_dec_leaf_ok(t.args@[0], *n as nat);
                lemma_args_ok(t);
            },
            V::HashEqual(h) => {
                lemma_hex_leaf_ok(t.args@[0], h.bytes@.reverse());
                lemma_args_ok(t);
            },
            V::Threshold(k, e, ws) => {
                let ts = t.args@.subrange(2, t.args@.len() as int);
                lemma_ws_written_ok(ws@, ts);
                e.lemma_written_ok(t.args@[1]);
                assert forall|i: int| 0 <= i < t.args@.len() implies #[trigger] tree_ok(t.args@[i]) by {
                    if i == 0 {
                        lemma_dec_leaf_ok(t.args@[0], *k as nat);
                    } else if i >= 2 {
                        assert(ts[i - 2] == t.args@[i]);
                    }
                }
                lemma_args_ok(t);
            },
            V::And(l, r) => {
                l.lemma_written_ok(t.args@[0]);
                r.lemma_written_ok(t.args@[1]);
                lemma_args_ok(t);
            },
            V::CascadeOr(l, r) => {
                l.lemma_written_ok(t.args@[0]);
                r.lemma_written_ok(t.args@[1]);
                lemma_args_ok(t);
            },
            V::SwitchOr(l, r) => {
                l.lemma_written_ok(t.args@[0]);
                r.lemma_written_ok(t.args@[1]);
                lemma_args_ok(t);
            },
            V::SwitchOrT(l, r) => {
                l.lemma_written_ok(t.args@[0]);
                r.lemma_written_ok(t.args@[1]);
                lemma_args_ok(t);
            },
        }
    }
}

impl T<PublicKey> {
    /// The tree in which the library writes this fragment is well formed:
    /// `from_tree` takes it.
    pub proof fn lemma_written_ok(&self, t: Tree)
        requires
            self.written_as(t),
        ensures
            tree_ok(t),
        decreases *self,
    {
        lemma_names();
        match self {
            T::CastE(x) => {
                x.lemma_written_ok(t);
            },
            T::Time(n) => {
                lemma_dec_leaf_ok(t.args@[0], *n as nat);
                lemma_args_ok(t);
            },
            T::HashEqual(h) => {
                lemma_hex_leaf_ok(t.args@[0], h.bytes@.reverse());
                lemma_args_ok(t);
            },
            T::And(l, r) => {
                l.lemma_written_ok(t.args@[0]);
                r.lemma_written_ok(t.args@[1]);
                lemma_args_ok(t);
            },
            T::ParallelOr(l, r) => {
                l.lemma_written_ok(t.args@[0]);
                r.lemma_written_ok(t.args@[1]);
                lemma_args_ok(t);
            },
            T::CascadeOr(l, r) => {
                l.lemma_written_ok(t.args@[0]);
                r.lemma_written_ok(t.args@[1]);
                lemma_args_ok(t);
            },
            T::CascadeOrV(l, r) => {
                l.lemma_written_ok(t.args@[0]);
                r.lemma_written_ok(t.args@[1]);
                lemma_args_ok(t);
            },
            T::SwitchOr(l, r) => {
                l.lemma_written_ok(t.args@[0]);
                r.lemma_written_ok(t.args@[1]);
                lemma_args_ok(t);
            },
            T::SwitchOrV(l, r) => {
                l.lemma_written_ok(t.args@[0]);
                r.lemma_written_ok(t.args@[1]);
                lemma_args_ok(t);
            },
        }
    }
}

/// Wrapped parts that are the same print the same text.
pub proof fn lemma_ws_same_display(a: Seq<Rc<W<PublicKey>>>, b: Seq<Rc<W<PublicKey>>>)
    requires
        ws_same(a, b),
    ensures
        ws_text(a) == ws_text(b),
    decreases a,
{
    if a.len() > 0 {
        lemma_ws_same_display(a.subrange(0, a.len() - 1), b.subrange(0, b.len() - 1));
        let w = a.last();
        let w2 = b.last();
        w.lemma_same_display(&w2);
    }
}

impl E<PublicKey> {
    /// Fragments that are the same print the same text.
    pub proof fn lemma_same_display(&self, o: &Self)
        requires
            self.same(*o),
        ensures
            self.display() == o.display(),
        decreases *self,
    {
        match (self, o) {
            (E::Threshold(_, e, ws), E::Threshold(_, e2, ws2)) => {
                e.lemma_same_display(e2);
                lemma_ws_same_display(ws@, ws2@);
            },
            (E::ParallelAnd(l, r), E::ParallelAnd(l2, r2)) => {
                l.lemma_same_display(l2);
                r.lemma_same_display(r2);
            },
            (E::CascadeAnd(l, r), E::CascadeAnd(l2, r2)) => {
                l.lemma_same_display(l2);
                r.lemma_same_display(r2);
            },
            (E::ParallelOr(l, r), E::ParallelOr(l2, r2)) => {
                l.lemma_same_display(l2);
                r.lemma_same_display(r2);
            },
            (E::CascadeOr(l, r), E::CascadeOr(l2, r2)) => {
                l.lemma_same_display(l2);
                r.lemma_same_display(r2);
            },
            (E::SwitchOrLeft(l, r), E::SwitchOrLeft(l2, r2)) => {
                l.lemma_same_display(l2);
                r.lemma_same_display(r2);
            },
            (E::SwitchOrRight(l, r), E::SwitchOrRight(l2, r2)) => {
                l.lemma_same_display(l2);
                r.lemma_same_display(r2);
            },
            (E::Likely(f), E::Likely(f2)) => {
                f.lemma_same_display(f2);
            },
            (E::Unlikely(f), E::Unlikely(f2)) => {
                f.lemma_same_display(f2);
            },
            _ => {},
        }
    }
}

impl W<PublicKey> {
    /// Fragments that are the same print the same text.
    pub proof fn lemma_same_display(&self, o: &Self)
        requires
            self.same(*o),
        ensures
            self.display() == o.display(),
        decreases *self,
    {
        match (self, o) {
            (W::CastE(e), W::CastE(e2)) => {
                e.lemma_same_display(e2);
            },
            _ => {},
        }
    }
}

impl F<PublicKey> {
    /// Fragments that are the same print the same text.
    pub proof fn lemma_same_display(&self, o: &Self)
        requires
            self.same(*o),
        ensures
            self.display() == o.display(),
        decreases *self,
    {
        match (self, o) {
            (F::Threshold(_, e, ws), F::Threshold(_, e2, ws2)) => {
                e.lemma_same_display(e2);
                lemma_ws_same_display(ws@, ws2@);
            },
            (F::And(l, r), F::And(l2, r2)) => {
                l.lemma_same_display(l2);
                r.lemma_same_display(r2);
            },
            (F::CascadeOr(l, r), F::CascadeOr(l2, r2)) => {
                l.lemma_same_display(l2);
                r.lemma_same_display(r2);
            },
            (F::SwitchOr(l, r), F::SwitchOr(l2, r2)) => {
                l.lemma_same_display(l2);
                r.lemma_same_display(r2);
            },
            (F::SwitchOrV(l, r), F::SwitchOrV(l2, r2)) => {
                l.lemma_same_display(l2);
                r.lemma_same_display(r2);
            },
            _ => {},
        }
    }
}

impl V<PublicKey> {
    /// Fragments that are the same print the same text.
    pub proof fn lemma_same_display(&self, o: &Self)
        requires
            self.same(*o),
        ensures
            self.display() == o.display(),
        decreases *self,
    {
        match (self, o) {
            (V::Threshold(_, e, ws), V::Threshold(_, e2, ws2)) => {
                e.lemma_same_display(e2);
                lemma_ws_same_display(ws@, ws2@);
            },
            (V::And(l, r), V::And(l2, r2)) => {
                l.lemma_same_display(l2);
                r.lemma_same_display(r2);
            },
            (V::CascadeOr(l, r), V::CascadeOr(l2, r2)) => {
                l.lemma_same_display(l2);
                r.lemma_same_display(r2);
            },
            (V::SwitchOr(l, r), V::SwitchOr(l2, r2)) => {
                l.lemma_same_display(l2);
                r.lemma_same_display(r2);
            },
            (V::SwitchOrT(l, r), V::SwitchOrT(l2, r2)) => {
                l.lemma_same_display(l2);
                r.lemma_same_display(r2);
            },
            _ => {},
        }
    }
}

impl T<PublicKey> {
    /// Fragments that are the same print the same text.
    pub proof fn lemma_same_display(&self, o: &Self)
        requires
            self.same(*o),
        ensures
            self.display() == o.display(),
        decreases *self,
    {
        match (self, o) {
            (T::And(l, r), T::And(l2, r2)) => {
                l.lemma_same_display(l2);
                r.lemma_same_display(r2);
            },
            (T::ParallelOr(l, r), T::ParallelOr(l2, r2)) => {
                l.lemma_same_display(l2);
                r.lemma_same_display(r2);
            },
            (T::CascadeOr(l, r), T::CascadeOr(l2, r2)) => {
                l.lemma_same_display(l2);
                r.lemma_same_display(r2);
            },
            (T::CascadeOrV(l, r), T::CascadeOrV(l2, r2)) => {
                l.lemma_same_display(l2);
                r.lemma_same_display(r2);
            },
            (T::SwitchOr(l, r), T::SwitchOr(l2, r2)) => {
                l.lemma_same_display(l2);
                r.lemma_same_display(r2);
            },
            (T::SwitchOrV(l, r), T::SwitchOrV(l2, r2)) => {
                l.lemma_same_display(l2);
                r.lemma_same_display(r2);
            },
            (T::CastE(e), T::CastE(e2)) => {
                e.lemma_same_display(e2);
            },
            _ => {},
        }
    }
}

} // verus!
