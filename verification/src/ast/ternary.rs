//! Balanced ternary encoding of integers, least significant trit first.
use vstd::prelude::*;
use vstd::arithmetic::div_mod::*;
use super::{Trit, trit_value};

verus! {

/// The integer a trit sequence denotes (least significant trit first).
pub open spec fn trits_value(ts: Seq<Trit>) -> int
    decreases ts.len(),
{
    if ts.len() == 0 {
        0
    } else {
        trit_value(ts[0]) + 3 * trits_value(ts.drop_first())
    }
}

pub open spec fn pow3(i: nat) -> int
    decreases i,
{
    if i == 0 { 1 } else { 3 * pow3((i - 1) as nat) }
}

/// The digits of a natural number in balanced ternary, with no
/// trailing zero.
pub open spec fn nat_trits(m: nat) -> Seq<Trit>
    decreases m,
{
    if m == 0 {
        seq![]
    } else if m % 3 == 0 {
        seq![Trit::Zero] + nat_trits(m / 3)
    } else if m % 3 == 1 {
        seq![Trit::Pos] + nat_trits(((m - 1) as nat) / 3)
    } else {
        seq![Trit::Neg] + nat_trits((m + 1) / 3)
    }
}

pub open spec fn negate_trit(t: Trit) -> Trit {
    match t {
        Trit::Neg => Trit::Pos,
        Trit::Zero => Trit::Zero,
        Trit::Pos => Trit::Neg,
    }
}

/// Every digit negated.
pub open spec fn flip(ts: Seq<Trit>) -> Seq<Trit> {
    ts.map_values(|t: Trit| negate_trit(t))
}

/// The encoding of `n`: `[Zero]` for zero, otherwise the shortest balanced
/// ternary digit sequence of `n`.
pub open spec fn spec_encode(n: int) -> Seq<Trit> {
    if n == 0 {
        seq![Trit::Zero]
    } else if n > 0 {
        nat_trits(n as nat)
    } else {
        flip(nat_trits((-n) as nat))
    }
}

/// A digit sequence in the form the encoder produces: `[Zero]`, or non-empty
/// with a non-zero most significant trit.
pub open spec fn canonical(ts: Seq<Trit>) -> bool {
    ts == seq![Trit::Zero] || (ts.len() > 0 && ts.last() != Trit::Zero)
}

proof fn lemma_nat_trits_value(m: nat)
    ensures
        trits_value(nat_trits(m)) == m,
        m > 0 ==> nat_trits(m).len() > 0 && nat_trits(m).last() != Trit::Zero,
    decreases m,
{
    if m > 0 {
        let s = nat_trits(m);
        let (t, k) = if m % 3 == 0 {
            (Trit::Zero, m / 3)
        } else if m % 3 == 1 {
            (Trit::Pos, ((m - 1) as nat) / 3)
        } else {
            (Trit::Neg, (m + 1) / 3)
        };
        lemma_nat_trits_value(k);
        assert(s == seq![t] + nat_trits(k));
        assert(s.drop_first() == nat_trits(k));
        assert(m == trit_value(t) + 3 * k);
        if k == 0 {
            assert(t != Trit::Zero);
        }
    }
}

proof fn lemma_flip_value(ts: Seq<Trit>)
    ensures
        trits_value(flip(ts)) == -trits_value(ts),
        flip(ts).len() == ts.len(),
    decreases ts.len(),
{
    if ts.len() > 0 {
        lemma_flip_value(ts.drop_first());
        assert(flip(ts).drop_first() == flip(ts.drop_first()));
    }
}

proof fn lemma_flip_flip(ts: Seq<Trit>)
    ensures
        flip(flip(ts)) == ts,
{
    assert(flip(flip(ts)) =~= ts);
}

/// Decoding the encoding of an integer gives it back.
pub proof fn lemma_encode_decode(n: int)
    ensures
        trits_value(spec_encode(n)) == n,
        canonical(spec_encode(n)),
{
    if n > 0 {
        lemma_nat_trits_value(n as nat);
    } else if n < 0 {
        lemma_nat_trits_value((-n) as nat);
        lemma_flip_value(nat_trits((-n) as nat));
        let s = nat_trits((-n) as nat);
        assert(flip(s).last() == negate_trit(s.last()));
    } else {
        assert(spec_encode(n).drop_first() =~= Seq::<Trit>::empty());
        assert(trits_value(Seq::<Trit>::empty()) == 0);
    }
}

/// A canonical digit sequence of a positive value is the digit sequence
/// the encoder produces for it.
proof fn lemma_nat_trits_unique(ts: Seq<Trit>)
    requires
        ts.len() > 0,
        ts.last() != Trit::Zero,
        trits_value(ts) > 0,
    ensures
        nat_trits(trits_value(ts) as nat) == ts,
    decreases ts.len(),
{
    let m = trits_value(ts) as nat;
    let rest = ts.drop_first();
    let r = trits_value(rest);
    let t = ts[0];
    assert(m == trit_value(t) + 3 * r);
    if rest.len() == 0 {
        assert(r == 0);
        assert(t != Trit::Zero);
        let k: nat = 0;
        if t == Trit::Pos {
            assert(m == 1);
            assert(nat_trits(0) == Seq::<Trit>::empty());
            assert(nat_trits(m) == seq![Trit::Pos] + nat_trits(0));
        } else {
            assert(false);
        }
        assert(ts =~= seq![t]);
    } else {
        assert(rest.last() == ts.last());
        // the remaining digits denote a positive number
        if r <= 0 {
            lemma_zero_value_has_zero_last(rest);
            assert(false);
        }
        lemma_nat_trits_unique(rest);
        if t == Trit::Zero {
            lemma_fundamental_div_mod_converse(m as int, 3, r, 0);
            assert(nat_trits(m) == seq![Trit::Zero] + nat_trits(m / 3));
        } else if t == Trit::Pos {
            lemma_fundamental_div_mod_converse(m as int, 3, r, 1);
            assert(nat_trits(m) == seq![Trit::Pos] + nat_trits(((m - 1) as nat) / 3));
        } else {
            lemma_fundamental_div_mod_converse(m as int, 3, r - 1, 2);
            assert(nat_trits(m) == seq![Trit::Neg] + nat_trits((m + 1) / 3));
        }
        assert(ts =~= seq![t] + rest);
    }
}

/// A non-empty digit sequence with a non-zero last trit denotes a value
/// whose sign is that of its last trit; in particular it is not positive
/// only when that trit is `Neg`.
proof fn lemma_zero_value_has_zero_last(ts: Seq<Trit>)
    requires
        ts.len() > 0,
        ts.last() != Trit::Zero,
    ensures
        ts.last() == Trit::Pos ==> trits_value(ts) > 0,
        ts.last() == Trit::Neg ==> trits_value(ts) < 0,
    decreases ts.len(),
{
    let rest = ts.drop_first();
    assert(trits_value(ts) == trit_value(ts[0]) + 3 * trits_value(rest));
    if rest.len() > 0 {
        assert(rest.last() == ts.last());
        lemma_zero_value_has_zero_last(rest);
    } else {
        assert(trits_value(rest) == 0);
        assert(ts[0] == ts.last());
    }
}

/// Encoding the value of a canonical digit sequence gives the sequence back.
pub proof fn lemma_decode_encode(ts: Seq<Trit>)
    requires
        canonical(ts),
    ensures
        spec_encode(trits_value(ts)) == ts,
{
    if ts == seq![Trit::Zero] {
        assert(ts.drop_first() =~= Seq::<Trit>::empty());
        assert(trits_value(ts.drop_first()) == 0);
        assert(trits_value(ts) == 0);
    } else {
        lemma_zero_value_has_zero_last(ts);
        if ts.last() == Trit::Pos {
            lemma_nat_trits_unique(ts);
        } else {
            let f = flip(ts);
            lemma_flip_value(ts);
            assert(f.last() == Trit::Pos);
            lemma_zero_value_has_zero_last(f);
            lemma_nat_trits_unique(f);
            lemma_flip_flip(ts);
        }
    }
}

proof fn lemma_split_value(s: Seq<Trit>, i: nat)
    requires
        i <= s.len(),
    ensures
        trits_value(s) == trits_value(s.take(i as int)) + pow3(i) * trits_value(s.skip(i as int)),
    decreases i,
{
    if i == 0 {
        assert(s.take(0) =~= Seq::<Trit>::empty());
        assert(s.skip(0) =~= s);
    } else {
        let s1 = s.drop_first();
        lemma_split_value(s1, (i - 1) as nat);
        assert(s.take(i as int).drop_first() =~= s1.take(i - 1));
        assert(s.skip(i as int) =~= s1.skip(i - 1));
        let a = trits_value(s1.take(i - 1));
        let b = trits_value(s1.skip(i - 1));
        let p = pow3((i - 1) as nat);
        assert(3 * (a + p * b) == 3 * a + (3 * p) * b) by (nonlinear_arith);
    }
}

proof fn lemma_value_bound(s: Seq<Trit>)
    ensures
        -pow3(s.len()) < 2 * trits_value(s) < pow3(s.len()),
    decreases s.len(),
{
    if s.len() > 0 {
        lemma_value_bound(s.drop_first());
    }
}

proof fn lemma_suffix_bound(s: Seq<Trit>, i: nat)
    requires
        i <= s.len(),
    ensures
        abs_int(trits_value(s.skip(i as int))) <= abs_int(trits_value(s)),
{
    lemma_split_value(s, i);
    lemma_value_bound(s.take(i as int));
    lemma_pow3_pos(i);
    let t = trits_value(s);
    let a = trits_value(s.take(i as int));
    let u = trits_value(s.skip(i as int));
    let p = pow3(i);
    assert(abs_int(u) <= abs_int(t)) by (nonlinear_arith)
        requires
            t == a + p * u,
            -p < 2 * a < p,
            p >= 1,
    {
        if abs_int(u) > abs_int(t) {
            if u > 0 {
                assert(p * u >= p * (abs_int(t) + 1));
            } else {
                assert(p * (-u) >= p * (abs_int(t) + 1));
            }
        }
    }
}

pub open spec fn abs_int(x: int) -> int {
    if x < 0 { -x } else { x }
}

proof fn lemma_pow3_pos(i: nat)
    ensures
        pow3(i) >= 1,
    decreases i,
{
    if i > 0 {
        lemma_pow3_pos((i - 1) as nat);
    }
}

/// Encodes an integer as balanced ternary trits, least significant first.
pub fn encode_int(n: i64) -> (r: Vec<Trit>)
    ensures
        r@ == spec_encode(n as int),
{
    if n == 0 {
        return vec![Trit::Zero];
    }
    let neg = n < 0;
    let mut m: u64 = if neg { (-(n as i128)) as u64 } else { n as u64 };
    let ghost total: nat = m as nat;
    let mut out: Vec<Trit> = Vec::new();
    while m != 0
        invariant
            out@ + nat_trits(m as nat) == nat_trits(total),
        decreases m,
    {
        let r = m % 3;
        let ghost before = out@;
        let ghost old_m = m;
        let t = if r == 0 {
            m = m / 3;
            Trit::Zero
        } else if r == 1 {
            m = (m - 1) / 3;
            Trit::Pos
        } else {
            m = (m + 1) / 3;
            Trit::Neg
        };
        out.push(t);
        proof {
            assert(nat_trits(old_m as nat) == seq![t] + nat_trits(m as nat));
            assert(out@ + nat_trits(m as nat) =~= before + (seq![t] + nat_trits(m as nat)));
        }
    }
    assert(out@ =~= nat_trits(total));
    if neg {
        let mut flipped: Vec<Trit> = Vec::new();
        let mut i: usize = 0;
        while i < out.len()
            invariant
                0 <= i <= out.len(),
                flipped@ =~= flip(out@.take(i as int)),
            decreases out.len() - i,
        {
            let t = match out[i] {
                Trit::Neg => Trit::Pos,
                Trit::Zero => Trit::Zero,
                Trit::Pos => Trit::Neg,
            };
            flipped.push(t);
            assert(out@.take(i + 1) =~= out@.take(i as int).push(out@[i as int]));
            i = i + 1;
        }
        assert(out@.take(out.len() as int) =~= out@);
        flipped
    } else {
        out
    }
}

/// Decodes balanced ternary trits (least significant first) into the
/// integer they denote, which must fit in an `i64`.
pub fn decode_int(trits: &[Trit]) -> (r: i64)
    requires
        i64::MIN <= trits_value(trits@) <= i64::MAX,
    ensures
        r == trits_value(trits@),
{
    let mut acc: i128 = 0;
    let mut i: usize = trits.len();
    assert(trits@.skip(trits.len() as int) =~= Seq::<Trit>::empty());
    while i > 0
        invariant
            i <= trits.len(),
            acc == trits_value(trits@.skip(i as int)),
            i64::MIN <= trits_value(trits@) <= i64::MAX,
        decreases i,
    {
        proof {
            lemma_suffix_bound(trits@, i as nat);
            lemma_suffix_bound(trits@, (i - 1) as nat);
            assert(trits@.skip(i - 1).drop_first() =~= trits@.skip(i as int));
            assert(trits@.skip(i - 1)[0] == trits@[i - 1]);
        }
        i = i - 1;
        let v = trits[i].value();
        acc = acc * 3 + (v as i128);
    }
    assert(trits@.skip(0) =~= trits@);
    acc as i64
}

} // verus!
