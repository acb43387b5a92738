//! How many distinct boards there can be: a bound that makes the search end.

use vstd::arithmetic::div_mod::lemma_fundamental_div_mod_converse;
use vstd::prelude::*;
use vstd::set_lib::{lemma_int_range, lemma_len_subset, set_int_range};

verus! {

/// `b` to the power `e`.
pub open spec fn power(b: nat, e: nat) -> nat
    decreases e,
{
    if e == 0 {
        1
    } else {
        b * power(b, (e - 1) as nat)
    }
}

/// Every value of `s` is below `base`.
pub open spec fn digits_below(s: Seq<u8>, base: nat) -> bool {
    forall|i: int| 0 <= i < s.len() ==> (#[trigger] s[i] as nat) < base
}

/// `s` read as a number in base `base`, least significant digit first.
pub open spec fn encode(s: Seq<u8>, base: nat) -> nat
    decreases s.len(),
{
    if s.len() == 0 {
        0
    } else {
        s[0] as nat + base * encode(s.drop_first(), base)
    }
}

proof fn lemma_encode_bound(s: Seq<u8>, base: nat)
    requires
        digits_below(s, base),
    ensures
        encode(s, base) < power(base, s.len()),
    decreases s.len(),
{
    if s.len() > 0 {
        let rest = s.drop_first();
        assert(digits_below(rest, base)) by {
            assert forall|i: int| 0 <= i < rest.len() implies (#[trigger] rest[i] as nat) < base by {
                assert(rest[i] == s[i + 1]);
            }
        }
        lemma_encode_bound(rest, base);
        let e = encode(rest, base);
        let p = power(base, rest.len());
        let d = s[0] as nat;
        assert(d < base);
        assert(d + base * e < base * p) by (nonlinear_arith)
            requires
                d < base,
                e < p,
                e + 1 <= p,
        ;
    }
}

proof fn lemma_encode_injective(s: Seq<u8>, t: Seq<u8>, base: nat)
    requires
        s.len() == t.len(),
        digits_below(s, base),
        digits_below(t, base),
        encode(s, base) == encode(t, base),
    ensures
        s == t,
    decreases s.len(),
{
    if s.len() > 0 {
        let (rs, rt) = (s.drop_first(), t.drop_first());
        let x = encode(s, base) as int;
        assert(s[0] < base);
        assert(t[0] < base);
        assert(encode(rt, base) * base == base * encode(rt, base)) by (nonlinear_arith);
        assert(encode(rs, base) * base == base * encode(rs, base)) by (nonlinear_arith);
        lemma_fundamental_div_mod_converse(x, base as int, encode(rs, base) as int, s[0] as int);
        lemma_fundamental_div_mod_converse(x, base as int, encode(rt, base) as int, t[0] as int);
        assert(digits_below(rs, base)) by {
            assert forall|i: int| 0 <= i < rs.len() implies (#[trigger] rs[i] as nat) < base by {
                assert(rs[i] == s[i + 1]);
            }
        }
        assert(digits_below(rt, base)) by {
            assert forall|i: int| 0 <= i < rt.len() implies (#[trigger] rt[i] as nat) < base by {
                assert(rt[i] == t[i + 1]);
            }
        }
        lemma_encode_injective(rs, rt, base);
        assert(s =~= t) by {
            assert forall|i: int| 0 <= i < s.len() implies s[i] == t[i] by {
                if i > 0 {
                    assert(s[i] == rs[i - 1]);
                    assert(t[i] == rt[i - 1]);
                }
            }
        }
    }
}

/// There are at most `n` to the power `n` distinct sequences of `n` values
/// below `n`.
pub proof fn lemma_distinct_count(vs: Seq<Seq<u8>>, n: nat)
    requires
        forall|i: int| 0 <= i < vs.len() ==> (#[trigger] vs[i]).len() == n && digits_below(vs[i], n),
        forall|i: int, j: int| 0 <= i < vs.len() && 0 <= j < vs.len() && i != j ==> vs[i] != vs[j],
    ensures
        vs.len() <= power(n, n),
{
    let codes = vs.map_values(|s: Seq<u8>| encode(s, n) as int);
    assert forall|i: int, j: int| 0 <= i < codes.len() && 0 <= j < codes.len() && i != j implies codes[i]
        != codes[j] by {
        if codes[i] == codes[j] {
            lemma_encode_injective(vs[i], vs[j], n);
        }
    }
    codes.unique_seq_to_set();
    let bound = power(n, n) as int;
    assert(codes.to_set().subset_of(set_int_range(0, bound))) by {
        assert forall|c: int| codes.to_set().contains(c) implies set_int_range(0, bound).contains(c) by {
            let i = choose|i: int| 0 <= i < codes.len() && codes[i] == c;
            lemma_encode_bound(vs[i], n);
        }
    }
    lemma_int_range(0, bound);
    lemma_len_subset(codes.to_set(), set_int_range(0, bound));
}

} // verus!
