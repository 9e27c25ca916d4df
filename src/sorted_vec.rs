//! Sorting literal lists and dropping repeats.
use vstd::prelude::*;
use crate::literal::Literal;

verus! {

/// Codes strictly increase along the sequence: sorted, with no repeats.
pub open spec fn strictly_sorted(s: Seq<Literal>) -> bool {
    forall|i: int, j: int| 0 <= i < j < s.len() ==> (#[trigger] s[i]).0 < (#[trigger] s[j]).0
}

/// Sorts the literals by their packed word and removes repeated ones.
pub fn sort_and_dedupe(vec: &mut Vec<Literal>)
    ensures
        strictly_sorted(final(vec)@),
        forall|l: Literal| final(vec)@.contains(l) <==> old(vec)@.contains(l),
{
    let mut out: Vec<Literal> = Vec::new();
    let mut i: usize = 0;
    while i < vec.len()
        invariant
            i <= vec.len(),
            strictly_sorted(out@),
            forall|l: Literal| out@.contains(l) <==> vec@.subrange(0, i as int).contains(l),
        decreases vec.len() - i,
    {
        let x = vec[i];
        let mut p: usize = 0;
        while p < out.len() && out[p].0 < x.0
            invariant
                p <= out.len(),
                forall|k: int| 0 <= k < p ==> (#[trigger] out@[k]).0 < x.0,
            decreases out.len() - p,
        {
            p = p + 1;
        }
        let ghost prev = out@;
        assert(forall|l: Literal| prev.contains(l) <==> vec@.subrange(0, i as int).contains(l));
        if p < out.len() && out[p].0 == x.0 {
            assert(out@[p as int] == x);
            assert(prev.contains(x));
        } else {
            out.insert(p, x);
            proof {
                prev.insert_ensures(p as int, x);
                assert forall|a: int, b: int| 0 <= a < b < out@.len() implies (#[trigger] out@[a]).0
                    < (#[trigger] out@[b]).0 by {
                    if a < p && b > p {
                        assert(out@[a] == prev[a]);
                        assert(out@[b] == prev[b - 1]);
                    }
                    if a > p {
                        assert(prev[a - 1].0 < prev[b - 1].0);
                    }
                }
                assert forall|l: Literal| out@.contains(l) implies prev.contains(l) || l == x by {
                    let k = choose|k: int| 0 <= k < out@.len() && out@[k] == l;
                    if k < p {
                        assert(prev[k] == l);
                    } else if k > p {
                        assert(prev[k - 1] == l);
                    }
                }
                assert forall|l: Literal| prev.contains(l) implies out@.contains(l) by {
                    let k = choose|k: int| 0 <= k < prev.len() && prev[k] == l;
                    if k < p {
                        assert(out@[k] == l);
                    } else {
                        assert(out@[k + 1] == l);
                    }
                }
                assert(out@[p as int] == x);
            }
        }
        assert(forall|l: Literal| out@.contains(l) <==> (prev.contains(l) || l == x));
        proof {
            let s0 = vec@.subrange(0, i as int);
            let s1 = vec@.subrange(0, i + 1);
            assert(s1 == s0.push(x));
            assert forall|l: Literal| out@.contains(l) <==> s1.contains(l) by {
                assert(s1[i as int] == x);
                if out@.contains(l) {
                    if l != x {
                        assert(prev.contains(l));
                        assert(s0.contains(l));
                        let k = choose|k: int| 0 <= k < s0.len() && s0[k] == l;
                        assert(s1[k] == l);
                    }
                }
                if s1.contains(l) {
                    if l != x {
                        let k = choose|k: int| 0 <= k < s1.len() && s1[k] == l;
                        assert(k < i);
                        assert(s0[k] == l);
                        assert(s0.contains(l));
                        assert(prev.contains(l));
                    }
                }
            }
        }
        i = i + 1;
    }
    assert(vec@.subrange(0, vec@.len() as int) == vec@);
    *vec = out;
}

} // verus!
