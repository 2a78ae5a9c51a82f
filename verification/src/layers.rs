//! The layer/datatype pairs that a layout uses, in order.
use vstd::prelude::*;

verus! {

/// A GDS layer number and datatype.
pub type LayerPair = [i16; 2];

/// Lexicographic order on layer/datatype pairs.
pub open spec fn pair_lt(a: LayerPair, b: LayerPair) -> bool {
    a[0] < b[0] || (a[0] == b[0] && a[1] < b[1])
}

/// The pairs of `s` increase strictly.
pub open spec fn pairs_increasing(s: Seq<LayerPair>) -> bool {
    forall|i: int, j: int| 0 <= i < j < s.len() ==> pair_lt(#[trigger] s[i], #[trigger] s[j])
}

/// The distinct pairs of `pairs`, in increasing order.
pub fn sorted_layers(pairs: &Vec<LayerPair>) -> (layers: Vec<LayerPair>)
    ensures
        pairs_increasing(layers@),
        forall|p: LayerPair| layers@.contains(p) <==> pairs@.contains(p),
{
    let mut layers: Vec<LayerPair> = Vec::new();
    let mut i: usize = 0;
    while i < pairs.len()
        invariant
            i <= pairs@.len(),
            pairs_increasing(layers@),
            forall|p: LayerPair| layers@.contains(p) <==> pairs@.take(i as int).contains(p),
        decreases pairs@.len() - i,
    {
        let e = pairs[i];
        let mut p: usize = 0;
        while p < layers.len() && (layers[p][0] < e[0] || (layers[p][0] == e[0] && layers[p][1] < e[1]))
            invariant
                p <= layers@.len(),
                forall|q: int| 0 <= q < p ==> pair_lt(#[trigger] layers@[q], e),
            decreases layers@.len() - p,
        {
            p = p + 1;
        }
        let ghost before = layers@;
        let present = p < layers.len() && layers[p][0] == e[0] && layers[p][1] == e[1];
        if !present {
            layers.insert(p, e);
        }
        proof {
            let after = layers@;
            let grown = pairs@.take(i + 1);
            assert(grown =~= pairs@.take(i as int).push(e));
            if present {
                assert(before[p as int] =~= e);
                assert(after == before);
                assert forall|x: LayerPair| after.contains(x) <==> grown.contains(x) by {
                    if grown.contains(x) {
                        let m = choose|m: int| 0 <= m < grown.len() && grown[m] == x;
                        if m < i {
                            assert(pairs@.take(i as int)[m] == x);
                            assert(pairs@.take(i as int).contains(x));
                        } else {
                            assert(after[p as int] == x);
                        }
                    }
                    if after.contains(x) {
                        assert(pairs@.take(i as int).contains(x));
                        let m = choose|m: int| 0 <= m < i && pairs@.take(i as int)[m] == x;
                        assert(grown[m] == x);
                    }
                }
            } else {
                assert(after == before.insert(p as int, e));
                if p < before.len() {
                    assert(pair_lt(e, before[p as int]));
                }
                assert forall|a: int, b: int| 0 <= a < b < after.len() implies pair_lt(
                    #[trigger] after[a],
                    #[trigger] after[b],
                ) by {
                    if b < p {
                        assert(after[a] == before[a] && after[b] == before[b]);
                    } else if b == p {
                        assert(after[a] == before[a]);
                    } else if a > p {
                        assert(after[a] == before[a - 1] && after[b] == before[b - 1]);
                    } else if a == p {
                        assert(after[b] == before[b - 1]);
                        if b - 1 > p {
                            assert(pair_lt(before[p as int], before[b - 1]));
                        }
                    } else {
                        assert(after[a] == before[a] && after[b] == before[b - 1]);
                        if b - 1 > p {
                            assert(pair_lt(before[p as int], before[b - 1]));
                        }
                    }
                }
                assert forall|x: LayerPair| after.contains(x) <==> grown.contains(x) by {
                    assert(after[p as int] == e);
                    if after.contains(x) {
                        let k = choose|k: int| 0 <= k < after.len() && after[k] == x;
                        if k < p {
                            assert(before[k] == x);
                            assert(before.contains(x));
                        } else if k > p {
                            assert(before[k - 1] == x);
                            assert(before.contains(x));
                        }
                        if x != e {
                            assert(pairs@.take(i as int).contains(x));
                            let m = choose|m: int| 0 <= m < i && pairs@.take(i as int)[m] == x;
                            assert(grown[m] == x);
                        } else {
                            assert(grown[i as int] == e);
                        }
                    }
                    if grown.contains(x) {
                        let m = choose|m: int| 0 <= m < grown.len() && grown[m] == x;
                        if m < i {
                            assert(pairs@.take(i as int)[m] == x);
                            assert(pairs@.take(i as int).contains(x));
                            assert(before.contains(x));
                            let k = choose|k: int| 0 <= k < before.len() && before[k] == x;
                            if k < p {
                                assert(after[k] == x);
                            } else {
                                assert(after[k + 1] == x);
                            }
                        }
                    }
                }
            }
        }
        i = i + 1;
    }
    proof {
        assert(pairs@.take(pairs@.len() as int) =~= pairs@);
    }
    layers
}

} // verus!
