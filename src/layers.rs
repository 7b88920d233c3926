//! Merging the layers of a live configuration dump. The tool reports one
//! object per configuration file that contributes; the live catalog is their
//! union, where a layer whose name sorts later overrides one whose name sorts
//! earlier, key for key.

use crate::catalog::{lemma_pairs_to_map_keys, pair_keys, pairs_model, pairs_to_map, Catalog};
use crate::text::{chars_of, lemma_lex_irreflexive, lex_less, lex_lt};
use vstd::prelude::*;

verus! {

/// A layer as a name and, when the layer is an object, its members.
pub type LayerModel<V> = (Seq<char>, Option<Seq<(Seq<char>, V)>>);

pub open spec fn layer_model<V>(l: (String, Option<Vec<(String, V)>>)) -> LayerModel<V> {
    (
        l.0@,
        match l.1 {
            Some(m) => Some(pairs_model(m@)),
            None => None,
        },
    )
}

pub open spec fn layers_model<V>(s: Seq<(String, Option<Vec<(String, V)>>)>) -> Seq<LayerModel<V>> {
    s.map_values(|l: (String, Option<Vec<(String, V)>>)| layer_model(l))
}

/// A layer's name and, when the layer is an object, the keys of its members.
pub type LayerKeys = (Seq<char>, Option<Seq<Seq<char>>>);

/// The names and member keys of the layers.
pub open spec fn layer_keys<V>(ls: Seq<LayerModel<V>>) -> Seq<LayerKeys> {
    ls.map_values(
        |l: LayerModel<V>|
            (
                l.0,
                match l.1 {
                    Some(m) => Some(pair_keys(m)),
                    None => None,
                },
            ),
    )
}

/// The member keys are given and hold `k`.
pub open spec fn keys_have(o: Option<Seq<Seq<char>>>, k: Seq<char>) -> bool {
    o matches Some(ks) && ks.contains(k)
}

/// Some layer is an object with a member `k`.
pub open spec fn some_layer_has(km: Seq<LayerKeys>, k: Seq<char>) -> bool {
    exists|i: int| 0 <= i < km.len() && keys_have((#[trigger] km[i]).1, k)
}

/// The layer is an object that sets `k`.
pub open spec fn layer_sets<V>(l: LayerModel<V>, k: Seq<char>) -> bool {
    l.1 matches Some(m) && pairs_to_map(m).contains_key(k)
}

/// Index of the layer that decides `k`: among those that set it, the one
/// whose name sorts last, the later one between equal names; -1 if none sets it.
pub open spec fn deciding_layer<V>(ls: Seq<LayerModel<V>>, k: Seq<char>) -> int
    decreases ls.len(),
{
    if ls.len() == 0 {
        -1
    } else {
        let w = deciding_layer(ls.drop_last(), k);
        if layer_sets(ls.last(), k) && (w < 0 || !lex_lt(ls.last().0, ls[w].0)) {
            ls.len() - 1
        } else {
            w
        }
    }
}

pub proof fn lemma_deciding_layer<V>(ls: Seq<LayerModel<V>>, k: Seq<char>)
    ensures
        -1 <= deciding_layer(ls, k) < ls.len(),
        deciding_layer(ls, k) >= 0 ==> layer_sets(ls[deciding_layer(ls, k)], k),
    decreases ls.len(),
{
    if ls.len() > 0 {
        lemma_deciding_layer(ls.drop_last(), k);
    }
}

/// The union of the layers: each key set by some layer, with the value that
/// its deciding layer gives it (the last one, where that layer sets it twice).
pub open spec fn merged<V>(ls: Seq<LayerModel<V>>) -> Map<Seq<char>, V> {
    Map::new(
        |k: Seq<char>| deciding_layer(ls, k) >= 0,
        |k: Seq<char>| pairs_to_map(ls[deciding_layer(ls, k)].1->Some_0)[k],
    )
}

/// After the first `n` layers are merged.
spec fn settled<V>(
    values: Map<Seq<char>, V>,
    sources: Map<Seq<char>, usize>,
    ls: Seq<LayerModel<V>>,
    n: int,
    k: Seq<char>,
) -> bool {
    let w = deciding_layer(ls.take(n), k);
    &&& values.contains_key(k) == (w >= 0)
    &&& sources.contains_key(k) == values.contains_key(k)
    &&& values.contains_key(k) ==> {
        &&& sources[k] as int == w
        &&& values[k] == pairs_to_map(ls[w].1->Some_0)[k]
    }
}

/// While layer `i` is being merged and `part` of its members are done.
spec fn pending<V>(
    values: Map<Seq<char>, V>,
    sources: Map<Seq<char>, usize>,
    ls: Seq<LayerModel<V>>,
    prev: Seq<LayerModel<V>>,
    i: int,
    part: Seq<(Seq<char>, V)>,
    k: Seq<char>,
) -> bool {
    let w = deciding_layer(prev, k);
    let wins = pairs_to_map(part).contains_key(k) && (w < 0 || !lex_lt(ls[i].0, ls[w].0));
    &&& sources.contains_key(k) == values.contains_key(k)
    &&& wins ==> values.contains_key(k) && sources[k] == i && values[k] == pairs_to_map(part)[k]
    &&& !wins ==> {
        &&& values.contains_key(k) == (w >= 0)
        &&& values.contains_key(k) ==> {
            &&& sources[k] as int == w
            &&& values[k] == pairs_to_map(ls[w].1->Some_0)[k]
        }
    }
}

/// The merged catalog has exactly the keys that some layer sets.
pub proof fn lemma_merged_keys<V>(ls: Seq<LayerModel<V>>)
    ensures
        forall|k: Seq<char>| #[trigger] merged(ls).contains_key(k) == some_layer_has(layer_keys(ls), k),
    decreases ls.len(),
{
    let km = layer_keys(ls);
    if ls.len() > 0 {
        let p = ls.drop_last();
        lemma_merged_keys(p);
        assert forall|k: Seq<char>| #[trigger] merged(ls).contains_key(k) == some_layer_has(km, k) by {
            assert(merged(p).contains_key(k) == some_layer_has(layer_keys(p), k));
            let last = ls.last();
            if let Some(m) = last.1 {
                lemma_pairs_to_map_keys(m);
            }
            assert(km[ls.len() - 1] == (last.0, match last.1 { Some(m) => Some(pair_keys(m)), None => None }));
            if some_layer_has(layer_keys(p), k) {
                let i = choose|i: int| 0 <= i < layer_keys(p).len() && keys_have((#[trigger] layer_keys(p)[i]).1, k);
                assert(km[i] == layer_keys(p)[i]);
            }
            if some_layer_has(km, k) {
                let i = choose|i: int| 0 <= i < km.len() && keys_have((#[trigger] km[i]).1, k);
                if i < p.len() {
                    assert(km[i] == layer_keys(p)[i]);
                }
            }
        }
    } else {
        assert forall|k: Seq<char>| #[trigger] merged(ls).contains_key(k) == some_layer_has(km, k) by {}
    }
}

/// Merges the layers into one catalog.
pub fn merge_layers<V>(layers: Vec<(String, Option<Vec<(String, V)>>)>) -> (r: Catalog<V>)
    ensures
        r@ == merged(layers_model(layers@)),
{
    let ghost ls = layers_model(layers@);
    let mut names: Vec<Vec<char>> = Vec::new();
    let mut n: usize = 0;
    while n < layers.len()
        invariant
            n <= layers.len(),
            names.len() == n,
            forall|j: int| 0 <= j < n ==> #[trigger] names[j]@ == layers@[j].0@,
        decreases layers.len() - n,
    {
        names.push(chars_of(layers[n].0.as_str()));
        n = n + 1;
    }
    let mut values: Catalog<V> = Catalog::new();
    let mut sources: Catalog<usize> = Catalog::new();
    let mut rest = layers;
    let mut i: usize = 0;
    assert(rest@ =~= layers@.skip(0));
    while rest.len() > 0
        invariant
            ls == layers_model(layers@),
            ls.len() == names.len(),
            forall|j: int| 0 <= j < names.len() ==> #[trigger] names[j]@ == ls[j].0,
            i + rest.len() == layers.len(),
            rest@ == layers@.skip(i as int),
            forall|k: Seq<char>| #[trigger] settled(values@, sources@, ls, i as int, k),
        decreases rest.len(),
    {
        let layer = rest.remove(0);
        let ghost prev = ls.take(i as int);
        let ghost next = ls.take(i + 1);
        assert(next.drop_last() =~= prev);
        assert(next.last() == ls[i as int]);
        assert(layers@[i as int] == layer);
        match layer.1 {
            None => {
                assert forall|k: Seq<char>| #[trigger]
                    settled(values@, sources@, ls, i + 1, k) by {
                    assert(settled(values@, sources@, ls, i as int, k));
                    lemma_deciding_layer(prev, k);
                    if deciding_layer(prev, k) >= 0 {
                        assert(next[deciding_layer(prev, k)] == ls[deciding_layer(prev, k)]);
                    }
                }
            },
            Some(members) => {
                let ghost ms = pairs_model(members@);
                assert(ls[i as int].1 == Some(ms));
                let mut todo = members;
                let mut j: usize = 0;
                assert(todo@ =~= members@.skip(0));
                assert(ms.take(0) =~= Seq::<(Seq<char>, V)>::empty());
                assert forall|k: Seq<char>| #[trigger]
                    pending(values@, sources@, ls, prev, i as int, ms.take(0), k) by {
                    assert(settled(values@, sources@, ls, i as int, k));
                }
                while todo.len() > 0
                    invariant
                        ls == layers_model(layers@),
                        ls.len() == names.len(),
                        forall|x: int| 0 <= x < names.len() ==> #[trigger] names[x]@ == ls[x].0,
                        i < ls.len(),
                        prev == ls.take(i as int),
                        ls[i as int].1 == Some(ms),
                        ms == pairs_model(members@),
                        j + todo.len() == members.len(),
                        todo@ == members@.skip(j as int),
                        forall|k: Seq<char>|
                            #[trigger] pending(
                                values@,
                                sources@,
                                ls,
                                prev,
                                i as int,
                                ms.take(j as int),
                                k,
                            ),
                    decreases todo.len(),
                {
                    let (key, value) = todo.remove(0);
                    assert(members@[j as int] == (key, value));
                    let ghost t = ms.take(j + 1);
                    assert(t.drop_last() =~= ms.take(j as int));
                    assert(t.last() == (key@, value));
                    proof {
                        lemma_deciding_layer(prev, key@);
                        assert(pending(values@, sources@, ls, prev, i as int, ms.take(j as int), key@));
                    }
                    let take = match sources.get(key.as_str()) {
                        None => true,
                        Some(s) => {
                            let s = *s;
                            assert(s <= i);
                            if s == i {
                                proof {
                                    lemma_lex_irreflexive(names[i as int]@);
                                }
                                !lex_less(&names[i], &names[s])
                            } else {
                                !lex_less(&names[i], &names[s])
                            }
                        },
                    };
                    let ghost old_values = values@;
                    let ghost old_sources = sources@;
                    let ghost kk = key@;
                    if take {
                        let k2 = key.clone();
                        values.insert(key, value);
                        sources.insert(k2, i);
                    }
                    proof {
                        assert forall|k: Seq<char>| k != kk implies (pairs_to_map(t).contains_key(k)
                            == pairs_to_map(ms.take(j as int)).contains_key(k) && (pairs_to_map(
                            t,
                        ).contains_key(k) ==> pairs_to_map(t)[k] == pairs_to_map(
                            ms.take(j as int),
                        )[k])) by {}
                        assert(pairs_to_map(t).contains_key(kk) && pairs_to_map(t)[kk] == value);
                        assert forall|k: Seq<char>|
                            #[trigger] pending(values@, sources@, ls, prev, i as int, t, k) by {
                            assert(pending(old_values, old_sources, ls, prev, i as int, ms.take(j as int), k));
                        }
                    }
                    j = j + 1;
                }
                assert(ms.take(j as int) =~= ms);
                assert forall|k: Seq<char>| #[trigger]
                    settled(values@, sources@, ls, i + 1, k) by {
                    assert(pending(values@, sources@, ls, prev, i as int, ms, k));
                    lemma_deciding_layer(prev, k);
                    if deciding_layer(prev, k) >= 0 {
                        assert(next[deciding_layer(prev, k)] == ls[deciding_layer(prev, k)]);
                    }
                }
            },
        }
        i = i + 1;
    }
    assert(ls.take(i as int) =~= ls);
    assert forall|k: Seq<char>| #[trigger] values@.contains_key(k) == merged(ls).contains_key(k)
        && (values@.contains_key(k) ==> values@[k] == merged(ls)[k]) by {
        assert(settled(values@, sources@, ls, i as int, k));
    }
    assert(values@ =~= merged(ls));
    values
}

} // verus!
