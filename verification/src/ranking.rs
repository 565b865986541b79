//! Ranking rows by a key, the greatest key first: rows of equal key keep
//! the order of the index, so there is one ranking.

use vstd::prelude::*;

verus! {

/// Whether the row at place `a` comes before the row at place `b` when
/// rows are ranked by a key, the greatest key first: rows of equal key keep
/// the order of the index.
pub open spec fn ranks_before(keys: Seq<int>, a: int, b: int) -> bool {
    keys[a] > keys[b] || (keys[a] == keys[b] && a < b)
}

/// Whether `order` lists the places of the wanted rows, and those alone,
/// by rank.
pub open spec fn is_ranking(order: Seq<int>, keys: Seq<int>, wanted: Seq<bool>) -> bool {
    &&& keys.len() == wanted.len()
    &&& forall|k: int| 0 <= k < order.len() ==> 0 <= #[trigger] order[k] < keys.len() && wanted[order[k]]
    &&& forall|i: int| 0 <= i < keys.len() && #[trigger] wanted[i] ==> order.contains(i)
    &&& forall|a: int, b: int|
        0 <= a < b < order.len() ==> ranks_before(keys, #[trigger] order[a], #[trigger] order[b])
}

/// The ranking of the wanted rows by a key.
pub open spec fn ranking_of(keys: Seq<int>, wanted: Seq<bool>) -> Seq<int> {
    choose|order: Seq<int>| is_ranking(order, keys, wanted)
}

/// The first rows of a ranking, `limit` at most.
pub open spec fn first_of(order: Seq<int>, limit: nat) -> Seq<int> {
    if order.len() <= limit {
        order
    } else {
        order.take(limit as int)
    }
}

/// The places of a list as numbers.
pub open spec fn places(order: Seq<usize>) -> Seq<int> {
    order.map_values(|place: usize| place as int)
}

/// The keys of a list as numbers.
pub open spec fn key_values(keys: Seq<i64>) -> Seq<int> {
    keys.map_values(|key: i64| key as int)
}

/// There is one ranking of the wanted rows by a key.
pub proof fn lemma_ranking_unique(a: Seq<int>, b: Seq<int>, keys: Seq<int>, wanted: Seq<bool>)
    requires
        is_ranking(a, keys, wanted),
        is_ranking(b, keys, wanted),
    ensures
        a == b,
    decreases a.len(),
{
    if a.len() == 0 {
        if b.len() > 0 {
            assert(a.contains(b[0]));
        }
    } else if b.len() == 0 {
        assert(b.contains(a[0]));
    } else {
        // The first of each ranking comes before every other wanted row.
        assert(b.contains(a[0]));
        assert(a.contains(b[0]));
        let i = choose|i: int| 0 <= i < b.len() && b[i] == a[0];
        let j = choose|j: int| 0 <= j < a.len() && a[j] == b[0];
        if i > 0 {
            assert(ranks_before(keys, b[0], b[i]));
            if j > 0 {
                assert(ranks_before(keys, a[0], a[j]));
            }
        }
        assert(a[0] == b[0]);
        let ra = a.drop_first();
        let rb = b.drop_first();
        let w = wanted.update(a[0], false);
        assert(is_ranking(ra, keys, w)) by {
            assert forall|k: int| 0 <= k < ra.len() implies 0 <= #[trigger] ra[k] < keys.len()
                && w[ra[k]] by {
                assert(ra[k] == a[k + 1]);
                assert(ranks_before(keys, a[0], a[k + 1]));
            }
            assert forall|x: int| 0 <= x < keys.len() && #[trigger] w[x] implies ra.contains(x) by {
                assert(wanted[x]);
                assert(a.contains(x));
                let k = choose|k: int| 0 <= k < a.len() && a[k] == x;
                assert(ra[k - 1] == x);
            }
            assert forall|p: int, q: int| 0 <= p < q < ra.len() implies ranks_before(
                keys,
                #[trigger] ra[p],
                #[trigger] ra[q],
            ) by {
                assert(ranks_before(keys, a[p + 1], a[q + 1]));
            }
        }
        assert(is_ranking(rb, keys, w)) by {
            assert forall|k: int| 0 <= k < rb.len() implies 0 <= #[trigger] rb[k] < keys.len()
                && w[rb[k]] by {
                assert(rb[k] == b[k + 1]);
                assert(ranks_before(keys, b[0], b[k + 1]));
            }
            assert forall|x: int| 0 <= x < keys.len() && #[trigger] w[x] implies rb.contains(x) by {
                assert(wanted[x]);
                assert(b.contains(x));
                let k = choose|k: int| 0 <= k < b.len() && b[k] == x;
                assert(rb[k - 1] == x);
            }
            assert forall|p: int, q: int| 0 <= p < q < rb.len() implies ranks_before(
                keys,
                #[trigger] rb[p],
                #[trigger] rb[q],
            ) by {
                assert(ranks_before(keys, b[p + 1], b[q + 1]));
            }
        }
        lemma_ranking_unique(ra, rb, keys, w);
        assert(a =~= seq![a[0]] + ra);
        assert(b =~= seq![b[0]] + rb);
    }
}

/// Whether `order` ranks the wanted rows among the first `upto` rows.
pub open spec fn ranks_first(order: Seq<int>, keys: Seq<int>, wanted: Seq<bool>, upto: int) -> bool {
    &&& forall|k: int| 0 <= k < order.len() ==> 0 <= #[trigger] order[k] < upto && wanted[order[k]]
    &&& forall|i: int| 0 <= i < upto && #[trigger] wanted[i] ==> order.contains(i)
    &&& forall|a: int, b: int|
        0 <= a < b < order.len() ==> ranks_before(keys, #[trigger] order[a], #[trigger] order[b])
}

/// The number of rows of a ranking that come before a row of a key that
/// joins the ranking last.
pub open spec fn rows_ahead(order: Seq<int>, keys: Seq<int>, key: int) -> int
    decreases order.len(),
{
    if order.len() == 0 || keys[order[0]] < key {
        0
    } else {
        1 + rows_ahead(order.drop_first(), keys, key)
    }
}

proof fn lemma_rows_ahead(order: Seq<int>, keys: Seq<int>, key: int)
    ensures
        0 <= rows_ahead(order, keys, key) <= order.len(),
        forall|k: int| 0 <= k < rows_ahead(order, keys, key) ==> keys[#[trigger] order[k]] >= key,
        rows_ahead(order, keys, key) < order.len() ==> keys[order[rows_ahead(order, keys, key)]] < key,
    decreases order.len(),
{
    if !(order.len() == 0 || keys[order[0]] < key) {
        let rest = order.drop_first();
        lemma_rows_ahead(rest, keys, key);
        let p = rows_ahead(rest, keys, key);
        assert forall|k: int| 0 <= k < p + 1 implies keys[#[trigger] order[k]] >= key by {
            if k > 0 {
                assert(order[k] == rest[k - 1]);
            }
        }
        if p < rest.len() {
            assert(order[p + 1] == rest[p]);
        }
    }
}

/// The wanted rows among the first rows can be ranked.
pub proof fn lemma_ranking_exists(keys: Seq<int>, wanted: Seq<bool>, upto: int)
    requires
        keys.len() == wanted.len(),
        0 <= upto <= keys.len(),
    ensures
        exists|order: Seq<int>| ranks_first(order, keys, wanted, upto),
    decreases upto,
{
    if upto == 0 {
        assert(ranks_first(Seq::<int>::empty(), keys, wanted, 0));
    } else {
        let i = upto - 1;
        lemma_ranking_exists(keys, wanted, i);
        let before = choose|order: Seq<int>| #[trigger] ranks_first(order, keys, wanted, i);
        if !wanted[i] {
            assert(ranks_first(before, keys, wanted, upto)) by {
                assert forall|k: int| 0 <= k < before.len() implies 0 <= #[trigger] before[k]
                    < upto && wanted[before[k]] by {}
            }
        } else {
            let key = keys[i];
            lemma_rows_ahead(before, keys, key);
            let p = rows_ahead(before, keys, key);
            let after = before.insert(p, i);
            assert forall|k: int| 0 <= k < after.len() implies 0 <= #[trigger] after[k] < upto
                && wanted[after[k]] by {
                if k < p {
                    assert(after[k] == before[k]);
                } else if k > p {
                    assert(after[k] == before[k - 1]);
                }
            }
            assert forall|x: int| 0 <= x < upto && #[trigger] wanted[x] implies after.contains(
                x,
            ) by {
                if x < i {
                    assert(before.contains(x));
                    let k = choose|k: int| 0 <= k < before.len() && before[k] == x;
                    if k < p {
                        assert(after[k] == x);
                    } else {
                        assert(after[k + 1] == x);
                    }
                } else {
                    assert(after[p] == x);
                }
            }
            assert forall|a: int, b: int| 0 <= a < b < after.len() implies ranks_before(
                keys,
                #[trigger] after[a],
                #[trigger] after[b],
            ) by {
                let oa = if a < p {
                    before[a]
                } else if a == p {
                    i
                } else {
                    before[a - 1]
                };
                let ob = if b < p {
                    before[b]
                } else if b == p {
                    i
                } else {
                    before[b - 1]
                };
                assert(after[a] == oa && after[b] == ob);
                if b < p {
                    assert(ranks_before(keys, before[a], before[b]));
                } else if b == p {
                    assert(keys[before[a]] >= key);
                    assert(before[a] < i);
                } else if a < p {
                    assert(ranks_before(keys, before[a], before[b - 1]));
                } else if a == p {
                    assert(keys[before[p]] < key);
                    if b - 1 > p {
                        assert(ranks_before(keys, before[p], before[b - 1]));
                    }
                } else {
                    assert(ranks_before(keys, before[a - 1], before[b - 1]));
                }
            }
            assert(ranks_first(after, keys, wanted, upto));
        }
    }
}

/// The ranking of the wanted rows by a key is a ranking: it lists the
/// wanted rows, each once, by rank.
pub proof fn lemma_ranking_of(keys: Seq<int>, wanted: Seq<bool>)
    requires
        keys.len() == wanted.len(),
    ensures
        is_ranking(ranking_of(keys, wanted), keys, wanted),
        ranking_of(keys, wanted).no_duplicates(),
        forall|i: int|
            ranking_of(keys, wanted).contains(i) <==> 0 <= i < keys.len() && wanted[i],
{
    let n = keys.len() as int;
    lemma_ranking_exists(keys, wanted, n);
    let found = choose|order: Seq<int>| #[trigger] ranks_first(order, keys, wanted, n);
    assert(is_ranking(found, keys, wanted));
    let order = ranking_of(keys, wanted);
    assert forall|a: int, b: int| 0 <= a < order.len() && 0 <= b < order.len() && a
        != b implies order[a] != order[b] by {
        if a < b {
            assert(ranks_before(keys, order[a], order[b]));
        } else {
            assert(ranks_before(keys, order[b], order[a]));
        }
    }
    assert forall|i: int| order.contains(i) <==> 0 <= i < keys.len() && wanted[i] by {
        if order.contains(i) {
            let k = choose|k: int| 0 <= k < order.len() && order[k] == i;
            assert(0 <= order[k] < keys.len() && wanted[order[k]]);
        }
    }
}

/// Ranks the wanted rows by their keys, the greatest key first; rows of
/// equal key keep their order.
pub fn rank(keys: &Vec<i64>, wanted: &Vec<bool>) -> (order: Vec<usize>)
    requires
        keys@.len() == wanted@.len(),
    ensures
        is_ranking(places(order@), key_values(keys@), wanted@),
{
    let ghost kv = key_values(keys@);
    let mut order: Vec<usize> = Vec::new();
    let mut i: usize = 0;
    while i < keys.len()
        invariant
            i <= keys@.len(),
            keys@.len() == wanted@.len(),
            kv == key_values(keys@),
            forall|k: int| 0 <= k < order@.len() ==> (#[trigger] order@[k]) < i && wanted@[order@[k] as int],
            forall|x: int| 0 <= x < i && #[trigger] wanted@[x] ==> places(order@).contains(x),
            forall|a: int, b: int|
                0 <= a < b < order@.len() ==> ranks_before(
                    kv,
                    (#[trigger] order@[a]) as int,
                    (#[trigger] order@[b]) as int,
                ),
        decreases keys@.len() - i,
    {
        if wanted[i] {
            let key = keys[i];
            let mut p: usize = 0;
            while p < order.len() && keys[order[p]] >= key
                invariant
                    p <= order@.len(),
                    i < keys@.len(),
                    key == keys@[i as int],
                    kv == key_values(keys@),
                    forall|k: int| 0 <= k < order@.len() ==> (#[trigger] order@[k]) < i,
                    forall|k: int| 0 <= k < p ==> keys@[(#[trigger] order@[k]) as int] >= key,
                decreases order@.len() - p,
            {
                p += 1;
            }
            let ghost before = order@;
            order.insert(p, i);
            proof {
                assert(order@ =~= before.insert(p as int, i));
                assert forall|k: int| 0 <= k < order@.len() implies (#[trigger] order@[k]) < i + 1
                    && wanted@[order@[k] as int] by {
                    if k < p {
                        assert(order@[k] == before[k]);
                    } else if k > p {
                        assert(order@[k] == before[k - 1]);
                    }
                }
                assert forall|x: int| 0 <= x < i + 1 && #[trigger] wanted@[x] implies places(
                    order@,
                ).contains(x) by {
                    if x < i {
                        assert(places(before).contains(x));
                        let k = choose|k: int| 0 <= k < before.len() && places(before)[k] == x;
                        if k < p {
                            assert(places(order@)[k] == x);
                        } else {
                            assert(places(order@)[k + 1] == x);
                        }
                    } else {
                        assert(places(order@)[p as int] == x);
                    }
                }
                assert forall|a: int, b: int| 0 <= a < b < order@.len() implies ranks_before(
                    kv,
                    (#[trigger] order@[a]) as int,
                    (#[trigger] order@[b]) as int,
                ) by {
                    let oa = if a < p {
                        before[a]
                    } else if a == p {
                        i
                    } else {
                        before[a - 1]
                    };
                    let ob = if b < p {
                        before[b]
                    } else if b == p {
                        i
                    } else {
                        before[b - 1]
                    };
                    assert(order@[a] == oa && order@[b] == ob);
                    if b < p {
                        assert(ranks_before(kv, before[a] as int, before[b] as int));
                    } else if b == p {
                        assert(keys@[before[a] as int] >= key);
                        assert(before[a] < i);
                    } else if a < p {
                        assert(ranks_before(kv, before[a] as int, before[b - 1] as int));
                    } else if a == p {
                        // The row at `p` before the insertion has a smaller key.
                        assert(keys@[before[p as int] as int] < key);
                        if b - 1 > p {
                            assert(ranks_before(kv, before[p as int] as int, before[b - 1] as int));
                        }
                    } else {
                        assert(ranks_before(kv, before[a - 1] as int, before[b - 1] as int));
                    }
                }
            }
        }
        i += 1;
    }
    proof {
        assert forall|k: int| 0 <= k < places(order@).len() implies 0 <= #[trigger] places(
            order@,
        )[k] < kv.len() && wanted@[places(order@)[k]] by {
            assert(order@[k] < i);
        }
        assert forall|a: int, b: int| 0 <= a < b < places(order@).len() implies ranks_before(
            kv,
            #[trigger] places(order@)[a],
            #[trigger] places(order@)[b],
        ) by {
            assert(ranks_before(kv, order@[a] as int, order@[b] as int));
        }
    }
    order
}

} // verus!
