use vstd::prelude::*;

verus! {

/// A ranked entry: an order-preserving integer key of a node's score, and the
/// node. Entries are ordered by key, then by node.
pub type Ranked = (u64, usize);

/// `x` ranks strictly above `y`.
pub open spec fn ranks_above(x: Ranked, y: Ranked) -> bool {
    x.0 > y.0 || (x.0 == y.0 && x.1 > y.1)
}

/// Where `c` goes in `kept`: after the leading entries that rank above it.
pub open spec fn insert_pos(kept: Seq<Ranked>, c: Ranked) -> nat
    decreases kept.len(),
{
    if kept.len() == 0 || !ranks_above(kept[0], c) {
        0
    } else {
        1 + insert_pos(kept.drop_first(), c)
    }
}

/// One step of the bounded selection with capacity `n`, on `kept` held from
/// highest to lowest: while there is room the candidate goes in; once full, it
/// replaces the lowest entry only if its key is strictly greater than that
/// entry's key, so an equal key never displaces an entry seen before.
pub open spec fn select_step(kept: Seq<Ranked>, c: Ranked, n: nat) -> Seq<Ranked> {
    if kept.len() < n {
        kept.insert(insert_pos(kept, c) as int, c)
    } else if kept.len() > 0 && c.0 > kept.last().0 {
        let rest = kept.drop_last();
        rest.insert(insert_pos(rest, c) as int, c)
    } else {
        kept
    }
}

/// The selection after the first `k` candidates, candidate `i` being
/// `(keys[i], i)`.
pub open spec fn select_prefix(keys: Seq<u64>, n: nat, k: int) -> Seq<Ranked>
    decreases k,
{
    if k <= 0 {
        Seq::empty()
    } else {
        select_step(select_prefix(keys, n, k - 1), (keys[k - 1], (k - 1) as usize), n)
    }
}

/// The top `n` of all candidates, from highest to lowest.
pub open spec fn top_of(keys: Seq<u64>, n: nat) -> Seq<Ranked> {
    select_prefix(keys, n, keys.len() as int)
}

/// `s` runs strictly from highest to lowest.
pub open spec fn ranked_descending(s: Seq<Ranked>) -> bool {
    forall|a: int, b: int| 0 <= a < b < s.len() ==> ranks_above(#[trigger] s[a], #[trigger] s[b])
}

/// Candidate `i`: node `i` with its key.
pub open spec fn candidate(keys: Seq<u64>, i: int) -> Ranked {
    (keys[i], i as usize)
}

proof fn lemma_insert_pos(s: Seq<Ranked>, c: Ranked)
    ensures
        insert_pos(s, c) <= s.len(),
        forall|i: int| 0 <= i < insert_pos(s, c) ==> ranks_above(#[trigger] s[i], c),
        insert_pos(s, c) < s.len() ==> !ranks_above(s[insert_pos(s, c) as int], c),
    decreases s.len(),
{
    if s.len() > 0 && ranks_above(s[0], c) {
        lemma_insert_pos(s.drop_first(), c);
        assert forall|i: int| 0 <= i < insert_pos(s, c) implies ranks_above(#[trigger] s[i], c) by {
            if i > 0 {
                assert(s[i] == s.drop_first()[i - 1]);
            }
        }
    }
}

proof fn lemma_insert_sorted(s: Seq<Ranked>, c: Ranked)
    requires
        ranked_descending(s),
        forall|j: int| 0 <= j < s.len() ==> s[j] != c,
    ensures
        ranked_descending(s.insert(insert_pos(s, c) as int, c)),
{
    lemma_insert_pos(s, c);
    let p = insert_pos(s, c) as int;
    let r = s.insert(p, c);
    assert forall|a: int, b: int| 0 <= a < b < r.len() implies ranks_above(#[trigger] r[a], #[trigger] r[b]) by {
        if b < p {
        } else if b == p {
            assert(ranks_above(s[a], c));
        } else if a < p {
            assert(ranks_above(s[a], s[b - 1]));
        } else if a == p {
            assert(s[p] != c);
            if b - 1 > p {
                assert(ranks_above(s[p], s[b - 1]));
            }
        } else {
            assert(ranks_above(s[a - 1], s[b - 1]));
        }
    }
}

/// What holds of the selection after `k` candidates.
spec fn selection_inv(keys: Seq<u64>, n: nat, k: int, t: Seq<Ranked>) -> bool {
    &&& ranked_descending(t)
    &&& t.len() == if k < n { k } else { n as int }
    &&& forall|j: int| 0 <= j < t.len() ==> (#[trigger] t[j]).1 < k && t[j] == candidate(keys, t[j].1 as int)
    &&& forall|i: int|
        0 <= i < k ==> t.contains(#[trigger] candidate(keys, i)) || (t.len() == n && forall|j: int|
            0 <= j < t.len() ==> t[j].0 >= keys[i])
    &&& k <= n ==> forall|i: int| 0 <= i < k ==> t.contains(#[trigger] candidate(keys, i))
}

proof fn lemma_selection_inv(keys: Seq<u64>, n: nat, k: int)
    requires
        0 <= k <= keys.len(),
        keys.len() <= usize::MAX,
    ensures
        selection_inv(keys, n, k, select_prefix(keys, n, k)),
    decreases k,
{
    if k > 0 {
        lemma_selection_inv(keys, n, k - 1);
        let t = select_prefix(keys, n, k - 1);
        let c = candidate(keys, k - 1);
        let t2 = select_prefix(keys, n, k);
        assert(t2 == select_step(t, c, n));
        assert forall|j: int| 0 <= j < t.len() implies t[j] != c by {
            assert(t[j].1 < k - 1);
        }
        if t.len() < n {
            lemma_insert_sorted(t, c);
            lemma_insert_pos(t, c);
            let p = insert_pos(t, c) as int;
            assert(t2 == t.insert(p, c));
            assert(t2[p] == c);
            assert forall|j: int| 0 <= j < t2.len() implies (#[trigger] t2[j]).1 < k && t2[j] == candidate(
                keys,
                t2[j].1 as int,
            ) by {
                if j < p {
                    assert(t2[j] == t[j]);
                } else if j > p {
                    assert(t2[j] == t[j - 1]);
                }
            }
            assert forall|i: int| 0 <= i < k implies t2.contains(#[trigger] candidate(keys, i)) by {
                if i < k - 1 {
                    let x = candidate(keys, i);
                    assert(t.contains(x));
                    let j = choose|j: int| 0 <= j < t.len() && t[j] == x;
                    if j < p {
                        assert(t2[j] == x);
                    } else {
                        assert(t2[j + 1] == x);
                    }
                } else {
                    assert(t2[p] == c);
                }
            }
        } else if t.len() > 0 && c.0 > t.last().0 {
            let x = t.last();
            let rest = t.drop_last();
            assert(ranked_descending(rest));
            lemma_insert_sorted(rest, c);
            lemma_insert_pos(rest, c);
            let p = insert_pos(rest, c) as int;
            assert(t2 == rest.insert(p, c));
            assert(t2[p] == c);
            assert forall|j: int| 0 <= j < t2.len() implies (#[trigger] t2[j]).1 < k && t2[j] == candidate(
                keys,
                t2[j].1 as int,
            ) && t2[j].0 >= x.0 by {
                if j < p {
                    assert(t2[j] == t[j]);
                    assert(ranks_above(t[j], x));
                } else if j > p {
                    assert(t2[j] == t[j - 1]);
                    assert(ranks_above(t[j - 1], x));
                }
            }
            assert forall|i: int|
                0 <= i < k implies t2.contains(#[trigger] candidate(keys, i)) || (t2.len() == n && forall|j: int|
                0 <= j < t2.len() ==> t2[j].0 >= keys[i]) by {
                let y = candidate(keys, i);
                if i == k - 1 {
                    assert(t2[p] == c);
                } else if t.contains(y) {
                    let j = choose|j: int| 0 <= j < t.len() && t[j] == y;
                    if j == t.len() - 1 {
                        assert(y == x);
                        assert(y.0 == keys[i]);
                    } else if j < p {
                        assert(t2[j] == y);
                    } else {
                        assert(t2[j + 1] == y);
                    }
                } else {
                    assert(t[t.len() - 1] == x);
                }
            }
        } else {
            assert(t2 == t);
            assert forall|i: int|
                0 <= i < k implies t2.contains(#[trigger] candidate(keys, i)) || (t2.len() == n && forall|j: int|
                0 <= j < t2.len() ==> t2[j].0 >= keys[i]) by {
                if i == k - 1 && t.len() > 0 {
                    assert forall|j: int| 0 <= j < t2.len() implies t2[j].0 >= keys[i] by {
                        if j < t.len() - 1 {
                            assert(ranks_above(t[j], t[t.len() - 1]));
                        }
                    }
                }
            }
        }
    }
}

/// The bounded selection keeps the top `n` candidates from highest to lowest.
/// With room for every candidate it returns each of them exactly once, in
/// strictly descending rank. With less room it returns exactly `n` of them,
/// and no returned key is smaller than the key of a candidate left out; which
/// of several equal keys is left out follows the order in which the
/// candidates were seen.
pub proof fn lemma_top_selection(keys: Seq<u64>, n: nat)
    requires
        keys.len() <= usize::MAX,
    ensures
        ranked_descending(top_of(keys, n)),
        forall|j: int|
            0 <= j < top_of(keys, n).len() ==> #[trigger] top_of(keys, n)[j] == candidate(
                keys,
                top_of(keys, n)[j].1 as int,
            ) && (top_of(keys, n)[j].1 as int) < keys.len(),
        n >= keys.len() ==> top_of(keys, n).len() == keys.len() && forall|i: int|
            0 <= i < keys.len() ==> top_of(keys, n).contains(#[trigger] candidate(keys, i)),
        n < keys.len() ==> top_of(keys, n).len() == n && forall|i: int, j: int|
            0 <= i < keys.len() && 0 <= j < n && !top_of(keys, n).contains(#[trigger] candidate(keys, i))
                ==> #[trigger] top_of(keys, n)[j].0 >= keys[i],
{
    lemma_selection_inv(keys, n, keys.len() as int);
}

fn find_insert_pos(kept: &Vec<Ranked>, c: Ranked) -> (p: usize)
    ensures
        p == insert_pos(kept@, c),
        p <= kept@.len(),
{
    let mut p: usize = 0;
    proof {
        assert(kept@.skip(0) == kept@);
    }
    while p < kept.len() && (kept[p].0 > c.0 || (kept[p].0 == c.0 && kept[p].1 > c.1))
        invariant
            p <= kept@.len(),
            insert_pos(kept@, c) == p + insert_pos(kept@.skip(p as int), c),
        decreases kept@.len() - p,
    {
        proof {
            assert(kept@.skip(p as int).drop_first() == kept@.skip(p + 1));
        }
        p = p + 1;
    }
    p
}

/// Selects the `top_n` highest-ranked nodes, node `i` having key `keys[i]`,
/// through a bounded selection that keeps the first-seen entry on equal keys;
/// the result runs from highest to lowest.
pub fn select_top(keys: &Vec<u64>, top_n: usize) -> (top: Vec<Ranked>)
    ensures
        top@ == top_of(keys@, top_n as nat),
{
    let mut kept: Vec<Ranked> = Vec::new();
    let mut i: usize = 0;
    while i < keys.len()
        invariant
            i <= keys@.len(),
            kept@ == select_prefix(keys@, top_n as nat, i as int),
            kept@.len() <= top_n,
        decreases keys@.len() - i,
    {
        let c: Ranked = (keys[i], i);
        if kept.len() < top_n {
            let p = find_insert_pos(&kept, c);
            kept.insert(p, c);
        } else if kept.len() > 0 && c.0 > kept[kept.len() - 1].0 {
            kept.pop();
            let p = find_insert_pos(&kept, c);
            kept.insert(p, c);
        }
        i = i + 1;
    }
    kept
}

} // verus!
