//! The ordered map at the heart of the store: string keys, typed values,
//! kept sorted by the natural lexicographic order of the keys.

use vstd::prelude::*;
use vstd::string::*;
use crate::data::{Data, DataView};

verus! {

/// Strict lexicographic order on texts, by character code point.
pub open spec fn lex_lt(a: Seq<char>, b: Seq<char>) -> bool
    decreases a.len(),
{
    if b.len() == 0 {
        false
    } else if a.len() == 0 {
        true
    } else if (a[0] as u32) < (b[0] as u32) {
        true
    } else if a[0] == b[0] {
        lex_lt(a.skip(1), b.skip(1))
    } else {
        false
    }
}

pub proof fn lemma_char_cast_inj(c1: char, c2: char)
    requires
        c1 as u32 == c2 as u32,
    ensures
        c1 == c2,
{
}

pub proof fn lemma_lex_irrefl(a: Seq<char>)
    ensures
        !lex_lt(a, a),
    decreases a.len(),
{
    if a.len() > 0 {
        lemma_lex_irrefl(a.skip(1));
    }
}

pub proof fn lemma_lex_trans(a: Seq<char>, b: Seq<char>, c: Seq<char>)
    requires
        lex_lt(a, b),
        lex_lt(b, c),
    ensures
        lex_lt(a, c),
    decreases a.len(),
{
    if a.len() > 0 && b.len() > 0 && c.len() > 0 {
        if a[0] == b[0] && b[0] == c[0] {
            lemma_lex_trans(a.skip(1), b.skip(1), c.skip(1));
        }
    }
}

pub proof fn lemma_lex_trichotomy(a: Seq<char>, b: Seq<char>)
    ensures
        lex_lt(a, b) || lex_lt(b, a) || a == b,
    decreases a.len(),
{
    if a.len() == 0 || b.len() == 0 {
        if a.len() == 0 && b.len() == 0 {
            assert(a =~= b);
        }
    } else {
        if a[0] as u32 == b[0] as u32 {
            lemma_char_cast_inj(a[0], b[0]);
            assert(a[0] == b[0]);
            lemma_lex_trichotomy(a.skip(1), b.skip(1));
            if lex_lt(a.skip(1), b.skip(1)) {
                assert(lex_lt(a, b));
            } else if lex_lt(b.skip(1), a.skip(1)) {
                assert(lex_lt(b, a));
            } else {
                assert(a.skip(1) == b.skip(1));
                assert(a.skip(1).len() == a.len() - 1);
                assert(b.skip(1).len() == b.len() - 1);
                assert(a.len() == b.len());
                assert forall|i: int| 0 <= i < a.len() implies a[i] == b[i] by {
                    if i > 0 {
                        assert(a.skip(1)[i - 1] == b.skip(1)[i - 1]);
                    }
                }
                assert(a =~= b);
            }
        }
    }
}

/// The entries of a store as a mathematical sequence of key/value pairs.
pub type Pairs = Seq<(Seq<char>, DataView)>;

/// The value stored under a key: the first pair whose key matches.
pub open spec fn pairs_get(ps: Pairs, k: Seq<char>) -> Option<DataView>
    decreases ps.len(),
{
    if ps.len() == 0 {
        None
    } else if ps[0].0 == k {
        Some(ps[0].1)
    } else {
        pairs_get(ps.skip(1), k)
    }
}

/// Insertion that keeps the pairs sorted by key, replacing an equal key.
pub open spec fn pairs_insert(ps: Pairs, k: Seq<char>, v: DataView) -> Pairs
    decreases ps.len(),
{
    if ps.len() == 0 {
        seq![(k, v)]
    } else if lex_lt(ps[0].0, k) {
        seq![ps[0]] + pairs_insert(ps.skip(1), k, v)
    } else if ps[0].0 == k {
        seq![(k, v)] + ps.skip(1)
    } else {
        seq![(k, v)] + ps
    }
}

/// Removal of the pair holding a key, if any.
pub open spec fn pairs_remove(ps: Pairs, k: Seq<char>) -> Pairs
    decreases ps.len(),
{
    if ps.len() == 0 {
        ps
    } else if ps[0].0 == k {
        ps.skip(1)
    } else {
        seq![ps[0]] + pairs_remove(ps.skip(1), k)
    }
}

/// Strictly ascending keys: sortedness, and hence uniqueness.
pub open spec fn sorted_pairs(ps: Pairs) -> bool {
    forall|i: int, j: int|
        0 <= i < j < ps.len() ==> lex_lt(#[trigger] ps[i].0, #[trigger] ps[j].0)
}

pub proof fn lemma_pairs_get_absent(ps: Pairs, k: Seq<char>)
    requires
        forall|i: int| 0 <= i < ps.len() ==> (#[trigger] ps[i].0) != k,
    ensures
        pairs_get(ps, k) is None,
    decreases ps.len(),
{
    if ps.len() > 0 {
        assert(forall|i: int|
            0 <= i < ps.skip(1).len() ==> (#[trigger] ps.skip(1)[i].0) == ps[i + 1].0);
        lemma_pairs_get_absent(ps.skip(1), k);
    }
}

pub proof fn lemma_pairs_get_at(ps: Pairs, i: int)
    requires
        sorted_pairs(ps),
        0 <= i < ps.len(),
    ensures
        pairs_get(ps, ps[i].0) is Some,
        pairs_get(ps, ps[i].0) == Some(ps[i].1),
    decreases ps.len(),
{
    if i > 0 {
        lemma_lex_irrefl(ps[i].0);
        assert(lex_lt(ps[0].0, ps[i].0));
        assert(ps[0].0 != ps[i].0);
        assert(forall|a: int, b: int|
            0 <= a < b < ps.skip(1).len() ==> lex_lt(
                #[trigger] ps.skip(1)[a].0,
                #[trigger] ps.skip(1)[b].0,
            ));
        lemma_pairs_get_at(ps.skip(1), i - 1);
    }
}

pub proof fn lemma_pairs_get_some_index(ps: Pairs, k: Seq<char>) -> (i: int)
    requires
        pairs_get(ps, k) is Some,
    ensures
        0 <= i < ps.len(),
        ps[i].0 == k,
    decreases ps.len(),
{
    if ps[0].0 == k {
        0
    } else {
        let j = lemma_pairs_get_some_index(ps.skip(1), k);
        j + 1
    }
}

/// Keys of an insertion: the new key, or one already present.
pub proof fn lemma_pairs_insert_keys(ps: Pairs, k: Seq<char>, v: DataView)
    ensures
        pairs_insert(ps, k, v).len() <= ps.len() + 1,
        forall|i: int|
            0 <= i < pairs_insert(ps, k, v).len() ==> ((#[trigger] pairs_insert(ps, k, v)[i].0)
                == k || exists|j: int| 0 <= j < ps.len() && ps[j].0 == pairs_insert(ps, k, v)[i].0),
    decreases ps.len(),
{
    let r = pairs_insert(ps, k, v);
    lemma_lex_irrefl(k);
    if ps.len() == 0 {
    } else if lex_lt(ps[0].0, k) {
        lemma_pairs_insert_keys(ps.skip(1), k, v);
        assert forall|i: int| 0 <= i < r.len() implies ((#[trigger] r[i].0) == k || exists|j: int|
            0 <= j < ps.len() && ps[j].0 == r[i].0) by {
            if i == 0 {
                assert(ps[0].0 == r[0].0);
            } else {
                let ri = r[i];
                assert(ri == pairs_insert(ps.skip(1), k, v)[i - 1]);
                if ri.0 != k {
                    let j = choose|j: int|
                        0 <= j < ps.skip(1).len() && ps.skip(1)[j].0 == pairs_insert(
                            ps.skip(1),
                            k,
                            v,
                        )[i - 1].0;
                    assert(ps[j + 1].0 == ri.0);
                }
            }
        }
    } else {
    }
}

/// Sortedness is preserved by insertion.
pub proof fn lemma_pairs_insert_sorted(ps: Pairs, k: Seq<char>, v: DataView)
    requires
        sorted_pairs(ps),
    ensures
        sorted_pairs(pairs_insert(ps, k, v)),
    decreases ps.len(),
{
    let r = pairs_insert(ps, k, v);
    lemma_lex_irrefl(k);
    if ps.len() == 0 {
    } else if lex_lt(ps[0].0, k) {
        let tail = ps.skip(1);
        assert(forall|a: int, b: int|
            0 <= a < b < tail.len() ==> lex_lt(#[trigger] tail[a].0, #[trigger] tail[b].0));
        lemma_pairs_insert_sorted(tail, k, v);
        lemma_pairs_insert_keys(tail, k, v);
        assert forall|i: int, j: int| 0 <= i < j < r.len() implies lex_lt(
            #[trigger] r[i].0,
            #[trigger] r[j].0,
        ) by {
            if i == 0 {
                let rj = pairs_insert(tail, k, v)[j - 1];
                assert(r[j] == rj);
                if rj.0 == k {
                } else {
                    let jj = choose|jj: int| 0 <= jj < tail.len() && tail[jj].0 == rj.0;
                    assert(lex_lt(ps[0].0, ps[jj + 1].0));
                }
            } else {
                assert(r[i] == pairs_insert(tail, k, v)[i - 1]);
                assert(r[j] == pairs_insert(tail, k, v)[j - 1]);
            }
        }
    } else if ps[0].0 == k {
        let tail = ps.skip(1);
        assert forall|i: int, j: int| 0 <= i < j < r.len() implies lex_lt(
            #[trigger] r[i].0,
            #[trigger] r[j].0,
        ) by {
            if i == 0 {
                assert(r[j] == ps[j]);
                assert(lex_lt(ps[0].0, ps[j].0));
            } else {
                assert(r[i] == ps[i] && r[j] == ps[j]);
            }
        }
    } else {
        lemma_lex_trichotomy(ps[0].0, k);
        assert(lex_lt(k, ps[0].0));
        assert forall|i: int, j: int| 0 <= i < j < r.len() implies lex_lt(
            #[trigger] r[i].0,
            #[trigger] r[j].0,
        ) by {
            if i == 0 {
                assert(r[j] == ps[j - 1]);
                if j == 1 {
                } else {
                    assert(lex_lt(ps[0].0, ps[j - 1].0));
                    lemma_lex_trans(k, ps[0].0, ps[j - 1].0);
                }
            } else {
                assert(r[i] == ps[i - 1] && r[j] == ps[j - 1]);
            }
        }
    }
}

/// Sortedness is preserved by removal.
pub proof fn lemma_pairs_remove_sorted(ps: Pairs, k: Seq<char>)
    requires
        sorted_pairs(ps),
    ensures
        sorted_pairs(pairs_remove(ps, k)),
        pairs_remove(ps, k).len() <= ps.len(),
        forall|i: int|
            0 <= i < pairs_remove(ps, k).len() ==> exists|j: int|
                0 <= j < ps.len() && ps[j] == (#[trigger] pairs_remove(ps, k)[i]),
    decreases ps.len(),
{
    let r = pairs_remove(ps, k);
    if ps.len() == 0 {
    } else if ps[0].0 == k {
        let tail = ps.skip(1);
        assert forall|i: int| 0 <= i < r.len() implies exists|j: int|
            0 <= j < ps.len() && ps[j] == (#[trigger] r[i]) by {
            assert(ps[i + 1] == r[i]);
        }
        assert forall|a: int, b: int| 0 <= a < b < r.len() implies lex_lt(
            #[trigger] r[a].0,
            #[trigger] r[b].0,
        ) by {
            assert(r[a] == ps[a + 1] && r[b] == ps[b + 1]);
        }
    } else {
        let tail = ps.skip(1);
        assert(forall|a: int, b: int|
            0 <= a < b < tail.len() ==> lex_lt(#[trigger] tail[a].0, #[trigger] tail[b].0));
        lemma_pairs_remove_sorted(tail, k);
        let rt = pairs_remove(tail, k);
        assert forall|i: int| 0 <= i < r.len() implies exists|j: int|
            0 <= j < ps.len() && ps[j] == (#[trigger] r[i]) by {
            if i == 0 {
                assert(ps[0] == r[0]);
            } else {
                assert(r[i] == rt[i - 1]);
                let j = choose|j: int| 0 <= j < tail.len() && tail[j] == rt[i - 1];
                assert(ps[j + 1] == r[i]);
            }
        }
        assert forall|a: int, b: int| 0 <= a < b < r.len() implies lex_lt(
            #[trigger] r[a].0,
            #[trigger] r[b].0,
        ) by {
            if a == 0 {
                assert(r[b] == rt[b - 1]);
                let j = choose|j: int| 0 <= j < tail.len() && tail[j] == rt[b - 1];
                assert(lex_lt(ps[0].0, tail[j].0));
            } else {
                assert(r[a] == rt[a - 1] && r[b] == rt[b - 1]);
            }
        }
    }
}

/// What insertion does to lookups: the new key maps to the new value,
/// every other key is untouched.
pub proof fn lemma_pairs_get_insert(ps: Pairs, k: Seq<char>, v: DataView, k2: Seq<char>)
    ensures
        pairs_get(pairs_insert(ps, k, v), k2) == if k2 == k {
            Some(v)
        } else {
            pairs_get(ps, k2)
        },
    decreases ps.len(),
{
    let r = pairs_insert(ps, k, v);
    lemma_lex_irrefl(k);
    if ps.len() == 0 {
        assert(r == seq![(k, v)]);
        assert(r.skip(1) =~= Seq::<(Seq<char>, DataView)>::empty());
    } else if lex_lt(ps[0].0, k) {
        lemma_lex_irrefl(ps[0].0);
        lemma_pairs_get_insert(ps.skip(1), k, v, k2);
        assert(r[0] == ps[0]);
        assert(r.skip(1) =~= pairs_insert(ps.skip(1), k, v));
        if k2 == ps[0].0 {
            assert(k2 != k);
            assert(pairs_get(r, k2) == Some(ps[0].1));
            assert(pairs_get(ps, k2) == Some(ps[0].1));
        } else {
            assert(pairs_get(r, k2) == pairs_get(pairs_insert(ps.skip(1), k, v), k2));
            assert(pairs_get(ps, k2) == pairs_get(ps.skip(1), k2));
        }
    } else if ps[0].0 == k {
        assert(r[0] == (k, v));
        assert(r.skip(1) =~= ps.skip(1));
        if k2 == k {
            assert(pairs_get(r, k2) == Some(v));
        } else {
            assert(pairs_get(r, k2) == pairs_get(ps.skip(1), k2));
            assert(pairs_get(ps, k2) == pairs_get(ps.skip(1), k2));
        }
    } else {
        assert(r[0] == (k, v));
        assert(r.skip(1) =~= ps);
        if k2 == k {
            assert(pairs_get(r, k2) == Some(v));
        } else {
            assert(pairs_get(r, k2) == pairs_get(ps, k2));
        }
    }
}

/// What removal does to lookups.
pub proof fn lemma_pairs_get_remove(ps: Pairs, k: Seq<char>, k2: Seq<char>)
    requires
        sorted_pairs(ps),
    ensures
        pairs_get(pairs_remove(ps, k), k2) == if k2 == k {
            None::<DataView>
        } else {
            pairs_get(ps, k2)
        },
    decreases ps.len(),
{
    let r = pairs_remove(ps, k);
    if ps.len() == 0 {
    } else if ps[0].0 == k {
        if k2 == k {
            assert forall|i: int| 0 <= i < ps.skip(1).len() implies (#[trigger] ps.skip(1)[i].0)
                != k by {
                lemma_lex_irrefl(ps[i + 1].0);
                assert(lex_lt(ps[0].0, ps[i + 1].0));
            }
            lemma_pairs_get_absent(ps.skip(1), k);
        }
    } else {
        let tail = ps.skip(1);
        assert(forall|a: int, b: int|
            0 <= a < b < tail.len() ==> lex_lt(#[trigger] tail[a].0, #[trigger] tail[b].0));
        lemma_pairs_get_remove(tail, k, k2);
        assert(r[0] == ps[0]);
        assert(r.skip(1) =~= pairs_remove(tail, k));
    }
}

/// Re-inserting the value a key already holds changes nothing.
pub proof fn lemma_pairs_insert_same(ps: Pairs, k: Seq<char>, v: DataView)
    requires
        sorted_pairs(ps),
        pairs_get(ps, k) == Some(v),
    ensures
        pairs_insert(ps, k, v) == ps,
    decreases ps.len(),
{
    let r = pairs_insert(ps, k, v);
    lemma_lex_irrefl(k);
    if ps[0].0 == k {
        assert(ps[0] == (k, v));
        assert(r =~= ps);
    } else if lex_lt(ps[0].0, k) {
        let tail = ps.skip(1);
        assert(forall|a: int, b: int|
            0 <= a < b < tail.len() ==> lex_lt(#[trigger] tail[a].0, #[trigger] tail[b].0));
        lemma_pairs_insert_same(tail, k, v);
        assert(r =~= ps);
    } else {
        lemma_lex_trichotomy(ps[0].0, k);
        assert(lex_lt(k, ps[0].0));
        let i = lemma_pairs_get_some_index(ps, k);
        if i > 0 {
            lemma_lex_trans(k, ps[0].0, ps[i].0);
            lemma_lex_irrefl(k);
        } else {
            lemma_lex_irrefl(k);
        }
    }
}

/// Removing a key that was just inserted over an absent key undoes the
/// insertion.
pub proof fn lemma_pairs_remove_insert(ps: Pairs, k: Seq<char>, v: DataView)
    requires
        pairs_get(ps, k) is None,
    ensures
        pairs_remove(pairs_insert(ps, k, v), k) == ps,
    decreases ps.len(),
{
    let r = pairs_insert(ps, k, v);
    lemma_lex_irrefl(k);
    if ps.len() == 0 {
        assert(pairs_remove(r, k) =~= ps);
    } else if lex_lt(ps[0].0, k) {
        lemma_pairs_remove_insert(ps.skip(1), k, v);
        assert(r[0] == ps[0]);
        assert(r.skip(1) =~= pairs_insert(ps.skip(1), k, v));
        assert(pairs_remove(r, k) =~= ps);
    } else {
        assert(ps[0].0 != k);
        assert(r[0] == (k, v));
        assert(r.skip(1) =~= ps);
        assert(pairs_remove(r, k) =~= ps);
    }
}

/// Inserting over an existing key and then restoring the prior value
/// undoes the insertion.
pub proof fn lemma_pairs_insert_insert(ps: Pairs, k: Seq<char>, v: DataView, w: DataView)
    ensures
        pairs_insert(pairs_insert(ps, k, v), k, w) == pairs_insert(ps, k, w),
    decreases ps.len(),
{
    let r = pairs_insert(ps, k, v);
    if ps.len() == 0 {
        lemma_lex_irrefl(k);
        assert(pairs_insert(r, k, w) =~= pairs_insert(ps, k, w));
    } else if lex_lt(ps[0].0, k) {
        lemma_pairs_insert_insert(ps.skip(1), k, v, w);
        assert(r[0] == ps[0]);
        assert(r.skip(1) =~= pairs_insert(ps.skip(1), k, v));
        assert(pairs_insert(r, k, w) =~= pairs_insert(ps, k, w));
    } else if ps[0].0 == k {
        lemma_lex_irrefl(k);
        assert(r[0] == (k, v));
        assert(r.skip(1) =~= ps.skip(1));
        assert(pairs_insert(r, k, w) =~= pairs_insert(ps, k, w));
    } else {
        lemma_lex_irrefl(k);
        assert(r[0] == (k, v));
        assert(r.skip(1) =~= ps);
        assert(pairs_insert(r, k, w) =~= pairs_insert(ps, k, w));
    }
}

/// Inserting a key above every present key appends the pair.
pub proof fn lemma_pairs_insert_append(ps: Pairs, k: Seq<char>, v: DataView)
    requires
        forall|i: int| 0 <= i < ps.len() ==> lex_lt((#[trigger] ps[i]).0, k),
    ensures
        pairs_insert(ps, k, v) == ps.push((k, v)),
    decreases ps.len(),
{
    if ps.len() == 0 {
        assert(pairs_insert(ps, k, v) =~= ps.push((k, v)));
    } else {
        assert(lex_lt(ps[0].0, k));
        let tail = ps.skip(1);
        assert(forall|i: int| 0 <= i < tail.len() ==> (#[trigger] tail[i]) == ps[i + 1]);
        lemma_pairs_insert_append(tail, k, v);
        assert(pairs_insert(ps, k, v) =~= ps.push((k, v)));
    }
}

/// Sortedness is preserved by deleting the entry at one position.
pub proof fn lemma_sorted_remove_idx(ps: Pairs, p: int)
    requires
        sorted_pairs(ps),
        0 <= p < ps.len(),
    ensures
        sorted_pairs(ps.remove(p)),
{
    let r = ps.remove(p);
    assert forall|a: int, b: int| 0 <= a < b < r.len() implies lex_lt(
        #[trigger] r[a].0,
        #[trigger] r[b].0,
    ) by {
        if a < p && b < p {
            assert(r[a] == ps[a] && r[b] == ps[b]);
        } else if a < p {
            assert(r[a] == ps[a] && r[b] == ps[b + 1]);
        } else {
            assert(r[a] == ps[a + 1] && r[b] == ps[b + 1]);
        }
    }
}

/// Where a scan that skips smaller keys stops, insertion either replaces
/// the entry found there or splices the new entry in at that position.
proof fn lemma_pairs_insert_position(ps: Pairs, k: Seq<char>, v: DataView, p: int)
    requires
        sorted_pairs(ps),
        0 <= p <= ps.len(),
        forall|i: int| 0 <= i < p ==> lex_lt(#[trigger] ps[i].0, k),
        p < ps.len() ==> !lex_lt(ps[p].0, k),
    ensures
        (p < ps.len() && ps[p].0 == k) ==> pairs_insert(ps, k, v) == ps.update(p, (k, v)),
        !(p < ps.len() && ps[p].0 == k) ==> pairs_insert(ps, k, v) == ps.insert(p, (k, v)),
    decreases p,
{
    let r = pairs_insert(ps, k, v);
    lemma_lex_irrefl(k);
    if p == 0 {
        if ps.len() == 0 {
            assert(r =~= ps.insert(0, (k, v)));
        } else if ps[0].0 == k {
            assert(r =~= ps.update(0, (k, v)));
        } else {
            assert(r =~= ps.insert(0, (k, v)));
        }
    } else {
        assert(lex_lt(ps[0].0, k));
        let tail = ps.skip(1);
        assert(forall|a: int, b: int|
            0 <= a < b < tail.len() ==> lex_lt(#[trigger] tail[a].0, #[trigger] tail[b].0));
        assert(forall|i: int| 0 <= i < p - 1 ==> lex_lt(#[trigger] tail[i].0, k));
        lemma_pairs_insert_position(tail, k, v, p - 1);
        assert(r == seq![ps[0]] + pairs_insert(tail, k, v));
        if p < ps.len() && ps[p].0 == k {
            assert(r =~= ps.update(p, (k, v)));
        } else {
            assert(r =~= ps.insert(p, (k, v)));
        }
    }
}

/// Where such a scan stops, removal either deletes the entry found there
/// or, when the key is absent, leaves the pairs unchanged.
proof fn lemma_pairs_remove_position(ps: Pairs, k: Seq<char>, p: int)
    requires
        sorted_pairs(ps),
        0 <= p <= ps.len(),
        forall|i: int| 0 <= i < p ==> lex_lt(#[trigger] ps[i].0, k),
        p < ps.len() ==> !lex_lt(ps[p].0, k),
    ensures
        (p < ps.len() && ps[p].0 == k) ==> pairs_remove(ps, k) == ps.remove(p),
        !(p < ps.len() && ps[p].0 == k) ==> pairs_remove(ps, k) == ps && pairs_get(ps, k)
            is None,
    decreases p,
{
    let r = pairs_remove(ps, k);
    lemma_lex_irrefl(k);
    if p == 0 {
        if ps.len() == 0 {
            lemma_pairs_get_absent(ps, k);
        } else if ps[0].0 == k {
            assert(r =~= ps.remove(0));
        } else {
            lemma_lex_trichotomy(ps[0].0, k);
            assert(lex_lt(k, ps[0].0));
            assert forall|i: int| 0 <= i < ps.len() implies (#[trigger] ps[i].0) != k by {
                if i > 0 {
                    lemma_lex_trans(k, ps[0].0, ps[i].0);
                }
                lemma_lex_irrefl(ps[i].0);
            }
            lemma_pairs_get_absent(ps, k);
            lemma_pairs_remove_unchanged(ps, k);
        }
    } else {
        assert(lex_lt(ps[0].0, k));
        assert(ps[0].0 != k);
        let tail = ps.skip(1);
        assert(forall|a: int, b: int|
            0 <= a < b < tail.len() ==> lex_lt(#[trigger] tail[a].0, #[trigger] tail[b].0));
        assert(forall|i: int| 0 <= i < p - 1 ==> lex_lt(#[trigger] tail[i].0, k));
        lemma_pairs_remove_position(tail, k, p - 1);
        assert(r == seq![ps[0]] + pairs_remove(tail, k));
        if p < ps.len() && ps[p].0 == k {
            assert(r =~= ps.remove(p));
        } else {
            assert(r =~= ps);
        }
    }
}

/// Removing an absent key changes nothing.
pub proof fn lemma_pairs_remove_unchanged(ps: Pairs, k: Seq<char>)
    requires
        pairs_get(ps, k) is None,
    ensures
        pairs_remove(ps, k) == ps,
    decreases ps.len(),
{
    if ps.len() > 0 {
        lemma_pairs_remove_unchanged(ps.skip(1), k);
        assert(pairs_remove(ps, k) =~= ps);
    } else {
        assert(pairs_remove(ps, k) =~= ps);
    }
}

/// Restoring the prior value of a removed key undoes the removal.
pub proof fn lemma_pairs_insert_remove(ps: Pairs, k: Seq<char>, w: DataView)
    requires
        sorted_pairs(ps),
        pairs_get(ps, k) == Some(w),
    ensures
        pairs_insert(pairs_remove(ps, k), k, w) == ps,
    decreases ps.len(),
{
    let r = pairs_remove(ps, k);
    if ps[0].0 == k {
        assert(r =~= ps.skip(1));
        assert(ps[0] == (k, w));
        if r.len() == 0 {
            assert(pairs_insert(r, k, w) =~= ps);
        } else {
            assert(lex_lt(ps[0].0, ps[1].0));
            lemma_lex_trichotomy(r[0].0, k);
            lemma_lex_irrefl(k);
            if lex_lt(r[0].0, k) {
                lemma_lex_trans(k, r[0].0, k);
            }
            assert(pairs_insert(r, k, w) =~= ps);
        }
    } else {
        let i = lemma_pairs_get_some_index(ps, k);
        assert(i > 0);
        assert(lex_lt(ps[0].0, k));
        let tail = ps.skip(1);
        assert(forall|a: int, b: int|
            0 <= a < b < tail.len() ==> lex_lt(#[trigger] tail[a].0, #[trigger] tail[b].0));
        assert(tail[i - 1].0 == k);
        lemma_pairs_get_at(tail, i - 1);
        lemma_pairs_insert_remove(tail, k, w);
        assert(r[0] == ps[0]);
        assert(r.skip(1) =~= pairs_remove(tail, k));
        assert(pairs_insert(r, k, w) =~= ps);
    }
}


/// Character-wise equality of two texts.
pub fn str_eq(a: &str, b: &str) -> (r: bool)
    ensures
        r == (a@ == b@),
{
    let na = a.unicode_len();
    let nb = b.unicode_len();
    if na != nb {
        return false;
    }
    let mut i: usize = 0;
    while i < na
        invariant
            i <= na,
            na == a@.len(),
            na == b@.len(),
            forall|t: int| 0 <= t < i ==> a@[t] == b@[t],
        decreases na - i,
    {
        let ca = a.get_char(i);
        let cb = b.get_char(i);
        if ca as u32 != cb as u32 {
            return false;
        }
        proof {
            lemma_char_cast_inj(ca, cb);
        }
        i += 1;
    }
    proof {
        assert(a@ =~= b@);
    }
    true
}

/// Whether one text orders strictly before another, lexicographically.
pub fn str_lt(a: &str, b: &str) -> (r: bool)
    ensures
        r == lex_lt(a@, b@),
{
    let na = a.unicode_len();
    let nb = b.unicode_len();
    proof {
        assert(a@.skip(0) =~= a@);
        assert(b@.skip(0) =~= b@);
    }
    let mut i: usize = 0;
    while i < na || i < nb
        invariant
            i <= na,
            i <= nb,
            na == a@.len(),
            nb == b@.len(),
            lex_lt(a@, b@) == lex_lt(a@.skip(i as int), b@.skip(i as int)),
        decreases na + nb - i - i,
    {
        if i >= nb {
            proof {
                assert(b@.skip(i as int).len() == 0);
            }
            return false;
        }
        if i >= na {
            proof {
                assert(a@.skip(i as int).len() == 0);
                assert(b@.skip(i as int).len() > 0);
            }
            return true;
        }
        let ca = a.get_char(i);
        let cb = b.get_char(i);
        proof {
            assert(a@.skip(i as int)[0] == a@[i as int]);
            assert(b@.skip(i as int)[0] == b@[i as int]);
        }
        if (ca as u32) < (cb as u32) {
            return true;
        }
        if (ca as u32) > (cb as u32) {
            proof {
                assert(!lex_lt(a@.skip(i as int), b@.skip(i as int)));
            }
            return false;
        }
        proof {
            lemma_char_cast_inj(ca, cb);
            assert(a@.skip(i as int).skip(1) =~= a@.skip(i + 1));
            assert(b@.skip(i as int).skip(1) =~= b@.skip(i + 1));
        }
        i += 1;
    }
    proof {
        assert(b@.skip(i as int).len() == 0);
    }
    false
}

/// The ordered map itself: entries kept strictly ascending by key.
#[derive(Debug)]
pub struct StoreMap {
    entries: Vec<(String, Data)>,
}

/// The pairs of a store read as a map from keys to values.
pub open spec fn pairs_as_map(ps: Pairs) -> Map<Seq<char>, DataView> {
    Map::new(|k: Seq<char>| pairs_get(ps, k) is Some, |k: Seq<char>| pairs_get(ps, k).unwrap())
}

impl View for StoreMap {
    type V = Map<Seq<char>, DataView>;

    open spec fn view(&self) -> Map<Seq<char>, DataView> {
        pairs_as_map(self.pairs())
    }
}

impl StoreMap {
    /// The entries as a sequence of key/value views, in key order.
    pub closed spec fn pairs(&self) -> Pairs {
        Seq::new(self.entries@.len() as nat, |i: int| (self.entries@[i].0@, self.entries@[i].1@))
    }

    #[verifier::type_invariant]
    pub(crate) open spec fn wf(self) -> bool {
        sorted_pairs(self.pairs())
    }

    /// An empty store.
    pub fn new() -> (m: StoreMap)
        ensures
            m@ == Map::<Seq<char>, DataView>::empty(),
            m.pairs().len() == 0,
    {
        let m = StoreMap { entries: Vec::new() };
        proof {
            assert(m@ =~= Map::<Seq<char>, DataView>::empty());
        }
        m
    }

    /// The number of entries.
    pub fn len(&self) -> (n: usize)
        ensures
            n == self.pairs().len(),
    {
        self.entries.len()
    }

    /// Whether the store holds no entry.
    pub fn is_empty(&self) -> (r: bool)
        ensures
            r == (self.pairs().len() == 0),
            r ==> self@ == Map::<Seq<char>, DataView>::empty(),
    {
        let r = self.entries.len() == 0;
        proof {
            if r {
                assert(self@ =~= Map::<Seq<char>, DataView>::empty());
            }
        }
        r
    }

    /// The key of the entry at a position, in key order.
    pub fn key_at(&self, i: usize) -> (k: &String)
        requires
            i < self.pairs().len(),
        ensures
            k@ == self.pairs()[i as int].0,
    {
        &self.entries[i].0
    }

    /// The value of the entry at a position, in key order.
    pub fn val_at(&self, i: usize) -> (v: &Data)
        requires
            i < self.pairs().len(),
        ensures
            v@ == self.pairs()[i as int].1,
    {
        &self.entries[i].1
    }

    /// The first position whose key is not below the given one.
    fn find_pos(&self, key: &str) -> (p: usize)
        ensures
            p <= self.pairs().len(),
            forall|i: int| 0 <= i < p ==> lex_lt(#[trigger] self.pairs()[i].0, key@),
            p < self.pairs().len() ==> !lex_lt(self.pairs()[p as int].0, key@),
    {
        let n = self.entries.len();
        let mut p: usize = 0;
        while p < n
            invariant
                p <= n,
                n == self.pairs().len(),
                forall|i: int| 0 <= i < p ==> lex_lt(#[trigger] self.pairs()[i].0, key@),
            decreases n - p,
        {
            if !str_lt(self.entries[p].0.as_str(), key) {
                return p;
            }
            proof {
                assert(self.pairs()[p as int].0 == self.entries@[p as int].0@);
            }
            p += 1;
        }
        p
    }

    /// Point lookup.
    pub fn get(&self, key: &str) -> (r: Option<&Data>)
        ensures
            r matches Some(v) ==> (self@.contains_key(key@) && v@ == self@[key@]),
            r is None ==> !self@.contains_key(key@),
    {
        proof {
            use_type_invariant(&*self);
        }
        let n = self.entries.len();
        let mut i: usize = 0;
        while i < n
            invariant
                i <= n,
                n == self.pairs().len(),
                forall|t: int| 0 <= t < i ==> (#[trigger] self.pairs()[t].0) != key@,
            decreases n - i,
        {
            if str_eq(self.entries[i].0.as_str(), key) {
                proof {
                    use_type_invariant(&*self);
                    assert(self.pairs()[i as int].0 == key@);
                    lemma_pairs_get_at(self.pairs(), i as int);
                }
                return Some(&self.entries[i].1);
            }
            i += 1;
        }
        proof {
            lemma_pairs_get_absent(self.pairs(), key@);
        }
        None
    }

    /// Whether a key is present.
    pub fn contains_key(&self, key: &str) -> (r: bool)
        ensures
            r == self@.contains_key(key@),
    {
        match self.get(key) {
            Some(_) => true,
            None => false,
        }
    }

    /// Upsert: stores the value under the key, keeping the entries
    /// sorted, and returns the value the key held before, if any.
    #[verifier::rlimit(40)]
    pub fn insert(&mut self, key: &str, value: Data) -> (prior: Option<Data>)
        ensures
            final(self).pairs() == pairs_insert(old(self).pairs(), key@, value@),
            final(self)@ == old(self)@.insert(key@, value@),
            prior matches Some(pv) ==> (old(self)@.contains_key(key@)
                && pv@ == old(self)@[key@]),
            prior is None ==> !old(self)@.contains_key(key@),
    {
        proof {
            use_type_invariant(&*self);
        }
        let ghost ps = self.pairs();
        let p = self.find_pos(key);
        proof {
            lemma_pairs_insert_position(ps, key@, value@, p as int);
            lemma_pairs_insert_sorted(ps, key@, value@);
        }
        let mut entries: Vec<(String, Data)> = Vec::new();
        proof {
            assert(sorted_pairs(StoreMap { entries: entries }.pairs()));
        }
        std::mem::swap(&mut entries, &mut self.entries);
        let ghost entries_pairs = Seq::new(
            entries@.len() as nat,
            |i: int| (entries@[i].0@, entries@[i].1@),
        );
        proof {
            assert(entries_pairs =~= ps);
        }
        let prior: Option<Data>;
        if p < entries.len() && str_eq(entries[p].0.as_str(), key) {
            proof {
                lemma_pairs_get_at(ps, p as int);
            }
            let prior_pair = entries.remove(p);
            entries.insert(p, (key.to_owned(), value));
            prior = Some(prior_pair.1);
        } else {
            proof {
                lemma_lex_irrefl(key@);
                if p < ps.len() {
                    lemma_lex_trichotomy(ps[p as int].0, key@);
                }
                assert forall|i: int| 0 <= i < ps.len() implies (#[trigger] ps[i].0) != key@ by {
                    lemma_lex_irrefl(ps[i].0);
                    if i >= p {
                        if p < ps.len() && i > p {
                            lemma_lex_trans(key@, ps[p as int].0, ps[i].0);
                        }
                    }
                }
                lemma_pairs_get_absent(ps, key@);
            }
            entries.insert(p, (key.to_owned(), value));
            prior = None;
        }
        proof {
            let new_pairs = Seq::new(
                entries@.len() as nat,
                |i: int| (entries@[i].0@, entries@[i].1@),
            );
            if prior is Some {
                assert(new_pairs =~= ps.update(p as int, (key@, value@)));
            } else {
                assert(new_pairs =~= ps.insert(p as int, (key@, value@)));
            }
            assert(new_pairs == pairs_insert(ps, key@, value@));
        }
        self.entries = entries;
        proof {
            assert(self.pairs() =~= pairs_insert(ps, key@, value@));
        }
        proof {
            assert forall|k2: Seq<char>| true implies #[trigger] pairs_get(
                self.pairs(),
                k2,
            ) == (if k2 == key@ {
                Some(value@)
            } else {
                pairs_get(ps, k2)
            }) by {
                lemma_pairs_get_insert(ps, key@, value@, k2);
            }
            assert(self@ =~= old(self)@.insert(key@, value@));
        }
        prior
    }

    /// Deletes the entry of a key and returns the value it held, if any.
    #[verifier::rlimit(100)]
    #[verifier::spinoff_prover]
    pub fn remove(&mut self, key: &str) -> (prior: Option<Data>)
        ensures
            final(self).pairs() == pairs_remove(old(self).pairs(), key@),
            final(self)@ == old(self)@.remove(key@),
            prior matches Some(pv) ==> (old(self)@.contains_key(key@)
                && pv@ == old(self)@[key@]),
            prior is None ==> !old(self)@.contains_key(key@),
    {
        proof {
            use_type_invariant(&*self);
        }
        let ghost ps = self.pairs();
        let p = self.find_pos(key);
        proof {
            lemma_pairs_remove_position(ps, key@, p as int);
        }
        let mut entries: Vec<(String, Data)> = Vec::new();
        proof {
            assert(sorted_pairs(StoreMap { entries: entries }.pairs()));
        }
        std::mem::swap(&mut entries, &mut self.entries);
        proof {
            assert(Seq::new(entries@.len() as nat, |i: int| (entries@[i].0@, entries@[i].1@))
                =~= ps);
        }
        let prior: Option<Data>;
        if p < entries.len() && str_eq(entries[p].0.as_str(), key) {
            proof {
                lemma_pairs_get_at(ps, p as int);
            }
            let prior_pair = entries.remove(p);
            prior = Some(prior_pair.1);
        } else {
            prior = None;
        }
        proof {
            let new_pairs = Seq::new(
                entries@.len() as nat,
                |i: int| (entries@[i].0@, entries@[i].1@),
            );
            if prior is Some {
                assert(new_pairs =~= ps.remove(p as int));
            } else {
                assert(new_pairs =~= ps);
            }
            assert(new_pairs == pairs_remove(ps, key@));
            if prior is Some {
                lemma_sorted_remove_idx(ps, p as int);
            }
        }
        self.entries = entries;
        proof {
            assert(self.pairs() == pairs_remove(ps, key@));
        }
        proof {
            assert forall|k2: Seq<char>| true implies #[trigger] pairs_get(
                self.pairs(),
                k2,
            ) == (if k2 == key@ {
                None::<DataView>
            } else {
                pairs_get(ps, k2)
            }) by {
                lemma_pairs_get_remove(ps, key@, k2);
            }
            assert(self@ =~= old(self)@.remove(key@));
        }
        prior
    }

    /// Empties the store.
    pub fn clear(&mut self)
        ensures
            final(self)@ == Map::<Seq<char>, DataView>::empty(),
            final(self).pairs().len() == 0,
    {
        let mut entries: Vec<(String, Data)> = Vec::new();
        proof {
            assert(sorted_pairs(StoreMap { entries: entries }.pairs()));
        }
        std::mem::swap(&mut entries, &mut self.entries);
        entries.truncate(0);
        self.entries = entries;
        proof {
            assert(self.pairs().len() == 0);
            assert(self@ =~= Map::<Seq<char>, DataView>::empty());
        }
    }
}

impl Clone for StoreMap {
    /// A deep copy holding the same entries.
    fn clone(&self) -> (r: Self)
        ensures
            r.pairs() == self.pairs(),
            r@ == self@,
    {
        proof {
            use_type_invariant(&*self);
        }
        let n = self.entries.len();
        let mut out: Vec<(String, Data)> = Vec::new();
        let mut i: usize = 0;
        while i < n
            invariant
                i <= n,
                n == self.entries@.len(),
                out@.len() == i,
                forall|t: int|
                    0 <= t < i ==> (#[trigger] out@[t].0)@ == self.entries@[t].0@ && out@[t].1@
                        == self.entries@[t].1@,
            decreases n - i,
    {
            let k = self.entries[i].0.clone();
            let v = self.entries[i].1.clone();
            out.push((k, v));
            i += 1;
        }
        proof {
            let out_pairs = Seq::new(out@.len() as nat, |t: int| (out@[t].0@, out@[t].1@));
            assert(out_pairs =~= self.pairs());
        }
        let r = StoreMap { entries: out };
        proof {
            assert(r.pairs() =~= self.pairs());
            assert(r@ =~= self@);
        }
        r
    }
}

} // verus!
