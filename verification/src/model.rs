//! The semantic model of a context map.
//!
//! A sequence of key/value pairs denotes a finite map in which a later
//! pair overrides an earlier one with the same key (last wins). The
//! canonical form of such a map is the unique strictly key-sorted
//! sequence denoting it.

use vstd::prelude::*;
use vstd::map::*;
use core::cmp::Ordering;
use crate::order::lex_lt;
use crate::order::lemma_lex_lt_irrefl;
use crate::order::lemma_lex_lt_asym;
use crate::order::lemma_lex_lt_total;

verus! {

/// The content of a sequence of pairs, as string sequences.
pub type PairSeq = Seq<(Seq<char>, Seq<char>)>;

/// The finite map denoted by a sequence of pairs, with last-wins
/// resolution of duplicate keys.
pub open spec fn as_map(s: PairSeq) -> Map<Seq<char>, Seq<char>>
    decreases s.len(),
{
    if s.len() == 0 {
        Map::empty()
    } else {
        as_map(s.drop_last()).insert(s.last().0, s.last().1)
    }
}

/// Appending a pair inserts its binding into the denoted map.
pub proof fn lemma_as_map_push(s: PairSeq, p: (Seq<char>, Seq<char>))
    ensures
        as_map(s.push(p)) == as_map(s).insert(p.0, p.1),
{
    assert(s.push(p).drop_last() =~= s);
    assert(s.push(p).last() == p);
}

/// A key is in the denoted map exactly when some pair carries it.
pub proof fn lemma_as_map_contains_key(s: PairSeq, k: Seq<char>)
    ensures
        as_map(s).dom().contains(k) <==> exists|i: int|
            0 <= i < s.len() && (#[trigger] s[i]).0 == k,
    decreases s.len(),
{
    if s.len() > 0 {
        let t = s.drop_last();
        lemma_as_map_contains_key(t, k);
        if as_map(s).dom().contains(k) {
            if k == s.last().0 {
                assert(s[s.len() - 1].0 == k);
            } else {
                let i = choose|i: int| 0 <= i < t.len() && (#[trigger] t[i]).0 == k;
                assert(t[i] == s[i]);
                assert(s[i].0 == k);
            }
        }
        if exists|i: int| 0 <= i < s.len() && (#[trigger] s[i]).0 == k {
            let i = choose|i: int| 0 <= i < s.len() && (#[trigger] s[i]).0 == k;
            if i < s.len() - 1 {
                assert(t[i] == s[i]);
                assert(t[i].0 == k);
                assert(as_map(t).dom().contains(k));
            }
        }
    }
}

/// The pair whose key has no later occurrence supplies the key's value:
/// last wins.
pub proof fn lemma_as_map_last_wins(s: PairSeq, i: int)
    requires
        0 <= i < s.len(),
        forall|j: int| i < j < s.len() ==> (#[trigger] s[j]).0 != s[i].0,
    ensures
        as_map(s).contains_pair(s[i].0, s[i].1),
    decreases s.len(),
{
    if i < s.len() - 1 {
        let t = s.drop_last();
        assert(t[i] == s[i]);
        assert forall|j: int| i < j < t.len() implies (#[trigger] t[j]).0 != t[i].0 by {
            assert(t[j] == s[j]);
        }
        lemma_as_map_last_wins(t, i);
        assert(s[s.len() - 1].0 != s[i].0);
    }
}

/// Concatenation denotes the override-union of the two maps, with the
/// right-hand side winning.
pub proof fn lemma_as_map_concat(a: PairSeq, b: PairSeq)
    ensures
        as_map(a + b) == as_map(a).union_prefer_right(as_map(b)),
    decreases b.len(),
{
    if b.len() == 0 {
        assert(a + b =~= a);
        assert(as_map(a).union_prefer_right(Map::empty()) =~= as_map(a));
    } else {
        let bt = b.drop_last();
        lemma_as_map_concat(a, bt);
        assert((a + b).drop_last() =~= a + bt);
        assert((a + b).last() == b.last());
        assert(as_map(a).union_prefer_right(as_map(bt)).insert(b.last().0, b.last().1)
            =~= as_map(a).union_prefer_right(as_map(bt).insert(b.last().0, b.last().1)));
    }
}

/// Inserting a pair with a fresh key, at any position, inserts its
/// binding into the denoted map.
pub proof fn lemma_as_map_insert_at(s: PairSeq, i: int, p: (Seq<char>, Seq<char>))
    requires
        0 <= i <= s.len(),
        forall|j: int| 0 <= j < s.len() ==> (#[trigger] s[j]).0 != p.0,
    ensures
        as_map(s.insert(i, p)) == as_map(s).insert(p.0, p.1),
    decreases s.len(),
{
    let t = s.insert(i, p);
    if i == s.len() {
        assert(t =~= s.push(p));
        lemma_as_map_push(s, p);
    } else {
        let st = s.drop_last();
        assert(t.drop_last() =~= st.insert(i, p));
        assert(t.last() == s.last());
        assert forall|j: int| 0 <= j < st.len() implies (#[trigger] st[j]).0 != p.0 by {
            assert(st[j] == s[j]);
        }
        lemma_as_map_insert_at(st, i, p);
        assert(s[s.len() - 1].0 != p.0);
        assert(as_map(st).insert(p.0, p.1).insert(s.last().0, s.last().1)
            =~= as_map(st).insert(s.last().0, s.last().1).insert(p.0, p.1));
    }
}

/// Overwriting the one pair that carries a key updates the key's
/// binding in the denoted map.
pub proof fn lemma_as_map_update(s: PairSeq, i: int, p: (Seq<char>, Seq<char>))
    requires
        0 <= i < s.len(),
        s[i].0 == p.0,
        forall|j: int| 0 <= j < s.len() && j != i ==> (#[trigger] s[j]).0 != p.0,
    ensures
        as_map(s.update(i, p)) == as_map(s).insert(p.0, p.1),
    decreases s.len(),
{
    let t = s.update(i, p);
    let st = s.drop_last();
    if i == s.len() - 1 {
        assert(t.drop_last() =~= st);
        assert(t.last() == p);
        assert(as_map(st).insert(s[i].0, s[i].1).insert(p.0, p.1)
            =~= as_map(st).insert(p.0, p.1));
    } else {
        assert(t.drop_last() =~= st.update(i, p));
        assert(t.last() == s.last());
        assert(st[i] == s[i]);
        assert forall|j: int| 0 <= j < st.len() && j != i implies (#[trigger] st[j]).0 != p.0 by {
            assert(st[j] == s[j]);
        }
        lemma_as_map_update(st, i, p);
        assert(s[s.len() - 1].0 != p.0);
        assert(as_map(st).insert(p.0, p.1).insert(s.last().0, s.last().1)
            =~= as_map(st).insert(s.last().0, s.last().1).insert(p.0, p.1));
    }
}

/// Three-way comparison of pairs: by key, then by value.
pub open spec fn pair_cmp(p: (Seq<char>, Seq<char>), q: (Seq<char>, Seq<char>)) -> Ordering {
    if p.0 != q.0 {
        if lex_lt(p.0, q.0) {
            Ordering::Less
        } else {
            Ordering::Greater
        }
    } else if p.1 != q.1 {
        if lex_lt(p.1, q.1) {
            Ordering::Less
        } else {
            Ordering::Greater
        }
    } else {
        Ordering::Equal
    }
}

/// Lexicographic three-way comparison of pair sequences: the first
/// differing pair decides; a proper prefix orders first.
pub open spec fn seq_cmp(a: PairSeq, b: PairSeq) -> Ordering
    decreases a.len(),
{
    if a.len() == 0 && b.len() == 0 {
        Ordering::Equal
    } else if a.len() == 0 {
        Ordering::Less
    } else if b.len() == 0 {
        Ordering::Greater
    } else if pair_cmp(a[0], b[0]) != Ordering::Equal {
        pair_cmp(a[0], b[0])
    } else {
        seq_cmp(a.drop_first(), b.drop_first())
    }
}

/// The comparison finds equality exactly on equal sequences.
pub proof fn lemma_seq_cmp_eq(a: PairSeq, b: PairSeq)
    ensures
        (seq_cmp(a, b) == Ordering::Equal) <==> a == b,
    decreases a.len(),
{
    if a.len() == 0 && b.len() == 0 {
        assert(a =~= b);
    } else if a.len() > 0 && b.len() > 0 {
        if pair_cmp(a[0], b[0]) == Ordering::Equal {
            assert(a[0] =~= b[0]);
            lemma_seq_cmp_eq(a.drop_first(), b.drop_first());
            if a.drop_first() == b.drop_first() {
                assert(a.len() == b.len());
                assert forall|i: int| 0 <= i < a.len() implies a[i] == b[i] by {
                    if i > 0 {
                        assert(a[i] == a.drop_first()[i - 1]);
                        assert(b[i] == b.drop_first()[i - 1]);
                    }
                }
                assert(a =~= b);
            }
        }
    }
}

/// Strict sortedness by key, the canonical-form invariant.
pub open spec fn sorted_strict(s: PairSeq) -> bool {
    forall|i: int, j: int| 0 <= i < j < s.len() ==> lex_lt((#[trigger] s[i]).0, (#[trigger] s[j]).0)
}

/// A canonical sequence is determined by the map it denotes: two
/// strictly sorted sequences denoting the same map are equal. Equality
/// of context maps is therefore invariant to the insertion order by
/// which their content was assembled.
pub proof fn lemma_canonical_unique(a: PairSeq, b: PairSeq)
    requires
        sorted_strict(a),
        sorted_strict(b),
        as_map(a) == as_map(b),
    ensures
        a == b,
    decreases a.len(),
{
    if a.len() == 0 {
        if b.len() > 0 {
            lemma_as_map_contains_key(b, b[0].0);
            assert(as_map(b).dom().contains(b[0].0));
            assert(false);
        }
        assert(a =~= b);
    } else if b.len() == 0 {
        lemma_as_map_contains_key(a, a[0].0);
        assert(as_map(a).dom().contains(a[0].0));
        assert(false);
    } else {
        let ka = a.last().0;
        let kb = b.last().0;
        assert(a[a.len() - 1].0 == ka);
        assert(b[b.len() - 1].0 == kb);
        // The largest key of each side occurs on the other side too,
        // so the two largest keys coincide.
        lemma_as_map_contains_key(a, ka);
        lemma_as_map_contains_key(b, ka);
        lemma_as_map_contains_key(a, kb);
        lemma_as_map_contains_key(b, kb);
        assert(as_map(b).dom().contains(ka));
        let j = choose|j: int| 0 <= j < b.len() && (#[trigger] b[j]).0 == ka;
        assert(as_map(a).dom().contains(kb));
        let j2 = choose|j2: int| 0 <= j2 < a.len() && (#[trigger] a[j2]).0 == kb;
        if ka != kb {
            assert(j < b.len() - 1);
            assert(lex_lt(b[j].0, kb));
            assert(j2 < a.len() - 1);
            assert(lex_lt(a[j2].0, ka));
            lemma_lex_lt_asym(ka, kb);
            assert(false);
        }
        // Both maps give the shared largest key its last value.
        assert(as_map(a)[ka] == a.last().1);
        assert(as_map(b)[kb] == b.last().1);
        assert(a.last() =~= b.last());
        // The shared largest key occurs nowhere earlier, so dropping the
        // last pair removes exactly that binding on both sides.
        let at = a.drop_last();
        let bt = b.drop_last();
        lemma_as_map_contains_key(at, ka);
        lemma_as_map_contains_key(bt, kb);
        assert forall|i: int| 0 <= i < at.len() implies (#[trigger] at[i]).0 != ka by {
            assert(at[i] == a[i]);
            assert(lex_lt(a[i].0, ka));
            if at[i].0 == ka {
                lemma_lex_lt_irrefl(ka);
            }
        }
        assert forall|i: int| 0 <= i < bt.len() implies (#[trigger] bt[i]).0 != kb by {
            assert(bt[i] == b[i]);
            assert(lex_lt(b[i].0, kb));
            if bt[i].0 == kb {
                lemma_lex_lt_irrefl(kb);
            }
        }
        assert(!as_map(at).dom().contains(ka));
        assert(!as_map(bt).dom().contains(kb));
        assert(as_map(at) =~= as_map(a).remove(ka));
        assert(as_map(bt) =~= as_map(b).remove(kb));
        assert forall|i: int, j: int| 0 <= i < j < at.len()
            implies lex_lt((#[trigger] at[i]).0, (#[trigger] at[j]).0) by {
            assert(at[i] == a[i]);
            assert(at[j] == a[j]);
        }
        assert forall|i: int, j: int| 0 <= i < j < bt.len()
            implies lex_lt((#[trigger] bt[i]).0, (#[trigger] bt[j]).0) by {
            assert(bt[i] == b[i]);
            assert(bt[j] == b[j]);
        }
        lemma_canonical_unique(at, bt);
        assert forall|i: int| 0 <= i < a.len() implies a[i] == b[i] by {
            if i < a.len() - 1 {
                assert(a[i] == at[i]);
                assert(b[i] == bt[i]);
            } else {
                assert(a[i] == a.last());
                assert(b[i] == b.last());
            }
        }
        assert(a =~= b);
    }
}

} // verus!
