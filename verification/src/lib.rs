//! An immutable, sorted, string-keyed context map.
//!
//! A [`StrCtx`] is a persistent association from string keys to string
//! values, held as a canonical sequence: sorted by key, with no duplicate
//! keys. A base context is built with [`StrCtx::construct`]; specialized
//! child contexts are built with [`StrCtx::derive`], which layers
//! additional pairs over a parent without mutating it. Rendering, equality,
//! comparison and iteration all work over the canonical sequence.

use vstd::prelude::*;

pub mod model;
pub mod order;
pub mod render;

use crate::model::PairSeq;
use crate::model::as_map;
use crate::model::seq_cmp;
use crate::model::sorted_strict;
use crate::order::lex_lt;
use crate::order::str_lt;
use crate::render::render_items;
use crate::render::render_spec;
use std::sync::Arc;
use vstd::string::StringExecFns;

verus! {

/// An immutable, sorted string context map.
///
/// The canonical pairs sit behind shared, atomically reference-counted
/// storage, so cloning a context is a constant-time count increment and
/// a context can be handed to other threads without locking. The
/// derived equality, order and hash act on the canonical sequence and
/// so agree with the verified [`StrCtx::equals`] and [`StrCtx::compare`].
#[derive(Clone, Debug, PartialEq, Eq, PartialOrd, Ord, Hash)]
pub struct StrCtx {
    entries: Arc<Vec<(String, String)>>,
}

impl View for StrCtx {
    type V = PairSeq;

    closed spec fn view(&self) -> PairSeq {
        pairs_view(self.entries@)
    }
}

/// The mathematical content of a sequence of string pairs.
pub open spec fn pairs_view(s: Seq<(String, String)>) -> PairSeq {
    s.map_values(|p: (String, String)| (p.0@, p.1@))
}

/// Copies a sequence of pairs, content for content.
fn clone_pairs(src: &Vec<(String, String)>) -> (out: Vec<(String, String)>)
    ensures
        pairs_view(out@) == pairs_view(src@),
{
    let mut out: Vec<(String, String)> = Vec::new();
    let n = src.len();
    let mut i: usize = 0;
    proof {
        assert(pairs_view(out@) =~= pairs_view(src@).take(0));
    }
    while i < n
        invariant
            n == src@.len(),
            i <= n,
            pairs_view(out@) == pairs_view(src@).take(i as int),
        decreases n - i,
    {
        let k = src[i].0.clone();
        let v = src[i].1.clone();
        let ghost pre = out@;
        out.push((k, v));
        proof {
            assert(k == src@[i as int].0);
            assert(v == src@[i as int].1);
            assert(pairs_view(pre).len() == pre.len());
            assert(pre.len() == i);
            assert(out@ == pre.push((k, v)));
            assert(out@[i as int] == (k, v));
            assert(pairs_view(out@)[i as int] == (k@, v@));
            assert(pairs_view(src@)[i as int] == (src@[i as int].0@, src@[i as int].1@));
            assert forall|m: int| 0 <= m < i implies pairs_view(out@)[m] == pairs_view(src@).take(
                i + 1,
            )[m] by {
                assert(out@[m] == pre[m]);
                assert(pairs_view(pre)[m] == pairs_view(src@).take(i as int)[m]);
            }
            assert(pairs_view(out@) =~= pairs_view(src@).take(i + 1));
        }
        i = i + 1;
    }
    proof {
        assert(pairs_view(src@).take(n as int) =~= pairs_view(src@));
    }
    out
}

/// Places one pair into a canonical sequence, keeping it canonical:
/// a pair with a fresh key goes to its sorted position, and a pair with
/// a known key replaces that key's value.
fn insert_pair(entries: &mut Vec<(String, String)>, key: String, value: String)
    requires
        sorted_strict(pairs_view(old(entries)@)),
    ensures
        sorted_strict(pairs_view(final(entries)@)),
        as_map(pairs_view(final(entries)@)) == as_map(pairs_view(old(entries)@)).insert(
            key@,
            value@,
        ),
{
    let ghost s = pairs_view(old(entries)@);
    let mut i: usize = 0;
    loop
        invariant
            sorted_strict(s),
            entries@ == old(entries)@,
            s == pairs_view(entries@),
            i <= s.len(),
            forall|j: int| 0 <= j < i ==> lex_lt((#[trigger] s[j]).0, key@),
        ensures
            entries@ == old(entries)@,
            i <= s.len(),
            forall|j: int| 0 <= j < i ==> lex_lt((#[trigger] s[j]).0, key@),
            i < s.len() ==> !lex_lt(s[i as int].0, key@),
        decreases s.len() - i,
    {
        if i == entries.len() {
            break;
        }
        let below = str_lt(entries[i].0.as_str(), key.as_str());
        if !below {
            break;
        }
        proof {
            assert(s[i as int].0 == entries@[i as int].0@);
        }
        i = i + 1;
    }
    let mut replace = false;
    if i < entries.len() {
        if entries[i].0 == key {
            replace = true;
        }
        proof {
            assert(s[i as int].0 == entries@[i as int].0@);
        }
    }
    let ghost p = (key@, value@);
    if replace {
        entries[i] = (key, value);
        proof {
            assert(s[i as int].0 == p.0);
            assert forall|j: int| 0 <= j < s.len() && j != i implies (#[trigger] s[j]).0
                != p.0 by {
                if j < i {
                    if s[j].0 == p.0 {
                        crate::order::lemma_lex_lt_irrefl(p.0);
                    }
                } else {
                    assert(lex_lt(s[i as int].0, s[j].0));
                    if s[j].0 == p.0 {
                        crate::order::lemma_lex_lt_irrefl(p.0);
                    }
                }
            }
            let t = s.update(i as int, p);
            assert(pairs_view(entries@) =~= t);
            crate::model::lemma_as_map_update(s, i as int, p);
            assert forall|m: int, n: int| 0 <= m < n < t.len() implies lex_lt(
                (#[trigger] t[m]).0,
                (#[trigger] t[n]).0,
            ) by {
                assert(t[m].0 == s[m].0);
                assert(t[n].0 == s[n].0);
            }
        }
    } else {
        proof {
            if i < s.len() {
                crate::order::lemma_lex_lt_total(key@, s[i as int].0);
                assert(s[i as int].0 != key@);
                assert(lex_lt(key@, s[i as int].0));
            }
            assert forall|j: int| i <= j < s.len() implies lex_lt(p.0, (#[trigger] s[j]).0) by {
                assert(lex_lt(key@, s[i as int].0));
                if j > i {
                    assert(lex_lt(s[i as int].0, s[j].0));
                    crate::order::lemma_lex_lt_trans(key@, s[i as int].0, s[j].0);
                }
            }
            assert forall|j: int| 0 <= j < s.len() implies (#[trigger] s[j]).0 != p.0 by {
                if s[j].0 == p.0 {
                    crate::order::lemma_lex_lt_irrefl(p.0);
                }
            }
        }
        entries.insert(i, (key, value));
        proof {
            let t = s.insert(i as int, p);
            assert(pairs_view(entries@) =~= t);
            crate::model::lemma_as_map_insert_at(s, i as int, p);
            assert forall|m: int, n: int| 0 <= m < n < t.len() implies lex_lt(
                (#[trigger] t[m]).0,
                (#[trigger] t[n]).0,
            ) by {
                crate::order::lemma_lex_lt_trans(t[m].0, p.0, t[n].0);
            }
        }
    }
}

impl StrCtx {
    /// Every live context holds a canonical sequence.
    pub open spec fn wf(self) -> bool {
        sorted_strict(self@)
    }

    /// Builds a context map from key/value pairs. The result is
    /// canonical: sorted by key and deduplicated, with the later of two
    /// pairs sharing a key supplying the key's value.
    pub fn construct(pairs: Vec<(String, String)>) -> (r: StrCtx)
        ensures
            r.wf(),
            as_map(r@) == as_map(pairs_view(pairs@)),
    {
        let mut entries: Vec<(String, String)> = Vec::new();
        let n = pairs.len();
        let mut idx: usize = 0;
        proof {
            assert(pairs_view(entries@).len() == 0);
            assert(as_map(pairs_view(entries@)) =~= as_map(pairs_view(pairs@).take(0)));
        }
        while idx < n
            invariant
                n == pairs@.len(),
                idx <= n,
                sorted_strict(pairs_view(entries@)),
                as_map(pairs_view(entries@)) == as_map(pairs_view(pairs@).take(idx as int)),
            decreases n - idx,
        {
            let k = pairs[idx].0.clone();
            let v = pairs[idx].1.clone();
            insert_pair(&mut entries, k, v);
            proof {
                let pv = pairs_view(pairs@);
                assert(pv.take(idx + 1) =~= pv.take(idx as int).push(pv[idx as int]));
                crate::model::lemma_as_map_push(pv.take(idx as int), pv[idx as int]);
            }
            idx = idx + 1;
        }
        proof {
            assert(pairs_view(pairs@).take(n as int) =~= pairs_view(pairs@));
        }
        StrCtx { entries: Arc::new(entries) }
    }

    /// Derives a child context: every pair of `self`, overlaid with the
    /// pairs of `additions`. A key present on both sides takes the value
    /// from `additions`; `self` is not changed. Deriving with no
    /// additions yields a context equal to `self`.
    pub fn derive(&self, additions: Vec<(String, String)>) -> (r: StrCtx)
        requires
            self.wf(),
        ensures
            r.wf(),
            as_map(r@) == as_map(self@ + pairs_view(additions@)),
            as_map(r@) == as_map(self@).union_prefer_right(as_map(pairs_view(additions@))),
            additions@.len() == 0 ==> r@ == self@,
    {
        let mut entries = clone_pairs(&self.entries);
        proof {
            assert(self@ + pairs_view(additions@).take(0) =~= self@);
        }
        let na = additions.len();
        let mut j: usize = 0;
        while j < na
            invariant
                na == additions@.len(),
                j <= na,
                sorted_strict(pairs_view(entries@)),
                as_map(pairs_view(entries@)) == as_map(
                    self@ + pairs_view(additions@).take(j as int),
                ),
            decreases na - j,
        {
            let k = additions[j].0.clone();
            let v = additions[j].1.clone();
            insert_pair(&mut entries, k, v);
            proof {
                let av = pairs_view(additions@);
                assert(self@ + av.take(j + 1) =~= (self@ + av.take(j as int)).push(av[j as int]));
                crate::model::lemma_as_map_push(self@ + av.take(j as int), av[j as int]);
            }
            j = j + 1;
        }
        proof {
            assert(pairs_view(additions@).take(na as int) =~= pairs_view(additions@));
            crate::model::lemma_as_map_concat(self@, pairs_view(additions@));
        }
        let r = StrCtx { entries: Arc::new(entries) };
        proof {
            if additions@.len() == 0 {
                assert(self@ + pairs_view(additions@) =~= self@);
                crate::model::lemma_canonical_unique(r@, self@);
            }
        }
        r
    }

    /// Renders the context in its canonical textual form, a pure
    /// function of the canonical content: `[k1:v1,k2:v2]`, the pairs in
    /// sorted key order, or `[]` when empty. The debug and display forms
    /// of a context are both this string.
    pub fn render(&self) -> (out: String)
        ensures
            out@ == render_spec(self@),
    {
        let mut out = "[".to_owned();
        proof {
            reveal_strlit("[");
            reveal_strlit("]");
            reveal_strlit(",");
            reveal_strlit(":");
            assert(out@ =~= seq!['['] + render_items(self@.take(0)));
        }
        let n = self.entries.len();
        let mut i: usize = 0;
        while i < n
            invariant
                n == self.entries@.len(),
                i <= n,
                out@ == seq!['['] + render_items(self@.take(i as int)),
            decreases n - i,
        {
            proof {
                reveal_strlit(",");
                reveal_strlit(":");
            }
            if i > 0 {
                out.append(",");
            }
            out.append(self.entries[i].0.as_str());
            out.append(":");
            out.append(self.entries[i].1.as_str());
            proof {
                let t = self@.take(i + 1);
                assert(t.drop_last() =~= self@.take(i as int));
                assert(t.last() == self@[i as int]);
                assert(self@[i as int] == (self.entries@[i as int].0@, self.entries@[
                    i as int
                ].1@));
                assert(out@ =~= seq!['['] + render_items(t));
            }
            i = i + 1;
        }
        out.append("]");
        proof {
            reveal_strlit("]");
            assert(self@.take(n as int) =~= self@);
            assert(out@ =~= render_spec(self@));
        }
        out
    }

    /// The number of pairs held.
    pub fn len(&self) -> (n: usize)
        ensures
            n == self@.len(),
    {
        self.entries.len()
    }

    /// Read access without copying: the canonical pairs, in sorted key
    /// order. The context is immutable, so the slice can be walked any
    /// number of times.
    pub fn pairs(&self) -> (r: &Vec<(String, String)>)
        ensures
            pairs_view(r@) == self@,
    {
        &self.entries
    }

    /// The pair at a position of the canonical order.
    pub fn get(&self, i: usize) -> (p: &(String, String))
        requires
            i < self@.len(),
        ensures
            (p.0@, p.1@) == self@[i as int],
    {
        &self.entries[i]
    }

    /// Owned copies of the canonical pairs, in sorted key order, for
    /// rebuilding or transferring the content. The context itself is
    /// unaffected and can be read again.
    pub fn to_pairs(&self) -> (r: Vec<(String, String)>)
        ensures
            pairs_view(r@) == self@,
    {
        clone_pairs(&self.entries)
    }

    /// Structural equality of the canonical sequences, which is
    /// semantic equality of the maps they denote: two contexts are
    /// equal exactly when they hold the same keys with the same values,
    /// however that content was assembled.
    pub fn equals(&self, other: &StrCtx) -> (r: bool)
        requires
            self.wf(),
            other.wf(),
        ensures
            r == (self@ == other@),
            r == (as_map(self@) == as_map(other@)),
    {
        proof {
            if as_map(self@) == as_map(other@) {
                crate::model::lemma_canonical_unique(self@, other@);
            }
        }
        let n = self.entries.len();
        if n != other.entries.len() {
            return false;
        }
        let mut i: usize = 0;
        while i < n
            invariant
                n == self@.len(),
                n == other@.len(),
                i <= n,
                self@ == other@ ==> as_map(self@) == as_map(other@),
                as_map(self@) == as_map(other@) ==> self@ == other@,
                forall|j: int| 0 <= j < i ==> self@[j] == other@[j],
            decreases n - i,
        {
            proof {
                assert(self@[i as int] == (self.entries@[i as int].0@, self.entries@[
                    i as int
                ].1@));
                assert(other@[i as int] == (other.entries@[i as int].0@, other.entries@[
                    i as int
                ].1@));
            }
            if !(self.entries[i].0 == other.entries[i].0) {
                return false;
            }
            if !(self.entries[i].1 == other.entries[i].1) {
                return false;
            }
            proof {
                assert(self@[i as int] =~= other@[i as int]);
            }
            i = i + 1;
        }
        proof {
            assert(self@ =~= other@);
        }
        true
    }

    /// The total order on contexts: lexicographic comparison of the
    /// canonical sequences, each pair compared by key and then by
    /// value. Two contexts compare as equal exactly when their
    /// canonical content is equal.
    pub fn compare(&self, other: &StrCtx) -> (r: core::cmp::Ordering)
        ensures
            r == seq_cmp(self@, other@),
            (r == core::cmp::Ordering::Equal) <==> self@ == other@,
    {
        proof {
            crate::model::lemma_seq_cmp_eq(self@, other@);
            assert(self@.skip(0) =~= self@);
            assert(other@.skip(0) =~= other@);
        }
        let n = self.entries.len();
        let m = other.entries.len();
        let mut i: usize = 0;
        loop
            invariant
                i <= n,
                i <= m,
                n == self@.len(),
                m == other@.len(),
                seq_cmp(self@, other@) == seq_cmp(self@.skip(i as int), other@.skip(i as int)),
                (seq_cmp(self@, other@) == core::cmp::Ordering::Equal) <==> self@ == other@,
            decreases n - i,
        {
            if i == n && i == m {
                return core::cmp::Ordering::Equal;
            }
            if i == n {
                return core::cmp::Ordering::Less;
            }
            if i == m {
                return core::cmp::Ordering::Greater;
            }
            proof {
                assert(self@[i as int] == (self.entries@[i as int].0@, self.entries@[
                    i as int
                ].1@));
                assert(other@[i as int] == (other.entries@[i as int].0@, other.entries@[
                    i as int
                ].1@));
                assert(self@.skip(i as int)[0] == self@[i as int]);
                assert(other@.skip(i as int)[0] == other@[i as int]);
            }
            if !(self.entries[i].0 == other.entries[i].0) {
                if str_lt(self.entries[i].0.as_str(), other.entries[i].0.as_str()) {
                    return core::cmp::Ordering::Less;
                } else {
                    return core::cmp::Ordering::Greater;
                }
            }
            if !(self.entries[i].1 == other.entries[i].1) {
                if str_lt(self.entries[i].1.as_str(), other.entries[i].1.as_str()) {
                    return core::cmp::Ordering::Less;
                } else {
                    return core::cmp::Ordering::Greater;
                }
            }
            proof {
                assert(self@.skip(i as int).drop_first() =~= self@.skip(i + 1));
                assert(other@.skip(i as int).drop_first() =~= other@.skip(i + 1));
            }
            i = i + 1;
        }
    }
}

} // verus!
