//! The textual form of a context map.
//!
//! A context renders as `[`, then `key:value` for each pair in sorted
//! key order, pairs separated by `,`, then `]`. The empty context
//! renders as `[]`. Delimiter characters occurring inside keys or
//! values are not escaped; that is a documented limitation of the
//! format, kept as it is.

use vstd::prelude::*;
use crate::model::PairSeq;

verus! {

/// The rendered items, joined by commas: `k1:v1,k2:v2,...`.
pub open spec fn render_items(s: PairSeq) -> Seq<char>
    decreases s.len(),
{
    if s.len() == 0 {
        Seq::empty()
    } else if s.len() == 1 {
        s[0].0 + seq![':'] + s[0].1
    } else {
        render_items(s.drop_last()) + seq![','] + s.last().0 + seq![':'] + s.last().1
    }
}

/// The full rendering: the items between brackets.
pub open spec fn render_spec(s: PairSeq) -> Seq<char> {
    seq!['['] + render_items(s) + seq![']']
}

/// None of the format's delimiter characters occurs in the sequence.
pub open spec fn delimiter_free(s: Seq<char>) -> bool {
    forall|i: int| 0 <= i < s.len() ==> s[i] != ',' && s[i] != ':' && s[i] != '[' && s[i] != ']'
}

/// No key and no value contains a delimiter character.
pub open spec fn pairs_delimiter_free(s: PairSeq) -> bool {
    forall|i: int|
        0 <= i < s.len() ==> delimiter_free((#[trigger] s[i]).0) && delimiter_free(s[i].1)
}

/// One rendered item: `key:value`.
pub open spec fn item(p: (Seq<char>, Seq<char>)) -> Seq<char> {
    p.0 + seq![':'] + p.1
}

/// A delimiter-free pair renders to an item whose only delimiter is
/// its one colon.
proof fn lemma_item_chars(p: (Seq<char>, Seq<char>))
    requires
        delimiter_free(p.0),
        delimiter_free(p.1),
    ensures
        item(p).len() == p.0.len() + 1 + p.1.len(),
        item(p)[p.0.len() as int] == ':',
        forall|i: int| 0 <= i < item(p).len() && i != p.0.len() ==> item(p)[i] != ':',
        forall|i: int| 0 <= i < item(p).len() ==> item(p)[i] != ',',
{
    assert forall|i: int| 0 <= i < item(p).len() && i != p.0.len() implies item(p)[i] != ':' by {
        if i < p.0.len() {
            assert(item(p)[i] == p.0[i]);
        } else {
            assert(item(p)[i] == p.1[i - p.0.len() - 1]);
        }
    }
    assert forall|i: int| 0 <= i < item(p).len() implies item(p)[i] != ',' by {
        if i < p.0.len() {
            assert(item(p)[i] == p.0[i]);
        } else if i > p.0.len() {
            assert(item(p)[i] == p.1[i - p.0.len() - 1]);
        }
    }
}

/// Equal delimiter-free items come from equal pairs: the one colon
/// splits an item unambiguously.
proof fn lemma_item_injective(p: (Seq<char>, Seq<char>), q: (Seq<char>, Seq<char>))
    requires
        delimiter_free(p.0),
        delimiter_free(p.1),
        delimiter_free(q.0),
        delimiter_free(q.1),
        item(p) == item(q),
    ensures
        p == q,
{
    lemma_item_chars(p);
    lemma_item_chars(q);
    if p.0.len() != q.0.len() {
        if p.0.len() < q.0.len() {
            assert(item(p)[p.0.len() as int] == ':');
            assert(item(q)[p.0.len() as int] != ':');
        } else {
            assert(item(q)[q.0.len() as int] == ':');
            assert(item(p)[q.0.len() as int] != ':');
        }
        assert(false);
    }
    assert forall|i: int| 0 <= i < p.0.len() implies p.0[i] == q.0[i] by {
        assert(item(p)[i] == p.0[i]);
        assert(item(q)[i] == q.0[i]);
    }
    assert(p.0 =~= q.0);
    assert(p.1.len() == q.1.len());
    assert forall|i: int| 0 <= i < p.1.len() implies p.1[i] == q.1[i] by {
        assert(item(p)[p.0.len() + 1 + i] == p.1[i]);
        assert(item(q)[q.0.len() + 1 + i] == q.1[i]);
    }
    assert(p.1 =~= q.1);
    assert(p =~= q);
}

/// Equal renderings of delimiter-free item lists come from equal
/// lists: the last comma of the rendering is the last separator, so
/// the decomposition into items is unambiguous.
proof fn lemma_render_items_injective(a: PairSeq, b: PairSeq)
    requires
        pairs_delimiter_free(a),
        pairs_delimiter_free(b),
        render_items(a) == render_items(b),
    ensures
        a == b,
    decreases a.len(),
{
    let ra = render_items(a);
    let rb = render_items(b);
    if a.len() == 0 && b.len() == 0 {
        assert(a =~= b);
    } else if a.len() == 0 || b.len() == 0 {
        // One side renders empty while the other renders at least a colon.
        assert(false);
    } else if a.len() == 1 && b.len() == 1 {
        assert(ra =~= item(a[0]));
        assert(rb =~= item(b[0]));
        lemma_item_injective(a[0], b[0]);
        assert(a =~= b);
    } else if a.len() == 1 || b.len() == 1 {
        // A single item is comma-free, but a longer rendering has a
        // comma after its leading items.
        if a.len() == 1 {
            assert(ra =~= item(a[0]));
            lemma_item_chars(a[0]);
            let pb = render_items(b.drop_last());
            assert(b[b.len() - 1] == b.last());
            assert(rb =~= pb + seq![','] + item(b.last()));
            assert(rb[pb.len() as int] == ',');
            assert(ra[pb.len() as int] != ',');
        } else {
            assert(rb =~= item(b[0]));
            lemma_item_chars(b[0]);
            let pa = render_items(a.drop_last());
            assert(a[a.len() - 1] == a.last());
            assert(ra =~= pa + seq![','] + item(a.last()));
            assert(ra[pa.len() as int] == ',');
            assert(rb[pa.len() as int] != ',');
        }
        assert(false);
    } else {
        let pa = render_items(a.drop_last());
        let pb = render_items(b.drop_last());
        let ia = item(a.last());
        let ib = item(b.last());
        assert(a[a.len() - 1] == a.last());
        assert(b[b.len() - 1] == b.last());
        lemma_item_chars(a.last());
        lemma_item_chars(b.last());
        assert(ra =~= pa + seq![','] + ia);
        assert(rb =~= pb + seq![','] + ib);
        // The comma that separates the last item stands at the same
        // position in both renderings.
        if pa.len() < pb.len() {
            assert(rb[pb.len() as int] == ',');
            assert(ra[pb.len() as int] == ia[pb.len() - pa.len() - 1]);
            assert(false);
        }
        if pb.len() < pa.len() {
            assert(ra[pa.len() as int] == ',');
            assert(rb[pa.len() as int] == ib[pa.len() - pb.len() - 1]);
            assert(false);
        }
        assert forall|i: int| 0 <= i < pa.len() implies pa[i] == pb[i] by {
            assert(ra[i] == pa[i]);
            assert(rb[i] == pb[i]);
        }
        assert(pa =~= pb);
        assert forall|i: int| 0 <= i < ia.len() implies ia[i] == ib[i] by {
            assert(ra[pa.len() + 1 + i] == ia[i]);
            assert(rb[pb.len() + 1 + i] == ib[i]);
        }
        assert(ia =~= ib);
        assert forall|i: int| 0 <= i < a.drop_last().len() implies delimiter_free(
            (#[trigger] a.drop_last()[i]).0,
        ) && delimiter_free(a.drop_last()[i].1) by {
            assert(a.drop_last()[i] == a[i]);
        }
        assert forall|i: int| 0 <= i < b.drop_last().len() implies delimiter_free(
            (#[trigger] b.drop_last()[i]).0,
        ) && delimiter_free(b.drop_last()[i].1) by {
            assert(b.drop_last()[i] == b[i]);
        }
        lemma_render_items_injective(a.drop_last(), b.drop_last());
        lemma_item_injective(a.last(), b.last());
        assert forall|i: int| 0 <= i < a.len() implies a[i] == b[i] by {
            if i < a.len() - 1 {
                assert(a[i] == a.drop_last()[i]);
                assert(b[i] == b.drop_last()[i]);
            }
        }
        assert(a =~= b);
    }
}

/// Rendering is injective on delimiter-free content: two contexts of
/// different content render different strings, provided no key or
/// value contains a delimiter character. Without that proviso the
/// format is ambiguous by design, since delimiters are not escaped.
pub proof fn lemma_render_injective(a: PairSeq, b: PairSeq)
    requires
        pairs_delimiter_free(a),
        pairs_delimiter_free(b),
        render_spec(a) == render_spec(b),
    ensures
        a == b,
{
    let ra = render_items(a);
    let rb = render_items(b);
    assert(render_spec(a).len() == ra.len() + 2);
    assert(render_spec(b).len() == rb.len() + 2);
    assert forall|i: int| 0 <= i < ra.len() implies ra[i] == rb[i] by {
        assert(render_spec(a)[i + 1] == ra[i]);
        assert(render_spec(b)[i + 1] == rb[i]);
    }
    assert(ra =~= rb);
    lemma_render_items_injective(a, b);
}

} // verus!
