use str_ctx::StrCtx;
use std::cmp::Ordering;
use std::collections::hash_map::DefaultHasher;
use std::hash::Hash;
use std::hash::Hasher;

fn pairs(items: &[(&str, &str)]) -> Vec<(String, String)> {
    items.iter().map(|(k, v)| (k.to_string(), v.to_string())).collect()
}

#[test]
fn construct_single_renders() {
    let ctx = StrCtx::construct(pairs(&[("hello", "zombies")]));
    assert_eq!(ctx.render(), "[hello:zombies]");
}

#[test]
fn derive_adds_new_key() {
    let ctx = StrCtx::construct(pairs(&[("hello", "zombies")]));
    let ctx = ctx.derive(pairs(&[("friend", "apple")]));
    assert_eq!(ctx.render(), "[friend:apple,hello:zombies]");
}

#[test]
fn derive_overrides_existing_key() {
    let ctx = StrCtx::construct(pairs(&[("hello", "zombies")]));
    let ctx = ctx.derive(pairs(&[("friend", "apple")]));
    let ctx = ctx.derive(pairs(&[("hello", "world")]));
    assert_eq!(ctx.render(), "[friend:apple,hello:world]");
}

#[test]
fn collect_after_derive() {
    let ctx = StrCtx::construct(pairs(&[("hello", "zombies")]))
        .derive(pairs(&[("friend", "apple")]))
        .derive(pairs(&[("hello", "world")]));
    let collected = ctx.to_pairs();
    assert_eq!(collected, pairs(&[("friend", "apple"), ("hello", "world")]));
}

#[test]
fn empty_renders() {
    let ctx = StrCtx::construct(Vec::new());
    assert_eq!(ctx.render(), "[]");
}

#[test]
fn construct_sorts_by_key() {
    let ctx = StrCtx::construct(pairs(&[("c", "3"), ("a", "1"), ("b", "2")]));
    assert_eq!(ctx.to_pairs(), pairs(&[("a", "1"), ("b", "2"), ("c", "3")]));
    assert_eq!(ctx.render(), "[a:1,b:2,c:3]");
}

#[test]
fn construct_last_occurrence_wins() {
    let ctx = StrCtx::construct(pairs(&[("b", "old"), ("a", "1"), ("b", "mid"), ("b", "new")]));
    assert_eq!(ctx.to_pairs(), pairs(&[("a", "1"), ("b", "new")]));
}

#[test]
fn construct_orders_bytewise() {
    // Byte-lexicographic order: upper case before lower case, and a
    // multi-byte character after every ASCII key.
    let ctx = StrCtx::construct(pairs(&[("\u{e9}", "accent"), ("a", "low"), ("Z", "up")]));
    assert_eq!(ctx.render(), "[Z:up,a:low,\u{e9}:accent]");
}

#[test]
fn derive_is_override_union() {
    let parent = StrCtx::construct(pairs(&[("a", "1"), ("b", "2"), ("c", "3")]));
    let child = parent.derive(pairs(&[("b", "20"), ("d", "40")]));
    // Keys only in the parent keep their value, keys in the additions
    // take the new value, and no other key appears.
    assert_eq!(child.to_pairs(), pairs(&[("a", "1"), ("b", "20"), ("c", "3"), ("d", "40")]));
    // The parent itself is unchanged.
    assert_eq!(parent.to_pairs(), pairs(&[("a", "1"), ("b", "2"), ("c", "3")]));
}

#[test]
fn derive_with_no_additions_is_identity() {
    let ctx = StrCtx::construct(pairs(&[("hello", "zombies"), ("friend", "apple")]));
    let same = ctx.derive(Vec::new());
    assert!(same.equals(&ctx));
    assert_eq!(same.render(), ctx.render());
    assert_eq!(same.to_pairs(), ctx.to_pairs());
}

#[test]
fn equality_invariant_to_insertion_order() {
    let one = StrCtx::construct(pairs(&[("a", "1"), ("b", "2"), ("c", "3")]));
    let two = StrCtx::construct(pairs(&[("c", "3"), ("b", "2"), ("a", "1")]));
    let three = StrCtx::construct(pairs(&[("b", "0")]))
        .derive(pairs(&[("a", "1"), ("c", "3")]))
        .derive(pairs(&[("b", "2")]));
    assert!(one.equals(&two));
    assert!(one.equals(&three));
    assert_eq!(one, two);
    assert_eq!(one, three);
}

#[test]
fn unequal_content_is_unequal() {
    let one = StrCtx::construct(pairs(&[("a", "1")]));
    let two = StrCtx::construct(pairs(&[("a", "2")]));
    let three = StrCtx::construct(pairs(&[("b", "1")]));
    assert!(!one.equals(&two));
    assert!(!one.equals(&three));
}

#[test]
fn round_trip_reconstructs_equal_context() {
    let input = pairs(&[("x", "9"), ("m", "4"), ("x", "8"), ("a", "0")]);
    let ctx = StrCtx::construct(input.clone());
    // Collecting yields the canonical sorted, deduplicated, last-wins
    // reduction of the input.
    let collected = ctx.to_pairs();
    assert_eq!(collected, pairs(&[("a", "0"), ("m", "4"), ("x", "8")]));
    // Rebuilding from the collected pairs gives an equal context.
    let rebuilt = StrCtx::construct(collected);
    assert!(rebuilt.equals(&ctx));
}

#[test]
fn rendering_is_deterministic_for_equal_contexts() {
    let one = StrCtx::construct(pairs(&[("a", "1"), ("b", "2")]));
    let two = StrCtx::construct(pairs(&[("b", "2")])).derive(pairs(&[("a", "1")]));
    assert!(one.equals(&two));
    assert_eq!(one.render(), two.render());
}

#[test]
fn rendering_differs_for_plain_unequal_contexts() {
    let one = StrCtx::construct(pairs(&[("a", "1"), ("b", "2")]));
    let two = StrCtx::construct(pairs(&[("a", "1"), ("b", "3")]));
    assert_ne!(one.render(), two.render());
}

#[test]
fn compare_orders_by_first_differing_pair() {
    let a1 = StrCtx::construct(pairs(&[("a", "1"), ("b", "2")]));
    let a2 = StrCtx::construct(pairs(&[("a", "1"), ("b", "3")]));
    let b = StrCtx::construct(pairs(&[("b", "2")]));
    assert_eq!(a1.compare(&a2), Ordering::Less);
    assert_eq!(a2.compare(&a1), Ordering::Greater);
    assert_eq!(a1.compare(&b), Ordering::Less);
    assert_eq!(a1.compare(&a1), Ordering::Equal);
}

#[test]
fn compare_prefix_orders_first() {
    let short = StrCtx::construct(pairs(&[("a", "1")]));
    let long = StrCtx::construct(pairs(&[("a", "1"), ("b", "2")]));
    assert_eq!(short.compare(&long), Ordering::Less);
    assert_eq!(long.compare(&short), Ordering::Greater);
}

#[test]
fn equal_contexts_hash_equally() {
    let one = StrCtx::construct(pairs(&[("a", "1"), ("b", "2")]));
    let two = StrCtx::construct(pairs(&[("b", "2"), ("a", "1")]));
    let mut h1 = DefaultHasher::new();
    one.hash(&mut h1);
    let mut h2 = DefaultHasher::new();
    two.hash(&mut h2);
    assert_eq!(h1.finish(), h2.finish());
}

#[test]
fn len_get_and_pairs_expose_sorted_content() {
    let ctx = StrCtx::construct(pairs(&[("b", "2"), ("a", "1")]));
    assert_eq!(ctx.len(), 2);
    assert_eq!(ctx.get(0), &("a".to_string(), "1".to_string()));
    assert_eq!(ctx.get(1), &("b".to_string(), "2".to_string()));
    let borrowed = ctx.pairs();
    assert_eq!(borrowed.len(), 2);
    assert_eq!(borrowed[0].0, "a");
    assert_eq!(borrowed[1].1, "2");
    // Borrowing iteration is restartable: read the same content again.
    assert_eq!(ctx.pairs()[0].1, "1");
}

#[test]
fn clone_shares_content() {
    let ctx = StrCtx::construct(pairs(&[("k", "v")]));
    let copy = ctx.clone();
    assert!(copy.equals(&ctx));
    assert_eq!(copy.render(), "[k:v]");
}

#[test]
fn values_may_hold_delimiters_unescaped() {
    // The format does not escape delimiter characters; this is a
    // documented limitation kept as it is.
    let ctx = StrCtx::construct(pairs(&[("a", "b,c:d")]));
    assert_eq!(ctx.render(), "[a:b,c:d]");
}
