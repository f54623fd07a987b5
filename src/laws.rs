//! What holds of lookups after insertions, stated over the tree's model.
use vstd::prelude::*;
use crate::labels::{Path, rev_labels, domain_of, lemma_domain_of_rev_labels, lemma_rev_labels_concat};
use crate::tree::{
    DomainLookupTree, Model, deepest_wildcard, insert_model, is_valid_rule, is_wildcard_rule,
    lookup_model, rule_path,
};

verus! {

/// With no wildcard node at the prefixes of lengths `j + 1` to `k`, the
/// deepest wildcard up to `k` is the deepest up to `j`.
proof fn lemma_deepest_wildcard_skip(m: Model, p: Path, j: int, k: int)
    requires
        0 <= j <= k,
        forall|l: int| j < l <= k ==> !(m.contains_key(#[trigger] p.take(l)) && m[p.take(l)]),
    ensures
        deepest_wildcard(m, p, k) == deepest_wildcard(m, p, j),
    decreases k - j,
{
    if k > j {
        lemma_deepest_wildcard_skip(m, p, j, k - 1);
    }
}

/// A query whose labels have no node, and whose path has a wildcard node at
/// depth `j` and none deeper, gets the domain at depth `j` as a wildcard.
proof fn lemma_lookup_through_wildcard(m: Model, q: Seq<char>, j: int)
    requires
        !m.contains_key(rev_labels(q)),
        1 <= j < rev_labels(q).len(),
        m.contains_key(rev_labels(q).take(j)) && m[rev_labels(q).take(j)],
        forall|l: int|
            j < l < rev_labels(q).len() ==> !(m.contains_key(#[trigger] rev_labels(q).take(l))
                && m[rev_labels(q).take(l)]),
    ensures
        lookup_model(m, q) == Some(seq!['.'] + domain_of(rev_labels(q).take(j))),
{
    let p = rev_labels(q);
    lemma_deepest_wildcard_skip(m, p, j, p.len() - 1);
}

/// The path of a wildcard rule `.x` is the path of `x`.
proof fn lemma_wildcard_rule_path(x: Seq<char>)
    ensures
        rule_path(seq!['.'] + x) == rev_labels(x),
        is_wildcard_rule(seq!['.'] + x),
{
    let w = seq!['.'] + x;
    assert(w.drop_first() =~= x);
    assert(rev_labels(w) == rev_labels(x).push(Seq::<char>::empty()));
    assert(rule_path(w) =~= rev_labels(x));
}

/// An absolute rule whose node is not a wildcard matches itself.
pub proof fn law_absolute_rule_node(t: &DomainLookupTree, r: Seq<char>)
    requires
        t.wf(),
        t@.contains_key(rev_labels(r)),
        !t@[rev_labels(r)],
    ensures
        lookup_model(t@, r) == Some(r),
{
}

/// An insertion keeps every node of the tree, and changes no flag but the
/// one at the path of a wildcard rule: so an absolute rule keeps matching
/// itself after later insertions of other rules.
pub proof fn law_insert_keeps_nodes(t: &DomainLookupTree, r: Seq<char>, p: Path)
    requires
        t.wf(),
        t@.contains_key(p),
    ensures
        insert_model(t@, rule_path(r), is_wildcard_rule(r)).contains_key(p),
        !(is_wildcard_rule(r) && p == rule_path(r)) ==> insert_model(
            t@,
            rule_path(r),
            is_wildcard_rule(r),
        )[p] == t@[p],
{
}

/// Inserting an absolute rule makes a lookup of it return the rule, unless
/// a wildcard rule with the same domain was inserted before (then the
/// lookup returns that wildcard rule).
pub proof fn law_absolute_rule_found(t: &DomainLookupTree, r: Seq<char>)
    requires
        t.wf(),
        is_valid_rule(r),
        !is_wildcard_rule(r),
        !(t@.contains_key(rev_labels(r)) && t@[rev_labels(r)]),
    ensures
        lookup_model(insert_model(t@, rule_path(r), false), r) == Some(r),
{
    let p = rev_labels(r);
    assert(rule_path(r) =~= p);
    assert(p.take(p.len() as int) =~= p);
    let m = insert_model(t@, p, false);
    assert(m.contains_key(p) && !m[p]);
}

/// Inserting a wildcard rule `.x` makes a lookup of `x` return `.x`.
pub proof fn law_wildcard_rule_matches_domain(t: &DomainLookupTree, x: Seq<char>)
    requires
        t.wf(),
        is_valid_rule(seq!['.'] + x),
    ensures
        lookup_model(insert_model(t@, rule_path(seq!['.'] + x), true), x) == Some(seq!['.'] + x),
{
    let p = rev_labels(x);
    lemma_wildcard_rule_path(x);
    lemma_domain_of_rev_labels(x);
    assert(p.take(p.len() as int) =~= p);
    let m = insert_model(t@, p, true);
    assert(m.contains_key(p) && m[p]);
}

/// Inserting a wildcard rule `.x` makes a lookup of any `prefix.x` return
/// `.x`, where the tree holds neither a node for `prefix.x` itself nor a
/// wildcard node between `x` and `prefix.x`.
pub proof fn law_wildcard_rule_matches_below(t: &DomainLookupTree, x: Seq<char>, prefix: Seq<char>)
    requires
        t.wf(),
        is_valid_rule(seq!['.'] + x),
        prefix.len() > 0,
        !t@.contains_key(rev_labels(prefix + seq!['.'] + x)),
        forall|k: int|
            rev_labels(x).len() < k < rev_labels(prefix + seq!['.'] + x).len() ==> !(t@.contains_key(
                #[trigger] rev_labels(prefix + seq!['.'] + x).take(k),
            ) && t@[rev_labels(prefix + seq!['.'] + x).take(k)]),
    ensures
        lookup_model(
            insert_model(t@, rule_path(seq!['.'] + x), true),
            prefix + seq!['.'] + x,
        ) == Some(seq!['.'] + x),
{
    lemma_wildcard_rule_path(x);
    lemma_wildcard_below(t@, x, prefix);
}

/// Inserting `.x` into any model makes a lookup of `prefix.x` return `.x`,
/// where the model holds neither a node for `prefix.x` nor a wildcard node
/// between `x` and `prefix.x`.
proof fn lemma_wildcard_below(m0: Model, x: Seq<char>, prefix: Seq<char>)
    requires
        rev_labels(x).len() >= 1,
        !m0.contains_key(rev_labels(prefix + seq!['.'] + x)),
        forall|k: int|
            rev_labels(x).len() < k < rev_labels(prefix + seq!['.'] + x).len() ==> !(m0.contains_key(
                #[trigger] rev_labels(prefix + seq!['.'] + x).take(k),
            ) && m0[rev_labels(prefix + seq!['.'] + x).take(k)]),
    ensures
        lookup_model(insert_model(m0, rev_labels(x), true), prefix + seq!['.'] + x) == Some(
            seq!['.'] + x,
        ),
{
    let q = prefix + seq!['.'] + x;
    let px = rev_labels(x);
    let pq = rev_labels(q);
    lemma_rev_labels_concat(prefix, x);
    lemma_domain_of_rev_labels(x);
    crate::labels::lemma_rev_labels_nonempty(prefix);
    assert(pq.take(px.len() as int) =~= px);
    assert(px.take(px.len() as int) =~= px);
    let m = insert_model(m0, px, true);
    assert(m.contains_key(px) && m[px]);
    assert(!m.contains_key(pq));
    assert forall|l: int| px.len() < l < pq.len() implies !(m.contains_key(#[trigger] pq.take(l))
        && m[pq.take(l)]) by {
        assert(pq.take(l).len() > px.len());
    }
    lemma_lookup_through_wildcard(m, q, px.len() as int);
}

/// A domain with no node of its own and no wildcard node above it finds no
/// rule.
pub proof fn law_no_match(t: &DomainLookupTree, q: Seq<char>)
    requires
        t.wf(),
        !t@.contains_key(rev_labels(q)),
        forall|k: int|
            1 <= k < rev_labels(q).len() ==> !(t@.contains_key(#[trigger] rev_labels(q).take(k))
                && t@[rev_labels(q).take(k)]),
    ensures
        lookup_model(t@, q) is None,
{
    let p = rev_labels(q);
    crate::labels::lemma_rev_labels_nonempty(q);
    lemma_deepest_wildcard_skip(t@, p, 0, p.len() - 1);
}

/// An exact rule beats a wildcard rule above it: after inserting `.x` and
/// `a.x`, in either order, a lookup of `a.x` returns `a.x`, where no
/// wildcard rule `.a.x` was inserted before.
pub proof fn law_exact_beats_ancestor(t: &DomainLookupTree, a: Seq<char>, x: Seq<char>)
    requires
        t.wf(),
        is_valid_rule(seq!['.'] + x),
        is_valid_rule(a + seq!['.'] + x),
        !is_wildcard_rule(a + seq!['.'] + x),
        a.len() > 0,
        !(t@.contains_key(rev_labels(a + seq!['.'] + x)) && t@[rev_labels(a + seq!['.'] + x)]),
    ensures
        lookup_model(
            insert_model(
                insert_model(t@, rule_path(seq!['.'] + x), true),
                rule_path(a + seq!['.'] + x),
                false,
            ),
            a + seq!['.'] + x,
        ) == Some(a + seq!['.'] + x),
        lookup_model(
            insert_model(
                insert_model(t@, rule_path(a + seq!['.'] + x), false),
                rule_path(seq!['.'] + x),
                true,
            ),
            a + seq!['.'] + x,
        ) == Some(a + seq!['.'] + x),
{
    let r = a + seq!['.'] + x;
    let pr = rev_labels(r);
    let px = rev_labels(x);
    lemma_wildcard_rule_path(x);
    lemma_rev_labels_concat(a, x);
    crate::labels::lemma_rev_labels_nonempty(a);
    lemma_domain_of_rev_labels(r);
    assert(pr.take(pr.len() as int) =~= pr);
    assert(rule_path(r) =~= pr);
    assert(pr.len() > px.len());
    let m1 = insert_model(insert_model(t@, px, true), pr, false);
    assert(m1.contains_key(pr) && !m1[pr]);
    let m2 = insert_model(insert_model(t@, pr, false), px, true);
    assert(m2.contains_key(pr) && !m2[pr]);
}

/// The deepest wildcard rule wins: after inserting `.y` and `.z.y`, in
/// either order, a lookup of `a.z.y` returns `.z.y`, where the tree holds
/// neither a node for `a.z.y` nor a wildcard node between `z.y` and `a.z.y`.
pub proof fn law_deepest_wildcard_wins(
    t: &DomainLookupTree,
    y: Seq<char>,
    z: Seq<char>,
    a: Seq<char>,
)
    requires
        t.wf(),
        is_valid_rule(seq!['.'] + y),
        is_valid_rule(seq!['.'] + z + seq!['.'] + y),
        a.len() > 0,
        !t@.contains_key(rev_labels(a + seq!['.'] + z + seq!['.'] + y)),
        forall|k: int|
            rev_labels(z + seq!['.'] + y).len() < k < rev_labels(a + seq!['.'] + z + seq!['.'] + y).len()
                ==> !(t@.contains_key(#[trigger] rev_labels(a + seq!['.'] + z + seq!['.'] + y).take(k))
                && t@[rev_labels(a + seq!['.'] + z + seq!['.'] + y).take(k)]),
    ensures
        lookup_model(
            insert_model(
                insert_model(t@, rule_path(seq!['.'] + y), true),
                rule_path(seq!['.'] + z + seq!['.'] + y),
                true,
            ),
            a + seq!['.'] + z + seq!['.'] + y,
        ) == Some(seq!['.'] + z + seq!['.'] + y),
        lookup_model(
            insert_model(
                insert_model(t@, rule_path(seq!['.'] + z + seq!['.'] + y), true),
                rule_path(seq!['.'] + y),
                true,
            ),
            a + seq!['.'] + z + seq!['.'] + y,
        ) == Some(seq!['.'] + z + seq!['.'] + y),
{
    let x = z + seq!['.'] + y;
    let q = a + seq!['.'] + x;
    assert(seq!['.'] + z + seq!['.'] + y =~= seq!['.'] + x);
    assert(a + seq!['.'] + z + seq!['.'] + y =~= q);
    let px = rev_labels(x);
    let py = rev_labels(y);
    let pq = rev_labels(q);
    lemma_wildcard_rule_path(x);
    lemma_wildcard_rule_path(y);
    lemma_rev_labels_concat(z, y);
    lemma_rev_labels_concat(a, x);
    crate::labels::lemma_rev_labels_nonempty(z);
    crate::labels::lemma_rev_labels_nonempty(a);
    lemma_domain_of_rev_labels(x);
    assert(px.len() > py.len());
    assert(pq.take(px.len() as int) =~= px);
    assert(px.take(px.len() as int) =~= px);
    let m1 = insert_model(t@, py, true);
    assert forall|k: int| px.len() < k < pq.len() implies !(m1.contains_key(#[trigger] pq.take(k))
        && m1[pq.take(k)]) by {
        assert(pq.take(k).len() > py.len());
    }
    assert(!m1.contains_key(pq));
    lemma_wildcard_below(m1, x, a);
    let m2 = insert_model(insert_model(t@, px, true), py, true);
    assert(m2.contains_key(px) && m2[px]);
    assert(!m2.contains_key(pq));
    assert forall|l: int| px.len() < l < pq.len() implies !(m2.contains_key(#[trigger] pq.take(l))
        && m2[pq.take(l)]) by {
        assert(pq.take(l).len() > px.len());
    }
    lemma_lookup_through_wildcard(m2, q, px.len() as int);
}

/// Inserting the same rule twice gives the same tree, and so the same
/// lookups, as inserting it once.
pub proof fn law_insert_idempotent(t: &DomainLookupTree, r: Seq<char>)
    requires
        t.wf(),
    ensures
        insert_model(
            insert_model(t@, rule_path(r), is_wildcard_rule(r)),
            rule_path(r),
            is_wildcard_rule(r),
        ) == insert_model(t@, rule_path(r), is_wildcard_rule(r)),
        forall|q: Seq<char>|
            lookup_model(
                insert_model(
                    insert_model(t@, rule_path(r), is_wildcard_rule(r)),
                    rule_path(r),
                    is_wildcard_rule(r),
                ),
                q,
            ) == lookup_model(insert_model(t@, rule_path(r), is_wildcard_rule(r)), q),
{
    let p = rule_path(r);
    let w = is_wildcard_rule(r);
    assert(insert_model(insert_model(t@, p, w), p, w) =~= insert_model(t@, p, w));
}

} // verus!
