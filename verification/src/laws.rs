//! The laws of the canonical form, proved from the definitions in `canon`.

use vstd::prelude::*;

use vstd::seq_lib::lemma_sorted_unique;
use vstd::seq_lib::lemma_multiset_commutative;

use crate::model::{
    NsBinding, AttrV, XmlNode, XmlDocument, ns_le, attr_le, lemma_ns_le_total, lemma_attr_le_total,
};
use crate::canon::{
    CanonError, canon_doc, render_list, utilized, list_has, lookup, declares,
    prefix_set, scope_after, unshadowed, attr_prefix_set, resolved_attrs, canon_node,
};
use crate::CanonicalizationMode;

verus! {

/// Determinism: the canonical form is a function of the document and the
/// configuration alone, so two canonicalizations of one document under one
/// configuration yield byte-identical output.
pub proof fn lemma_determinism(
    d: XmlDocument,
    mode: CanonicalizationMode,
    keep_comments: bool,
    incl: Seq<Seq<char>>,
    r1: Seq<char>,
    r2: Seq<char>,
)
    requires
        canon_doc(d, mode, keep_comments, incl) == Ok::<Seq<char>, CanonError>(r1),
        canon_doc(d, mode, keep_comments, incl) == Ok::<Seq<char>, CanonError>(r2),
    ensures
        r1 == r2,
{
}

/// Exclusive utilization: every namespace declaration an element renders in
/// Exclusive mode is for a prefix the element visibly utilizes or one in the
/// caller's inclusive list, and it differs from what an ancestor rendered.
pub proof fn lemma_exclusive_only_utilized(
    new_scope: Seq<NsBinding>,
    rendered: Seq<NsBinding>,
    eprefix: Seq<char>,
    apset: Set<Seq<char>>,
    incl: Seq<Seq<char>>,
    i: int,
)
    requires
        0 <= i < render_list(
            CanonicalizationMode::ExclusiveCanonical1_0,
            new_scope,
            rendered,
            eprefix,
            apset,
            incl,
        ).len(),
    ensures
        ({
            let d = render_list(
                CanonicalizationMode::ExclusiveCanonical1_0,
                new_scope,
                rendered,
                eprefix,
                apset,
                incl,
            )[i];
            &&& utilized(d.prefix, eprefix, apset) || list_has(incl, d.prefix)
            &&& lookup(rendered, d.prefix) != d.uri
        }),
{
    broadcast use vstd::seq_lib::group_seq_lib_default;

}

/// Exclusive utilization, the omitting direction: a prefix that is neither
/// visibly utilized at the element nor in the inclusive list is never among
/// the declarations the element renders in Exclusive mode.
pub proof fn lemma_exclusive_omits_unused(
    new_scope: Seq<NsBinding>,
    rendered: Seq<NsBinding>,
    eprefix: Seq<char>,
    apset: Set<Seq<char>>,
    incl: Seq<Seq<char>>,
    p: Seq<char>,
)
    requires
        !utilized(p, eprefix, apset),
        !list_has(incl, p),
    ensures
        forall|i: int|
            0 <= i < render_list(
                CanonicalizationMode::ExclusiveCanonical1_0,
                new_scope,
                rendered,
                eprefix,
                apset,
                incl,
            ).len() ==> (#[trigger] render_list(
                CanonicalizationMode::ExclusiveCanonical1_0,
                new_scope,
                rendered,
                eprefix,
                apset,
                incl,
            )[i]).prefix != p,
{
    broadcast use vstd::seq_lib::group_seq_lib_default;

    assert forall|i: int|
        0 <= i < render_list(
            CanonicalizationMode::ExclusiveCanonical1_0,
            new_scope,
            rendered,
            eprefix,
            apset,
            incl,
        ).len() implies (#[trigger] render_list(
        CanonicalizationMode::ExclusiveCanonical1_0,
        new_scope,
        rendered,
        eprefix,
        apset,
        incl,
    )[i]).prefix != p by {
        lemma_exclusive_only_utilized(new_scope, rendered, eprefix, apset, incl, i);
    }
}

/// Resolving multiset-equal attribute lists against one scope gives
/// multiset-equal resolved lists.
pub proof fn lemma_resolved_attrs_multiset(a1: Seq<AttrV>, a2: Seq<AttrV>, scope: Seq<NsBinding>)
    requires
        a1.to_multiset() == a2.to_multiset(),
    ensures
        resolved_attrs(a1, scope).to_multiset() == resolved_attrs(a2, scope).to_multiset(),
    decreases a1.len(),
{
    broadcast use vstd::seq_lib::group_to_multiset_ensures;
    broadcast use vstd::multiset::group_multiset_axioms;

    if a1.len() == 0 {
        vstd::seq_lib::to_multiset_len(a1);
        vstd::seq_lib::to_multiset_len(a2);
        assert(a2.len() == 0);
        assert(resolved_attrs(a1, scope) =~= resolved_attrs(a2, scope));
    } else {
        let x = a1[0];
        assert(a1.contains(x));
        vstd::seq_lib::to_multiset_contains(a1, x);
        vstd::seq_lib::to_multiset_contains(a2, x);
        assert(a2.contains(x));
        let j = choose|j: int| 0 <= j < a2.len() && a2[j] == x;
        let a1r = a1.remove(0);
        let a2r = a2.remove(j);
        vstd::seq_lib::to_multiset_remove(a1, 0);
        vstd::seq_lib::to_multiset_remove(a2, j);
        lemma_resolved_attrs_multiset(a1r, a2r, scope);
        assert(resolved_attrs(a1r, scope) =~= resolved_attrs(a1, scope).remove(0));
        assert(resolved_attrs(a2r, scope) =~= resolved_attrs(a2, scope).remove(j));
        vstd::seq_lib::to_multiset_remove(resolved_attrs(a1, scope), 0);
        vstd::seq_lib::to_multiset_remove(resolved_attrs(a2, scope), j);
        assert(resolved_attrs(a1, scope)[0] == resolved_attrs(a2, scope)[j]);
        let xv = resolved_attrs(a1, scope)[0];
        let m1 = resolved_attrs(a1, scope).to_multiset();
        let m2 = resolved_attrs(a2, scope).to_multiset();
        vstd::seq_lib::to_multiset_contains(resolved_attrs(a1, scope), xv);
        vstd::seq_lib::to_multiset_contains(resolved_attrs(a2, scope), xv);
        assert(resolved_attrs(a1, scope).contains(xv));
        assert(resolved_attrs(a2, scope).contains(xv));
        assert(m1.remove(xv) == m2.remove(xv));
        assert forall|b: crate::model::RAttr| m1.count(b) == m2.count(b) by {
            assert(m1.remove(xv).count(b) == m2.remove(xv).count(b));
            if b == xv {
                assert(m1.count(b) == m1.remove(xv).count(b) + 1);
                assert(m2.count(b) == m2.remove(xv).count(b) + 1);
            } else {
                assert(m1.count(b) == m1.remove(xv).count(b));
                assert(m2.count(b) == m2.remove(xv).count(b));
            }
        }
        assert(m1 =~= m2);
    }
}

/// A prefix is declared in one of two multiset-equal declaration lists
/// exactly when it is declared in the other, so they have one prefix set.
pub proof fn lemma_prefix_set_multiset(d1: Seq<NsBinding>, d2: Seq<NsBinding>)
    requires
        d1.to_multiset() == d2.to_multiset(),
    ensures
        prefix_set(d1) == prefix_set(d2),
{
    broadcast use vstd::seq_lib::group_to_multiset_ensures;

    assert forall|p: Seq<char>| declares(d1, p) == declares(d2, p) by {
        if declares(d1, p) {
            let i = choose|i: int| 0 <= i < d1.len() && d1[i].prefix == p;
            assert(d1.contains(d1[i]));
            vstd::seq_lib::to_multiset_contains(d1, d1[i]);
            vstd::seq_lib::to_multiset_contains(d2, d1[i]);
            assert(d2.contains(d1[i]));
            let j = choose|j: int| 0 <= j < d2.len() && d2[j] == d1[i];
            assert(declares(d2, p));
        }
        if declares(d2, p) {
            let i = choose|i: int| 0 <= i < d2.len() && d2[i].prefix == p;
            assert(d2.contains(d2[i]));
            vstd::seq_lib::to_multiset_contains(d2, d2[i]);
            vstd::seq_lib::to_multiset_contains(d1, d2[i]);
            assert(d1.contains(d2[i]));
            let j = choose|j: int| 0 <= j < d1.len() && d1[j] == d2[i];
            assert(declares(d1, p));
        }
    }
    assert(prefix_set(d1) =~= prefix_set(d2));
}

/// Order-insensitivity of the namespace scope: an element's scope does not
/// depend on the order its namespace declarations were written in.
pub proof fn lemma_scope_after_order_insensitive(
    scope: Seq<NsBinding>,
    d1: Seq<NsBinding>,
    d2: Seq<NsBinding>,
)
    requires
        d1.to_multiset() == d2.to_multiset(),
    ensures
        scope_after(scope, d1) == scope_after(scope, d2),
{
    lemma_prefix_set_multiset(d1, d2);
    let pset = prefix_set(d1);
    let c1 = d1 + unshadowed(scope, pset);
    let c2 = d2 + unshadowed(scope, pset);
    lemma_multiset_commutative(d1, unshadowed(scope, pset));
    lemma_multiset_commutative(d2, unshadowed(scope, pset));
    assert(c1.to_multiset() == c2.to_multiset());
    lemma_ns_le_total();
    c1.lemma_sort_by_ensures(ns_le());
    c2.lemma_sort_by_ensures(ns_le());
    lemma_sorted_unique(c1.sort_by(ns_le()), c2.sort_by(ns_le()), ns_le());
}

/// Order-insensitivity of the attribute prefixes: the set of prefixes the
/// element's attributes utilize does not depend on attribute order.
pub proof fn lemma_attr_prefix_set_multiset(a1: Seq<AttrV>, a2: Seq<AttrV>)
    requires
        a1.to_multiset() == a2.to_multiset(),
    ensures
        attr_prefix_set(a1) == attr_prefix_set(a2),
{
    broadcast use vstd::seq_lib::group_to_multiset_ensures;

    assert forall|p: Seq<char>| attr_prefix_set(a1).contains(p) == attr_prefix_set(a2).contains(
        p,
    ) by {
        if attr_prefix_set(a1).contains(p) {
            let i = choose|i: int| 0 <= i < a1.len() && a1[i].prefix == p;
            assert(a1.contains(a1[i]));
            vstd::seq_lib::to_multiset_contains(a1, a1[i]);
            vstd::seq_lib::to_multiset_contains(a2, a1[i]);
            assert(a2.contains(a1[i]));
            let j = choose|j: int| 0 <= j < a2.len() && a2[j] == a1[i];
            assert(attr_prefix_set(a2).contains(p));
        }
        if attr_prefix_set(a2).contains(p) {
            let i = choose|i: int| 0 <= i < a2.len() && a2[i].prefix == p;
            assert(a2.contains(a2[i]));
            vstd::seq_lib::to_multiset_contains(a2, a2[i]);
            vstd::seq_lib::to_multiset_contains(a1, a2[i]);
            assert(a1.contains(a2[i]));
            let j = choose|j: int| 0 <= j < a1.len() && a1[j] == a2[i];
            assert(attr_prefix_set(a1).contains(p));
        }
    }
    assert(attr_prefix_set(a1) =~= attr_prefix_set(a2));
}

/// The prefixes of a declaration list, in order.
pub open spec fn prefixes_of(d: Seq<NsBinding>) -> Seq<Seq<char>> {
    d.map_values(|x: NsBinding| x.prefix)
}

/// Multiset-equal declaration lists have multiset-equal prefix lists.
pub proof fn lemma_prefixes_of_multiset(d1: Seq<NsBinding>, d2: Seq<NsBinding>)
    requires
        d1.to_multiset() == d2.to_multiset(),
    ensures
        prefixes_of(d1).to_multiset() == prefixes_of(d2).to_multiset(),
    decreases d1.len(),
{
    broadcast use vstd::seq_lib::group_to_multiset_ensures;
    broadcast use vstd::multiset::group_multiset_axioms;

    if d1.len() == 0 {
        vstd::seq_lib::to_multiset_len(d1);
        vstd::seq_lib::to_multiset_len(d2);
        assert(prefixes_of(d1) =~= prefixes_of(d2));
    } else {
        let x = d1[0];
        assert(d1.contains(x));
        vstd::seq_lib::to_multiset_contains(d1, x);
        vstd::seq_lib::to_multiset_contains(d2, x);
        assert(d2.contains(x));
        let j = choose|j: int| 0 <= j < d2.len() && d2[j] == x;
        let d1r = d1.remove(0);
        let d2r = d2.remove(j);
        vstd::seq_lib::to_multiset_remove(d1, 0);
        vstd::seq_lib::to_multiset_remove(d2, j);
        lemma_prefixes_of_multiset(d1r, d2r);
        assert(prefixes_of(d1r) =~= prefixes_of(d1).remove(0));
        assert(prefixes_of(d2r) =~= prefixes_of(d2).remove(j));
        vstd::seq_lib::to_multiset_remove(prefixes_of(d1), 0);
        vstd::seq_lib::to_multiset_remove(prefixes_of(d2), j);
        assert(prefixes_of(d1)[0] == prefixes_of(d2)[j]);
        let xv = prefixes_of(d1)[0];
        let m1 = prefixes_of(d1).to_multiset();
        let m2 = prefixes_of(d2).to_multiset();
        vstd::seq_lib::to_multiset_contains(prefixes_of(d1), xv);
        vstd::seq_lib::to_multiset_contains(prefixes_of(d2), xv);
        assert(prefixes_of(d1).contains(xv));
        assert(prefixes_of(d2).contains(xv));
        assert forall|b: Seq<char>| m1.count(b) == m2.count(b) by {
            assert(m1.remove(xv).count(b) == m2.remove(xv).count(b));
        }
        assert(m1 =~= m2);
    }
}

/// Prefixes repeat in a declaration list exactly when the prefix list has a
/// duplicate.
pub proof fn lemma_distinct_prefixes_as_no_duplicates(d: Seq<NsBinding>)
    ensures
        crate::canon::distinct_prefixes(d) == prefixes_of(d).no_duplicates(),
{
    if crate::canon::distinct_prefixes(d) {
        assert forall|i: int, j: int|
            (0 <= i < prefixes_of(d).len() && 0 <= j < prefixes_of(d).len() && i
                != j) implies prefixes_of(d)[i] != prefixes_of(d)[j] by {
            assert(prefixes_of(d)[i] == d[i].prefix);
            assert(prefixes_of(d)[j] == d[j].prefix);
            if i < j {
                assert(d[i].prefix != d[j].prefix);
            } else {
                assert(d[j].prefix != d[i].prefix);
            }
        }
        assert(prefixes_of(d).no_duplicates());
    }
    if prefixes_of(d).no_duplicates() {
        assert forall|i: int, j: int| 0 <= i < j < d.len() implies (#[trigger] d[i]).prefix != (
        #[trigger] d[j]).prefix by {
            assert(prefixes_of(d)[i] != prefixes_of(d)[j]);
            assert(prefixes_of(d)[i] == d[i].prefix);
            assert(prefixes_of(d)[j] == d[j].prefix);
        }
    }
}

/// Whether namespace declarations repeat a prefix does not depend on their
/// order.
pub proof fn lemma_distinct_prefixes_multiset(d1: Seq<NsBinding>, d2: Seq<NsBinding>)
    requires
        d1.to_multiset() == d2.to_multiset(),
    ensures
        crate::canon::distinct_prefixes(d1) == crate::canon::distinct_prefixes(d2),
{
    broadcast use vstd::seq_lib::group_to_multiset_ensures;
    broadcast use vstd::multiset::group_multiset_axioms;

    lemma_prefixes_of_multiset(d1, d2);
    lemma_distinct_prefixes_as_no_duplicates(d1);
    lemma_distinct_prefixes_as_no_duplicates(d2);
    if prefixes_of(d1).no_duplicates() {
        prefixes_of(d1).lemma_multiset_has_no_duplicates();
        prefixes_of(d2).lemma_multiset_has_no_duplicates_conv();
    }
    if prefixes_of(d2).no_duplicates() {
        prefixes_of(d2).lemma_multiset_has_no_duplicates();
        prefixes_of(d1).lemma_multiset_has_no_duplicates_conv();
    }
}

/// Whether every prefixed attribute resolves does not depend on attribute
/// order.
pub proof fn lemma_attrs_resolvable_multiset(a1: Seq<AttrV>, a2: Seq<AttrV>, scope: Seq<NsBinding>)
    requires
        a1.to_multiset() == a2.to_multiset(),
    ensures
        crate::canon::attrs_resolvable(a1, scope) == crate::canon::attrs_resolvable(a2, scope),
{
    broadcast use vstd::seq_lib::group_to_multiset_ensures;

    if crate::canon::attrs_resolvable(a1, scope) {
        assert forall|i: int|
            0 <= i < a2.len() && (#[trigger] a2[i]).prefix.len() > 0 implies lookup(
            scope,
            a2[i].prefix,
        ).len() > 0 by {
            assert(a2.contains(a2[i]));
            vstd::seq_lib::to_multiset_contains(a2, a2[i]);
            vstd::seq_lib::to_multiset_contains(a1, a2[i]);
            assert(a1.contains(a2[i]));
            let j = choose|j: int| 0 <= j < a1.len() && a1[j] == a2[i];
            assert(lookup(scope, a1[j].prefix).len() > 0);
        }
    }
    if crate::canon::attrs_resolvable(a2, scope) {
        assert forall|i: int|
            0 <= i < a1.len() && (#[trigger] a1[i]).prefix.len() > 0 implies lookup(
            scope,
            a1[i].prefix,
        ).len() > 0 by {
            assert(a1.contains(a1[i]));
            vstd::seq_lib::to_multiset_contains(a1, a1[i]);
            vstd::seq_lib::to_multiset_contains(a2, a1[i]);
            assert(a2.contains(a1[i]));
            let j = choose|j: int| 0 <= j < a2.len() && a2[j] == a1[i];
            assert(lookup(scope, a2[j].prefix).len() > 0);
        }
    }
}

/// Order-insensitivity of the serialized attribute list: sorting the
/// resolved attributes erases the order they were written in.
pub proof fn lemma_sorted_attrs_order_insensitive(
    a1: Seq<AttrV>,
    a2: Seq<AttrV>,
    scope: Seq<NsBinding>,
)
    requires
        a1.to_multiset() == a2.to_multiset(),
    ensures
        resolved_attrs(a1, scope).sort_by(attr_le()) == resolved_attrs(a2, scope).sort_by(
            attr_le(),
        ),
{
    lemma_resolved_attrs_multiset(a1, a2, scope);
    lemma_attr_le_total();
    resolved_attrs(a1, scope).lemma_sort_by_ensures(attr_le());
    resolved_attrs(a2, scope).lemma_sort_by_ensures(attr_le());
    lemma_sorted_unique(
        resolved_attrs(a1, scope).sort_by(attr_le()),
        resolved_attrs(a2, scope).sort_by(attr_le()),
        attr_le(),
    );
}


/// Two nodes that differ only in the order of attribute and namespace
/// declarations, anywhere in their subtrees.
pub open spec fn similar(a: XmlNode, b: XmlNode) -> bool
    decreases a, 1int,
{
    match (a, b) {
        (
            XmlNode::Element { prefix: p1, local: l1, ns_decls: d1, attrs: at1, children: c1 },
            XmlNode::Element { prefix: p2, local: l2, ns_decls: d2, attrs: at2, children: c2 },
        ) => {
            &&& p1@ == p2@
            &&& l1@ == l2@
            &&& crate::model::decls_view(d1@).to_multiset() == crate::model::decls_view(
                d2@,
            ).to_multiset()
            &&& crate::model::attrs_view(at1@).to_multiset() == crate::model::attrs_view(
                at2@,
            ).to_multiset()
            &&& similar_children(c1@, c2@)
        },
        (XmlNode::Text(t1), XmlNode::Text(t2)) => t1@ == t2@,
        (XmlNode::Comment(t1), XmlNode::Comment(t2)) => t1@ == t2@,
        (XmlNode::Pi { target: t1, data: q1 }, XmlNode::Pi { target: t2, data: q2 }) => t1@ == t2@
            && q1@ == q2@,
        _ => false,
    }
}

/// `similar`, pointwise over two sibling lists.
pub open spec fn similar_children(c1: Seq<XmlNode>, c2: Seq<XmlNode>) -> bool
    decreases c1, 0int,
{
    if c1.len() != c2.len() {
        false
    } else if c1.len() == 0 {
        true
    } else {
        similar(c1[0], c2[0]) && similar_children(c1.drop_first(), c2.drop_first())
    }
}

/// Two documents that differ only in the order of attribute and namespace
/// declarations.
pub open spec fn similar_docs(x: XmlDocument, y: XmlDocument) -> bool {
    &&& similar(x.root, y.root)
    &&& x.prolog == y.prolog
    &&& x.epilog == y.epilog
}

/// Order-insensitivity at one element: its canonical form does not depend
/// on the order its declarations and attributes were written in.
pub proof fn lemma_order_insensitive_element(
    prefix: Seq<char>,
    local: Seq<char>,
    d1: Seq<NsBinding>,
    d2: Seq<NsBinding>,
    a1: Seq<AttrV>,
    a2: Seq<AttrV>,
    c1: Seq<XmlNode>,
    c2: Seq<XmlNode>,
    scope: Seq<NsBinding>,
    rendered: Seq<NsBinding>,
    mode: CanonicalizationMode,
    keep_comments: bool,
    incl: Seq<Seq<char>>,
)
    requires
        d1.to_multiset() == d2.to_multiset(),
        a1.to_multiset() == a2.to_multiset(),
        similar_children(c1, c2),
    ensures
        crate::canon::canon_element(
            prefix,
            local,
            d1,
            a1,
            c1,
            scope,
            rendered,
            mode,
            keep_comments,
            incl,
        ) == crate::canon::canon_element(
            prefix,
            local,
            d2,
            a2,
            c2,
            scope,
            rendered,
            mode,
            keep_comments,
            incl,
        ),
    decreases c1, 1int,
{
    lemma_distinct_prefixes_multiset(d1, d2);
    if crate::canon::distinct_prefixes(d1) {
        lemma_scope_after_order_insensitive(scope, d1, d2);
        let ns = scope_after(scope, d1);
        lemma_attrs_resolvable_multiset(a1, a2, ns);
        if !(prefix.len() > 0 && lookup(ns, prefix).len() == 0)
            && crate::canon::attrs_resolvable(a1, ns) {
            lemma_sorted_attrs_order_insensitive(a1, a2, ns);
            lemma_attr_prefix_set_multiset(a1, a2);
            let rl = render_list(mode, ns, rendered, prefix, attr_prefix_set(a1), incl);
            let rendered2 = scope_after(rendered, rl);
            lemma_order_insensitive_children(
                c1,
                c2,
                ns,
                rendered2,
                mode,
                keep_comments,
                incl,
            );
        }
    }
}

/// Order-insensitivity over sibling lists.
pub proof fn lemma_order_insensitive_children(
    c1: Seq<XmlNode>,
    c2: Seq<XmlNode>,
    scope: Seq<NsBinding>,
    rendered: Seq<NsBinding>,
    mode: CanonicalizationMode,
    keep_comments: bool,
    incl: Seq<Seq<char>>,
)
    requires
        similar_children(c1, c2),
    ensures
        crate::canon::canon_children(c1, scope, rendered, mode, keep_comments, incl)
            == crate::canon::canon_children(c2, scope, rendered, mode, keep_comments, incl),
    decreases c1, 0int,
{
    if c1.len() > 0 {
        lemma_order_insensitive_node(c1[0], c2[0], scope, rendered, mode, keep_comments, incl);
        lemma_order_insensitive_children(
            c1.drop_first(),
            c2.drop_first(),
            scope,
            rendered,
            mode,
            keep_comments,
            incl,
        );
    }
}

/// Order-insensitivity at one node.
pub proof fn lemma_order_insensitive_node(
    a: XmlNode,
    b: XmlNode,
    scope: Seq<NsBinding>,
    rendered: Seq<NsBinding>,
    mode: CanonicalizationMode,
    keep_comments: bool,
    incl: Seq<Seq<char>>,
)
    requires
        similar(a, b),
    ensures
        canon_node(a, scope, rendered, mode, keep_comments, incl) == canon_node(
            b,
            scope,
            rendered,
            mode,
            keep_comments,
            incl,
        ),
    decreases a, 1int,
{
    match (a, b) {
        (
            XmlNode::Element { prefix: p1, local: l1, ns_decls: d1, attrs: at1, children: c1 },
            XmlNode::Element { prefix: p2, local: l2, ns_decls: d2, attrs: at2, children: c2 },
        ) => {
            lemma_order_insensitive_element(
                p1@,
                l1@,
                crate::model::decls_view(d1@),
                crate::model::decls_view(d2@),
                crate::model::attrs_view(at1@),
                crate::model::attrs_view(at2@),
                c1@,
                c2@,
                scope,
                rendered,
                mode,
                keep_comments,
                incl,
            );
        },
        _ => {},
    }
}

/// Order-insensitivity: two documents differing only in the order of
/// attribute or namespace declarations canonicalize to the same text (or
/// fail the same way) under every configuration.
pub proof fn lemma_order_insensitivity(
    x: XmlDocument,
    y: XmlDocument,
    mode: CanonicalizationMode,
    keep_comments: bool,
    incl: Seq<Seq<char>>,
)
    requires
        similar_docs(x, y),
    ensures
        canon_doc(x, mode, keep_comments, incl) == canon_doc(y, mode, keep_comments, incl),
{
    lemma_order_insensitive_node(
        x.root,
        y.root,
        crate::canon::initial_scope(),
        crate::canon::initial_scope(),
        mode,
        keep_comments,
        incl,
    );
    assert(crate::model::doc_wf(x) == crate::model::doc_wf(y));
}



/// No `<` occurs in the text.
pub open spec fn no_lt(s: Seq<char>) -> bool {
    forall|i: int| 0 <= i < s.len() ==> #[trigger] s[i] != '<'
}

/// Every `<` is immediately followed by something other than `!`, and the
/// text does not end in `<`. Text with this shape cannot contain `<!--`,
/// and concatenations of such texts keep the shape.
pub open spec fn lt_guarded(s: Seq<char>) -> bool {
    &&& forall|i: int|
        0 <= i < s.len() && #[trigger] s[i] == '<' ==> i + 1 < s.len() && s[i + 1] != '!'
    &&& s.len() > 0 ==> s[s.len() - 1] != '<'
}

/// A usable XML name: nonempty and free of `<` and `!`.
pub open spec fn clean_name(s: Seq<char>) -> bool {
    s.len() > 0 && forall|i: int| 0 <= i < s.len() ==> #[trigger] s[i] != '<' && s[i] != '!'
}

/// An optional prefix: empty, or a usable name.
pub open spec fn clean_opt_prefix(s: Seq<char>) -> bool {
    s.len() == 0 || clean_name(s)
}

/// Every prefix bound in the scope is empty or a usable name.
pub open spec fn scope_clean(scope: Seq<NsBinding>) -> bool {
    forall|i: int| 0 <= i < scope.len() ==> clean_opt_prefix((#[trigger] scope[i]).prefix)
}

/// All names in the subtree are usable and processing-instruction data is
/// free of `<`. XML names can never hold `<` or `!`; PI data, however, may
/// legally hold `<`, so this is a genuine hypothesis, not a fact of every
/// parsed document.
pub open spec fn node_clean(n: XmlNode) -> bool
    decreases n, 1int,
{
    match n {
        XmlNode::Element { prefix, local, ns_decls, attrs, children } => {
            &&& clean_opt_prefix(prefix@)
            &&& clean_name(local@)
            &&& forall|i: int|
                0 <= i < ns_decls@.len() ==> clean_opt_prefix(
                    (#[trigger] ns_decls@[i])@.prefix,
                )
            &&& forall|i: int|
                0 <= i < attrs@.len() ==> clean_opt_prefix((#[trigger] attrs@[i])@.prefix)
                    && clean_name(attrs@[i]@.local)
            &&& children_clean(children@)
        },
        XmlNode::Text(_) => true,
        XmlNode::Comment(_) => true,
        XmlNode::Pi { target, data } => clean_name(target@) && no_lt(data@),
    }
}

/// `node_clean`, over a sibling list.
pub open spec fn children_clean(cs: Seq<XmlNode>) -> bool
    decreases cs, 0int,
{
    if cs.len() == 0 {
        true
    } else {
        node_clean(cs[0]) && children_clean(cs.drop_first())
    }
}

/// All names of a document are usable.
pub open spec fn doc_clean(d: XmlDocument) -> bool {
    node_clean(d.root) && children_clean(d.prolog@) && children_clean(d.epilog@)
}

pub proof fn lemma_no_lt_guarded(s: Seq<char>)
    requires
        no_lt(s),
    ensures
        lt_guarded(s),
{
}

pub proof fn lemma_guard_concat(a: Seq<char>, b: Seq<char>)
    requires
        lt_guarded(a),
        lt_guarded(b),
    ensures
        lt_guarded(a + b),
{
    let c = a + b;
    assert forall|i: int| 0 <= i < c.len() && #[trigger] c[i] == '<' implies i + 1 < c.len() && c[i
        + 1] != '!' by {
        if i < a.len() {
            assert(c[i] == a[i]);
            assert(i < a.len() - 1);
            assert(a[i + 1] != '!');
        } else {
            assert(c[i] == b[i - a.len()]);
        }
    }
    if c.len() > 0 {
        if b.len() > 0 {
            assert(c[c.len() - 1] == b[b.len() - 1]);
        } else {
            assert(c[c.len() - 1] == a[a.len() - 1]);
        }
    }
}

pub proof fn lemma_no_lt_concat(a: Seq<char>, b: Seq<char>)
    requires
        no_lt(a),
        no_lt(b),
    ensures
        no_lt(a + b),
{
    assert forall|i: int| 0 <= i < (a + b).len() implies #[trigger] (a + b)[i] != '<' by {
        if i < a.len() {
            assert((a + b)[i] == a[i]);
        } else {
            assert((a + b)[i] == b[i - a.len()]);
        }
    }
}

pub proof fn lemma_no_lt_esc_attr(s: Seq<char>)
    ensures
        no_lt(crate::canon::esc_attr(s)),
    decreases s.len(),
{
    if s.len() > 0 {
        lemma_no_lt_esc_attr(s.drop_first());
        lemma_no_lt_concat(crate::canon::esc_attr_char(s[0]), crate::canon::esc_attr(
            s.drop_first(),
        ));
    }
}

pub proof fn lemma_no_lt_esc_text(s: Seq<char>)
    ensures
        no_lt(crate::canon::esc_text(s)),
    decreases s.len(),
{
    if s.len() > 0 {
        lemma_no_lt_esc_text(s.drop_first());
        lemma_no_lt_concat(crate::canon::esc_text_char(s[0]), crate::canon::esc_text(
            s.drop_first(),
        ));
    }
}

pub proof fn lemma_no_lt_render_ns(d: NsBinding)
    requires
        clean_opt_prefix(d.prefix),
    ensures
        no_lt(crate::canon::render_ns(d)),
{
    lemma_no_lt_esc_attr(d.uri);
    assert forall|i: int| 0 <= i < crate::canon::render_ns(d).len() implies #[trigger] crate::canon::render_ns(
        d,
    )[i] != '<' by {
        let pre = if d.prefix.len() == 0 {
            Seq::<char>::empty()
        } else {
            seq![':'] + d.prefix
        };
        let r = seq![' ', 'x', 'm', 'l', 'n', 's'] + pre + seq!['=', '"'] + crate::canon::esc_attr(
            d.uri,
        ) + seq!['"'];
        assert(crate::canon::render_ns(d) == r);
    }
}

pub proof fn lemma_no_lt_render_ns_list(l: Seq<NsBinding>)
    requires
        forall|i: int| 0 <= i < l.len() ==> clean_opt_prefix((#[trigger] l[i]).prefix),
    ensures
        no_lt(crate::canon::render_ns_list(l)),
    decreases l.len(),
{
    if l.len() > 0 {
        lemma_no_lt_render_ns(l[0]);
        lemma_no_lt_render_ns_list(l.drop_first());
        lemma_no_lt_concat(crate::canon::render_ns(l[0]), crate::canon::render_ns_list(
            l.drop_first(),
        ));
    }
}

pub proof fn lemma_no_lt_render_attr(a: crate::model::RAttr)
    requires
        clean_opt_prefix(a.prefix),
        clean_name(a.local),
    ensures
        no_lt(crate::canon::render_attr(a)),
{
    lemma_no_lt_esc_attr(a.value);
    assert forall|i: int| 0 <= i < crate::canon::render_attr(a).len() implies #[trigger] crate::canon::render_attr(
        a,
    )[i] != '<' by {
        let r = seq![' '] + crate::canon::qname(a.prefix, a.local) + seq!['=', '"']
            + crate::canon::esc_attr(a.value) + seq!['"'];
        assert(crate::canon::render_attr(a) == r);
    }
}

pub proof fn lemma_no_lt_render_attr_list(l: Seq<crate::model::RAttr>)
    requires
        forall|i: int|
            0 <= i < l.len() ==> clean_opt_prefix((#[trigger] l[i]).prefix) && clean_name(
                l[i].local,
            ),
    ensures
        no_lt(crate::canon::render_attr_list(l)),
    decreases l.len(),
{
    if l.len() > 0 {
        lemma_no_lt_render_attr(l[0]);
        lemma_no_lt_render_attr_list(l.drop_first());
        lemma_no_lt_concat(crate::canon::render_attr(l[0]), crate::canon::render_attr_list(
            l.drop_first(),
        ));
    }
}

/// Members of a sorted sequence are members of what was sorted.
pub proof fn lemma_sort_member_ns(s: Seq<NsBinding>, i: int)
    requires
        0 <= i < s.sort_by(ns_le()).len(),
    ensures
        s.contains(s.sort_by(ns_le())[i]),
{
    broadcast use vstd::seq_lib::group_to_multiset_ensures;

    lemma_ns_le_total();
    s.lemma_sort_by_ensures(ns_le());
    let x = s.sort_by(ns_le())[i];
    assert(s.sort_by(ns_le()).contains(x));
    vstd::seq_lib::to_multiset_contains(s.sort_by(ns_le()), x);
    vstd::seq_lib::to_multiset_contains(s, x);
}

/// The scope inside an element keeps clean prefixes, when the inherited
/// scope and the local declarations have clean prefixes.
pub proof fn lemma_scope_after_clean(scope: Seq<NsBinding>, decls: Seq<NsBinding>)
    requires
        scope_clean(scope),
        forall|i: int| 0 <= i < decls.len() ==> clean_opt_prefix((#[trigger] decls[i]).prefix),
    ensures
        scope_clean(scope_after(scope, decls)),
{
    broadcast use vstd::seq_lib::group_seq_lib_default;

    let cand = decls + unshadowed(scope, prefix_set(decls));
    assert forall|i: int| 0 <= i < cand.len() implies clean_opt_prefix(
        (#[trigger] cand[i]).prefix,
    ) by {
        if i < decls.len() {
            assert(cand[i] == decls[i]);
        } else {
            let u = unshadowed(scope, prefix_set(decls));
            assert(cand[i] == u[i - decls.len()]);
            assert(u.contains(u[i - decls.len()]));
            scope.lemma_filter_contains_rev(
                |d: NsBinding| !prefix_set(decls).contains(d.prefix),
                u[i - decls.len()],
            );
            assert(scope.contains(u[i - decls.len()]));
            let j = choose|j: int| 0 <= j < scope.len() && scope[j] == u[i - decls.len()];
            assert(clean_opt_prefix(scope[j].prefix));
        }
    }
    assert forall|i: int| 0 <= i < scope_after(scope, decls).len() implies clean_opt_prefix(
        (#[trigger] scope_after(scope, decls)[i]).prefix,
    ) by {
        lemma_sort_member_ns(cand, i);
        let x = scope_after(scope, decls)[i];
        let j = choose|j: int| 0 <= j < cand.len() && cand[j] == x;
        assert(clean_opt_prefix(cand[j].prefix));
    }
}

/// The rendered declarations of an element keep clean prefixes.
pub proof fn lemma_render_list_clean(
    mode: CanonicalizationMode,
    new_scope: Seq<NsBinding>,
    rendered: Seq<NsBinding>,
    eprefix: Seq<char>,
    apset: Set<Seq<char>>,
    incl: Seq<Seq<char>>,
)
    requires
        scope_clean(new_scope),
    ensures
        forall|i: int|
            0 <= i < render_list(mode, new_scope, rendered, eprefix, apset, incl).len()
                ==> clean_opt_prefix(
                (#[trigger] render_list(mode, new_scope, rendered, eprefix, apset, incl)[i]).prefix,
            ),
{
    broadcast use vstd::seq_lib::group_seq_lib_default;

    let rl = render_list(mode, new_scope, rendered, eprefix, apset, incl);
    assert forall|i: int| 0 <= i < rl.len() implies clean_opt_prefix(
        (#[trigger] rl[i]).prefix,
    ) by {
        assert(rl.contains(rl[i]));
        if mode is ExclusiveCanonical1_0 {
            new_scope.lemma_filter_contains_rev(
                |d: NsBinding|
                    (utilized(d.prefix, eprefix, apset) || list_has(incl, d.prefix)) && lookup(
                        rendered,
                        d.prefix,
                    ) != d.uri,
                rl[i],
            );
        } else {
            new_scope.lemma_filter_contains_rev(
                |d: NsBinding| lookup(rendered, d.prefix) != d.uri,
                rl[i],
            );
        }
        assert(new_scope.contains(rl[i]));
        let j = choose|j: int| 0 <= j < new_scope.len() && new_scope[j] == rl[i];
        assert(clean_opt_prefix(new_scope[j].prefix));
    }
}

/// The sorted resolved attributes keep clean names.
pub proof fn lemma_rats_clean(avs: Seq<AttrV>, scope: Seq<NsBinding>)
    requires
        forall|i: int|
            0 <= i < avs.len() ==> clean_opt_prefix((#[trigger] avs[i]).prefix) && clean_name(
                avs[i].local,
            ),
    ensures
        forall|i: int|
            0 <= i < resolved_attrs(avs, scope).sort_by(attr_le()).len() ==> clean_opt_prefix(
                (#[trigger] resolved_attrs(avs, scope).sort_by(attr_le())[i]).prefix,
            ) && clean_name(resolved_attrs(avs, scope).sort_by(attr_le())[i].local),
{
    broadcast use vstd::seq_lib::group_to_multiset_ensures;

    let rs = resolved_attrs(avs, scope);
    let sorted = rs.sort_by(attr_le());
    lemma_attr_le_total();
    rs.lemma_sort_by_ensures(attr_le());
    assert forall|i: int| 0 <= i < sorted.len() implies clean_opt_prefix(
        (#[trigger] sorted[i]).prefix,
    ) && clean_name(sorted[i].local) by {
        let x = sorted[i];
        assert(sorted.contains(x));
        vstd::seq_lib::to_multiset_contains(sorted, x);
        vstd::seq_lib::to_multiset_contains(rs, x);
        assert(rs.contains(x));
        let j = choose|j: int| 0 <= j < rs.len() && rs[j] == x;
        assert(rs[j] == crate::canon::resolve_attr(avs[j], scope));
    }
}

/// With comments stripped, the canonical form of one node never holds a
/// `<` that a `!` follows.
pub proof fn lemma_comment_free_node(
    n: XmlNode,
    scope: Seq<NsBinding>,
    rendered: Seq<NsBinding>,
    mode: CanonicalizationMode,
    incl: Seq<Seq<char>>,
)
    requires
        node_clean(n),
        scope_clean(scope),
        canon_node(n, scope, rendered, mode, false, incl) is Ok,
    ensures
        lt_guarded(canon_node(n, scope, rendered, mode, false, incl)->Ok_0),
    decreases n, 1int,
{
    match n {
        XmlNode::Text(t) => {
            lemma_no_lt_esc_text(t@);
            lemma_no_lt_guarded(crate::canon::esc_text(t@));
        },
        XmlNode::Comment(_) => {
        },
        XmlNode::Pi { target, data } => {
            let mid = if data@.len() == 0 {
                Seq::<char>::empty()
            } else {
                seq![' '] + data@
            };
            assert(lt_guarded(seq!['<', '?']));
            lemma_no_lt_guarded(target@);
            if data@.len() > 0 {
                lemma_no_lt_concat(seq![' '], data@);
            }
            lemma_no_lt_guarded(mid);
            assert(lt_guarded(seq!['?', '>']));
            lemma_guard_concat(seq!['<', '?'], target@);
            lemma_guard_concat(seq!['<', '?'] + target@, mid);
            lemma_guard_concat(seq!['<', '?'] + target@ + mid, seq!['?', '>']);
            assert(crate::canon::render_pi(target@, data@) == seq!['<', '?'] + target@ + mid
                + seq!['?', '>']);
        },
        XmlNode::Element { prefix, local, ns_decls, attrs, children } => {
            let decls = crate::model::decls_view(ns_decls@);
            let avs = crate::model::attrs_view(attrs@);
            let ns = scope_after(scope, decls);
            let apset = attr_prefix_set(avs);
            let rats = resolved_attrs(avs, ns).sort_by(attr_le());
            let rl = render_list(mode, ns, rendered, prefix@, apset, incl);
            let rendered2 = scope_after(rendered, rl);
            assert forall|i: int| 0 <= i < decls.len() implies clean_opt_prefix(
                (#[trigger] decls[i]).prefix,
            ) by {
                assert(decls[i] == ns_decls@[i]@);
            }
            assert forall|i: int| 0 <= i < avs.len() implies clean_opt_prefix(
                (#[trigger] avs[i]).prefix,
            ) && clean_name(avs[i].local) by {
                assert(avs[i] == attrs@[i]@);
            }
            lemma_scope_after_clean(scope, decls);
            lemma_render_list_clean(mode, ns, rendered, prefix@, apset, incl);
            lemma_rats_clean(avs, ns);
            lemma_no_lt_render_ns_list(rl);
            lemma_no_lt_render_attr_list(rats);
            let qn = crate::canon::qname(prefix@, local@);
            assert(qn.len() > 0);
            assert forall|i: int| 0 <= i < qn.len() implies #[trigger] qn[i] != '<' && qn[i]
                != '!' by {
                if prefix@.len() > 0 {
                    assert(qn == prefix@ + seq![':'] + local@);
                    if i < prefix@.len() {
                        assert(qn[i] == prefix@[i]);
                    } else if i == prefix@.len() {
                        assert(qn[i] == ':');
                    } else {
                        assert(qn[i] == local@[i - prefix@.len() - 1]);
                    }
                }
            }
            let body = crate::canon::canon_children(
                children@,
                ns,
                rendered2,
                mode,
                false,
                incl,
            )->Ok_0;
            lemma_comment_free_children(children@, ns, rendered2, mode, incl);
            assert(lt_guarded(seq!['<'] + qn)) by {
                assert((seq!['<'] + qn)[0] == '<');
                assert forall|i: int|
                    0 <= i < (seq!['<'] + qn).len() && #[trigger] (seq!['<'] + qn)[i]
                        == '<' implies i + 1 < (seq!['<'] + qn).len() && (seq!['<'] + qn)[i + 1]
                    != '!' by {
                    if i == 0 {
                        assert((seq!['<'] + qn)[1] == qn[0]);
                    } else {
                        assert((seq!['<'] + qn)[i] == qn[i - 1]);
                    }
                }
                assert((seq!['<'] + qn)[(seq!['<'] + qn).len() - 1] == qn[qn.len() - 1]);
            }
            lemma_no_lt_guarded(crate::canon::render_ns_list(rl));
            lemma_no_lt_guarded(crate::canon::render_attr_list(rats));
            lemma_guard_concat(seq!['<'] + qn, crate::canon::render_ns_list(rl));
            lemma_guard_concat(
                seq!['<'] + qn + crate::canon::render_ns_list(rl),
                crate::canon::render_attr_list(rats),
            );
            assert(lt_guarded(seq!['>']));
            lemma_guard_concat(
                seq!['<'] + qn + crate::canon::render_ns_list(rl) + crate::canon::render_attr_list(
                    rats,
                ),
                seq!['>'],
            );
            lemma_guard_concat(
                seq!['<'] + qn + crate::canon::render_ns_list(rl) + crate::canon::render_attr_list(
                    rats,
                ) + seq!['>'],
                body,
            );
            assert(lt_guarded(seq!['<', '/'] + qn + seq!['>'])) by {
                let e = seq!['<', '/'] + qn + seq!['>'];
                assert forall|i: int|
                    0 <= i < e.len() && #[trigger] e[i] == '<' implies i + 1 < e.len() && e[i + 1]
                    != '!' by {
                    if i == 0 {
                        assert(e[1] == '/');
                    } else if i == 1 {
                    } else if i < 2 + qn.len() {
                        assert(e[i] == qn[i - 2]);
                    } else {
                        assert(e[i] == '>');
                    }
                }
                assert(e[e.len() - 1] == '>');
            }
            lemma_guard_concat(
                seq!['<'] + qn + crate::canon::render_ns_list(rl) + crate::canon::render_attr_list(
                    rats,
                ) + seq!['>'] + body,
                seq!['<', '/'] + qn + seq!['>'],
            );
            assert(canon_node(n, scope, rendered, mode, false, incl)->Ok_0 == seq!['<'] + qn
                + crate::canon::render_ns_list(rl) + crate::canon::render_attr_list(rats)
                + seq!['>'] + body + (seq!['<', '/'] + qn + seq!['>'])) by {
                assert(seq!['<'] + qn + crate::canon::render_ns_list(rl)
                    + crate::canon::render_attr_list(rats) + seq!['>'] + body + (seq!['<', '/']
                    + qn + seq!['>']) =~= seq!['<'] + qn + crate::canon::render_ns_list(rl)
                    + crate::canon::render_attr_list(rats) + seq!['>'] + body + seq!['<', '/'] + qn
                    + seq!['>']);
            }
        },
    }
}

/// With comments stripped, the canonical form of a sibling list never holds
/// a `<` that a `!` follows.
pub proof fn lemma_comment_free_children(
    cs: Seq<XmlNode>,
    scope: Seq<NsBinding>,
    rendered: Seq<NsBinding>,
    mode: CanonicalizationMode,
    incl: Seq<Seq<char>>,
)
    requires
        children_clean(cs),
        scope_clean(scope),
        crate::canon::canon_children(cs, scope, rendered, mode, false, incl) is Ok,
    ensures
        lt_guarded(crate::canon::canon_children(cs, scope, rendered, mode, false, incl)->Ok_0),
    decreases cs, 0int,
{
    if cs.len() > 0 {
        lemma_comment_free_node(cs[0], scope, rendered, mode, incl);
        lemma_comment_free_children(cs.drop_first(), scope, rendered, mode, incl);
        lemma_guard_concat(
            canon_node(cs[0], scope, rendered, mode, false, incl)->Ok_0,
            crate::canon::canon_children(cs.drop_first(), scope, rendered, mode, false, incl)->Ok_0,
        );
    }
}



/// With comments stripped, a node outside the root element emits guarded
/// text.
pub proof fn lemma_misc_guarded(n: XmlNode)
    requires
        node_clean(n),
    ensures
        lt_guarded(crate::canon::misc_out(n, false)),
{
    match n {
        XmlNode::Pi { target, data } => {
            let mid = if data@.len() == 0 {
                Seq::<char>::empty()
            } else {
                seq![' '] + data@
            };
            assert(lt_guarded(seq!['<', '?']));
            lemma_no_lt_guarded(target@);
            if data@.len() > 0 {
                lemma_no_lt_concat(seq![' '], data@);
            }
            lemma_no_lt_guarded(mid);
            assert(lt_guarded(seq!['?', '>']));
            lemma_guard_concat(seq!['<', '?'], target@);
            lemma_guard_concat(seq!['<', '?'] + target@, mid);
            lemma_guard_concat(seq!['<', '?'] + target@ + mid, seq!['?', '>']);
            assert(crate::canon::render_pi(target@, data@) == seq!['<', '?'] + target@ + mid
                + seq!['?', '>']);
        },
        _ => {},
    }
}

/// With comments stripped, the text before the root element is guarded.
pub proof fn lemma_prolog_guarded(ms: Seq<XmlNode>)
    requires
        children_clean(ms),
    ensures
        lt_guarded(crate::canon::canon_prolog(ms, false)),
    decreases ms.len(),
{
    if ms.len() > 0 {
        lemma_misc_guarded(ms[0]);
        let head = crate::canon::misc_out(ms[0], false);
        let piece = if head.len() == 0 {
            Seq::<char>::empty()
        } else {
            head + seq!['\u{A}']
        };
        if head.len() > 0 {
            lemma_guard_concat(head, seq!['\u{A}']);
        }
        lemma_prolog_guarded(ms.drop_first());
        lemma_guard_concat(piece, crate::canon::canon_prolog(ms.drop_first(), false));
    }
}

/// With comments stripped, the text after the root element is guarded.
pub proof fn lemma_epilog_guarded(ms: Seq<XmlNode>)
    requires
        children_clean(ms),
    ensures
        lt_guarded(crate::canon::canon_epilog(ms, false)),
    decreases ms.len(),
{
    if ms.len() > 0 {
        lemma_misc_guarded(ms[0]);
        let head = crate::canon::misc_out(ms[0], false);
        let piece = if head.len() == 0 {
            Seq::<char>::empty()
        } else {
            seq!['\u{A}'] + head
        };
        if head.len() > 0 {
            lemma_guard_concat(seq!['\u{A}'], head);
        }
        lemma_epilog_guarded(ms.drop_first());
        lemma_guard_concat(piece, crate::canon::canon_epilog(ms.drop_first(), false));
    }
}

/// Comment toggling: with comments stripped, the marker `<!--` never occurs
/// anywhere in the canonical form, provided the document's names are usable
/// XML names and no processing instruction's data holds `<`. The hypothesis
/// on PI data is needed: PI data is emitted verbatim and may legally hold
/// `<!--`, in which case the marker does appear.
pub proof fn lemma_comment_toggling(
    d: XmlDocument,
    mode: CanonicalizationMode,
    incl: Seq<Seq<char>>,
    out: Seq<char>,
)
    requires
        doc_clean(d),
        canon_doc(d, mode, false, incl) == Ok::<Seq<char>, CanonError>(out),
    ensures
        forall|i: int|
            0 <= i && i + 4 <= out.len() ==> (#[trigger] out.subrange(i, i + 4) != seq!['<', '!', '-', '-']),
{
    let init = crate::canon::initial_scope();
    assert(scope_clean(init)) by {
        assert(init[0].prefix == seq!['x', 'm', 'l']);
        assert(clean_name(seq!['x', 'm', 'l']));
    }
    lemma_comment_free_node(d.root, init, init, mode, incl);
    lemma_prolog_guarded(d.prolog@);
    lemma_epilog_guarded(d.epilog@);
    let body = canon_node(d.root, init, init, mode, false, incl)->Ok_0;
    lemma_guard_concat(crate::canon::canon_prolog(d.prolog@, false), body);
    lemma_guard_concat(
        crate::canon::canon_prolog(d.prolog@, false) + body,
        crate::canon::canon_epilog(d.epilog@, false),
    );
    assert(lt_guarded(out));
    assert forall|i: int| 0 <= i && i + 4 <= out.len() implies #[trigger] out.subrange(i, i + 4)
        != seq!['<', '!', '-', '-'] by {
        if out.subrange(i, i + 4) == seq!['<', '!', '-', '-'] {
            assert(out.subrange(i, i + 4)[0] == out[i]);
            assert(out.subrange(i, i + 4)[1] == out[i + 1]);
            assert(out[i] == '<' && out[i + 1] == '!');
        }
    }
}



/// The text holds `seg` as one contiguous segment.
pub open spec fn contains_seg(s: Seq<char>, seg: Seq<char>) -> bool {
    exists|k: int|
        0 <= k && k + seg.len() <= s.len() && #[trigger] s.subrange(k, k + seg.len() as int) == seg
}

/// A text holds itself as a segment.
pub proof fn lemma_contains_seg_self(s: Seq<char>)
    ensures
        contains_seg(s, s),
{
    assert(s.subrange(0, 0 + s.len() as int) =~= s);
}

pub proof fn lemma_contains_seg_left(a: Seq<char>, b: Seq<char>, seg: Seq<char>)
    requires
        contains_seg(a, seg),
    ensures
        contains_seg(a + b, seg),
{
    let k = choose|k: int|
        0 <= k && k + seg.len() <= a.len() && #[trigger] a.subrange(k, k + seg.len() as int)
            == seg;
    assert((a + b).subrange(k, k + seg.len() as int) =~= a.subrange(k, k + seg.len() as int));
}

pub proof fn lemma_contains_seg_right(a: Seq<char>, b: Seq<char>, seg: Seq<char>)
    requires
        contains_seg(b, seg),
    ensures
        contains_seg(a + b, seg),
{
    let k = choose|k: int|
        0 <= k && k + seg.len() <= b.len() && #[trigger] b.subrange(k, k + seg.len() as int)
            == seg;
    assert((a + b).subrange(a.len() + k, a.len() + k + seg.len() as int) =~= b.subrange(
        k,
        k + seg.len() as int,
    ));
}

/// Whether the subtree holds a comment with exactly this text.
pub open spec fn has_comment(n: XmlNode, t: Seq<char>) -> bool
    decreases n, 1int,
{
    match n {
        XmlNode::Comment(c) => c@ == t,
        XmlNode::Element { children, .. } => has_comment_children(children@, t),
        _ => false,
    }
}

/// `has_comment`, over a sibling list.
pub open spec fn has_comment_children(cs: Seq<XmlNode>, t: Seq<char>) -> bool
    decreases cs, 0int,
{
    if cs.len() == 0 {
        false
    } else {
        has_comment(cs[0], t) || has_comment_children(cs.drop_first(), t)
    }
}

/// With comments kept, the canonical form of a node holds each of its
/// comments verbatim, delimited as `<!--` text `-->`.
pub proof fn lemma_comment_kept_node(
    n: XmlNode,
    scope: Seq<NsBinding>,
    rendered: Seq<NsBinding>,
    mode: CanonicalizationMode,
    incl: Seq<Seq<char>>,
    t: Seq<char>,
)
    requires
        has_comment(n, t),
        canon_node(n, scope, rendered, mode, true, incl) is Ok,
    ensures
        contains_seg(
            canon_node(n, scope, rendered, mode, true, incl)->Ok_0,
            crate::canon::render_comment(t),
        ),
    decreases n, 1int,
{
    let seg = crate::canon::render_comment(t);
    match n {
        XmlNode::Comment(c) => {
            let out = canon_node(n, scope, rendered, mode, true, incl)->Ok_0;
            assert(out == seg);
            lemma_contains_seg_self(out);
        },
        XmlNode::Element { prefix, local, ns_decls, attrs, children } => {
            let decls = crate::model::decls_view(ns_decls@);
            let avs = crate::model::attrs_view(attrs@);
            let ns = scope_after(scope, decls);
            let rats = resolved_attrs(avs, ns).sort_by(attr_le());
            let rl = render_list(mode, ns, rendered, prefix@, attr_prefix_set(avs), incl);
            let rendered2 = scope_after(rendered, rl);
            let qn = crate::canon::qname(prefix@, local@);
            let body = crate::canon::canon_children(children@, ns, rendered2, mode, true, incl)->Ok_0;
            lemma_comment_kept_children(children@, ns, rendered2, mode, incl, t);
            let head = seq!['<'] + qn + crate::canon::render_ns_list(rl)
                + crate::canon::render_attr_list(rats) + seq!['>'];
            lemma_contains_seg_right(head, body, seg);
            lemma_contains_seg_left(head + body, seq!['<', '/'], seg);
            lemma_contains_seg_left(head + body + seq!['<', '/'], qn, seg);
            lemma_contains_seg_left(head + body + seq!['<', '/'] + qn, seq!['>'], seg);
            assert(canon_node(n, scope, rendered, mode, true, incl)->Ok_0 == head + body + seq![
                '<',
                '/',
            ] + qn + seq!['>']);
        },
        _ => {},
    }
}

/// With comments kept, the canonical form of a sibling list holds each of
/// its comments verbatim.
pub proof fn lemma_comment_kept_children(
    cs: Seq<XmlNode>,
    scope: Seq<NsBinding>,
    rendered: Seq<NsBinding>,
    mode: CanonicalizationMode,
    incl: Seq<Seq<char>>,
    t: Seq<char>,
)
    requires
        has_comment_children(cs, t),
        crate::canon::canon_children(cs, scope, rendered, mode, true, incl) is Ok,
    ensures
        contains_seg(
            crate::canon::canon_children(cs, scope, rendered, mode, true, incl)->Ok_0,
            crate::canon::render_comment(t),
        ),
    decreases cs, 0int,
{
    let seg = crate::canon::render_comment(t);
    let head = canon_node(cs[0], scope, rendered, mode, true, incl)->Ok_0;
    let tail = crate::canon::canon_children(
        cs.drop_first(),
        scope,
        rendered,
        mode,
        true,
        incl,
    )->Ok_0;
    if has_comment(cs[0], t) {
        lemma_comment_kept_node(cs[0], scope, rendered, mode, incl, t);
        lemma_contains_seg_left(head, tail, seg);
    } else {
        lemma_comment_kept_children(cs.drop_first(), scope, rendered, mode, incl, t);
        lemma_contains_seg_right(head, tail, seg);
    }
}

/// With comments kept, the text before the root element holds each of its
/// comments verbatim.
pub proof fn lemma_comment_kept_prolog(ms: Seq<XmlNode>, t: Seq<char>)
    requires
        has_comment_children(ms, t),
        forall|k: int| 0 <= k < ms.len() ==> crate::model::is_misc(#[trigger] ms[k]),
    ensures
        contains_seg(crate::canon::canon_prolog(ms, true), crate::canon::render_comment(t)),
    decreases ms.len(),
{
    let seg = crate::canon::render_comment(t);
    let head = crate::canon::misc_out(ms[0], true);
    let piece = if head.len() == 0 {
        Seq::<char>::empty()
    } else {
        head + seq!['\u{A}']
    };
    if has_comment(ms[0], t) {
        assert(head == seg);
        lemma_contains_seg_self(head);
        lemma_contains_seg_left(head, seq!['\u{A}'], seg);
        lemma_contains_seg_left(piece, crate::canon::canon_prolog(ms.drop_first(), true), seg);
    } else {
        assert forall|k: int| 0 <= k < ms.drop_first().len() implies crate::model::is_misc(
            #[trigger] ms.drop_first()[k],
        ) by {
            assert(ms.drop_first()[k] == ms[k + 1]);
        }
        lemma_comment_kept_prolog(ms.drop_first(), t);
        lemma_contains_seg_right(piece, crate::canon::canon_prolog(ms.drop_first(), true), seg);
    }
}

/// With comments kept, the text after the root element holds each of its
/// comments verbatim.
pub proof fn lemma_comment_kept_epilog(ms: Seq<XmlNode>, t: Seq<char>)
    requires
        has_comment_children(ms, t),
        forall|k: int| 0 <= k < ms.len() ==> crate::model::is_misc(#[trigger] ms[k]),
    ensures
        contains_seg(crate::canon::canon_epilog(ms, true), crate::canon::render_comment(t)),
    decreases ms.len(),
{
    let seg = crate::canon::render_comment(t);
    let head = crate::canon::misc_out(ms[0], true);
    let piece = if head.len() == 0 {
        Seq::<char>::empty()
    } else {
        seq!['\u{A}'] + head
    };
    if has_comment(ms[0], t) {
        assert(head == seg);
        lemma_contains_seg_self(head);
        lemma_contains_seg_right(seq!['\u{A}'], head, seg);
        lemma_contains_seg_left(piece, crate::canon::canon_epilog(ms.drop_first(), true), seg);
    } else {
        assert forall|k: int| 0 <= k < ms.drop_first().len() implies crate::model::is_misc(
            #[trigger] ms.drop_first()[k],
        ) by {
            assert(ms.drop_first()[k] == ms[k + 1]);
        }
        lemma_comment_kept_epilog(ms.drop_first(), t);
        lemma_contains_seg_right(piece, crate::canon::canon_epilog(ms.drop_first(), true), seg);
    }
}

/// Comment toggling, the keeping direction: with comments kept, every
/// comment of the document appears in the canonical form verbatim, as
/// `<!--` text `-->`, wherever in the document it stands.
pub proof fn lemma_comment_kept(
    d: XmlDocument,
    mode: CanonicalizationMode,
    incl: Seq<Seq<char>>,
    out: Seq<char>,
    t: Seq<char>,
)
    requires
        canon_doc(d, mode, true, incl) == Ok::<Seq<char>, CanonError>(out),
        has_comment(d.root, t) || has_comment_children(d.prolog@, t) || has_comment_children(
            d.epilog@,
            t,
        ),
    ensures
        contains_seg(out, crate::canon::render_comment(t)),
{
    let seg = crate::canon::render_comment(t);
    let init = crate::canon::initial_scope();
    let pro = crate::canon::canon_prolog(d.prolog@, true);
    let body = canon_node(d.root, init, init, mode, true, incl)->Ok_0;
    let epi = crate::canon::canon_epilog(d.epilog@, true);
    if has_comment(d.root, t) {
        lemma_comment_kept_node(d.root, init, init, mode, incl, t);
        lemma_contains_seg_right(pro, body, seg);
        lemma_contains_seg_left(pro + body, epi, seg);
    } else if has_comment_children(d.prolog@, t) {
        lemma_comment_kept_prolog(d.prolog@, t);
        lemma_contains_seg_left(pro, body, seg);
        lemma_contains_seg_left(pro + body, epi, seg);
    } else {
        lemma_comment_kept_epilog(d.epilog@, t);
        lemma_contains_seg_right(pro + body, epi, seg);
    }
}


} // verus!
