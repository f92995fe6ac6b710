//! The executable serializer: walks the tree in document order and appends
//! canonical text to an output buffer, proved equal to `canon::canon_doc`.

use vstd::prelude::*;

use crate::model::{
    NsDecl, NsBinding, Attr, XmlNode, decls_view, attrs_view, prefixes_view, ns_le, attr_le,
};
use crate::canon::{
    CanonError, lookup, declares, prefix_set, scope_after, attr_prefix_set, list_has, utilized,
    render_list, resolve_attr, resolved_attrs, attrs_resolvable, esc_attr_char, esc_attr,
    esc_text_char, esc_text, render_ns, render_ns_list, render_attr, render_attr_list, qname,
    canon_node, canon_children, render_comment, render_pi, misc_out, canon_prolog, canon_epilog,
    unshadowed, incl_render, excl_render, canon_element,
};
use crate::serial::{
    RAttrE, rattrs_view, extend_chars, lookup_exec, declares_exec, distinct_prefixes_exec,
    distinct_expanded_exec, sort_ns_exec, sort_rattrs_exec,
};
use crate::chars::chars_eq;
use crate::CanonicalizationMode;

verus! {

pub proof fn lemma_esc_attr_push(s: Seq<char>, c: char)
    ensures
        esc_attr(s.push(c)) == esc_attr(s) + esc_attr_char(c),
    decreases s.len(),
{
    if s.len() == 0 {
        assert(s.push(c)[0] == c);
        assert(s.push(c).drop_first() =~= Seq::<char>::empty());
        assert(esc_attr(Seq::<char>::empty()) == Seq::<char>::empty());
        assert(esc_attr(s.push(c)) =~= esc_attr(s) + esc_attr_char(c));
    } else {
        assert(s.push(c)[0] == s[0]);
        assert(s.push(c).drop_first() =~= s.drop_first().push(c));
        lemma_esc_attr_push(s.drop_first(), c);
        assert(esc_attr_char(s[0]) + (esc_attr(s.drop_first()) + esc_attr_char(c)) =~= (
        esc_attr_char(s[0]) + esc_attr(s.drop_first())) + esc_attr_char(c));
    }
}

pub proof fn lemma_esc_text_push(s: Seq<char>, c: char)
    ensures
        esc_text(s.push(c)) == esc_text(s) + esc_text_char(c),
    decreases s.len(),
{
    if s.len() == 0 {
        assert(s.push(c)[0] == c);
        assert(s.push(c).drop_first() =~= Seq::<char>::empty());
        assert(esc_text(Seq::<char>::empty()) == Seq::<char>::empty());
        assert(esc_text(s.push(c)) =~= esc_text(s) + esc_text_char(c));
    } else {
        assert(s.push(c)[0] == s[0]);
        assert(s.push(c).drop_first() =~= s.drop_first().push(c));
        lemma_esc_text_push(s.drop_first(), c);
        assert(esc_text_char(s[0]) + (esc_text(s.drop_first()) + esc_text_char(c)) =~= (
        esc_text_char(s[0]) + esc_text(s.drop_first())) + esc_text_char(c));
    }
}

pub proof fn lemma_render_ns_list_push(l: Seq<NsBinding>, d: NsBinding)
    ensures
        render_ns_list(l.push(d)) == render_ns_list(l) + render_ns(d),
    decreases l.len(),
{
    if l.len() == 0 {
        assert(l.push(d)[0] == d);
        assert(l.push(d).drop_first() =~= Seq::<NsBinding>::empty());
        assert(render_ns_list(Seq::<NsBinding>::empty()) == Seq::<char>::empty());
        assert(render_ns_list(l.push(d)) =~= render_ns_list(l) + render_ns(d));
    } else {
        assert(l.push(d)[0] == l[0]);
        assert(l.push(d).drop_first() =~= l.drop_first().push(d));
        lemma_render_ns_list_push(l.drop_first(), d);
        assert(render_ns(l[0]) + (render_ns_list(l.drop_first()) + render_ns(d)) =~= (render_ns(
            l[0],
        ) + render_ns_list(l.drop_first())) + render_ns(d));
    }
}

pub proof fn lemma_render_attr_list_push(l: Seq<crate::model::RAttr>, a: crate::model::RAttr)
    ensures
        render_attr_list(l.push(a)) == render_attr_list(l) + render_attr(a),
    decreases l.len(),
{
    if l.len() == 0 {
        assert(l.push(a)[0] == a);
        assert(l.push(a).drop_first() =~= Seq::<crate::model::RAttr>::empty());
        assert(render_attr_list(Seq::<crate::model::RAttr>::empty()) == Seq::<char>::empty());
        assert(render_attr_list(l.push(a)) =~= render_attr_list(l) + render_attr(a));
    } else {
        assert(l.push(a)[0] == l[0]);
        assert(l.push(a).drop_first() =~= l.drop_first().push(a));
        lemma_render_attr_list_push(l.drop_first(), a);
        assert(render_attr(l[0]) + (render_attr_list(l.drop_first()) + render_attr(a)) =~= (
        render_attr(l[0]) + render_attr_list(l.drop_first())) + render_attr(a));
    }
}

/// How the canonical form of one more sibling extends the canonical form of
/// the siblings before it.
pub proof fn lemma_canon_children_push(
    cs: Seq<XmlNode>,
    n: XmlNode,
    scope: Seq<NsBinding>,
    rendered: Seq<NsBinding>,
    mode: CanonicalizationMode,
    keep_comments: bool,
    incl: Seq<Seq<char>>,
)
    ensures
        canon_children(cs.push(n), scope, rendered, mode, keep_comments, incl) == (match (
        canon_children(cs, scope, rendered, mode, keep_comments, incl),
        canon_node(n, scope, rendered, mode, keep_comments, incl),
        ) {
            (Err(e), _) => Err::<Seq<char>, CanonError>(e),
            (Ok(_), Err(e)) => Err(e),
            (Ok(a), Ok(b)) => Ok(a + b),
        }),
    decreases cs.len(),
{
    if cs.len() == 0 {
        assert(cs.push(n)[0] == n);
        assert(cs.push(n).drop_first() =~= Seq::<XmlNode>::empty());
        assert(canon_children(Seq::<XmlNode>::empty(), scope, rendered, mode, keep_comments, incl)
            == Ok::<Seq<char>, CanonError>(Seq::<char>::empty()));
        if canon_node(n, scope, rendered, mode, keep_comments, incl) is Ok {
            let b = canon_node(n, scope, rendered, mode, keep_comments, incl)->Ok_0;
            assert(b + Seq::<char>::empty() =~= b);
            assert(Seq::<char>::empty() + b =~= b);
        }
    } else {
        assert(cs.push(n)[0] == cs[0]);
        assert(cs.push(n).drop_first() =~= cs.drop_first().push(n));
        lemma_canon_children_push(cs.drop_first(), n, scope, rendered, mode, keep_comments, incl);
        let h = canon_node(cs[0], scope, rendered, mode, keep_comments, incl);
        let t = canon_children(cs.drop_first(), scope, rendered, mode, keep_comments, incl);
        let b = canon_node(n, scope, rendered, mode, keep_comments, incl);
        if h is Ok && t is Ok && b is Ok {
            assert(h->Ok_0 + (t->Ok_0 + b->Ok_0) =~= (h->Ok_0 + t->Ok_0) + b->Ok_0);
        }
    }
}

pub proof fn lemma_canon_prolog_push(ms: Seq<XmlNode>, n: XmlNode, keep_comments: bool)
    ensures
        canon_prolog(ms.push(n), keep_comments) == canon_prolog(ms, keep_comments) + (if misc_out(
            n,
            keep_comments,
        ).len() == 0 {
            Seq::<char>::empty()
        } else {
            misc_out(n, keep_comments) + seq!['\u{A}']
        }),
    decreases ms.len(),
{
    let tailpiece = if misc_out(n, keep_comments).len() == 0 {
        Seq::<char>::empty()
    } else {
        misc_out(n, keep_comments) + seq!['\u{A}']
    };
    if ms.len() == 0 {
        assert(ms.push(n)[0] == n);
        assert(ms.push(n).drop_first() =~= Seq::<XmlNode>::empty());
        assert(canon_prolog(Seq::<XmlNode>::empty(), keep_comments) == Seq::<char>::empty());
        assert(canon_prolog(ms.push(n), keep_comments) =~= canon_prolog(ms, keep_comments)
            + tailpiece);
    } else {
        assert(ms.push(n)[0] == ms[0]);
        assert(ms.push(n).drop_first() =~= ms.drop_first().push(n));
        lemma_canon_prolog_push(ms.drop_first(), n, keep_comments);
        let hd = if misc_out(ms[0], keep_comments).len() == 0 {
            Seq::<char>::empty()
        } else {
            misc_out(ms[0], keep_comments) + seq!['\u{A}']
        };
        assert(hd + (canon_prolog(ms.drop_first(), keep_comments) + tailpiece) =~= (hd
            + canon_prolog(ms.drop_first(), keep_comments)) + tailpiece);
    }
}

pub proof fn lemma_canon_epilog_push(ms: Seq<XmlNode>, n: XmlNode, keep_comments: bool)
    ensures
        canon_epilog(ms.push(n), keep_comments) == canon_epilog(ms, keep_comments) + (if misc_out(
            n,
            keep_comments,
        ).len() == 0 {
            Seq::<char>::empty()
        } else {
            seq!['\u{A}'] + misc_out(n, keep_comments)
        }),
    decreases ms.len(),
{
    let tailpiece = if misc_out(n, keep_comments).len() == 0 {
        Seq::<char>::empty()
    } else {
        seq!['\u{A}'] + misc_out(n, keep_comments)
    };
    if ms.len() == 0 {
        assert(ms.push(n)[0] == n);
        assert(ms.push(n).drop_first() =~= Seq::<XmlNode>::empty());
        assert(canon_epilog(Seq::<XmlNode>::empty(), keep_comments) == Seq::<char>::empty());
        assert(canon_epilog(ms.push(n), keep_comments) =~= canon_epilog(ms, keep_comments)
            + tailpiece);
    } else {
        assert(ms.push(n)[0] == ms[0]);
        assert(ms.push(n).drop_first() =~= ms.drop_first().push(n));
        lemma_canon_epilog_push(ms.drop_first(), n, keep_comments);
        let hd = if misc_out(ms[0], keep_comments).len() == 0 {
            Seq::<char>::empty()
        } else {
            seq!['\u{A}'] + misc_out(ms[0], keep_comments)
        };
        assert(hd + (canon_epilog(ms.drop_first(), keep_comments) + tailpiece) =~= (hd
            + canon_epilog(ms.drop_first(), keep_comments)) + tailpiece);
    }
}

/// Append the canonical escaping of one attribute-value character.
fn push_esc_attr_char(out: &mut Vec<char>, c: char)
    ensures
        final(out)@ == old(out)@ + esc_attr_char(c),
{
    if c == '&' {
        out.push('&');
        out.push('a');
        out.push('m');
        out.push('p');
        out.push(';');
    } else if c == '<' {
        out.push('&');
        out.push('l');
        out.push('t');
        out.push(';');
    } else if c == '"' {
        out.push('&');
        out.push('q');
        out.push('u');
        out.push('o');
        out.push('t');
        out.push(';');
    } else if c == '\u{9}' {
        out.push('&');
        out.push('#');
        out.push('9');
        out.push(';');
    } else if c == '\u{A}' {
        out.push('&');
        out.push('#');
        out.push('x');
        out.push('A');
        out.push(';');
    } else if c == '\u{D}' {
        out.push('&');
        out.push('#');
        out.push('x');
        out.push('D');
        out.push(';');
    } else {
        out.push(c);
    }
    proof {
        assert(out@ =~= old(out)@ + esc_attr_char(c));
    }
}

/// Append the canonical escaping of one text character.
fn push_esc_text_char(out: &mut Vec<char>, c: char)
    ensures
        final(out)@ == old(out)@ + esc_text_char(c),
{
    if c == '&' {
        out.push('&');
        out.push('a');
        out.push('m');
        out.push('p');
        out.push(';');
    } else if c == '<' {
        out.push('&');
        out.push('l');
        out.push('t');
        out.push(';');
    } else if c == '>' {
        out.push('&');
        out.push('g');
        out.push('t');
        out.push(';');
    } else if c == '\u{D}' {
        out.push('&');
        out.push('#');
        out.push('x');
        out.push('D');
        out.push(';');
    } else {
        out.push(c);
    }
    proof {
        assert(out@ =~= old(out)@ + esc_text_char(c));
    }
}

/// Append an attribute value, canonically escaped.
pub fn esc_attr_exec(out: &mut Vec<char>, s: &Vec<char>)
    ensures
        final(out)@ == old(out)@ + esc_attr(s@),
{
    let mut i: usize = 0;
    proof {
        assert(s@.subrange(0, 0) =~= Seq::<char>::empty());
        assert(old(out)@ + esc_attr(s@.subrange(0, 0)) =~= old(out)@);
    }
    while i < s.len()
        invariant
            i <= s.len(),
            out@ == old(out)@ + esc_attr(s@.subrange(0, i as int)),
        decreases s@.len() - i,
    {
        push_esc_attr_char(out, s[i]);
        proof {
            assert(s@.subrange(0, i + 1) =~= s@.subrange(0, i as int).push(s@[i as int]));
            lemma_esc_attr_push(s@.subrange(0, i as int), s@[i as int]);
            assert((old(out)@ + esc_attr(s@.subrange(0, i as int))) + esc_attr_char(s@[i as int])
                =~= old(out)@ + esc_attr(s@.subrange(0, i + 1)));
        }
        i = i + 1;
    }
    proof {
        assert(s@.subrange(0, s@.len() as int) =~= s@);
    }
}

/// Append a text node, canonically escaped.
pub fn esc_text_exec(out: &mut Vec<char>, s: &Vec<char>)
    ensures
        final(out)@ == old(out)@ + esc_text(s@),
{
    let mut i: usize = 0;
    proof {
        assert(s@.subrange(0, 0) =~= Seq::<char>::empty());
        assert(old(out)@ + esc_text(s@.subrange(0, 0)) =~= old(out)@);
    }
    while i < s.len()
        invariant
            i <= s.len(),
            out@ == old(out)@ + esc_text(s@.subrange(0, i as int)),
        decreases s@.len() - i,
    {
        push_esc_text_char(out, s[i]);
        proof {
            assert(s@.subrange(0, i + 1) =~= s@.subrange(0, i as int).push(s@[i as int]));
            lemma_esc_text_push(s@.subrange(0, i as int), s@[i as int]);
            assert((old(out)@ + esc_text(s@.subrange(0, i as int))) + esc_text_char(s@[i as int])
                =~= old(out)@ + esc_text(s@.subrange(0, i + 1)));
        }
        i = i + 1;
    }
    proof {
        assert(s@.subrange(0, s@.len() as int) =~= s@);
    }
}

/// The scope inside an element, executably: local declarations plus the
/// inherited ones they do not override, sorted by prefix.
pub fn scope_after_exec(scope: &Vec<NsDecl>, decls: &Vec<NsDecl>) -> (r: Vec<NsDecl>)
    ensures
        decls_view(r@) == scope_after(decls_view(scope@), decls_view(decls@)),
{
    broadcast use vstd::seq_lib::group_seq_lib_default;
    broadcast use vstd::seq::Seq::group_seq_extra;

    let ghost dv = decls_view(decls@);
    let ghost sv = decls_view(scope@);
    let ghost pset = prefix_set(dv);
    let mut cand: Vec<NsDecl> = Vec::new();
    let mut i: usize = 0;
    proof {
        assert(decls_view(cand@) =~= dv.subrange(0, 0));
    }
    while i < decls.len()
        invariant
            i <= decls.len(),
            dv == decls_view(decls@),
            decls_view(cand@) == dv.subrange(0, i as int),
        decreases decls@.len() - i,
    {
        let ghost pre = cand@;
        let x = decls[i].clone();
        let ghost xv = x@;
        cand.push(x);
        proof {
            assert(xv == dv[i as int]);
            assert(decls_view(cand@) =~= decls_view(pre).push(xv));
            assert(decls_view(pre).push(xv) =~= dv.subrange(0, i + 1));
        }
        i = i + 1;
    }
    proof {
        assert(dv.subrange(0, decls@.len() as int) =~= dv);
        assert(sv.subrange(0, 0) =~= Seq::<NsBinding>::empty());
        assert(unshadowed(sv.subrange(0, 0), pset) =~= Seq::<NsBinding>::empty());
        assert(decls_view(cand@) + unshadowed(sv.subrange(0, 0), pset) =~= decls_view(cand@));
    }
    let mut k: usize = 0;
    while k < scope.len()
        invariant
            k <= scope.len(),
            dv == decls_view(decls@),
            sv == decls_view(scope@),
            pset == prefix_set(dv),
            decls_view(cand@) == dv + unshadowed(sv.subrange(0, k as int), pset),
        decreases scope@.len() - k,
    {
        broadcast use vstd::seq_lib::group_seq_lib_default;
        broadcast use vstd::seq::Seq::group_seq_extra;

        let ghost pre = decls_view(cand@);
        let declared = declares_exec(decls, &scope[k].prefix);
        proof {
            assert(declared == declares(dv, sv[k as int].prefix));
            assert(pset.contains(sv[k as int].prefix) == declares(dv, sv[k as int].prefix));
            assert(sv.subrange(0, k + 1) =~= sv.subrange(0, k as int).push(sv[k as int]));
            assert(unshadowed(sv.subrange(0, k + 1), pset) == (if !pset.contains(
                sv[k as int].prefix,
            ) {
                unshadowed(sv.subrange(0, k as int), pset).push(sv[k as int])
            } else {
                unshadowed(sv.subrange(0, k as int), pset)
            }));
        }
        if !declared {
            cand.push(scope[k].clone());
            proof {
                assert(decls_view(cand@) =~= pre.push(sv[k as int]));
                assert(pre.push(sv[k as int]) =~= dv + unshadowed(sv.subrange(0, k + 1), pset));
            }
        } else {
            proof {
                assert(decls_view(cand@) == dv + unshadowed(sv.subrange(0, k + 1), pset));
            }
        }
        k = k + 1;
    }
    proof {
        assert(sv.subrange(0, scope@.len() as int) =~= sv);
    }
    sort_ns_exec(cand)
}

/// Whether some attribute of the element carries prefix `p`.
fn attr_has_prefix(attrs: &Vec<Attr>, p: &Vec<char>) -> (r: bool)
    ensures
        r == exists|i: int|
            0 <= i < attrs_view(attrs@).len() && (#[trigger] attrs_view(attrs@)[i]).prefix == p@,
{
    let mut i: usize = 0;
    while i < attrs.len()
        invariant
            i <= attrs.len(),
            forall|k: int| 0 <= k < i ==> (#[trigger] attrs_view(attrs@)[k]).prefix != p@,
        decreases attrs@.len() - i,
    {
        if chars_eq(&attrs[i].prefix, p) {
            proof {
                assert(attrs_view(attrs@)[i as int].prefix == p@);
            }
            return true;
        }
        i = i + 1;
    }
    false
}

/// Whether the inclusive-prefix list holds `p`.
fn incl_has(incl: &Vec<Vec<char>>, p: &Vec<char>) -> (r: bool)
    ensures
        r == list_has(prefixes_view(incl@), p@),
{
    let mut i: usize = 0;
    while i < incl.len()
        invariant
            i <= incl.len(),
            forall|k: int| 0 <= k < i ==> prefixes_view(incl@)[k] != p@,
        decreases incl@.len() - i,
    {
        if chars_eq(&incl[i], p) {
            proof {
                assert(prefixes_view(incl@)[i as int] == p@);
            }
            return true;
        }
        i = i + 1;
    }
    false
}

/// The namespace declarations to render on this element, executably.
pub fn render_list_exec(
    mode: CanonicalizationMode,
    new_scope: &Vec<NsDecl>,
    rendered: &Vec<NsDecl>,
    eprefix: &Vec<char>,
    attrs: &Vec<Attr>,
    incl: &Vec<Vec<char>>,
) -> (r: Vec<NsDecl>)
    ensures
        decls_view(r@) == render_list(
            mode,
            decls_view(new_scope@),
            decls_view(rendered@),
            eprefix@,
            attr_prefix_set(attrs_view(attrs@)),
            prefixes_view(incl@),
        ),
{
    broadcast use vstd::seq_lib::group_seq_lib_default;
    broadcast use vstd::seq::Seq::group_seq_extra;

    let ghost nsv = decls_view(new_scope@);
    let ghost rdv = decls_view(rendered@);
    let ghost apset = attr_prefix_set(attrs_view(attrs@));
    let ghost iv = prefixes_view(incl@);
    let exclusive = matches!(mode, CanonicalizationMode::ExclusiveCanonical1_0);
    let mut outv: Vec<NsDecl> = Vec::new();
    let mut i: usize = 0;
    proof {
        assert(nsv.subrange(0, 0) =~= Seq::<NsBinding>::empty());
        if exclusive {
            assert(excl_render(nsv.subrange(0, 0), rdv, eprefix@, apset, iv)
                =~= Seq::<NsBinding>::empty());
        } else {
            assert(incl_render(nsv.subrange(0, 0), rdv) =~= Seq::<NsBinding>::empty());
        }
        assert(decls_view(outv@) =~= Seq::<NsBinding>::empty());
    }
    while i < new_scope.len()
        invariant
            i <= new_scope.len(),
            nsv == decls_view(new_scope@),
            rdv == decls_view(rendered@),
            apset == attr_prefix_set(attrs_view(attrs@)),
            iv == prefixes_view(incl@),
            exclusive == (mode is ExclusiveCanonical1_0),
            decls_view(outv@) == render_list(mode, nsv.subrange(0, i as int), rdv, eprefix@, apset, iv),
        decreases new_scope@.len() - i,
    {
        broadcast use vstd::seq_lib::group_seq_lib_default;
        broadcast use vstd::seq::Seq::group_seq_extra;

        let ghost pre = decls_view(outv@);
        let d = &new_scope[i];
        let bound = lookup_exec(rendered, &d.prefix);
        let differs = !chars_eq(&bound, &d.uri);
        let take = if exclusive {
            let used = chars_eq(&d.prefix, eprefix) || (d.prefix.len() > 0 && attr_has_prefix(
                attrs,
                &d.prefix,
            ));
            proof {
                assert(apset.contains(d@.prefix) == (d@.prefix.len() > 0 && exists|k: int|
                    0 <= k < attrs_view(attrs@).len() && (#[trigger] attrs_view(
                        attrs@,
                    )[k]).prefix == d@.prefix));
                assert(used == utilized(d@.prefix, eprefix@, apset));
            }
            (used || incl_has(incl, &d.prefix)) && differs
        } else {
            differs
        };
        proof {
            assert(d@ == nsv[i as int]);
            assert(nsv.subrange(0, i + 1) =~= nsv.subrange(0, i as int).push(nsv[i as int]));
            if exclusive {
                assert(excl_render(nsv.subrange(0, i + 1), rdv, eprefix@, apset, iv) == (if take {
                    excl_render(nsv.subrange(0, i as int), rdv, eprefix@, apset, iv).push(
                        nsv[i as int],
                    )
                } else {
                    excl_render(nsv.subrange(0, i as int), rdv, eprefix@, apset, iv)
                }));
            } else {
                assert(incl_render(nsv.subrange(0, i + 1), rdv) == (if take {
                    incl_render(nsv.subrange(0, i as int), rdv).push(nsv[i as int])
                } else {
                    incl_render(nsv.subrange(0, i as int), rdv)
                }));
            }
        }
        if take {
            outv.push(d.clone());
            proof {
                assert(decls_view(outv@) =~= pre.push(nsv[i as int]));
            }
        }
        i = i + 1;
    }
    proof {
        assert(nsv.subrange(0, new_scope@.len() as int) =~= nsv);
    }
    outv
}

/// Resolve every attribute's namespace URI against the scope; `None` when
/// some prefixed attribute's prefix is unbound.
pub fn resolve_attrs_exec(attrs: &Vec<Attr>, scope: &Vec<NsDecl>) -> (r: Option<Vec<RAttrE>>)
    ensures
        match r {
            Some(v) => attrs_resolvable(attrs_view(attrs@), decls_view(scope@)) && rattrs_view(v@)
                == resolved_attrs(attrs_view(attrs@), decls_view(scope@)),
            None => !attrs_resolvable(attrs_view(attrs@), decls_view(scope@)),
        },
{
    let ghost av = attrs_view(attrs@);
    let ghost sv = decls_view(scope@);
    let mut acc: Vec<RAttrE> = Vec::new();
    let mut i: usize = 0;
    proof {
        assert(rattrs_view(acc@) =~= resolved_attrs(av.subrange(0, 0), sv));
    }
    while i < attrs.len()
        invariant
            i <= attrs.len(),
            av == attrs_view(attrs@),
            sv == decls_view(scope@),
            rattrs_view(acc@) == resolved_attrs(av.subrange(0, i as int), sv),
            forall|k: int|
                0 <= k < i && (#[trigger] av[k]).prefix.len() > 0 ==> lookup(sv, av[k].prefix).len()
                    > 0,
        decreases attrs@.len() - i,
    {
        let ghost pre = rattrs_view(acc@);
        let a = &attrs[i];
        let uri: Vec<char> = if a.prefix.len() == 0 {
            Vec::new()
        } else {
            let u = lookup_exec(scope, &a.prefix);
            if u.len() == 0 {
                proof {
                    assert(av[i as int].prefix.len() > 0 && lookup(sv, av[i as int].prefix).len()
                        == 0);
                }
                return None;
            }
            u
        };
        let ra = RAttrE {
            uri,
            local: a.local.clone(),
            prefix: a.prefix.clone(),
            value: a.value.clone(),
        };
        proof {
            assert(ra@ == resolve_attr(av[i as int], sv));
        }
        acc.push(ra);
        proof {
            assert(av.subrange(0, i + 1) =~= av.subrange(0, i as int).push(av[i as int]));
            assert(rattrs_view(acc@) =~= pre.push(resolve_attr(av[i as int], sv)));
            assert(resolved_attrs(av.subrange(0, i + 1), sv) =~= resolved_attrs(
                av.subrange(0, i as int),
                sv,
            ).push(resolve_attr(av[i as int], sv)));
        }
        i = i + 1;
    }
    proof {
        assert(av.subrange(0, attrs@.len() as int) =~= av);
    }
    Some(acc)
}

/// Append the rendered namespace declarations, in order.
pub fn emit_ns_list(out: &mut Vec<char>, l: &Vec<NsDecl>)
    ensures
        final(out)@ == old(out)@ + render_ns_list(decls_view(l@)),
{
    let ghost lv = decls_view(l@);
    let mut i: usize = 0;
    proof {
        assert(lv.subrange(0, 0) =~= Seq::<NsBinding>::empty());
        assert(old(out)@ + render_ns_list(lv.subrange(0, 0)) =~= old(out)@);
    }
    while i < l.len()
        invariant
            i <= l.len(),
            lv == decls_view(l@),
            out@ == old(out)@ + render_ns_list(lv.subrange(0, i as int)),
        decreases l@.len() - i,
    {
        let ghost pre = out@;
        let d = &l[i];
        out.push(' ');
        out.push('x');
        out.push('m');
        out.push('l');
        out.push('n');
        out.push('s');
        if d.prefix.len() > 0 {
            out.push(':');
            extend_chars(out, &d.prefix);
        }
        out.push('=');
        out.push('"');
        esc_attr_exec(out, &d.uri);
        out.push('"');
        proof {
            assert(out@ =~= pre + render_ns(lv[i as int]));
            assert(lv.subrange(0, i + 1) =~= lv.subrange(0, i as int).push(lv[i as int]));
            lemma_render_ns_list_push(lv.subrange(0, i as int), lv[i as int]);
            assert(out@ =~= old(out)@ + render_ns_list(lv.subrange(0, i + 1)));
        }
        i = i + 1;
    }
    proof {
        assert(lv.subrange(0, l@.len() as int) =~= lv);
    }
}

/// Append the sorted attributes, in order.
pub fn emit_attr_list(out: &mut Vec<char>, l: &Vec<RAttrE>)
    ensures
        final(out)@ == old(out)@ + render_attr_list(rattrs_view(l@)),
{
    let ghost lv = rattrs_view(l@);
    let mut i: usize = 0;
    proof {
        assert(lv.subrange(0, 0) =~= Seq::<crate::model::RAttr>::empty());
        assert(old(out)@ + render_attr_list(lv.subrange(0, 0)) =~= old(out)@);
    }
    while i < l.len()
        invariant
            i <= l.len(),
            lv == rattrs_view(l@),
            out@ == old(out)@ + render_attr_list(lv.subrange(0, i as int)),
        decreases l@.len() - i,
    {
        let ghost pre = out@;
        let a = &l[i];
        out.push(' ');
        if a.prefix.len() > 0 {
            extend_chars(out, &a.prefix);
            out.push(':');
        }
        extend_chars(out, &a.local);
        out.push('=');
        out.push('"');
        esc_attr_exec(out, &a.value);
        out.push('"');
        proof {
            assert(out@ =~= pre + render_attr(lv[i as int]));
            assert(lv.subrange(0, i + 1) =~= lv.subrange(0, i as int).push(lv[i as int]));
            lemma_render_attr_list_push(lv.subrange(0, i as int), lv[i as int]);
            assert(out@ =~= old(out)@ + render_attr_list(lv.subrange(0, i + 1)));
        }
        i = i + 1;
    }
    proof {
        assert(lv.subrange(0, l@.len() as int) =~= lv);
    }
}

/// Append the canonical form of one node; on error the buffer's contents are
/// discarded by the driver.
pub fn emit_node(
    n: &XmlNode,
    scope: &Vec<NsDecl>,
    rendered: &Vec<NsDecl>,
    mode: CanonicalizationMode,
    keep_comments: bool,
    incl: &Vec<Vec<char>>,
    out: &mut Vec<char>,
) -> (r: Result<(), CanonError>)
    ensures
        ({
            let res = canon_node(
                *n,
                decls_view(scope@),
                decls_view(rendered@),
                mode,
                keep_comments,
                prefixes_view(incl@),
            );
            match r {
                Ok(()) => res matches Ok(s) && final(out)@ == old(out)@ + s,
                Err(e) => res == Err::<Seq<char>, CanonError>(e),
            }
        }),
    decreases *n,
{
    let ghost sv = decls_view(scope@);
    let ghost rv = decls_view(rendered@);
    let ghost iv = prefixes_view(incl@);
    match n {
        XmlNode::Text(t) => {
            esc_text_exec(out, t);
            Ok(())
        },
        XmlNode::Comment(c) => {
            if keep_comments {
                let ghost pre = out@;
                out.push('<');
                out.push('!');
                out.push('-');
                out.push('-');
                extend_chars(out, c);
                out.push('-');
                out.push('-');
                out.push('>');
                proof {
                    assert(out@ =~= pre + render_comment(c@));
                }
            } else {
                proof {
                    assert(out@ =~= out@ + Seq::<char>::empty());
                }
            }
            Ok(())
        },
        XmlNode::Pi { target, data } => {
            let ghost pre = out@;
            out.push('<');
            out.push('?');
            extend_chars(out, target);
            if data.len() > 0 {
                out.push(' ');
                extend_chars(out, data);
            }
            out.push('?');
            out.push('>');
            proof {
                assert(out@ =~= pre + render_pi(target@, data@));
            }
            Ok(())
        },
        XmlNode::Element { prefix, local, ns_decls, attrs, children } => {
            proof {
                assert(decreases_to!(*n, 1int => children@, 1int));
            }
            emit_element(
                prefix,
                local,
                ns_decls,
                attrs,
                children,
                scope,
                rendered,
                mode,
                keep_comments,
                incl,
                out,
            )
        },
    }
}

/// A push is the same as appending a one-element sequence.
pub proof fn lemma_push_add(s: Seq<char>, c: char)
    ensures
        s.push(c) == s + seq![c],
{
    assert(s.push(c) =~= s + seq![c]);
}

/// Two pushes are the same as appending a two-element sequence.
pub proof fn lemma_push_push_add(s: Seq<char>, a: char, b: char)
    ensures
        s.push(a).push(b) == s + seq![a, b],
{
    assert(s.push(a).push(b) =~= s + seq![a, b]);
}

/// Reassociation of the pieces of a serialized element.
pub proof fn lemma_tag_assembly(
    base: Seq<char>,
    qn: Seq<char>,
    rns: Seq<char>,
    ras: Seq<char>,
    body: Seq<char>,
)
    ensures
        base + seq!['<'] + qn + rns + ras + seq!['>'] + body + seq!['<', '/'] + qn + seq!['>']
            == base + (seq!['<'] + qn + rns + ras + seq!['>'] + body + seq!['<', '/'] + qn
            + seq!['>']),
{
    assert(base + seq!['<'] + qn + rns + ras + seq!['>'] + body + seq!['<', '/'] + qn + seq!['>']
        =~= base + (seq!['<'] + qn + rns + ras + seq!['>'] + body + seq!['<', '/'] + qn
        + seq!['>']));
}

/// Append a qualified name: `prefix:local`, or `local` alone.
fn emit_qname(out: &mut Vec<char>, prefix: &Vec<char>, local: &Vec<char>)
    ensures
        final(out)@ == old(out)@ + qname(prefix@, local@),
{
    if prefix.len() > 0 {
        extend_chars(out, prefix);
        out.push(':');
        extend_chars(out, local);
        proof {
            assert(out@ =~= old(out)@ + qname(prefix@, local@));
        }
    } else {
        extend_chars(out, local);
    }
}

/// Append the canonical form of a list of sibling nodes, in document order.
#[verifier::rlimit(60)]
#[verifier::loop_isolation(false)]
pub fn emit_children(
    children: &Vec<XmlNode>,
    scope: &Vec<NsDecl>,
    rendered: &Vec<NsDecl>,
    mode: CanonicalizationMode,
    keep_comments: bool,
    incl: &Vec<Vec<char>>,
    out: &mut Vec<char>,
) -> (r: Result<(), CanonError>)
    ensures
        ({
            let res = canon_children(
                children@,
                decls_view(scope@),
                decls_view(rendered@),
                mode,
                keep_comments,
                prefixes_view(incl@),
            );
            match r {
                Ok(()) => res matches Ok(s) && final(out)@ == old(out)@ + s,
                Err(e) => res == Err::<Seq<char>, CanonError>(e),
            }
        }),
    decreases children@, 0int,
{
    let ghost nsv = decls_view(scope@);
    let ghost r2v = decls_view(rendered@);
    let ghost iv = prefixes_view(incl@);
    let ghost mut body: Seq<char> = Seq::<char>::empty();
    proof {
        assert(children@.subrange(0, 0) =~= Seq::<XmlNode>::empty());
        assert(old(out)@ =~= old(out)@ + body);
    }
    let mut k: usize = 0;
    while k < children.len()
        invariant
            k <= children.len(),
            canon_children(children@.subrange(0, k as int), nsv, r2v, mode, keep_comments, iv)
                == Ok::<Seq<char>, CanonError>(body),
            out@ == old(out)@ + body,
        decreases children@.len() - k,
    {
        let ghost prebody = body;
        match emit_node(&children[k], scope, rendered, mode, keep_comments, incl, out) {
            Err(e) => {
                proof {
                    lemma_canon_children_push(
                        children@.subrange(0, k as int),
                        children@[k as int],
                        nsv,
                        r2v,
                        mode,
                        keep_comments,
                        iv,
                    );
                    assert(children@.subrange(0, k + 1) =~= children@.subrange(0, k as int).push(
                        children@[k as int],
                    ));
                    lemma_canon_children_err(
                        children@,
                        k as int + 1,
                        nsv,
                        r2v,
                        mode,
                        keep_comments,
                        iv,
                        e,
                    );
                }
                return Err(e);
            },
            Ok(()) => {
                proof {
                    let cres = canon_node(children@[k as int], nsv, r2v, mode, keep_comments, iv);
                    body = prebody + cres->Ok_0;
                    lemma_canon_children_push(
                        children@.subrange(0, k as int),
                        children@[k as int],
                        nsv,
                        r2v,
                        mode,
                        keep_comments,
                        iv,
                    );
                    assert(children@.subrange(0, k + 1) =~= children@.subrange(0, k as int).push(
                        children@[k as int],
                    ));
                    assert(out@ =~= old(out)@ + body);
                }
            },
        }
        k = k + 1;
    }
    proof {
        assert(children@.subrange(0, children@.len() as int) =~= children@);
    }
    Ok(())
}

/// Append the canonical form of one element, given its pieces.
#[verifier::rlimit(100)]
#[verifier::loop_isolation(false)]
pub fn emit_element(
    prefix: &Vec<char>,
    local: &Vec<char>,
    ns_decls: &Vec<NsDecl>,
    attrs: &Vec<Attr>,
    children: &Vec<XmlNode>,
    scope: &Vec<NsDecl>,
    rendered: &Vec<NsDecl>,
    mode: CanonicalizationMode,
    keep_comments: bool,
    incl: &Vec<Vec<char>>,
    out: &mut Vec<char>,
) -> (r: Result<(), CanonError>)
    ensures
        ({
            let res = canon_element(
                prefix@,
                local@,
                decls_view(ns_decls@),
                attrs_view(attrs@),
                children@,
                decls_view(scope@),
                decls_view(rendered@),
                mode,
                keep_comments,
                prefixes_view(incl@),
            );
            match r {
                Ok(()) => res matches Ok(s) && final(out)@ == old(out)@ + s,
                Err(e) => res == Err::<Seq<char>, CanonError>(e),
            }
        }),
    decreases children@, 1int,
{
    let ghost iv = prefixes_view(incl@);
    if !distinct_prefixes_exec(ns_decls) {
        return Err(CanonError::MalformedInput);
    }
    let new_scope = scope_after_exec(scope, ns_decls);
    let ghost nsv = decls_view(new_scope@);
    if prefix.len() > 0 {
        let u = lookup_exec(&new_scope, prefix);
        if u.len() == 0 {
            return Err(CanonError::UnresolvedPrefix);
        }
    }
    let rats0 = match resolve_attrs_exec(attrs, &new_scope) {
        None => {
            return Err(CanonError::UnresolvedPrefix);
        },
        Some(v) => v,
    };
    let rats = sort_rattrs_exec(rats0);
    if !distinct_expanded_exec(&rats) {
        return Err(CanonError::MalformedInput);
    }
    let rl = render_list_exec(mode, &new_scope, rendered, prefix, attrs, incl);
    let rendered2 = scope_after_exec(rendered, &rl);
    let ghost r2v = decls_view(rendered2@);
    let ghost pre = out@;
    out.push('<');
    proof {
        lemma_push_add(pre, '<');
    }
    emit_qname(out, prefix, local);
    emit_ns_list(out, &rl);
    emit_attr_list(out, &rats);
    let ghost before_gt = out@;
    out.push('>');
    proof {
        lemma_push_add(before_gt, '>');
    }
    match emit_children(children, &new_scope, &rendered2, mode, keep_comments, incl, out) {
        Err(e) => {
            return Err(e);
        },
        Ok(()) => {},
    }
    let ghost body = canon_children(children@, nsv, r2v, mode, keep_comments, iv)->Ok_0;
    let ghost pre_close = out@;
    out.push('<');
    out.push('/');
    proof {
        lemma_push_push_add(pre_close, '<', '/');
    }
    emit_qname(out, prefix, local);
    let ghost before_end = out@;
    out.push('>');
    proof {
        let qn = qname(prefix@, local@);
        lemma_push_add(before_end, '>');
        lemma_tag_assembly(
            pre,
            qn,
            render_ns_list(decls_view(rl@)),
            render_attr_list(rattrs_view(rats@)),
            body,
        );
        assert(out@ == old(out)@ + (seq!['<'] + qn + render_ns_list(decls_view(rl@))
            + render_attr_list(rattrs_view(rats@)) + seq!['>'] + body + seq!['<', '/'] + qn
            + seq!['>']));
    }
    Ok(())
}

/// If some prefix of the siblings fails, the whole sibling list fails with
/// the same error.
pub proof fn lemma_canon_children_err(
    cs: Seq<XmlNode>,
    k: int,
    scope: Seq<NsBinding>,
    rendered: Seq<NsBinding>,
    mode: CanonicalizationMode,
    keep_comments: bool,
    incl: Seq<Seq<char>>,
    e: CanonError,
)
    requires
        0 <= k <= cs.len(),
        canon_children(cs.subrange(0, k), scope, rendered, mode, keep_comments, incl) == Err::<
            Seq<char>,
            CanonError,
        >(e),
    ensures
        canon_children(cs, scope, rendered, mode, keep_comments, incl) == Err::<
            Seq<char>,
            CanonError,
        >(e),
    decreases cs.len(),
{
    let pre = cs.subrange(0, k);
    if k == 0 {
    } else {
        assert(pre[0] == cs[0]);
        if canon_node(cs[0], scope, rendered, mode, keep_comments, incl) is Ok {
            assert(pre.drop_first() =~= cs.drop_first().subrange(0, k - 1));
            lemma_canon_children_err(
                cs.drop_first(),
                k - 1,
                scope,
                rendered,
                mode,
                keep_comments,
                incl,
                e,
            );
        }
    }
}

} // verus!
