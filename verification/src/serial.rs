//! Executable building blocks of the serializer, each proved equal to its
//! mathematical counterpart in `canon`.

use vstd::prelude::*;
use vstd::relations::sorted_by;
use vstd::seq_lib::lemma_sorted_unique;

use crate::model::{
    NsDecl, NsBinding, Attr, AttrV, RAttr, decls_view, attrs_view, ns_le, attr_le,
    lemma_ns_le_total, lemma_attr_le_total,
};
use crate::canon::{lookup, declares, distinct_prefixes, distinct_expanded};
use crate::chars::{lex_lt_exec, chars_eq};

verus! {

/// An attribute with its resolved namespace URI, in executable form.
pub struct RAttrE {
    pub uri: Vec<char>,
    pub local: Vec<char>,
    pub prefix: Vec<char>,
    pub value: Vec<char>,
}

impl View for RAttrE {
    type V = RAttr;

    open spec fn view(&self) -> RAttr {
        RAttr { uri: self.uri@, local: self.local@, prefix: self.prefix@, value: self.value@ }
    }
}

/// View of a sequence of resolved attributes.
pub open spec fn rattrs_view(s: Seq<RAttrE>) -> Seq<RAttr> {
    s.map_values(|a: RAttrE| a@)
}

/// Append a copy of `src` to `out`.
pub fn extend_chars(out: &mut Vec<char>, src: &Vec<char>)
    ensures
        final(out)@ == old(out)@ + src@,
{
    let mut i: usize = 0;
    while i < src.len()
        invariant
            i <= src.len(),
            out@ =~= old(out)@ + src@.subrange(0, i as int),
        decreases src@.len() - i,
    {
        out.push(src[i]);
        proof {
            assert(old(out)@ + src@.subrange(0, i + 1) =~= (old(out)@ + src@.subrange(
                0,
                i as int,
            )).push(src@[i as int]));
        }
        i = i + 1;
    }
    proof {
        assert(src@.subrange(0, src@.len() as int) =~= src@);
    }
}

/// The URI the scope binds `p` to, or the empty vector if `p` is unbound.
pub fn lookup_exec(scope: &Vec<NsDecl>, p: &Vec<char>) -> (r: Vec<char>)
    ensures
        r@ == lookup(decls_view(scope@), p@),
{
    let ghost whole = decls_view(scope@);
    let mut i: usize = 0;
    proof {
        assert(decls_view(scope@).subrange(0, scope@.len() as int) =~= whole);
    }
    while i < scope.len()
        invariant
            i <= scope.len(),
            whole == decls_view(scope@),
            lookup(whole, p@) == lookup(decls_view(scope@).subrange(i as int, scope@.len() as int), p@),
        decreases scope@.len() - i,
    {
        let ghost rest = decls_view(scope@).subrange(i as int, scope@.len() as int);
        proof {
            assert(rest[0] == scope@[i as int]@);
            assert(rest.drop_first() =~= decls_view(scope@).subrange(
                i + 1,
                scope@.len() as int,
            ));
        }
        if chars_eq(&scope[i].prefix, p) {
            return scope[i].uri.clone();
        }
        i = i + 1;
    }
    proof {
        assert(decls_view(scope@).subrange(scope@.len() as int, scope@.len() as int)
            =~= Seq::<NsBinding>::empty());
    }
    Vec::new()
}

/// Whether some declaration in `decls` is for prefix `p`.
pub fn declares_exec(decls: &Vec<NsDecl>, p: &Vec<char>) -> (r: bool)
    ensures
        r == declares(decls_view(decls@), p@),
{
    let mut i: usize = 0;
    while i < decls.len()
        invariant
            i <= decls.len(),
            forall|k: int| 0 <= k < i ==> decls_view(decls@)[k].prefix != p@,
        decreases decls@.len() - i,
    {
        if chars_eq(&decls[i].prefix, p) {
            proof {
                assert(decls_view(decls@)[i as int].prefix == p@);
            }
            return true;
        }
        i = i + 1;
    }
    false
}

/// Whether no two declarations share a prefix.
pub fn distinct_prefixes_exec(decls: &Vec<NsDecl>) -> (r: bool)
    ensures
        r == distinct_prefixes(decls_view(decls@)),
{
    let ghost dv = decls_view(decls@);
    let mut i: usize = 0;
    while i < decls.len()
        invariant
            i <= decls.len(),
            dv == decls_view(decls@),
            forall|a: int, b: int| 0 <= a < b < i ==> dv[a].prefix != dv[b].prefix,
            forall|a: int, b: int| 0 <= a < i && i <= b < dv.len() ==> dv[a].prefix != dv[b].prefix,
        decreases decls@.len() - i,
    {
        let mut j: usize = i + 1;
        while j < decls.len()
            invariant
                i < j || j == i + 1,
                i + 1 <= j <= decls.len(),
                i < decls.len(),
                dv == decls_view(decls@),
                forall|b: int| i < b < j ==> dv[i as int].prefix != dv[b].prefix,
            decreases decls@.len() - j,
        {
            if chars_eq(&decls[i].prefix, &decls[j].prefix) {
                proof {
                    assert(dv[i as int].prefix == dv[j as int].prefix);
                }
                return false;
            }
            j = j + 1;
        }
        i = i + 1;
    }
    true
}

/// Whether no two resolved attributes share an expanded name.
pub fn distinct_expanded_exec(rats: &Vec<RAttrE>) -> (r: bool)
    ensures
        r == distinct_expanded(rattrs_view(rats@)),
{
    let ghost rv = rattrs_view(rats@);
    let mut i: usize = 0;
    while i < rats.len()
        invariant
            i <= rats.len(),
            rv == rattrs_view(rats@),
            forall|a: int, b: int|
                0 <= a < b < i ==> !(rv[a].uri == rv[b].uri && rv[a].local == rv[b].local),
            forall|a: int, b: int|
                0 <= a < i && i <= b < rv.len() ==> !(rv[a].uri == rv[b].uri && rv[a].local
                    == rv[b].local),
        decreases rats@.len() - i,
    {
        let mut j: usize = i + 1;
        while j < rats.len()
            invariant
                i + 1 <= j <= rats.len(),
                i < rats.len(),
                rv == rattrs_view(rats@),
                forall|b: int|
                    i < b < j ==> !(rv[i as int].uri == rv[b].uri && rv[i as int].local
                        == rv[b].local),
            decreases rats@.len() - j,
        {
            if chars_eq(&rats[i].uri, &rats[j].uri) && chars_eq(&rats[i].local, &rats[j].local) {
                proof {
                    assert(rv[i as int].uri == rv[j as int].uri && rv[i as int].local
                        == rv[j as int].local);
                }
                return false;
            }
            j = j + 1;
        }
        i = i + 1;
    }
    true
}

/// Executable `ns_leq`.
pub fn ns_leq_exec(a: &NsDecl, b: &NsDecl) -> (r: bool)
    ensures
        r == ns_le()(a@, b@),
{
    if !chars_eq(&a.prefix, &b.prefix) {
        lex_lt_exec(&a.prefix, &b.prefix)
    } else if !chars_eq(&a.uri, &b.uri) {
        lex_lt_exec(&a.uri, &b.uri)
    } else {
        true
    }
}

/// Executable `attr_leq`.
pub fn attr_leq_exec(a: &RAttrE, b: &RAttrE) -> (r: bool)
    ensures
        r == attr_le()(a@, b@),
{
    if !chars_eq(&a.uri, &b.uri) {
        lex_lt_exec(&a.uri, &b.uri)
    } else if !chars_eq(&a.local, &b.local) {
        lex_lt_exec(&a.local, &b.local)
    } else if !chars_eq(&a.value, &b.value) {
        lex_lt_exec(&a.value, &b.value)
    } else if !chars_eq(&a.prefix, &b.prefix) {
        lex_lt_exec(&a.prefix, &b.prefix)
    } else {
        true
    }
}

/// Where to insert `x` to keep a sorted vector sorted: the first position
/// whose element is not `ns_leq` below `x`.
fn ns_insert_pos(out: &Vec<NsDecl>, x: &NsDecl) -> (j: usize)
    ensures
        j <= out@.len(),
        forall|k: int| 0 <= k < j ==> ns_le()(decls_view(out@)[k], x@),
        j < out@.len() ==> !ns_le()(decls_view(out@)[j as int], x@),
{
    let mut j: usize = 0;
    while j < out.len()
        invariant
            j <= out.len(),
            forall|k: int| 0 <= k < j ==> ns_le()(decls_view(out@)[k], x@),
        decreases out@.len() - j,
    {
        if !ns_leq_exec(&out[j], x) {
            return j;
        }
        j = j + 1;
    }
    j
}

/// Sort namespace declarations by prefix (insertion sort); the result is the
/// unique `sort_by` ordering of the input.
pub fn sort_ns_exec(v: Vec<NsDecl>) -> (r: Vec<NsDecl>)
    ensures
        decls_view(r@) == decls_view(v@).sort_by(ns_le()),
{
    broadcast use vstd::seq_lib::group_to_multiset_ensures;

    proof {
        lemma_ns_le_total();
    }
    let mut out: Vec<NsDecl> = Vec::new();
    let mut i: usize = 0;
    proof {
        assert(decls_view(out@) =~= decls_view(v@.subrange(0, 0)));
    }
    while i < v.len()
        invariant
            i <= v.len(),
            sorted_by(decls_view(out@), ns_le()),
            decls_view(out@).to_multiset() == decls_view(v@.subrange(0, i as int)).to_multiset(),
        decreases v@.len() - i,
    {
        let ghost pre_out = decls_view(out@);
        let x = v[i].clone();
        let ghost xv = x@;
        let j = ns_insert_pos(&out, &x);
        proof {
            lemma_ns_le_total();
        }
        let ghost xj = j as int;
        out.insert(j, x);
        proof {
            assert(decls_view(out@) =~= pre_out.insert(xj, xv));
            let cur = decls_view(out@);
            assert forall|p: int, q: int| 0 <= p < q < cur.len() implies ns_le()(
                cur[p],
                cur[q],
            ) by {
                if q > xj {
                    assert(cur[q] == pre_out[q - 1]);
                }
                if p > xj {
                    assert(cur[p] == pre_out[p - 1]);
                }
                if p == xj && q > xj {
                    assert(xj < pre_out.len());
                    assert(!ns_le()(pre_out[xj], xv));
                    assert(ns_le()(xv, pre_out[xj]));
                    if q - 1 > xj {
                        assert(ns_le()(pre_out[xj], pre_out[q - 1]));
                    }
                }
            }
            assert(decls_view(v@.subrange(0, i + 1)) =~= decls_view(v@.subrange(0, i as int)).push(
                v@[i as int]@,
            ));
            vstd::seq_lib::to_multiset_insert(pre_out, xj, xv);
            vstd::seq_lib::to_multiset_build(decls_view(v@.subrange(0, i as int)), v@[i as int]@);
            assert(xv == v@[i as int]@);
            assert(decls_view(out@).to_multiset() == pre_out.to_multiset().insert(xv));
            assert(decls_view(v@.subrange(0, i + 1)).to_multiset() == decls_view(
                v@.subrange(0, i as int),
            ).to_multiset().insert(v@[i as int]@));
        }
        i = i + 1;
    }
    proof {
        assert(v@.subrange(0, v@.len() as int) =~= v@);
        let dv = decls_view(v@);
        dv.lemma_sort_by_ensures(ns_le());
        lemma_sorted_unique(decls_view(out@), dv.sort_by(ns_le()), ns_le());
    }
    out
}

/// Where to insert `x` to keep a sorted vector sorted: the first position
/// whose element is not `attr_leq` below `x`.
fn attr_insert_pos(out: &Vec<RAttrE>, x: &RAttrE) -> (j: usize)
    ensures
        j <= out@.len(),
        forall|k: int| 0 <= k < j ==> attr_le()(rattrs_view(out@)[k], x@),
        j < out@.len() ==> !attr_le()(rattrs_view(out@)[j as int], x@),
{
    let mut j: usize = 0;
    while j < out.len()
        invariant
            j <= out.len(),
            forall|k: int| 0 <= k < j ==> attr_le()(rattrs_view(out@)[k], x@),
        decreases out@.len() - j,
    {
        if !attr_leq_exec(&out[j], x) {
            return j;
        }
        j = j + 1;
    }
    j
}

/// Sort resolved attributes by namespace URI, then local name (insertion
/// sort); the result is the unique `sort_by` ordering of the input.
pub fn sort_rattrs_exec(v: Vec<RAttrE>) -> (r: Vec<RAttrE>)
    ensures
        rattrs_view(r@) == rattrs_view(v@).sort_by(attr_le()),
{
    broadcast use vstd::seq_lib::group_to_multiset_ensures;

    proof {
        lemma_attr_le_total();
    }
    let mut out: Vec<RAttrE> = Vec::new();
    let mut i: usize = 0;
    proof {
        assert(rattrs_view(out@) =~= rattrs_view(v@.subrange(0, 0)));
    }
    while i < v.len()
        invariant
            i <= v.len(),
            sorted_by(rattrs_view(out@), attr_le()),
            rattrs_view(out@).to_multiset() == rattrs_view(v@.subrange(0, i as int)).to_multiset(),
        decreases v@.len() - i,
    {
        let ghost pre_out = rattrs_view(out@);
        let x = RAttrE {
            uri: v[i].uri.clone(),
            local: v[i].local.clone(),
            prefix: v[i].prefix.clone(),
            value: v[i].value.clone(),
        };
        let ghost xv = x@;
        proof {
            assert(xv == v@[i as int]@);
        }
        let j = attr_insert_pos(&out, &x);
        proof {
            lemma_attr_le_total();
        }
        let ghost xj = j as int;
        out.insert(j, x);
        proof {
            assert(rattrs_view(out@) =~= pre_out.insert(xj, xv));
            let cur = rattrs_view(out@);
            assert forall|p: int, q: int| 0 <= p < q < cur.len() implies attr_le()(
                cur[p],
                cur[q],
            ) by {
                if q > xj {
                    assert(cur[q] == pre_out[q - 1]);
                }
                if p > xj {
                    assert(cur[p] == pre_out[p - 1]);
                }
                if p == xj && q > xj {
                    assert(xj < pre_out.len());
                    assert(!attr_le()(pre_out[xj], xv));
                    assert(attr_le()(xv, pre_out[xj]));
                    if q - 1 > xj {
                        assert(attr_le()(pre_out[xj], pre_out[q - 1]));
                    }
                }
            }
            assert(rattrs_view(v@.subrange(0, i + 1)) =~= rattrs_view(
                v@.subrange(0, i as int),
            ).push(v@[i as int]@));
            vstd::seq_lib::to_multiset_insert(pre_out, xj, xv);
            vstd::seq_lib::to_multiset_build(rattrs_view(v@.subrange(0, i as int)), v@[i as int]@);
            assert(rattrs_view(out@).to_multiset() == pre_out.to_multiset().insert(xv));
            assert(rattrs_view(v@.subrange(0, i + 1)).to_multiset() == rattrs_view(
                v@.subrange(0, i as int),
            ).to_multiset().insert(v@[i as int]@));
        }
        i = i + 1;
    }
    proof {
        assert(v@.subrange(0, v@.len() as int) =~= v@);
        let dv = rattrs_view(v@);
        dv.lemma_sort_by_ensures(attr_le());
        lemma_sorted_unique(rattrs_view(out@), dv.sort_by(attr_le()), attr_le());
    }
    out
}

} // verus!
