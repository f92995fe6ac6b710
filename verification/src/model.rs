//! The document model the canonicalizer walks: an immutable tree of
//! elements, text, comments and processing instructions, with per-element
//! attribute and namespace-declaration sets.
//!
//! Executable nodes carry their text as `Vec<char>`; the mathematical view
//! of each piece is a struct of `Seq<char>` fields, over which all contracts
//! are stated.

use vstd::prelude::*;

use crate::chars::{lex_lt, lemma_lex_lt_facts};
use vstd::relations::total_ordering;

verus! {

/// A namespace declaration local to an element: a prefix (possibly empty,
/// denoting the default namespace) bound to a URI. An empty URI is an
/// explicit undeclaration of the prefix.
pub struct NsDecl {
    pub prefix: Vec<char>,
    pub uri: Vec<char>,
}

/// Mathematical view of a namespace declaration.
#[verifier::ext_equal]
pub struct NsBinding {
    pub prefix: Seq<char>,
    pub uri: Seq<char>,
}

impl View for NsDecl {
    type V = NsBinding;

    open spec fn view(&self) -> NsBinding {
        NsBinding { prefix: self.prefix@, uri: self.uri@ }
    }
}

impl Clone for NsDecl {
    fn clone(&self) -> (r: Self)
        ensures
            r@ == self@,
    {
        NsDecl { prefix: self.prefix.clone(), uri: self.uri.clone() }
    }
}

/// An attribute: qualified name (prefix may be empty) and its
/// entity-resolved, not yet canonical-escaped value.
pub struct Attr {
    pub prefix: Vec<char>,
    pub local: Vec<char>,
    pub value: Vec<char>,
}

/// Mathematical view of an attribute.
#[verifier::ext_equal]
pub struct AttrV {
    pub prefix: Seq<char>,
    pub local: Seq<char>,
    pub value: Seq<char>,
}

impl View for Attr {
    type V = AttrV;

    open spec fn view(&self) -> AttrV {
        AttrV { prefix: self.prefix@, local: self.local@, value: self.value@ }
    }
}

impl Clone for Attr {
    fn clone(&self) -> (r: Self)
        ensures
            r@ == self@,
    {
        Attr { prefix: self.prefix.clone(), local: self.local.clone(), value: self.value.clone() }
    }
}

/// An attribute whose namespace URI has been resolved against the in-scope
/// declarations; this is the form attributes are sorted and emitted in.
#[verifier::ext_equal]
pub struct RAttr {
    pub uri: Seq<char>,
    pub local: Seq<char>,
    pub prefix: Seq<char>,
    pub value: Seq<char>,
}

/// A node of the document tree.
pub enum XmlNode {
    /// An element: qualified name, local namespace declarations, attributes
    /// and the ordered children (document order).
    Element {
        prefix: Vec<char>,
        local: Vec<char>,
        ns_decls: Vec<NsDecl>,
        attrs: Vec<Attr>,
        children: Vec<XmlNode>,
    },
    /// Raw character data.
    Text(Vec<char>),
    /// Comment data, excluding the `<!--` and `-->` delimiters.
    Comment(Vec<char>),
    /// Processing instruction: target name and data string.
    Pi { target: Vec<char>, data: Vec<char> },
}

/// A parsed document: the nodes before the root element, the root element,
/// and the nodes after it.
pub struct XmlDocument {
    pub prolog: Vec<XmlNode>,
    pub root: XmlNode,
    pub epilog: Vec<XmlNode>,
}

/// View of a sequence of namespace declarations.
pub open spec fn decls_view(s: Seq<NsDecl>) -> Seq<NsBinding> {
    s.map_values(|d: NsDecl| d@)
}

/// View of a sequence of attributes.
pub open spec fn attrs_view(s: Seq<Attr>) -> Seq<AttrV> {
    s.map_values(|a: Attr| a@)
}

/// View of a prefix list.
pub open spec fn prefixes_view(s: Seq<Vec<char>>) -> Seq<Seq<char>> {
    s.map_values(|p: Vec<char>| p@)
}

/// A comment or processing instruction, the only node kinds allowed outside
/// the root element.
pub open spec fn is_misc(n: XmlNode) -> bool {
    n is Comment || n is Pi
}

/// The structural invariant of a document: one root element, and only
/// comments and processing instructions around it.
pub open spec fn doc_wf(d: XmlDocument) -> bool {
    &&& d.root is Element
    &&& forall|i: int| 0 <= i < d.prolog@.len() ==> is_misc(#[trigger] d.prolog@[i])
    &&& forall|i: int| 0 <= i < d.epilog@.len() ==> is_misc(#[trigger] d.epilog@[i])
}

/// Total order on namespace declarations: by prefix (ordinal), then by URI.
/// Canonical serialization orders namespace nodes by prefix; distinct nodes
/// on one element never share a prefix, so the URI only breaks ties that a
/// valid element cannot exhibit.
pub open spec fn ns_leq(x: NsBinding, y: NsBinding) -> bool {
    if x.prefix != y.prefix {
        lex_lt(x.prefix, y.prefix)
    } else if x.uri != y.uri {
        lex_lt(x.uri, y.uri)
    } else {
        true
    }
}

/// `ns_leq` as a first-class relation, for `sort_by`.
pub open spec fn ns_le() -> spec_fn(NsBinding, NsBinding) -> bool {
    |x: NsBinding, y: NsBinding| ns_leq(x, y)
}

/// Total order on resolved attributes: by namespace URI (un-namespaced
/// first, as the empty URI), then by local name; remaining fields only
/// break ties that a valid element cannot exhibit.
pub open spec fn attr_leq(x: RAttr, y: RAttr) -> bool {
    if x.uri != y.uri {
        lex_lt(x.uri, y.uri)
    } else if x.local != y.local {
        lex_lt(x.local, y.local)
    } else if x.value != y.value {
        lex_lt(x.value, y.value)
    } else if x.prefix != y.prefix {
        lex_lt(x.prefix, y.prefix)
    } else {
        true
    }
}

/// `attr_leq` as a first-class relation, for `sort_by`.
pub open spec fn attr_le() -> spec_fn(RAttr, RAttr) -> bool {
    |x: RAttr, y: RAttr| attr_leq(x, y)
}

pub proof fn lemma_ns_le_total()
    ensures
        total_ordering(ns_le()),
{
    lemma_lex_lt_facts();
    assert forall|x: NsBinding, y: NsBinding| #[trigger] ns_le()(x, y) && #[trigger] ns_le()(
        y,
        x,
    ) implies x == y by {
        assert(x.prefix =~= y.prefix && x.uri =~= y.uri);
        assert(x =~= y);
    }
}

pub proof fn lemma_attr_le_total()
    ensures
        total_ordering(attr_le()),
{
    lemma_lex_lt_facts();
    assert forall|x: RAttr, y: RAttr| #[trigger] attr_le()(x, y) && #[trigger] attr_le()(
        y,
        x,
    ) implies x == y by {
        assert(x.uri =~= y.uri && x.local =~= y.local && x.value =~= y.value && x.prefix
            =~= y.prefix);
        assert(x =~= y);
    }
}

} // verus!
