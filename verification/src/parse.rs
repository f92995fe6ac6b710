//! Parsing raw markup is delegated to libxml2 (through the libxml crate):
//! tokenizing and line-ending normalization happen there. Character and
//! predefined references are resolved by the parser; an unsubstituted
//! entity-reference node is read through its replacement content during
//! conversion. The accessors below are the trusted boundary; everything
//! they return is plain data, and the conversion into the document model
//! plus the canonicalization itself are verified.

use vstd::prelude::*;

use crate::model::{XmlDocument, XmlNode, NsDecl, Attr, doc_wf};
use crate::canon::{CanonError, canon_doc};
use crate::text::chars_of_str;
use crate::{CanonicalizationOptions, CanonicalizationErrorCode, incl_view, canonicalize_document};

verus! {

#[verifier::external_type_specification]
#[verifier::external_body]
pub struct ExXmlDocument(libxml::tree::Document);

#[verifier::external_type_specification]
#[verifier::external_body]
pub struct ExXmlNode(libxml::tree::Node);

/// The node kinds the canonical form distinguishes.
pub enum RawKind {
    Element,
    Text,
    Comment,
    Pi,
    Other,
}

/// Relies on libxml's Parser::parse_string: the parsed document, with line
/// endings normalized. The parser runs in recovery mode (its options are
/// fixed by the crate), so it can return a repaired tree for some input
/// that is not well-formed; `document_shaped` below rejects input that no
/// well-formed document could be before the text is handed over.
#[verifier::external_body]
fn parse_xml_string(s: &str) -> Option<libxml::tree::Document> {
    libxml::parser::Parser::default().parse_string(s).ok()
}

/// Relies on libxml's Document::as_node and Node::get_child_nodes: the
/// document's top-level nodes in document order.
#[verifier::external_body]
fn doc_top_nodes(d: &libxml::tree::Document) -> Vec<libxml::tree::Node> {
    d.as_node().get_child_nodes()
}

/// Relies on libxml's Node::get_type, telling the node kinds apart. An
/// entity-reference node counts as text: its content, read with
/// `node_content`, is the entity's replacement, which resolves the
/// reference as the model requires.
#[verifier::external_body]
fn node_kind(n: &libxml::tree::Node) -> RawKind {
    match n.get_type() {
        Some(libxml::tree::NodeType::ElementNode) => RawKind::Element,
        Some(libxml::tree::NodeType::TextNode) => RawKind::Text,
        Some(libxml::tree::NodeType::CDataSectionNode) => RawKind::Text,
        Some(libxml::tree::NodeType::EntityRefNode) => RawKind::Text,
        Some(libxml::tree::NodeType::CommentNode) => RawKind::Comment,
        Some(libxml::tree::NodeType::PiNode) => RawKind::Pi,
        _ => RawKind::Other,
    }
}

/// Relies on libxml's Node::get_name: the element's local name, or a
/// processing instruction's target.
#[verifier::external_body]
fn node_name(n: &libxml::tree::Node) -> String {
    n.get_name()
}

/// Relies on libxml's Node::get_content: the text of a text node, comment
/// or processing instruction, the value of an attribute node, or the
/// replacement content of an entity-reference node.
#[verifier::external_body]
fn node_content(n: &libxml::tree::Node) -> String {
    n.get_content()
}

/// Relies on libxml's Node::get_namespace and Namespace::get_prefix: the
/// element's own namespace prefix, empty when it has none.
#[verifier::external_body]
fn node_prefix(n: &libxml::tree::Node) -> String {
    match n.get_namespace() {
        Some(ns) => ns.get_prefix(),
        None => String::new(),
    }
}

/// Relies on libxml's Node::get_child_nodes: the children in document
/// order.
#[verifier::external_body]
fn node_children(n: &libxml::tree::Node) -> Vec<libxml::tree::Node> {
    n.get_child_nodes()
}

/// Relies on libxml's Node::get_namespace_declarations: the declarations
/// local to this element, as prefix and URI pairs.
#[verifier::external_body]
fn node_ns_decls(n: &libxml::tree::Node) -> Vec<(String, String)> {
    n.get_namespace_declarations().into_iter().map(|ns| (ns.get_prefix(), ns.get_href())).collect()
}

/// Free of the NUL character, which C strings cannot carry.
pub open spec fn nul_free(s: Seq<char>) -> bool {
    forall|i: int| 0 <= i < s.len() ==> #[trigger] s[i] != '\u{0}'
}

/// Relies on libxml's Node::get_properties: attribute names and values,
/// keyed by local name, so attributes sharing a local name collapse here.
/// It is used only to find one attribute node to start walking from; the
/// walk itself (`element_attrs`) sees every attribute. The names come out
/// of C strings, so they hold no NUL.
#[verifier::external_body]
fn node_attributes(n: &libxml::tree::Node) -> (r: Vec<(String, String)>)
    ensures
        forall|k: int| 0 <= k < r@.len() ==> nul_free((#[trigger] r@[k]).0@),
{
    n.get_properties().into_iter().collect()
}

/// Relies on libxml's Node::get_property_node: the first attribute node
/// carrying the given local name. The name must hold no NUL: the call
/// builds a C string from it and would panic otherwise.
#[verifier::external_body]
fn attr_node_by_name(n: &libxml::tree::Node, name: &str) -> Option<libxml::tree::Node>
    requires
        nul_free(name@),
{
    n.get_property_node(name)
}

/// Relies on libxml's Node::get_prev_sibling: attribute nodes chain to
/// their preceding attribute through it.
#[verifier::external_body]
fn node_prev_sibling(n: &libxml::tree::Node) -> Option<libxml::tree::Node> {
    n.get_prev_sibling()
}

/// Relies on libxml's Node::get_next_sibling: attribute nodes chain to
/// their following attribute through it.
#[verifier::external_body]
fn node_next_sibling(n: &libxml::tree::Node) -> Option<libxml::tree::Node> {
    n.get_next_sibling()
}

/// The attributes of an element, one entry per attribute node, so two
/// attributes sharing a local name under different prefixes stay distinct.
/// One attribute node is found by name, the walk goes to the front of the
/// attribute list and then collects every node; `None` when a list is
/// longer than the fuel allows.
fn element_attrs(n: &libxml::tree::Node) -> (r: Option<Vec<Attr>>) {
    let names = node_attributes(n);
    if names.len() == 0 {
        return Some(Vec::new());
    }
    let entry = match attr_node_by_name(n, names[0].0.as_str()) {
        None => {
            return None;
        },
        Some(a) => a,
    };
    let mut first = entry;
    let mut fuel: u32 = MAX_ATTRS;
    loop
        decreases fuel,
    {
        if fuel == 0 {
            return None;
        }
        fuel = fuel - 1;
        match node_prev_sibling(&first) {
            None => {
                break;
            },
            Some(p) => {
                first = p;
            },
        }
    }
    let mut attrs: Vec<Attr> = Vec::new();
    let mut cur = Some(first);
    let mut fuel2: u32 = MAX_ATTRS;
    loop
        decreases fuel2,
    {
        if fuel2 == 0 {
            return None;
        }
        fuel2 = fuel2 - 1;
        match cur {
            None => {
                break;
            },
            Some(a) => {
                attrs.push(
                    Attr {
                        prefix: chars_of_str(node_prefix(&a).as_str()),
                        local: chars_of_str(node_name(&a).as_str()),
                        value: chars_of_str(node_content(&a).as_str()),
                    },
                );
                cur = node_next_sibling(&a);
            },
        }
    }
    Some(attrs)
}

/// Build a model node from a parsed one; `None` when the tree is deeper
/// than the fuel allows.
fn build_node(n: &libxml::tree::Node, fuel: u32) -> (r: Option<XmlNode>)
    decreases fuel,
{
    if fuel == 0 {
        return None;
    }
    match node_kind(n) {
        RawKind::Text => Some(XmlNode::Text(chars_of_str(node_content(n).as_str()))),
        RawKind::Comment => Some(XmlNode::Comment(chars_of_str(node_content(n).as_str()))),
        RawKind::Pi => Some(
            XmlNode::Pi {
                target: chars_of_str(node_name(n).as_str()),
                data: chars_of_str(node_content(n).as_str()),
            },
        ),
        RawKind::Element => {
            let prefix = chars_of_str(node_prefix(n).as_str());
            let local = chars_of_str(node_name(n).as_str());
            let raw_decls = node_ns_decls(n);
            let mut ns_decls: Vec<NsDecl> = Vec::new();
            let mut i: usize = 0;
            while i < raw_decls.len()
                decreases raw_decls@.len() - i,
            {
                ns_decls.push(
                    NsDecl {
                        prefix: chars_of_str(raw_decls[i].0.as_str()),
                        uri: chars_of_str(raw_decls[i].1.as_str()),
                    },
                );
                i = i + 1;
            }
            let attrs = match element_attrs(n) {
                None => {
                    return None;
                },
                Some(v) => v,
            };
            let raw_children = node_children(n);
            let mut children: Vec<XmlNode> = Vec::new();
            let mut k: usize = 0;
            while k < raw_children.len()
                invariant
                    fuel >= 1,
                decreases raw_children@.len() - k,
            {
                match build_node(&raw_children[k], fuel - 1) {
                    None => {
                        return None;
                    },
                    Some(c) => {
                        children.push(c);
                    },
                }
                k = k + 1;
            }
            Some(XmlNode::Element { prefix, local, ns_decls, attrs, children })
        },
        RawKind::Other => None,
    }
}

/// The depth beyond which conversion gives up.
const MAX_DEPTH: u32 = 4096;

/// The attribute-list length beyond which conversion gives up.
const MAX_ATTRS: u32 = 1048576;

/// XML whitespace, plus the byte-order mark, which may precede a document.
pub open spec fn is_ws(c: char) -> bool {
    c == ' ' || c == '\u{9}' || c == '\u{A}' || c == '\u{D}' || c == '\u{FEFF}'
}

/// Whether the text has the outer shape of an XML document: ignoring
/// surrounding whitespace it starts with `<` and ends with `>`. Every
/// well-formed document has this shape; the parser below recovers from some
/// malformed input instead of failing, so input without this shape is
/// rejected before it is handed over.
pub open spec fn document_shaped(s: Seq<char>) -> bool {
    exists|i: int, j: int|
        0 <= i <= j < s.len() && s[i] == '<' && s[j] == '>' && (forall|k: int|
            0 <= k < i ==> is_ws(#[trigger] s[k])) && (forall|k: int|
            j < k < s.len() ==> is_ws(#[trigger] s[k]))
}

fn is_ws_exec(c: char) -> (r: bool)
    ensures
        r == is_ws(c),
{
    c == ' ' || c == '\u{9}' || c == '\u{A}' || c == '\u{D}' || c == '\u{FEFF}'
}

fn document_shaped_exec(v: &Vec<char>) -> (r: bool)
    ensures
        r == document_shaped(v@),
{
    let mut i: usize = 0;
    while i < v.len()
        invariant
            i <= v.len(),
            forall|k: int| 0 <= k < i ==> is_ws(#[trigger] v@[k]),
        decreases v@.len() - i,
    {
        if !is_ws_exec(v[i]) {
            if v[i] != '<' {
                proof {
                    assert forall|a: int, b: int| #![trigger v@[a], v@[b]]
                        !(0 <= a <= b < v@.len() && v@[a] == '<' && v@[b] == '>' && (forall|k: int|
                            0 <= k < a ==> is_ws(#[trigger] v@[k])) && (forall|k: int|
                            b < k < v@.len() ==> is_ws(#[trigger] v@[k]))) by {
                        if 0 <= a <= b < v@.len() && v@[a] == '<' && (forall|k: int|
                            0 <= k < a ==> is_ws(#[trigger] v@[k])) {
                            assert(a != i as int);
                            if a < i as int {
                                assert(is_ws(v@[a]));
                            } else {
                                assert(is_ws(v@[i as int]));
                            }
                        }
                    }
                }
                return false;
            }
            let mut j: usize = v.len() - 1;
            while j > i
                invariant
                    i <= j < v.len(),
                    forall|k: int| j < k < v@.len() ==> is_ws(#[trigger] v@[k]),
                    i < v@.len() && v@[i as int] == '<',
                    forall|k: int| 0 <= k < i ==> is_ws(#[trigger] v@[k]),
                decreases j,
            {
                if !is_ws_exec(v[j]) {
                    if v[j] == '>' {
                        proof {
                            assert(document_shaped(v@));
                        }
                        return true;
                    }
                    proof {
                        assert forall|a: int, b: int| #![trigger v@[a], v@[b]]
                            !(0 <= a <= b < v@.len() && v@[a] == '<' && v@[b] == '>' && (forall|
                                k: int,
                            |
                                0 <= k < a ==> is_ws(#[trigger] v@[k])) && (forall|k: int|
                                b < k < v@.len() ==> is_ws(#[trigger] v@[k]))) by {
                            if 0 <= a <= b < v@.len() && v@[b] == '>' && (forall|k: int|
                                b < k < v@.len() ==> is_ws(#[trigger] v@[k])) {
                                assert(b != j as int);
                                if b > j as int {
                                    assert(is_ws(v@[b]));
                                } else {
                                    assert(is_ws(v@[j as int]));
                                }
                            }
                        }
                    }
                    return false;
                }
                j = j - 1;
            }
            proof {
                assert forall|a: int, b: int| #![trigger v@[a], v@[b]]
                    !(0 <= a <= b < v@.len() && v@[a] == '<' && v@[b] == '>' && (forall|k: int|
                        0 <= k < a ==> is_ws(#[trigger] v@[k])) && (forall|k: int|
                        b < k < v@.len() ==> is_ws(#[trigger] v@[k]))) by {
                    if 0 <= a <= b < v@.len() && v@[a] == '<' && v@[b] == '>' && (forall|k: int|
                        0 <= k < a ==> is_ws(#[trigger] v@[k])) && (forall|k: int|
                        b < k < v@.len() ==> is_ws(#[trigger] v@[k])) {
                        if b > j as int {
                            assert(is_ws(v@[b]));
                        } else if b == j as int && j == i {
                            assert(v@[b] == '<');
                        } else {
                            assert(a <= b < i as int || a <= b == i as int);
                            if b < i as int {
                                assert(is_ws(v@[b]));
                            } else {
                                assert(v@[b] == '<');
                            }
                        }
                    }
                }
            }
            return false;
        }
        i = i + 1;
    }
    proof {
        assert forall|a: int, b: int| #![trigger v@[a], v@[b]]
            !(0 <= a <= b < v@.len() && v@[a] == '<' && (forall|k: int|
                0 <= k < a ==> is_ws(#[trigger] v@[k]))) by {
            if 0 <= a <= b < v@.len() && v@[a] == '<' {
                assert(is_ws(v@[a]));
            }
        }
    }
    false
}

/// Parse the given XML text and canonicalize it.
///
/// Parsing itself is libxml2's, in recovery mode: some input that is not
/// well-formed comes back as a repaired tree and canonicalizes instead of
/// failing. Input without even the outer shape of a document (`<` ... `>`
/// modulo surrounding whitespace) is rejected here with the malformed-input
/// code before the parser sees it, and every failure carries one of the two
/// documented codes. The contract promises that a successful result is the
/// canonical form of a well-formed document — the one the parser produced;
/// `canonicalize_document` carries the exact, input-by-input contract.
pub fn canonicalize_xml(document: &str, options: CanonicalizationOptions) -> (r: Result<
    String,
    CanonicalizationErrorCode,
>)
    ensures
        r matches Ok(s) ==> document_shaped(document@) && exists|d: XmlDocument|
            doc_wf(d) && canon_doc(
                d,
                options.mode,
                options.keep_comments,
                incl_view(options.inclusive_ns_prefixes@),
            ) == Ok::<Seq<char>, CanonError>(s@),
        !document_shaped(document@) ==> (r matches Err(c) && c.spec_code() == -1),
        r matches Err(c) ==> (c.spec_code() == -1 || c.spec_code() == -2),
{
    let chars = chars_of_str(document);
    if !document_shaped_exec(&chars) {
        return Err(CanonicalizationErrorCode::new(-1));
    }
    let parsed = match parse_xml_string(document) {
        None => {
            return Err(CanonicalizationErrorCode::new(-1));
        },
        Some(d) => d,
    };
    let tops = doc_top_nodes(&parsed);
    let mut prolog: Vec<XmlNode> = Vec::new();
    let mut epilog: Vec<XmlNode> = Vec::new();
    let mut root: Option<XmlNode> = None;
    let mut i: usize = 0;
    while i < tops.len()
        decreases tops@.len() - i,
    {
        match node_kind(&tops[i]) {
            RawKind::Element => {
                match build_node(&tops[i], MAX_DEPTH) {
                    None => {
                        return Err(CanonicalizationErrorCode::new(-1));
                    },
                    Some(e) => {
                        if root.is_none() {
                            root = Some(e);
                        } else {
                            epilog.push(e);
                        }
                    },
                }
            },
            RawKind::Comment => {
                let c = XmlNode::Comment(chars_of_str(node_content(&tops[i]).as_str()));
                if root.is_none() {
                    prolog.push(c);
                } else {
                    epilog.push(c);
                }
            },
            RawKind::Pi => {
                let p = XmlNode::Pi {
                    target: chars_of_str(node_name(&tops[i]).as_str()),
                    data: chars_of_str(node_content(&tops[i]).as_str()),
                };
                if root.is_none() {
                    prolog.push(p);
                } else {
                    epilog.push(p);
                }
            },
            _ => {},
        }
        i = i + 1;
    }
    let root = match root {
        None => {
            return Err(CanonicalizationErrorCode::new(-1));
        },
        Some(e) => e,
    };
    let doc = XmlDocument { prolog, root, epilog };
    let r = canonicalize_document(&doc, &options);
    proof {
        if r is Ok {
            assert(doc_wf(doc));
        }
    }
    r
}

} // verus!
