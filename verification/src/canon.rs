//! The canonical form itself, as a mathematical function of the document
//! and the configuration. Every executable function of the serializer is
//! proved equal to these definitions.

use vstd::prelude::*;

use crate::model::{
    NsBinding, AttrV, RAttr, XmlNode, XmlDocument, decls_view, attrs_view, doc_wf, ns_le, attr_le,
};
use crate::CanonicalizationMode;

verus! {

/// Why canonicalization failed.
#[derive(Copy, Clone, PartialEq, Eq, Structural)]
pub enum CanonError {
    /// The document violates the model invariants: no root element, a
    /// namespace prefix declared twice on one element, or two attributes of
    /// one element sharing an expanded name.
    MalformedInput,
    /// A qualified name uses a prefix with no in-scope declaration.
    UnresolvedPrefix,
}

/// The URI bound to `p` by the nearest declaration in `scope`, or the empty
/// sequence if `p` is unbound. The first match wins; scopes are kept free of
/// repeated prefixes.
pub open spec fn lookup(scope: Seq<NsBinding>, p: Seq<char>) -> Seq<char>
    decreases scope.len(),
{
    if scope.len() == 0 {
        Seq::<char>::empty()
    } else if scope[0].prefix == p {
        scope[0].uri
    } else {
        lookup(scope.drop_first(), p)
    }
}

/// Whether some declaration in `decls` is for prefix `p`.
pub open spec fn declares(decls: Seq<NsBinding>, p: Seq<char>) -> bool {
    exists|i: int| 0 <= i < decls.len() && decls[i].prefix == p
}

/// The set of prefixes declared in `decls`.
pub open spec fn prefix_set(decls: Seq<NsBinding>) -> Set<Seq<char>> {
    Set::new(|p: Seq<char>| declares(decls, p))
}

/// No two declarations share a prefix.
pub open spec fn distinct_prefixes(decls: Seq<NsBinding>) -> bool {
    forall|i: int, j: int|
        0 <= i < j < decls.len() ==> (#[trigger] decls[i]).prefix != (#[trigger] decls[j]).prefix
}

/// The inherited declarations that the local ones do not override.
pub open spec fn unshadowed(scope: Seq<NsBinding>, pset: Set<Seq<char>>) -> Seq<NsBinding> {
    scope.filter(|d: NsBinding| !pset.contains(d.prefix))
}

/// The namespace scope inside an element: its local declarations override
/// the inherited ones; kept sorted by prefix so that equal scopes are equal
/// sequences.
pub open spec fn scope_after(scope: Seq<NsBinding>, decls: Seq<NsBinding>) -> Seq<NsBinding> {
    (decls + unshadowed(scope, prefix_set(decls))).sort_by(ns_le())
}

/// The set of prefixes of the element's attributes (the empty prefix never
/// comes from an attribute: an unprefixed attribute is in no namespace).
pub open spec fn attr_prefix_set(attrs: Seq<AttrV>) -> Set<Seq<char>> {
    Set::new(
        |p: Seq<char>|
            p.len() > 0 && exists|i: int| 0 <= i < attrs.len() && (#[trigger] attrs[i]).prefix
                == p,
    )
}

/// Whether the prefix list (Exclusive mode's inclusive-namespaces list)
/// holds `p`.
pub open spec fn list_has(list: Seq<Seq<char>>, p: Seq<char>) -> bool {
    exists|i: int| 0 <= i < list.len() && list[i] == p
}

/// A prefix is visibly utilized at an element if it is the element's own
/// prefix or the prefix of one of its attributes.
pub open spec fn utilized(
    p: Seq<char>,
    eprefix: Seq<char>,
    apset: Set<Seq<char>>,
) -> bool {
    p == eprefix || apset.contains(p)
}

/// The namespace declarations an element must render, in emission order.
///
/// In Canonical 1.0 / 1.1 every in-scope binding that differs from what the
/// nearest ancestor rendered is emitted. In Exclusive 1.0 only visibly
/// utilized prefixes and those in the caller's inclusive list are
/// considered. The scope is sorted by prefix and filtering keeps that
/// order, which is the order the declarations are serialized in.
pub open spec fn render_list(
    mode: CanonicalizationMode,
    new_scope: Seq<NsBinding>,
    rendered: Seq<NsBinding>,
    eprefix: Seq<char>,
    apset: Set<Seq<char>>,
    incl: Seq<Seq<char>>,
) -> Seq<NsBinding> {
    if mode is ExclusiveCanonical1_0 {
        excl_render(new_scope, rendered, eprefix, apset, incl)
    } else {
        incl_render(new_scope, rendered)
    }
}

/// The declarations rendered in Canonical 1.0 / 1.1 mode: every in-scope
/// binding that differs from what an ancestor rendered for that prefix.
pub open spec fn incl_render(new_scope: Seq<NsBinding>, rendered: Seq<NsBinding>) -> Seq<
    NsBinding,
> {
    new_scope.filter(|d: NsBinding| lookup(rendered, d.prefix) != d.uri)
}

/// The declarations rendered in Exclusive 1.0 mode: only visibly utilized
/// or listed prefixes, and only where the binding differs from what an
/// ancestor rendered.
pub open spec fn excl_render(
    new_scope: Seq<NsBinding>,
    rendered: Seq<NsBinding>,
    eprefix: Seq<char>,
    apset: Set<Seq<char>>,
    incl: Seq<Seq<char>>,
) -> Seq<NsBinding> {
    new_scope.filter(
        |d: NsBinding|
            (utilized(d.prefix, eprefix, apset) || list_has(incl, d.prefix)) && lookup(
                rendered,
                d.prefix,
            ) != d.uri,
    )
}

/// An attribute with its namespace URI resolved: the empty prefix means no
/// namespace, any other prefix means the URI the scope binds it to.
pub open spec fn resolve_attr(a: AttrV, scope: Seq<NsBinding>) -> RAttr {
    RAttr {
        uri: if a.prefix.len() == 0 {
            Seq::<char>::empty()
        } else {
            lookup(scope, a.prefix)
        },
        local: a.local,
        prefix: a.prefix,
        value: a.value,
    }
}

/// All attributes resolved against the scope.
pub open spec fn resolved_attrs(attrs: Seq<AttrV>, scope: Seq<NsBinding>) -> Seq<RAttr> {
    attrs.map_values(|a: AttrV| resolve_attr(a, scope))
}

/// Every prefixed attribute's prefix is bound in the scope.
pub open spec fn attrs_resolvable(attrs: Seq<AttrV>, scope: Seq<NsBinding>) -> bool {
    forall|i: int|
        0 <= i < attrs.len() && (#[trigger] attrs[i]).prefix.len() > 0 ==> lookup(
            scope,
            attrs[i].prefix,
        ).len() > 0
}

/// No two resolved attributes share an expanded name (URI plus local name).
pub open spec fn distinct_expanded(rats: Seq<RAttr>) -> bool {
    forall|i: int, j: int|
        0 <= i < j < rats.len() ==> !((#[trigger] rats[i]).uri == (#[trigger] rats[j]).uri
            && rats[i].local == rats[j].local)
}

/// The qualified name as serialized: `prefix:local`, or `local` alone.
pub open spec fn qname(prefix: Seq<char>, local: Seq<char>) -> Seq<char> {
    if prefix.len() == 0 {
        local
    } else {
        prefix + seq![':'] + local
    }
}

/// Canonical escaping of one attribute-value character.
pub open spec fn esc_attr_char(c: char) -> Seq<char> {
    if c == '&' {
        seq!['&', 'a', 'm', 'p', ';']
    } else if c == '<' {
        seq!['&', 'l', 't', ';']
    } else if c == '"' {
        seq!['&', 'q', 'u', 'o', 't', ';']
    } else if c == '\u{9}' {
        seq!['&', '#', '9', ';']
    } else if c == '\u{A}' {
        seq!['&', '#', 'x', 'A', ';']
    } else if c == '\u{D}' {
        seq!['&', '#', 'x', 'D', ';']
    } else {
        seq![c]
    }
}

/// Canonical escaping of an attribute value.
pub open spec fn esc_attr(s: Seq<char>) -> Seq<char>
    decreases s.len(),
{
    if s.len() == 0 {
        Seq::<char>::empty()
    } else {
        esc_attr_char(s[0]) + esc_attr(s.drop_first())
    }
}

/// Canonical escaping of one text character.
pub open spec fn esc_text_char(c: char) -> Seq<char> {
    if c == '&' {
        seq!['&', 'a', 'm', 'p', ';']
    } else if c == '<' {
        seq!['&', 'l', 't', ';']
    } else if c == '>' {
        seq!['&', 'g', 't', ';']
    } else if c == '\u{D}' {
        seq!['&', '#', 'x', 'D', ';']
    } else {
        seq![c]
    }
}

/// Canonical escaping of a text node.
pub open spec fn esc_text(s: Seq<char>) -> Seq<char>
    decreases s.len(),
{
    if s.len() == 0 {
        Seq::<char>::empty()
    } else {
        esc_text_char(s[0]) + esc_text(s.drop_first())
    }
}

/// One namespace declaration as serialized: ` xmlns="uri"` or
/// ` xmlns:prefix="uri"`, the URI escaped as an attribute value.
pub open spec fn render_ns(d: NsBinding) -> Seq<char> {
    seq![' ', 'x', 'm', 'l', 'n', 's'] + (if d.prefix.len() == 0 {
        Seq::<char>::empty()
    } else {
        seq![':'] + d.prefix
    }) + seq!['=', '"'] + esc_attr(d.uri) + seq!['"']
}

/// A list of namespace declarations as serialized, in order.
pub open spec fn render_ns_list(l: Seq<NsBinding>) -> Seq<char>
    decreases l.len(),
{
    if l.len() == 0 {
        Seq::<char>::empty()
    } else {
        render_ns(l[0]) + render_ns_list(l.drop_first())
    }
}

/// One attribute as serialized: ` qname="escaped value"`.
pub open spec fn render_attr(a: RAttr) -> Seq<char> {
    seq![' '] + qname(a.prefix, a.local) + seq!['=', '"'] + esc_attr(a.value) + seq!['"']
}

/// A list of attributes as serialized, in order.
pub open spec fn render_attr_list(l: Seq<RAttr>) -> Seq<char>
    decreases l.len(),
{
    if l.len() == 0 {
        Seq::<char>::empty()
    } else {
        render_attr(l[0]) + render_attr_list(l.drop_first())
    }
}

/// A comment as serialized (when comments are kept).
pub open spec fn render_comment(c: Seq<char>) -> Seq<char> {
    seq!['<', '!', '-', '-'] + c + seq!['-', '-', '>']
}

/// A processing instruction as serialized: `<?target data?>`, the space
/// only when there is data.
pub open spec fn render_pi(target: Seq<char>, data: Seq<char>) -> Seq<char> {
    seq!['<', '?'] + target + (if data.len() == 0 {
        Seq::<char>::empty()
    } else {
        seq![' '] + data
    }) + seq!['?', '>']
}

/// The canonical form of one node, given the scope and the bindings already
/// rendered on ancestors.
pub open spec fn canon_node(
    n: XmlNode,
    scope: Seq<NsBinding>,
    rendered: Seq<NsBinding>,
    mode: CanonicalizationMode,
    keep_comments: bool,
    incl: Seq<Seq<char>>,
) -> Result<Seq<char>, CanonError>
    decreases n, 1int,
{
    match n {
        XmlNode::Text(t) => Ok(esc_text(t@)),
        XmlNode::Comment(c) => Ok(
            if keep_comments {
                render_comment(c@)
            } else {
                Seq::<char>::empty()
            },
        ),
        XmlNode::Pi { target, data } => Ok(render_pi(target@, data@)),
        XmlNode::Element { prefix, local, ns_decls, attrs, children } => canon_element(
            prefix@,
            local@,
            decls_view(ns_decls@),
            attrs_view(attrs@),
            children@,
            scope,
            rendered,
            mode,
            keep_comments,
            incl,
        ),
    }
}

/// The canonical form of one element, given its pieces.
pub open spec fn canon_element(
    prefix: Seq<char>,
    local: Seq<char>,
    decls: Seq<NsBinding>,
    avs: Seq<AttrV>,
    children: Seq<XmlNode>,
    scope: Seq<NsBinding>,
    rendered: Seq<NsBinding>,
    mode: CanonicalizationMode,
    keep_comments: bool,
    incl: Seq<Seq<char>>,
) -> Result<Seq<char>, CanonError>
    decreases children, 1int,
{
    if !distinct_prefixes(decls) {
        Err(CanonError::MalformedInput)
    } else {
        let new_scope = scope_after(scope, decls);
        if prefix.len() > 0 && lookup(new_scope, prefix).len() == 0 {
            Err(CanonError::UnresolvedPrefix)
        } else if !attrs_resolvable(avs, new_scope) {
            Err(CanonError::UnresolvedPrefix)
        } else {
            let rats = resolved_attrs(avs, new_scope).sort_by(attr_le());
            if !distinct_expanded(rats) {
                Err(CanonError::MalformedInput)
            } else {
                let rl = render_list(mode, new_scope, rendered, prefix, attr_prefix_set(avs), incl);
                let rendered2 = scope_after(rendered, rl);
                match canon_children(children, new_scope, rendered2, mode, keep_comments, incl) {
                    Err(e) => Err(e),
                    Ok(body) => {
                        let qn = qname(prefix, local);
                        Ok(
                            seq!['<'] + qn + render_ns_list(rl) + render_attr_list(rats)
                                + seq!['>'] + body + seq!['<', '/'] + qn + seq!['>'],
                        )
                    },
                }
            }
        }
    }
}

/// The canonical form of a sequence of sibling nodes, concatenated in
/// document order.
pub open spec fn canon_children(
    cs: Seq<XmlNode>,
    scope: Seq<NsBinding>,
    rendered: Seq<NsBinding>,
    mode: CanonicalizationMode,
    keep_comments: bool,
    incl: Seq<Seq<char>>,
) -> Result<Seq<char>, CanonError>
    decreases cs, 0int,
{
    if cs.len() == 0 {
        Ok(Seq::<char>::empty())
    } else {
        match canon_node(cs[0], scope, rendered, mode, keep_comments, incl) {
            Err(e) => Err(e),
            Ok(head) => match canon_children(
                cs.drop_first(),
                scope,
                rendered,
                mode,
                keep_comments,
                incl,
            ) {
                Err(e) => Err(e),
                Ok(tail) => Ok(head + tail),
            },
        }
    }
}

/// The standard XML namespace URI, bound to the `xml` prefix in every
/// document without a declaration.
pub open spec fn xml_ns_uri() -> Seq<char> {
    "http://www.w3.org/XML/1998/namespace"@
}

/// The scope every document starts from: only the implicit binding of the
/// `xml` prefix. It is seeded as already rendered, so it is never emitted.
pub open spec fn initial_scope() -> Seq<NsBinding> {
    seq![NsBinding { prefix: seq!['x', 'm', 'l'], uri: xml_ns_uri() }]
}

/// The canonical form of one node outside the root element: only comments
/// (kept or stripped) and processing instructions occur there.
pub open spec fn misc_out(n: XmlNode, keep_comments: bool) -> Seq<char> {
    match n {
        XmlNode::Comment(c) => if keep_comments {
            render_comment(c@)
        } else {
            Seq::<char>::empty()
        },
        XmlNode::Pi { target, data } => render_pi(target@, data@),
        _ => Seq::<char>::empty(),
    }
}

/// Nodes before the root element: each emitted one is followed by a line
/// feed; stripped comments contribute nothing.
pub open spec fn canon_prolog(ms: Seq<XmlNode>, keep_comments: bool) -> Seq<char>
    decreases ms.len(),
{
    if ms.len() == 0 {
        Seq::<char>::empty()
    } else {
        let head = misc_out(ms[0], keep_comments);
        (if head.len() == 0 {
            Seq::<char>::empty()
        } else {
            head + seq!['\u{A}']
        }) + canon_prolog(ms.drop_first(), keep_comments)
    }
}

/// Nodes after the root element: each emitted one is preceded by a line
/// feed; stripped comments contribute nothing.
pub open spec fn canon_epilog(ms: Seq<XmlNode>, keep_comments: bool) -> Seq<char>
    decreases ms.len(),
{
    if ms.len() == 0 {
        Seq::<char>::empty()
    } else {
        let head = misc_out(ms[0], keep_comments);
        (if head.len() == 0 {
            Seq::<char>::empty()
        } else {
            seq!['\u{A}'] + head
        }) + canon_epilog(ms.drop_first(), keep_comments)
    }
}

/// The canonical form of a whole document under the given configuration:
/// the single function every executable entry point is proved against.
pub open spec fn canon_doc(
    d: XmlDocument,
    mode: CanonicalizationMode,
    keep_comments: bool,
    incl: Seq<Seq<char>>,
) -> Result<Seq<char>, CanonError> {
    if !doc_wf(d) {
        Err(CanonError::MalformedInput)
    } else {
        match canon_node(d.root, initial_scope(), initial_scope(), mode, keep_comments, incl) {
            Err(e) => Err(e),
            Ok(body) => Ok(
                canon_prolog(d.prolog@, keep_comments) + body + canon_epilog(
                    d.epilog@,
                    keep_comments,
                ),
            ),
        }
    }
}

} // verus!
