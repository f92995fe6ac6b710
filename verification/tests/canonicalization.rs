use xml_c14n::canon::CanonError;
use xml_c14n::model::{Attr, NsDecl, XmlDocument, XmlNode};
use xml_c14n::canonicalize_xml;
use xml_c14n::{
    canonicalize_document, CanonicalizationErrorCode, CanonicalizationMode, CanonicalizationOptions,
};

fn cv(s: &str) -> Vec<char> {
    s.chars().collect()
}

fn elem(
    prefix: &str,
    local: &str,
    ns_decls: Vec<NsDecl>,
    attrs: Vec<Attr>,
    children: Vec<XmlNode>,
) -> XmlNode {
    XmlNode::Element {
        prefix: cv(prefix),
        local: cv(local),
        ns_decls,
        attrs,
        children,
    }
}

fn decl(prefix: &str, uri: &str) -> NsDecl {
    NsDecl { prefix: cv(prefix), uri: cv(uri) }
}

fn attr(prefix: &str, local: &str, value: &str) -> Attr {
    Attr { prefix: cv(prefix), local: cv(local), value: cv(value) }
}

fn doc(root: XmlNode) -> XmlDocument {
    XmlDocument { prolog: vec![], root, epilog: vec![] }
}

fn opts(mode: CanonicalizationMode, keep_comments: bool, incl: &[&str]) -> CanonicalizationOptions {
    CanonicalizationOptions {
        mode,
        keep_comments,
        inclusive_ns_prefixes: incl.iter().map(|s| s.to_string()).collect(),
    }
}

#[test]
fn display_error() {
    let formatted = CanonicalizationErrorCode::new(-1).message();
    let expected = "canonicalization error (-1)";
    assert_eq!(formatted, expected);
}

#[test]
fn invalid_xml() {
    let input = "<invalid xml";
    let canonicalized = canonicalize_xml(
        input,
        opts(CanonicalizationMode::Canonical1_0, false, &[]),
    );
    assert!(canonicalized.is_err())
}

#[test]
fn empty_element_gets_explicit_end_tag() {
    let canonicalized = canonicalize_xml(
        "<hi/>",
        opts(CanonicalizationMode::Canonical1_0, false, &[]),
    )
    .unwrap();
    assert_eq!(canonicalized, "<hi></hi>");
}

#[test]
fn exclusive_drops_unused_namespace() {
    let canonicalized = canonicalize_xml(
        "<a xmlns:x=\"urn:x\"><b/></a>",
        opts(CanonicalizationMode::ExclusiveCanonical1_0, true, &[]),
    )
    .unwrap();
    assert_eq!(canonicalized, "<a><b></b></a>");
}

#[test]
fn exclusive_renders_namespace_where_utilized() {
    let canonicalized = canonicalize_xml(
        "<a xmlns:x=\"urn:x\"><x:b/></a>",
        opts(CanonicalizationMode::ExclusiveCanonical1_0, true, &[]),
    )
    .unwrap();
    assert_eq!(canonicalized, "<a><x:b xmlns:x=\"urn:x\"></x:b></a>");
}

#[test]
fn exclusive_keeps_listed_namespace() {
    let canonicalized = canonicalize_xml(
        "<a xmlns:x=\"urn:x\"><b/></a>",
        opts(CanonicalizationMode::ExclusiveCanonical1_0, true, &["x"]),
    )
    .unwrap();
    assert_eq!(canonicalized, "<a xmlns:x=\"urn:x\"><b></b></a>");
}

#[test]
fn inclusive_renders_namespace_on_declaring_element() {
    let d = doc(elem(
        "",
        "a",
        vec![decl("p", "urn:p")],
        vec![],
        vec![elem("p", "c", vec![], vec![], vec![])],
    ));
    let out = canonicalize_document(&d, &opts(CanonicalizationMode::Canonical1_0, false, &[]))
        .unwrap();
    assert_eq!(out, "<a xmlns:p=\"urn:p\"><p:c></p:c></a>");
}

#[test]
fn attribute_tab_is_escaped() {
    let d = doc(elem("", "a", vec![], vec![attr("", "b", "x\ty")], vec![]));
    let out = canonicalize_document(&d, &opts(CanonicalizationMode::Canonical1_0, false, &[]))
        .unwrap();
    assert_eq!(out, "<a b=\"x&#9;y\"></a>");
}

#[test]
fn attribute_tab_is_escaped_through_parser() {
    let out = canonicalize_xml(
        "<a b=\"x&#9;y\"/>",
        opts(CanonicalizationMode::Canonical1_0, false, &[]),
    )
    .unwrap();
    assert_eq!(out, "<a b=\"x&#9;y\"></a>");
}

#[test]
fn text_escaping() {
    let d = doc(elem(
        "",
        "a",
        vec![],
        vec![],
        vec![XmlNode::Text(cv("1 < 2 & 3 > 2\r"))],
    ));
    let out = canonicalize_document(&d, &opts(CanonicalizationMode::Canonical1_0, false, &[]))
        .unwrap();
    assert_eq!(out, "<a>1 &lt; 2 &amp; 3 &gt; 2&#xD;</a>");
}

#[test]
fn attribute_value_escaping() {
    let d = doc(elem(
        "",
        "a",
        vec![],
        vec![attr("", "v", "a<b&c\"d\ne")],
        vec![],
    ));
    let out = canonicalize_document(&d, &opts(CanonicalizationMode::Canonical1_0, false, &[]))
        .unwrap();
    assert_eq!(out, "<a v=\"a&lt;b&amp;c&quot;d&#xA;e\"></a>");
}

#[test]
fn comment_toggling_changes_output() {
    let keep = canonicalize_xml(
        "<a><!--c--><b/></a>",
        opts(CanonicalizationMode::Canonical1_0, true, &[]),
    )
    .unwrap();
    let strip = canonicalize_xml(
        "<a><!--c--><b/></a>",
        opts(CanonicalizationMode::Canonical1_0, false, &[]),
    )
    .unwrap();
    assert_eq!(keep, "<a><!--c--><b></b></a>");
    assert_eq!(strip, "<a><b></b></a>");
    assert_ne!(keep, strip);
    assert!(!strip.contains("<!--"));
}

#[test]
fn comment_stripping_leaves_no_comment_bytes() {
    let d = XmlDocument {
        prolog: vec![XmlNode::Comment(cv("early"))],
        root: elem(
            "",
            "r",
            vec![],
            vec![],
            vec![XmlNode::Comment(cv("inner")), elem("", "c", vec![], vec![], vec![])],
        ),
        epilog: vec![XmlNode::Comment(cv("late"))],
    };
    let strip = canonicalize_document(&d, &opts(CanonicalizationMode::Canonical1_1, false, &[]))
        .unwrap();
    assert_eq!(strip, "<r><c></c></r>");
    let keep = canonicalize_document(&d, &opts(CanonicalizationMode::Canonical1_1, true, &[]))
        .unwrap();
    assert_eq!(keep, "<!--early-->\n<r><!--inner--><c></c></r>\n<!--late-->");
}

#[test]
fn attributes_are_sorted_by_name() {
    let d = doc(elem(
        "",
        "e",
        vec![],
        vec![attr("", "z", "3"), attr("", "a", "1"), attr("", "m", "2")],
        vec![],
    ));
    let out = canonicalize_document(&d, &opts(CanonicalizationMode::Canonical1_0, false, &[]))
        .unwrap();
    assert_eq!(out, "<e a=\"1\" m=\"2\" z=\"3\"></e>");
}

#[test]
fn namespace_declarations_are_sorted_by_prefix() {
    let d = doc(elem(
        "",
        "e",
        vec![decl("b", "urn:b"), decl("a", "urn:a")],
        vec![],
        vec![],
    ));
    let out = canonicalize_document(&d, &opts(CanonicalizationMode::Canonical1_0, false, &[]))
        .unwrap();
    assert_eq!(out, "<e xmlns:a=\"urn:a\" xmlns:b=\"urn:b\"></e>");
}

#[test]
fn namespaced_attributes_sort_after_plain_ones() {
    let d = doc(elem(
        "",
        "e",
        vec![decl("p", "urn:p")],
        vec![attr("p", "a", "2"), attr("", "z", "1")],
        vec![],
    ));
    let out = canonicalize_document(&d, &opts(CanonicalizationMode::Canonical1_0, false, &[]))
        .unwrap();
    assert_eq!(out, "<e xmlns:p=\"urn:p\" z=\"1\" p:a=\"2\"></e>");
}

#[test]
fn determinism_same_document_same_bytes() {
    let input = "<a xmlns:x=\"urn:x\"><x:b att=\"v\"/>text</a>";
    let o = opts(CanonicalizationMode::ExclusiveCanonical1_0, true, &[]);
    let first = canonicalize_xml(input, o.clone()).unwrap();
    let second = canonicalize_xml(input, o).unwrap();
    assert_eq!(first, second);
}

#[test]
fn order_insensitivity_of_attributes_and_declarations() {
    let d1 = doc(elem(
        "",
        "e",
        vec![decl("b", "urn:b"), decl("a", "urn:a")],
        vec![attr("", "y", "1"), attr("", "x", "2")],
        vec![],
    ));
    let d2 = doc(elem(
        "",
        "e",
        vec![decl("a", "urn:a"), decl("b", "urn:b")],
        vec![attr("", "x", "2"), attr("", "y", "1")],
        vec![],
    ));
    let o = opts(CanonicalizationMode::Canonical1_0, false, &[]);
    let out1 = canonicalize_document(&d1, &o).unwrap();
    let out2 = canonicalize_document(&d2, &o).unwrap();
    assert_eq!(out1, out2);
}

#[test]
fn idempotence_of_canonicalization() {
    let input = "<a xmlns:x=\"urn:x\"  keep=\"v\" ><x:b/><!--gone--></a>";
    let o = opts(CanonicalizationMode::ExclusiveCanonical1_0, false, &[]);
    let first = canonicalize_xml(input, o.clone()).unwrap();
    let second = canonicalize_xml(first.as_str(), o).unwrap();
    assert_eq!(first, second);
}

#[test]
fn duplicate_prefix_declaration_is_malformed() {
    let d = doc(elem(
        "",
        "e",
        vec![decl("p", "urn:1"), decl("p", "urn:2")],
        vec![],
        vec![],
    ));
    let err = canonicalize_document(&d, &opts(CanonicalizationMode::Canonical1_0, false, &[]))
        .unwrap_err();
    assert_eq!(err.code(), -1);
}

#[test]
fn duplicate_expanded_attribute_name_is_malformed() {
    let d = doc(elem(
        "",
        "e",
        vec![decl("p", "urn:p"), decl("q", "urn:p")],
        vec![attr("p", "a", "1"), attr("q", "a", "2")],
        vec![],
    ));
    let err = canonicalize_document(&d, &opts(CanonicalizationMode::Canonical1_0, false, &[]))
        .unwrap_err();
    assert_eq!(err.code(), -1);
}

#[test]
fn unresolved_prefix_is_reported() {
    let d = doc(elem(
        "",
        "e",
        vec![],
        vec![attr("nowhere", "a", "1")],
        vec![],
    ));
    let err = canonicalize_document(&d, &opts(CanonicalizationMode::Canonical1_0, false, &[]))
        .unwrap_err();
    assert_eq!(err.code(), -2);
}

#[test]
fn text_outside_root_is_malformed() {
    let d = XmlDocument {
        prolog: vec![XmlNode::Text(cv("stray"))],
        root: elem("", "r", vec![], vec![], vec![]),
        epilog: vec![],
    };
    let err = canonicalize_document(&d, &opts(CanonicalizationMode::Canonical1_0, false, &[]))
        .unwrap_err();
    assert_eq!(err.code(), -1);
}

#[test]
fn processing_instructions_survive() {
    let d = XmlDocument {
        prolog: vec![XmlNode::Pi { target: cv("pi"), data: cv("data") }],
        root: elem(
            "",
            "r",
            vec![],
            vec![],
            vec![XmlNode::Pi { target: cv("empty"), data: cv("") }],
        ),
        epilog: vec![],
    };
    let out = canonicalize_document(&d, &opts(CanonicalizationMode::Canonical1_0, false, &[]))
        .unwrap();
    assert_eq!(out, "<?pi data?>\n<r><?empty?></r>");
}

#[test]
fn default_namespace_changes_are_rendered() {
    let d = doc(elem(
        "",
        "a",
        vec![decl("", "urn:d")],
        vec![],
        vec![elem("", "b", vec![decl("", "")], vec![], vec![])],
    ));
    let out = canonicalize_document(&d, &opts(CanonicalizationMode::Canonical1_0, false, &[]))
        .unwrap();
    assert_eq!(out, "<a xmlns=\"urn:d\"><b xmlns=\"\"></b></a>");
}

#[test]
fn modes_default_as_documented() {
    let o = CanonicalizationOptions::default();
    assert_eq!(o.mode, CanonicalizationMode::ExclusiveCanonical1_0);
    assert!(!o.keep_comments);
    assert!(o.inclusive_ns_prefixes.is_empty());
    assert_eq!(CanonicalizationMode::default(), CanonicalizationMode::ExclusiveCanonical1_0);
}

#[test]
fn error_codes_round_trip() {
    assert_eq!(CanonicalizationErrorCode::new(-2).code(), -2);
    assert_eq!(CanonicalizationErrorCode::new(-2).message(), "canonicalization error (-2)");
    assert_eq!(CanonicalizationErrorCode::new(17).message(), "canonicalization error (17)");
    let _ = CanonError::MalformedInput;
}

#[test]
fn top_level_comments_through_parser() {
    let keep = canonicalize_xml(
        "<!--early--><r/><!--late-->",
        opts(CanonicalizationMode::Canonical1_0, true, &[]),
    )
    .unwrap();
    assert_eq!(keep, "<!--early-->\n<r></r>\n<!--late-->");
    let strip = canonicalize_xml(
        "<!--early--><r/><!--late-->",
        opts(CanonicalizationMode::Canonical1_0, false, &[]),
    )
    .unwrap();
    assert_eq!(strip, "<r></r>");
}

#[test]
fn processing_instruction_through_parser() {
    let out = canonicalize_xml(
        "<?want data?><r><?inner?></r>",
        opts(CanonicalizationMode::Canonical1_1, false, &[]),
    )
    .unwrap();
    assert_eq!(out, "<?want data?>\n<r><?inner?></r>");
}

#[test]
fn namespaced_attribute_through_parser() {
    let out = canonicalize_xml(
        "<a xml:lang=\"en\"/>",
        opts(CanonicalizationMode::Canonical1_0, false, &[]),
    )
    .unwrap();
    assert_eq!(out, "<a xml:lang=\"en\"></a>");
    let out2 = canonicalize_xml(
        "<a xmlns:p=\"urn:p\" p:k=\"v\"/>",
        opts(CanonicalizationMode::Canonical1_0, false, &[]),
    )
    .unwrap();
    assert_eq!(out2, "<a xmlns:p=\"urn:p\" p:k=\"v\"></a>");
}

#[test]
fn attributes_sharing_a_local_name_stay_distinct() {
    let out = canonicalize_xml(
        "<a xmlns:p=\"urn:p\" xmlns:q=\"urn:q\" p:x=\"1\" q:x=\"2\"/>",
        opts(CanonicalizationMode::Canonical1_0, false, &[]),
    )
    .unwrap();
    assert_eq!(
        out,
        "<a xmlns:p=\"urn:p\" xmlns:q=\"urn:q\" p:x=\"1\" q:x=\"2\"></a>"
    );
}

#[test]
fn entity_references_resolve_to_their_content() {
    let out = canonicalize_xml(
        "<a>x &amp; y &lt; z</a>",
        opts(CanonicalizationMode::Canonical1_0, false, &[]),
    )
    .unwrap();
    assert_eq!(out, "<a>x &amp; y &lt; z</a>");
    let attr_out = canonicalize_xml(
        "<a v=\"x &amp; y\"/>",
        opts(CanonicalizationMode::Canonical1_0, false, &[]),
    )
    .unwrap();
    assert_eq!(attr_out, "<a v=\"x &amp; y\"></a>");
}
