//! Canonical XML (C14N) serialization, verified.
//!
//! Given a parsed document tree, this library produces the unique canonical
//! text form defined by Canonical XML 1.0, Exclusive Canonical XML 1.0 and
//! Canonical XML 1.1, so that logically equivalent documents serialize to
//! identical bytes. The whole algorithm — namespace-axis resolution,
//! namespace and attribute ordering, escaping and node serialization — is
//! specified by the spec functions in [`canon`] and every executable
//! function is proved equal to them.

use vstd::prelude::*;

pub mod canon;
pub mod chars;
pub mod emit;
pub mod model;
pub mod laws;
pub mod parse;
pub mod serial;
pub mod text;

use crate::canon::{CanonError, canon_doc, canon_prolog, canon_epilog, canon_node, misc_out,
    initial_scope, xml_ns_uri};
use crate::model::{XmlDocument, XmlNode, NsDecl, decls_view, prefixes_view, doc_wf, is_misc};
use crate::emit::{emit_node, lemma_canon_prolog_push, lemma_canon_epilog_push, lemma_push_add};
use crate::text::{chars_of_str, string_of_chars};

pub use crate::parse::canonicalize_xml;

verus! {

/// Canonicalization specification to use.
#[derive(Copy, Clone, PartialEq, Eq, Structural, Debug, Hash)]
pub enum CanonicalizationMode {
    /// Original C14N 1.0 spec.
    Canonical1_0,
    /// Exclusive C14N 1.0 spec.
    ExclusiveCanonical1_0,
    /// C14N 1.1 spec.
    Canonical1_1,
}

impl Default for CanonicalizationMode {
    fn default() -> (r: Self)
        ensures
            r == CanonicalizationMode::ExclusiveCanonical1_0,
    {
        CanonicalizationMode::ExclusiveCanonical1_0
    }
}

/// Options for configuring how to canonicalize XML.
#[derive(Debug, PartialEq, Eq, Hash)]
pub struct CanonicalizationOptions {
    pub mode: CanonicalizationMode,
    /// If true, keep `<!-- ... -->` comments, otherwise remove.
    pub keep_comments: bool,
    /// Namespaces to keep even if they are unused. By default, in
    /// [`CanonicalizationMode::ExclusiveCanonical1_0`], unused namespaces
    /// are removed. Doesn't apply to other canonicalization modes.
    pub inclusive_ns_prefixes: Vec<String>,
}

/// View of the inclusive-prefix list.
pub open spec fn incl_view(l: Seq<String>) -> Seq<Seq<char>> {
    l.map_values(|s: String| s@)
}

impl Clone for CanonicalizationOptions {
    fn clone(&self) -> (r: Self)
        ensures
            r.mode == self.mode,
            r.keep_comments == self.keep_comments,
            incl_view(r.inclusive_ns_prefixes@) == incl_view(self.inclusive_ns_prefixes@),
    {
        let mut prefixes: Vec<String> = Vec::new();
        let mut i: usize = 0;
        proof {
            assert(incl_view(prefixes@) =~= incl_view(self.inclusive_ns_prefixes@.subrange(0, 0)));
        }
        while i < self.inclusive_ns_prefixes.len()
            invariant
                i <= self.inclusive_ns_prefixes@.len(),
                incl_view(prefixes@) == incl_view(
                    self.inclusive_ns_prefixes@.subrange(0, i as int),
                ),
            decreases self.inclusive_ns_prefixes@.len() - i,
        {
            let ghost pre = prefixes@;
            let s = self.inclusive_ns_prefixes[i].clone();
            let ghost sv = s@;
            prefixes.push(s);
            proof {
                assert(sv == self.inclusive_ns_prefixes@[i as int]@);
                assert(incl_view(prefixes@) =~= incl_view(pre).push(sv));
                assert(incl_view(pre).push(sv) =~= incl_view(
                    self.inclusive_ns_prefixes@.subrange(0, i + 1),
                ));
            }
            i = i + 1;
        }
        proof {
            assert(self.inclusive_ns_prefixes@.subrange(
                0,
                self.inclusive_ns_prefixes@.len() as int,
            ) =~= self.inclusive_ns_prefixes@);
        }
        CanonicalizationOptions {
            mode: self.mode,
            keep_comments: self.keep_comments,
            inclusive_ns_prefixes: prefixes,
        }
    }
}

impl Default for CanonicalizationOptions {
    fn default() -> (r: Self)
        ensures
            r.mode == CanonicalizationMode::ExclusiveCanonical1_0,
            r.keep_comments == false,
            r.inclusive_ns_prefixes@.len() == 0,
    {
        CanonicalizationOptions {
            mode: CanonicalizationMode::ExclusiveCanonical1_0,
            keep_comments: false,
            inclusive_ns_prefixes: Vec::new(),
        }
    }
}

/// An error code (always negative) describing why canonicalization failed.
#[derive(Copy, Clone, PartialEq, Eq, Structural, Debug, Hash)]
pub struct CanonicalizationErrorCode(i32);

/// The code reported for each failure kind: malformed input is `-1`, an
/// unresolvable namespace prefix is `-2`.
pub open spec fn spec_code_of(e: CanonError) -> i32 {
    match e {
        CanonError::MalformedInput => -1i32,
        CanonError::UnresolvedPrefix => -2i32,
    }
}

/// The decimal digits of `n`, most significant first.
pub open spec fn dec_digits(n: nat) -> Seq<char>
    decreases n,
{
    if n < 10 {
        seq![digit_char(n)]
    } else {
        dec_digits(n / 10) + seq![digit_char(n % 10)]
    }
}

/// The character for one decimal digit.
pub open spec fn digit_char(d: nat) -> char {
    if d == 0 {
        '0'
    } else if d == 1 {
        '1'
    } else if d == 2 {
        '2'
    } else if d == 3 {
        '3'
    } else if d == 4 {
        '4'
    } else if d == 5 {
        '5'
    } else if d == 6 {
        '6'
    } else if d == 7 {
        '7'
    } else if d == 8 {
        '8'
    } else {
        '9'
    }
}

/// A signed value in decimal.
pub open spec fn int_decimal(c: int) -> Seq<char> {
    if c < 0 {
        seq!['-'] + dec_digits((0 - c) as nat)
    } else {
        dec_digits(c as nat)
    }
}

/// The diagnostic message of an error code.
pub open spec fn spec_error_message(c: int) -> Seq<char> {
    "canonicalization error ("@ + int_decimal(c) + seq![')']
}

fn push_digit(out: &mut Vec<char>, d: u32)
    requires
        d < 10,
    ensures
        final(out)@ == old(out)@ + seq![digit_char(d as nat)],
{
    let c: char = if d == 0 {
        '0'
    } else if d == 1 {
        '1'
    } else if d == 2 {
        '2'
    } else if d == 3 {
        '3'
    } else if d == 4 {
        '4'
    } else if d == 5 {
        '5'
    } else if d == 6 {
        '6'
    } else if d == 7 {
        '7'
    } else if d == 8 {
        '8'
    } else {
        '9'
    };
    let ghost pre = out@;
    out.push(c);
    proof {
        lemma_push_add(pre, c);
    }
}

fn push_digits(out: &mut Vec<char>, n: u32)
    ensures
        final(out)@ == old(out)@ + dec_digits(n as nat),
    decreases n,
{
    if n < 10 {
        push_digit(out, n);
    } else {
        proof {
            assert(n / 10 < n && n / 10 >= 1) by (nonlinear_arith)
                requires
                    n >= 10,
            ;
        }
        push_digits(out, n / 10);
        push_digit(out, n % 10);
        proof {
            assert((n / 10) as nat == (n as nat) / 10);
            assert((n % 10) as nat == (n as nat) % 10);
            assert(dec_digits(n as nat) == dec_digits((n as nat) / 10) + seq![
                digit_char((n as nat) % 10),
            ]);
            assert(old(out)@ + dec_digits((n / 10) as nat) + seq![digit_char((n % 10) as nat)]
                =~= old(out)@ + (dec_digits((n / 10) as nat) + seq![digit_char((n % 10) as nat)]));
        }
    }
}

impl CanonicalizationErrorCode {
    /// The raw code.
    pub closed spec fn spec_code(&self) -> i32 {
        self.0
    }

    /// Build an error code.
    pub fn new(code: i32) -> (r: Self)
        ensures
            r.spec_code() == code,
    {
        CanonicalizationErrorCode(code)
    }

    /// The raw code.
    pub fn code(&self) -> (r: i32)
        ensures
            r == self.spec_code(),
    {
        self.0
    }

    /// The diagnostic message: `canonicalization error (<code>)`.
    pub fn message(&self) -> (r: String)
        ensures
            r@ == spec_error_message(self.spec_code() as int),
    {
        let mut v: Vec<char> = chars_of_str("canonicalization error (");
        if self.0 < 0 {
            let ghost pre = v@;
            v.push('-');
            proof {
                lemma_push_add(pre, '-');
            }
            let m: u32 = (-(self.0 as i64)) as u32;
            push_digits(&mut v, m);
            proof {
                assert(m as nat == (0 - self.spec_code() as int) as nat);
                assert("canonicalization error ("@ + seq!['-'] + dec_digits(m as nat)
                    =~= "canonicalization error ("@ + (seq!['-'] + dec_digits(m as nat)));
            }
        } else {
            push_digits(&mut v, self.0 as u32);
        }
        let ghost pre2 = v@;
        v.push(')');
        proof {
            lemma_push_add(pre2, ')');
            assert(v@ =~= spec_error_message(self.spec_code() as int));
        }
        string_of_chars(&v)
    }
}

/// Whether a node may stand outside the root element.
fn is_misc_exec(n: &XmlNode) -> (r: bool)
    ensures
        r == is_misc(*n),
{
    match n {
        XmlNode::Comment(_) => true,
        XmlNode::Pi { .. } => true,
        _ => false,
    }
}

/// Whether the document satisfies the structural invariant.
pub fn doc_wf_exec(d: &XmlDocument) -> (r: bool)
    ensures
        r == doc_wf(*d),
{
    let root_ok = match &d.root {
        XmlNode::Element { .. } => true,
        _ => false,
    };
    if !root_ok {
        return false;
    }
    let mut i: usize = 0;
    while i < d.prolog.len()
        invariant
            i <= d.prolog@.len(),
            forall|k: int| 0 <= k < i ==> is_misc(#[trigger] d.prolog@[k]),
        decreases d.prolog@.len() - i,
    {
        if !is_misc_exec(&d.prolog[i]) {
            return false;
        }
        i = i + 1;
    }
    let mut j: usize = 0;
    while j < d.epilog.len()
        invariant
            j <= d.epilog@.len(),
            d.root is Element,
            forall|k: int| 0 <= k < d.prolog@.len() ==> is_misc(#[trigger] d.prolog@[k]),
            forall|k: int| 0 <= k < j ==> is_misc(#[trigger] d.epilog@[k]),
        decreases d.epilog@.len() - j,
    {
        if !is_misc_exec(&d.epilog[j]) {
            return false;
        }
        j = j + 1;
    }
    true
}

/// Append the canonical form of one node outside the root element.
fn emit_misc(out: &mut Vec<char>, n: &XmlNode, keep_comments: bool)
    ensures
        final(out)@ == old(out)@ + misc_out(*n, keep_comments),
{
    match n {
        XmlNode::Comment(c) => {
            if keep_comments {
                let ghost pre = out@;
                out.push('<');
                out.push('!');
                out.push('-');
                out.push('-');
                crate::serial::extend_chars(out, c);
                out.push('-');
                out.push('-');
                out.push('>');
                proof {
                    assert(out@ =~= pre + crate::canon::render_comment(c@));
                }
            } else {
                proof {
                    assert(out@ =~= out@ + Seq::<char>::empty());
                }
            }
        },
        XmlNode::Pi { target, data } => {
            let ghost pre = out@;
            out.push('<');
            out.push('?');
            crate::serial::extend_chars(out, target);
            if data.len() > 0 {
                out.push(' ');
                crate::serial::extend_chars(out, data);
            }
            out.push('?');
            out.push('>');
            proof {
                assert(out@ =~= pre + crate::canon::render_pi(target@, data@));
            }
        },
        _ => {
            proof {
                assert(out@ =~= out@ + Seq::<char>::empty());
            }
        },
    }
}

/// Append the nodes before the root element, each followed by a line feed.
#[verifier::loop_isolation(false)]
fn emit_prolog(out: &mut Vec<char>, ms: &Vec<XmlNode>, keep_comments: bool)
    ensures
        final(out)@ == old(out)@ + canon_prolog(ms@, keep_comments),
{
    let mut i: usize = 0;
    proof {
        assert(ms@.subrange(0, 0) =~= Seq::<XmlNode>::empty());
        assert(old(out)@ + canon_prolog(ms@.subrange(0, 0), keep_comments) =~= old(out)@);
    }
    while i < ms.len()
        invariant
            i <= ms.len(),
            out@ == old(out)@ + canon_prolog(ms@.subrange(0, i as int), keep_comments),
        decreases ms@.len() - i,
    {
        let ghost pre = out@;
        let emits = match &ms[i] {
            XmlNode::Comment(_) => keep_comments,
            XmlNode::Pi { .. } => true,
            _ => false,
        };
        emit_misc(out, &ms[i], keep_comments);
        if emits {
            let ghost pre2 = out@;
            out.push('\u{A}');
            proof {
                lemma_push_add(pre2, '\u{A}');
                assert(misc_out(ms@[i as int], keep_comments).len() > 0);
                assert(out@ =~= pre + (misc_out(ms@[i as int], keep_comments) + seq!['\u{A}']));
            }
        } else {
            proof {
                assert(misc_out(ms@[i as int], keep_comments).len() == 0);
                assert(out@ =~= pre + Seq::<char>::empty());
                assert(out@ =~= pre);
            }
        }
        proof {
            assert(ms@.subrange(0, i + 1) =~= ms@.subrange(0, i as int).push(ms@[i as int]));
            lemma_canon_prolog_push(ms@.subrange(0, i as int), ms@[i as int], keep_comments);
            assert(out@ =~= old(out)@ + canon_prolog(ms@.subrange(0, i + 1), keep_comments));
        }
        i = i + 1;
    }
    proof {
        assert(ms@.subrange(0, ms@.len() as int) =~= ms@);
    }
}

/// Append the nodes after the root element, each preceded by a line feed.
#[verifier::loop_isolation(false)]
fn emit_epilog(out: &mut Vec<char>, ms: &Vec<XmlNode>, keep_comments: bool)
    ensures
        final(out)@ == old(out)@ + canon_epilog(ms@, keep_comments),
{
    let mut i: usize = 0;
    proof {
        assert(ms@.subrange(0, 0) =~= Seq::<XmlNode>::empty());
        assert(old(out)@ + canon_epilog(ms@.subrange(0, 0), keep_comments) =~= old(out)@);
    }
    while i < ms.len()
        invariant
            i <= ms.len(),
            out@ == old(out)@ + canon_epilog(ms@.subrange(0, i as int), keep_comments),
        decreases ms@.len() - i,
    {
        let ghost pre = out@;
        let newline_first = match &ms[i] {
            XmlNode::Comment(_) => keep_comments,
            XmlNode::Pi { .. } => true,
            _ => false,
        };
        if newline_first {
            out.push('\u{A}');
            proof {
                lemma_push_add(pre, '\u{A}');
            }
        }
        emit_misc(out, &ms[i], keep_comments);
        proof {
            if newline_first {
                assert(misc_out(ms@[i as int], keep_comments).len() > 0);
                assert(out@ =~= pre + (seq!['\u{A}'] + misc_out(ms@[i as int], keep_comments)));
            } else {
                assert(misc_out(ms@[i as int], keep_comments).len() == 0);
                assert(out@ =~= pre + Seq::<char>::empty());
                assert(out@ =~= pre);
            }
            assert(ms@.subrange(0, i + 1) =~= ms@.subrange(0, i as int).push(ms@[i as int]));
            lemma_canon_epilog_push(ms@.subrange(0, i as int), ms@[i as int], keep_comments);
            assert(out@ =~= old(out)@ + canon_epilog(ms@.subrange(0, i + 1), keep_comments));
        }
        i = i + 1;
    }
    proof {
        assert(ms@.subrange(0, ms@.len() as int) =~= ms@);
    }
}

/// The scope and rendered set every document starts from: the implicit
/// binding of the `xml` prefix.
fn initial_scope_exec() -> (r: Vec<NsDecl>)
    ensures
        decls_view(r@) == initial_scope(),
{
    let mut p: Vec<char> = Vec::new();
    p.push('x');
    p.push('m');
    p.push('l');
    proof {
        assert(p@ =~= seq!['x', 'm', 'l']);
    }
    let uri = chars_of_str("http://www.w3.org/XML/1998/namespace");
    proof {
        assert(uri@ == xml_ns_uri());
    }
    let mut r: Vec<NsDecl> = Vec::new();
    r.push(NsDecl { prefix: p, uri });
    proof {
        assert(decls_view(r@) =~= initial_scope());
    }
    r
}

/// Canonicalize a parsed document under the given configuration.
///
/// The result is exactly `canon::canon_doc` of the document: malformed
/// input (no root element, stray nodes around it, a prefix declared twice
/// on one element, two attributes with one expanded name) is rejected with
/// code `-1`, an unresolvable namespace prefix with code `-2`, and on
/// success the canonical text is returned whole.
#[verifier::loop_isolation(false)]
pub fn canonicalize_document(doc: &XmlDocument, options: &CanonicalizationOptions) -> (r: Result<
    String,
    CanonicalizationErrorCode,
>)
    ensures
        ({
            let res = canon_doc(
                *doc,
                options.mode,
                options.keep_comments,
                incl_view(options.inclusive_ns_prefixes@),
            );
            match r {
                Ok(s) => res matches Ok(t) && s@ == t,
                Err(c) => res matches Err(e) && c.spec_code() == spec_code_of(e),
            }
        }),
{
    let ghost iv = incl_view(options.inclusive_ns_prefixes@);
    if !doc_wf_exec(doc) {
        return Err(CanonicalizationErrorCode::new(-1));
    }
    let mut incl: Vec<Vec<char>> = Vec::new();
    let mut i: usize = 0;
    proof {
        assert(prefixes_view(incl@) =~= incl_view(options.inclusive_ns_prefixes@.subrange(0, 0)));
    }
    while i < options.inclusive_ns_prefixes.len()
        invariant
            i <= options.inclusive_ns_prefixes@.len(),
            prefixes_view(incl@) == incl_view(options.inclusive_ns_prefixes@.subrange(0, i as int)),
        decreases options.inclusive_ns_prefixes@.len() - i,
    {
        let ghost pre = incl@;
        let p = chars_of_str(options.inclusive_ns_prefixes[i].as_str());
        let ghost pv = p@;
        incl.push(p);
        proof {
            assert(pv == options.inclusive_ns_prefixes@[i as int]@);
            assert(prefixes_view(incl@) =~= prefixes_view(pre).push(pv));
            assert(prefixes_view(pre).push(pv) =~= incl_view(
                options.inclusive_ns_prefixes@.subrange(0, i + 1),
            ));
        }
        i = i + 1;
    }
    proof {
        assert(options.inclusive_ns_prefixes@.subrange(
            0,
            options.inclusive_ns_prefixes@.len() as int,
        ) =~= options.inclusive_ns_prefixes@);
        assert(prefixes_view(incl@) == iv);
    }
    let scope = initial_scope_exec();
    let mut out: Vec<char> = Vec::new();
    proof {
        assert(out@ =~= Seq::<char>::empty());
    }
    emit_prolog(&mut out, &doc.prolog, options.keep_comments);
    proof {
        assert(out@ =~= canon_prolog(doc.prolog@, options.keep_comments));
    }
    match emit_node(
        &doc.root,
        &scope,
        &scope,
        options.mode,
        options.keep_comments,
        &incl,
        &mut out,
    ) {
        Err(e) => {
            return Err(
                CanonicalizationErrorCode::new(
                    if matches!(e, CanonError::MalformedInput) {
                        -1
                    } else {
                        -2
                    },
                ),
            );
        },
        Ok(()) => {},
    }
    let ghost body = canon_node(
        doc.root,
        initial_scope(),
        initial_scope(),
        options.mode,
        options.keep_comments,
        iv,
    )->Ok_0;
    emit_epilog(&mut out, &doc.epilog, options.keep_comments);
    proof {
        assert(out@ =~= canon_prolog(doc.prolog@, options.keep_comments) + body + canon_epilog(
            doc.epilog@,
            options.keep_comments,
        ));
    }
    Ok(string_of_chars(&out))
}

} // verus!
