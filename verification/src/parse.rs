//! The trusted boundary to the configuration-language parser: the document
//! text is parsed by the outside parser and converted, token for token, into
//! the editor's model tree.

use vstd::prelude::*;

use crate::editor::ConfigDocument;
use crate::editor::DocNode;
use crate::editor::ListItem;

verus! {

/// An opaque handle on one node of the outside parser's syntax tree; Verus
/// sees nothing inside it.
#[verifier::external_body]
pub struct SyntaxHandle {
    node: rnix::SyntaxNode,
}

/// Relies on rowan's SyntaxNode: a list node's children, nodes and tokens,
/// in order, each with its exact text.
#[verifier::external_body]
fn convert_list(n: &SyntaxHandle) -> (r: Vec<ListItem>) {
    n.node.children_with_tokens().map(
        |c| match c {
            rnix::NodeOrToken::Node(x) => ListItem { is_element: true, text: x.to_string() },
            rnix::NodeOrToken::Token(t) => ListItem { is_element: false, text: t.to_string() },
        },
    ).collect()
}

/// Relies on rowan's SyntaxNode: the node's kind tells a scoping construct
/// and a list apart; any other node is carried as its exact text.
#[verifier::external_body]
fn convert_node(n: &SyntaxHandle) -> (r: DocNode) {
    match n.node.kind() {
        rnix::SyntaxKind::NODE_WITH => DocNode::Scope(convert_children(n)),
        rnix::SyntaxKind::NODE_LIST => DocNode::List(convert_list(n)),
        _ => DocNode::Text(n.node.to_string()),
    }
}

/// Relies on rowan's SyntaxNode: a node's children, nodes and tokens, in
/// order; between-node tokens are carried as their exact text.
#[verifier::external_body]
fn convert_children(n: &SyntaxHandle) -> (r: Vec<DocNode>) {
    n.node.children_with_tokens().map(
        |c| match c {
            rnix::NodeOrToken::Node(x) => convert_node(&SyntaxHandle { node: x }),
            rnix::NodeOrToken::Token(t) => DocNode::Text(t.to_string()),
        },
    ).collect()
}

/// Whether the managed attribute is found at a definite place in the text:
/// the parse locates it by its fixed path and its reported span carries its
/// own text. A function of the text alone.
pub uninterp spec fn finds_packages_attr(content: Seq<char>) -> bool;

/// Relies on rowan's SyntaxNode: reads the binding's attribute-path parts
/// and reports how many of the queried parts, counted from `from`, they
/// equal — the parts' count on a full match of every part, zero otherwise
/// (also zero for a binding with no parts, or with more parts than queried).
#[verifier::external_body]
fn attr_key_match(child: &SyntaxHandle, path: &Vec<String>, from: usize) -> (r: usize) {
    let mut parts: Vec<String> = Vec::new();
    for sub in child.node.children() {
        if sub.kind() == rnix::SyntaxKind::NODE_ATTRPATH {
            parts = sub.children().map(|p| p.to_string()).collect();
            break ;
        }
    }
    if parts.is_empty() || parts.len() > path.len() - from {
        return 0;
    }
    if parts.iter().eq(path[from..from + parts.len()].iter()) {
        parts.len()
    } else {
        0
    }
}

/// Relies on nix_editor::parse::getcfgbase: descends into a binding's
/// attribute-set value and continues the lookup there.
#[verifier::external_body]
fn find_attr_under(child: &SyntaxHandle, path: &Vec<String>, from: usize) -> (r: Option<
    SyntaxHandle,
>) {
    let inner = nix_editor::parse::getcfgbase(&child.node)?;
    find_attr(&SyntaxHandle { node: inner }, path, from)
}

/// Relies on rowan's SyntaxNode: scans the bindings for the queried path,
/// in order. A binding matching the whole path is handed back unless its
/// value is itself an attribute set; a binding matching a leading part is
/// descended into. The outside crate's own lookup is not called here: on
/// attribute-set values it rebuilds the binding as new text, and on some of
/// their shapes it aborts, so those shapes are reported as not found.
#[verifier::external_body]
fn find_attr(base: &SyntaxHandle, path: &Vec<String>, from: usize) -> (r: Option<SyntaxHandle>) {
    for child in base.node.children() {
        let k = attr_key_match(&SyntaxHandle { node: child.clone() }, path, from);
        let set_valued = child.children().any(|x| x.kind() == rnix::SyntaxKind::NODE_ATTR_SET);
        if k > 0 && from + k == path.len() {
            return if set_valued { None } else { Some(SyntaxHandle { node: child }) };
        }
        if k > 0 {
            let found = find_attr_under(&SyntaxHandle { node: child }, path, from + k);
            if found.is_some() {
                return found;
            }
        }
    }
    None
}

/// Relies on rnix::Root::parse and nix_editor::parse::getcfgbase: the text
/// is parsed losslessly, the managed attribute is looked up by its fixed
/// path with the lookup above, and its subtree is converted into the
/// editor's model. The guard accepts the node only when the input carries
/// the node's own text at its reported span, so a converted document
/// renders back to the exact input text. `None` when the document holds no
/// such attribute, or holds it only as an attribute set.
#[verifier::external_body]
pub fn get_current_packages(content: &str) -> (r: Option<ConfigDocument>)
    ensures
        r is Some <==> finds_packages_attr(content@),
        r matches Some(doc) ==> doc.spec_render() == content@,
{
    let root = rnix::Root::parse(content).syntax();
    let base = nix_editor::parse::getcfgbase(&root)?;
    let path: Vec<String> = vec!["home".to_string(), "packages".to_string()];
    let attr = find_attr(&SyntaxHandle { node: base }, &path, 0)?;
    let start = usize::from(attr.node.text_range().start());
    let end = usize::from(attr.node.text_range().end());
    if content.get(start..end) != Some(attr.node.to_string().as_str()) {
        return None;
    }
    let prefix = content[..start].to_string();
    let suffix = content[end..].to_string();
    Some(ConfigDocument { prefix, nodes: convert_children(&attr), suffix })
}

} // verus!
