//! Trusted boundary to the HTML parser and the CSS selection engine. Every
//! item here either declares an outside type or wraps one call; the engine's
//! logic is verified against these contracts. Documents and nodes are
//! immutable once parsed, so each named result is a function of its
//! arguments alone.

use vstd::prelude::*;

verus! {

/// The parsed HTML document type of the `scraper` crate.
#[verifier::external_type_specification]
#[verifier::external_body]
pub struct ExHtml(scraper::Html);

/// The node handle type of the `ego-tree` crate, which `scraper` documents
/// are built on.
#[verifier::external_type_specification]
#[verifier::external_body]
pub struct ExNodeId(ego_tree::NodeId);

/// The document `scraper::Html::parse_document` builds from the markup.
pub uninterp spec fn parsed_doc(html: Seq<char>) -> scraper::Html;

/// The root element of a document, if the tree holds an element at all.
pub uninterp spec fn root_of(doc: scraper::Html) -> Option<ego_tree::NodeId>;

/// Whether `scraper::Selector::parse` accepts the selector text.
pub uninterp spec fn selector_ok(sel: Seq<char>) -> bool;

/// The descendants of `node` matching `sel`, in document order.
pub uninterp spec fn selected(doc: scraper::Html, node: ego_tree::NodeId, sel: Seq<char>) -> Seq<
    ego_tree::NodeId,
>;

/// The visible text fragments under `node`, joined with single spaces.
pub uninterp spec fn elem_text(doc: scraper::Html, node: ego_tree::NodeId) -> Seq<char>;

/// The value of the attribute `name` on `node`, when the node exists and
/// carries it.
pub uninterp spec fn elem_attr(
    doc: scraper::Html,
    node: ego_tree::NodeId,
    name: Seq<char>,
) -> Option<Seq<char>>;

/// What selection yields once the selector text has been checked: nothing
/// for a selector the engine refuses.
pub open spec fn spec_selected(
    doc: scraper::Html,
    node: ego_tree::NodeId,
    sel: Seq<char>,
) -> Seq<ego_tree::NodeId> {
    if selector_ok(sel) {
        selected(doc, node, sel)
    } else {
        Seq::empty()
    }
}

/// Relies on `scraper::Html::parse_document`: parsing never fails and is a
/// pure function of the markup.
#[verifier::external_body]
pub fn parse_document(html: &str) -> (r: scraper::Html)
    ensures
        r == parsed_doc(html@),
{
    scraper::Html::parse_document(html)
}

/// Relies on the `ego_tree` navigation that `scraper::Html::root_element`
/// performs: the first element child of the tree root; `None` when the tree
/// holds no element (`root_element` itself would panic there).
#[verifier::external_body]
pub fn root_id(doc: &scraper::Html) -> (r: Option<ego_tree::NodeId>)
    ensures
        r == root_of(*doc),
{
    let mut cur = doc.tree.root().first_child();
    while let Some(n) = cur {
        if n.value().is_element() {
            return Some(n.id());
        }
        cur = n.next_sibling();
    }
    None
}

/// Relies on `scraper::Selector::parse` and `scraper::ElementRef::select`:
/// the descendants of `node` matching `sel` in document order, `None`
/// exactly when the selector text does not parse. A handle not in the
/// document, or not an element, matches nothing.
#[verifier::external_body]
pub fn select_nodes(doc: &scraper::Html, node: ego_tree::NodeId, sel: &str) -> (r: Option<
    Vec<ego_tree::NodeId>,
>)
    ensures
        r is Some <==> selector_ok(sel@),
        r matches Some(v) ==> v@ == selected(*doc, node, sel@),
{
    let selector = match scraper::Selector::parse(sel) {
        Ok(s) => s,
        Err(_) => {
            return None;
        },
    };
    let mut out = Vec::new();
    if let Some(node_ref) = doc.tree.get(node) {
        if let Some(el) = scraper::ElementRef::wrap(node_ref) {
            for e in el.select(&selector) {
                out.push(e.id());
            }
        }
    }
    Some(out)
}

/// Relies on `scraper::ElementRef::text`: the document-order text fragments
/// under the node, joined with single spaces; empty for a handle that is
/// not an element of the document.
#[verifier::external_body]
pub fn node_text(doc: &scraper::Html, node: ego_tree::NodeId) -> (r: String)
    ensures
        r@ == elem_text(*doc, node),
{
    match doc.tree.get(node).and_then(scraper::ElementRef::wrap) {
        Some(el) => el.text().collect::<Vec<_>>().join(" "),
        None => String::new(),
    }
}

/// Relies on `scraper::ElementRef::attr`: the named attribute's value,
/// `None` when the node is missing, not an element, or lacks it.
#[verifier::external_body]
pub fn node_attr(doc: &scraper::Html, node: ego_tree::NodeId, name: &str) -> (r: Option<String>)
    ensures
        match r {
            Some(s) => elem_attr(*doc, node, name@) == Some(s@),
            None => elem_attr(*doc, node, name@) is None,
        },
{
    let el = doc.tree.get(node).and_then(scraper::ElementRef::wrap)?;
    let a = el.attr(name)?;
    Some(a.to_string())
}

} // verus!
