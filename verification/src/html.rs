use vstd::prelude::*;

use scraper::{Html, Selector};

verus! {

/// What the page parsers read of one HTML element: the values of the
/// attributes asked for (in the order asked), the first piece of text
/// inside it, and its inner HTML.
#[derive(Clone, Debug)]
pub struct Node {
    pub attrs: Vec<Option<String>>,
    pub text: Option<String>,
    pub inner_html: String,
}

/// A table row: its inner HTML and the inner HTML of each of its cells.
#[derive(Clone, Debug)]
pub struct Row {
    pub inner_html: String,
    pub cells: Vec<String>,
}

/// The view of an optional string.
pub open spec fn opt_text(o: Option<String>) -> Option<Seq<char>> {
    match o {
        Some(s) => Some(s@),
        None => None,
    }
}

/// [`Node`] as plain text values.
pub struct NodeView {
    pub attrs: Seq<Option<Seq<char>>>,
    pub text: Option<Seq<char>>,
    pub inner_html: Seq<char>,
}

/// [`Row`] as plain text values.
pub struct RowView {
    pub inner_html: Seq<char>,
    pub cells: Seq<Seq<char>>,
}

/// The view of a node.
pub open spec fn node_view(n: Node) -> NodeView {
    NodeView {
        attrs: n.attrs@.map_values(|a: Option<String>| opt_text(a)),
        text: opt_text(n.text),
        inner_html: n.inner_html@,
    }
}

/// The views of a sequence of nodes.
pub open spec fn nodes_view(v: Seq<Node>) -> Seq<NodeView> {
    v.map_values(|n: Node| node_view(n))
}

/// The view of a row.
pub open spec fn row_view(r: Row) -> RowView {
    RowView { inner_html: r.inner_html@, cells: r.cells@.map_values(|c: String| c@) }
}

/// The views of a sequence of rows.
pub open spec fn rows_view(v: Seq<Row>) -> Seq<RowView> {
    v.map_values(|r: Row| row_view(r))
}

/// The views of a sequence of string slices.
pub open spec fn strs_view(v: Seq<&str>) -> Seq<Seq<char>> {
    v.map_values(|s: &str| s@)
}

/// `s` is a CSS type selector: an ASCII letter, then ASCII letters or digits.
pub open spec fn is_type_selector(s: Seq<char>) -> bool {
    &&& s.len() > 0
    &&& ('a' <= s[0] <= 'z' || 'A' <= s[0] <= 'Z')
    &&& forall|i: int|
        0 <= i < s.len() ==> ('a' <= #[trigger] s[i] <= 'z' || 'A' <= s[i] <= 'Z' || '0' <= s[i]
            <= '9')
}

/// The elements that `scraper` selects with `selector` in the document
/// `html`, in document order, each as a [`NodeView`] over the attributes
/// named in `attrs`.
pub uninterp spec fn document_elements(
    html: Seq<char>,
    selector: Seq<char>,
    attrs: Seq<Seq<char>>,
) -> Seq<NodeView>;

/// As [`document_elements`], for `html` parsed as a fragment.
pub uninterp spec fn fragment_elements(
    html: Seq<char>,
    selector: Seq<char>,
    attrs: Seq<Seq<char>>,
) -> Seq<NodeView>;

/// The rows that `scraper` selects with `row_selector` in the document
/// `html`, in document order, each with the cells that `cell_selector`
/// selects inside it.
pub uninterp spec fn document_rows(
    html: Seq<char>,
    row_selector: Seq<char>,
    cell_selector: Seq<char>,
) -> Seq<RowView>;

/// Selects elements of an HTML document.
///
/// Trusted: `scraper::Html::parse_document`, `Selector::parse` and
/// `Html::select`, with `ElementRef::attr`, `text` and `inner_html` read
/// off each element. Claimed: the result is the fixed function
/// `document_elements` of the text, the selector and the attribute names
/// (parsing and selecting depend on nothing else), and a type selector
/// always parses.
#[verifier::external_body]
pub(crate) fn select_in_document(html: &str, selector: &str, attrs: &Vec<&str>) -> (r: Vec<Node>)
    requires
        is_type_selector(selector@),
    ensures
        nodes_view(r@) == document_elements(html@, selector@, strs_view(attrs@)),
        forall|i: int| 0 <= i < r@.len() ==> (#[trigger] r@[i]).attrs@.len() == attrs@.len(),
{
    let doc = Html::parse_document(html);
    let sel = Selector::parse(selector).unwrap();
    doc.select(&sel).map(|e| Node {
        attrs: attrs.iter().map(|a| e.attr(a).map(|v| v.to_string())).collect(),
        text: e.text().next().map(|t| t.to_string()),
        inner_html: e.inner_html(),
    }).collect()
}

/// Selects elements of an HTML fragment.
///
/// Trusted: `scraper::Html::parse_fragment`, `Selector::parse` and
/// `Html::select`, read off as in [`select_in_document`]. Claimed: the
/// result is the fixed function `fragment_elements` of its arguments, and
/// a type selector always parses.
#[verifier::external_body]
pub(crate) fn select_in_fragment(html: &str, selector: &str, attrs: &Vec<&str>) -> (r: Vec<Node>)
    requires
        is_type_selector(selector@),
    ensures
        nodes_view(r@) == fragment_elements(html@, selector@, strs_view(attrs@)),
        forall|i: int| 0 <= i < r@.len() ==> (#[trigger] r@[i]).attrs@.len() == attrs@.len(),
{
    let doc = Html::parse_fragment(html);
    let sel = Selector::parse(selector).unwrap();
    doc.select(&sel).map(|e| Node {
        attrs: attrs.iter().map(|a| e.attr(a).map(|v| v.to_string())).collect(),
        text: e.text().next().map(|t| t.to_string()),
        inner_html: e.inner_html(),
    }).collect()
}

/// Selects the rows of an HTML document and the cells of each row.
///
/// Trusted: `scraper::Html::parse_document`, `Selector::parse`,
/// `Html::select` and `ElementRef::select`, with `inner_html` read off each
/// row and cell. Claimed: the result is the fixed function `document_rows`
/// of its arguments, and type selectors always parse.
#[verifier::external_body]
pub(crate) fn select_rows(html: &str, row_selector: &str, cell_selector: &str) -> (r: Vec<Row>)
    requires
        is_type_selector(row_selector@),
        is_type_selector(cell_selector@),
    ensures
        rows_view(r@) == document_rows(html@, row_selector@, cell_selector@),
{
    let doc = Html::parse_document(html);
    let rows = Selector::parse(row_selector).unwrap();
    let cells = Selector::parse(cell_selector).unwrap();
    doc.select(&rows).map(|tr| Row {
        inner_html: tr.inner_html(),
        cells: tr.select(&cells).map(|td| td.inner_html()).collect(),
    }).collect()
}

} // verus!
