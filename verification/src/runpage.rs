use vstd::prelude::*;

use crate::html::{
    document_elements, document_rows, fragment_elements, node_view, nodes_view, opt_text, row_view,
    rows_view, select_in_document, select_in_fragment, select_rows, strs_view, Node, NodeView, Row,
    RowView,
};
use crate::numbers::{float_syntax, is_float_text, parse_u32, u32_from_text, IntError};
use crate::profile::{opt_text_is, text_is};
use crate::text::push_text;

verus! {

broadcast use vstd::string::group_string_axioms;

/// Why a text is not a floating-point number, as the standard library's
/// float parser reports it.
#[derive(Debug, Clone, Copy, PartialEq, Eq, Structural)]
pub enum FloatError {
    Empty,
    Invalid,
}

impl FloatError {
    /// The message the standard library gives for this error.
    pub fn message(&self) -> (r: &'static str)
        ensures
            r@ == match *self {
                FloatError::Empty => "cannot parse float from empty string"@,
                FloatError::Invalid => "invalid float literal"@,
            },
    {
        match self {
            FloatError::Empty => "cannot parse float from empty string",
            FloatError::Invalid => "invalid float literal",
        }
    }
}

/// The float error for a text that is not a float.
pub open spec fn float_error(s: Seq<char>) -> FloatError {
    if s.len() == 0 {
        FloatError::Empty
    } else {
        FloatError::Invalid
    }
}

/// Why a page of runs could not be read.
#[derive(Debug)]
pub enum PageError {
    /// The blocks cell is not an unsigned integer.
    Blocks(IntError),
    /// The pieces-per-second cell is not a number.
    Pps(FloatError),
    /// A row lacks one of the cells a run needs; holds the row's inner HTML.
    Unmatched(String),
    /// A `next` link is not a URL; holds the URL parser's message.
    Url(String),
    /// The `page` query value of a `next` link is not a number.
    Page(FloatError),
}

/// [`PageError`] as plain values.
pub enum PageFault {
    Blocks(IntError),
    Pps(FloatError),
    Unmatched(Seq<char>),
    Url(Seq<char>),
    Page(FloatError),
}

/// The view of a page error.
pub open spec fn fault_of(e: PageError) -> PageFault {
    match e {
        PageError::Blocks(k) => PageFault::Blocks(k),
        PageError::Pps(k) => PageFault::Pps(k),
        PageError::Unmatched(h) => PageFault::Unmatched(h@),
        PageError::Url(m) => PageFault::Url(m@),
        PageError::Page(k) => PageFault::Page(k),
    }
}

impl PageError {
    /// The message of this error, as the error the page reader raised
    /// displays it.
    pub fn message(&self) -> (r: String)
        ensures
            r@ == match fault_of(*self) {
                PageFault::Blocks(k) => match k {
                    IntError::Empty => "cannot parse integer from empty string"@,
                    IntError::InvalidDigit => "invalid digit found in string"@,
                    IntError::PosOverflow => "number too large to fit in target type"@,
                },
                PageFault::Pps(k) | PageFault::Page(k) => match k {
                    FloatError::Empty => "cannot parse float from empty string"@,
                    FloatError::Invalid => "invalid float literal"@,
                },
                PageFault::Unmatched(h) => "html pattern can't be matched: "@ + h,
                PageFault::Url(m) => m,
            },
    {
        match self {
            PageError::Blocks(k) => k.message().to_string(),
            PageError::Pps(k) => k.message().to_string(),
            PageError::Page(k) => k.message().to_string(),
            PageError::Unmatched(h) => {
                let mut out = "html pattern can't be matched: ".to_string();
                push_text(&mut out, h.as_str());
                out
            },
            PageError::Url(m) => m.clone(),
        }
    }
}

/// One run as it stands on a page: the pieces-per-second figure is kept
/// as its text, which is a number.
#[derive(Clone, Debug)]
pub struct RunRecord {
    pub blocks: u32,
    pub date: String,
    pub replay: Option<String>,
    pub pps: String,
}

/// [`RunRecord`] as plain values.
pub struct RecordView {
    pub blocks: u32,
    pub date: Seq<char>,
    pub replay: Option<Seq<char>>,
    pub pps: Seq<char>,
}

/// The view of a run record.
pub open spec fn record_view(r: RunRecord) -> RecordView {
    RecordView { blocks: r.blocks, date: r.date@, replay: opt_text(r.replay), pps: r.pps@ }
}

/// The views of a sequence of run records.
pub open spec fn records_view(v: Seq<RunRecord>) -> Seq<RecordView> {
    v.map_values(|r: RunRecord| record_view(r))
}

/// The replay link in a cell: the `href` of the first link in it, if that
/// link has one.
pub open spec fn cell_link(cell: Seq<char>) -> Option<Seq<char>> {
    let links = fragment_elements(cell, "a"@, seq!["href"@]);
    if links.len() > 0 {
        links[0].attrs[0]
    } else {
        None
    }
}

/// What a row of the runs table gives, given the replay link of its eighth
/// cell: cell four holds the blocks, cell five the pieces per second, cell
/// seven the date. A bad number in the order of the cells is the error; a
/// row too short for the three is an unmatched row.
pub open spec fn row_record(row: RowView, link: Option<Seq<char>>) -> Result<RecordView, PageFault> {
    let cells = row.cells;
    if cells.len() > 3 && u32_from_text(cells[3]) is Err {
        Err(
            PageFault::Blocks(
                match u32_from_text(cells[3]) {
                    Err(k) => k,
                    Ok(_) => IntError::Empty,
                },
            ),
        )
    } else if cells.len() > 4 && !float_syntax(cells[4]) {
        Err(PageFault::Pps(float_error(cells[4])))
    } else if cells.len() < 7 {
        Err(PageFault::Unmatched(row.inner_html))
    } else {
        Ok(
            RecordView {
                blocks: match u32_from_text(cells[3]) {
                    Ok(b) => b,
                    Err(_) => 0,
                },
                date: cells[6],
                replay: if cells.len() > 7 {
                    link
                } else {
                    None
                },
                pps: cells[4],
            },
        )
    }
}

/// The replay link of a row, from its eighth cell.
pub open spec fn row_link(row: RowView) -> Option<Seq<char>> {
    if row.cells.len() > 7 {
        cell_link(row.cells[7])
    } else {
        None
    }
}

/// The runs of the rows, in order, or the error of the first bad row.
pub open spec fn records_of(rows: Seq<RowView>) -> Result<Seq<RecordView>, PageFault>
    decreases rows.len(),
{
    if rows.len() == 0 {
        Ok(Seq::empty())
    } else {
        match records_of(rows.drop_last()) {
            Err(e) => Err(e),
            Ok(rs) => match row_record(rows.last(), row_link(rows.last())) {
                Err(e) => Err(e),
                Ok(r) => Ok(rs.push(r)),
            },
        }
    }
}

/// Every row counts: the rows read without error exactly when each row
/// does, and then there is one run per row, in the order of the rows, each
/// the run its own row gives.
pub proof fn lemma_records_row_by_row(rows: Seq<RowView>)
    ensures
        records_of(rows) is Ok <==> forall|k: int|
            0 <= k < rows.len() ==> (row_record(#[trigger] rows[k], row_link(rows[k])) is Ok),
        records_of(rows) matches Ok(rs) ==> rs.len() == rows.len() && forall|k: int|
            0 <= k < rows.len() ==> row_record(#[trigger] rows[k], row_link(rows[k])) == Ok::<
                RecordView,
                PageFault,
            >(rs[k]),
    decreases rows.len(),
{
    if rows.len() > 0 {
        let front = rows.drop_last();
        lemma_records_row_by_row(front);
        assert forall|k: int| 0 <= k < front.len() implies front[k] == rows[k] by {}
        if records_of(rows) is Ok {
            assert forall|k: int|
                0 <= k < rows.len() implies (row_record(#[trigger] rows[k], row_link(rows[k])) is Ok) by {
                if k < front.len() {
                    assert(front[k] == rows[k]);
                }
            }
        } else if records_of(front) is Err {
            let k = choose|k: int|
                0 <= k < front.len() && !(row_record(#[trigger] front[k], row_link(front[k])) is Ok);
            assert(front[k] == rows[k]);
        }
        match records_of(rows) {
            Ok(rs) => {
                assert forall|k: int|
                    0 <= k < rows.len() implies row_record(#[trigger] rows[k], row_link(rows[k]))
                    == Ok::<RecordView, PageFault>(rs[k]) by {
                    if k < front.len() {
                        assert(front[k] == rows[k]);
                    }
                }
            },
            Err(_) => {},
        }
    }
}

/// The query pairs of a URL, decoded, in order; or the URL parser's
/// message where `href` is not a URL. A fixed function of `href`.
pub uninterp spec fn url_query(href: Seq<char>) -> Result<Seq<(Seq<char>, Seq<char>)>, Seq<char>>;

/// The views of a sequence of string pairs.
pub open spec fn pairs_view(v: Seq<(String, String)>) -> Seq<(Seq<char>, Seq<char>)> {
    v.map_values(|p: (String, String)| (p.0@, p.1@))
}

/// Parses a URL and lists its query pairs.
///
/// Trusted: `reqwest::Url::parse` (the `url` crate's parser) and
/// `Url::query_pairs`, whose pairs are form-urlencoded decoded. Claimed: the
/// outcome, pairs or error message, is the fixed function `url_query` of the
/// text.
#[verifier::external_body]
fn query_pairs_of(href: &str) -> (r: Result<Vec<(String, String)>, String>)
    ensures
        url_query(href@) == match r {
            Ok(v) => Ok(pairs_view(v@)),
            Err(m) => Err(m@),
        },
{
    match reqwest::Url::parse(href) {
        Ok(url) => Ok(url.query_pairs().map(|(k, v)| (k.to_string(), v.to_string())).collect()),
        Err(e) => Err(e.to_string()),
    }
}

/// The value of the first `page` pair.
pub open spec fn page_value(pairs: Seq<(Seq<char>, Seq<char>)>) -> Option<Seq<char>>
    decreases pairs.len(),
{
    if pairs.len() == 0 {
        None
    } else if pairs[0].0 == "page"@ {
        Some(pairs[0].1)
    } else {
        page_value(pairs.drop_first())
    }
}

/// The next page of runs, read off the links of the page (attributes read:
/// `rel`, `href`): every `rel="next"` link with an `href` is parsed as a
/// URL, and the last `page` value found is the next page; a link that is
/// not a URL, or a `page` value that is not a number, is an error.
pub open spec fn next_page_of(links: Seq<NodeView>) -> Result<Option<Seq<char>>, PageFault>
    decreases links.len(),
{
    if links.len() == 0 {
        Ok(None)
    } else {
        match next_page_of(links.drop_last()) {
            Err(e) => Err(e),
            Ok(prev) => {
                let a = links.last();
                if a.attrs[0] == Some("next"@) && a.attrs[1] is Some {
                    match url_query(a.attrs[1]->0) {
                        Err(m) => Err(PageFault::Url(m)),
                        Ok(pairs) => match page_value(pairs) {
                            None => Ok(prev),
                            Some(v) => if float_syntax(v) {
                                Ok(Some(v))
                            } else {
                                Err(PageFault::Page(float_error(v)))
                            },
                        },
                    }
                } else {
                    Ok(prev)
                }
            },
        }
    }
}

/// The outcome of reading a page of runs: the runs of every row but the
/// header row, then the next page.
pub open spec fn run_page(html: Seq<char>) -> Result<(Seq<RecordView>, Option<Seq<char>>), PageFault> {
    let rows = document_rows(html, "tr"@, "td"@);
    let body = if rows.len() > 0 {
        rows.drop_first()
    } else {
        rows
    };
    match records_of(body) {
        Err(e) => Err(e),
        Ok(rs) => match next_page_of(document_elements(html, "a"@, seq!["rel"@, "href"@])) {
            Err(e) => Err(e),
            Ok(p) => Ok((rs, p)),
        },
    }
}

/// The float error of a text that is not a float.
fn float_error_of(s: &String) -> (r: FloatError)
    ensures
        r == float_error(s@),
{
    if s.as_str().is_empty() {
        FloatError::Empty
    } else {
        FloatError::Invalid
    }
}

/// The replay link in a cell of the runs table.
pub fn link_in_cell(cell: &String) -> (r: Option<String>)
    ensures
        opt_text(r) == cell_link(cell@),
{
    proof {
        reveal_strlit("a");
    }
    let attrs: Vec<&str> = vec!["href"];
    assert(strs_view(attrs@) =~= seq!["href"@]);
    let links = select_in_fragment(cell.as_str(), "a", &attrs);
    if links.len() > 0 {
        assert(nodes_view(links@)[0] == node_view(links@[0]));
        assert(node_view(links@[0]).attrs[0] == opt_text(links@[0].attrs@[0]));
        match &links[0].attrs[0] {
            Some(h) => Some(h.clone()),
            None => None,
        }
    } else {
        None
    }
}

/// Reads one row of the runs table, given the replay link of its eighth cell.
pub fn record_from_row(row: &Row, link: Option<String>) -> (r: Result<RunRecord, PageError>)
    ensures
        row_record(row_view(*row), opt_text(link)) == match r {
            Ok(rec) => Ok(record_view(rec)),
            Err(e) => Err(fault_of(e)),
        },
{
    let ghost rv = row_view(*row);
    let n = row.cells.len();
    assert(rv.cells.len() == n);
    let mut blocks: u32 = 0;
    if n > 3 {
        assert(rv.cells[3] == row.cells@[3]@);
        match parse_u32(row.cells[3].as_str()) {
            Ok(b) => {
                blocks = b;
            },
            Err(k) => {
                return Err(PageError::Blocks(k));
            },
        }
    }
    if n > 4 {
        assert(rv.cells[4] == row.cells@[4]@);
        if !is_float_text(row.cells[4].as_str()) {
            return Err(PageError::Pps(float_error_of(&row.cells[4])));
        }
    }
    if n < 7 {
        return Err(PageError::Unmatched(row.inner_html.clone()));
    }
    assert(rv.cells[6] == row.cells@[6]@);
    let replay = if n > 7 {
        link
    } else {
        None
    };
    Ok(
        RunRecord {
            blocks,
            date: row.cells[6].clone(),
            replay,
            pps: row.cells[4].clone(),
        },
    )
}

/// Reads the runs of the rows, in order, stopping at the first bad row.
pub fn records_from_rows(rows: &Vec<Row>, start: usize) -> (r: Result<Vec<RunRecord>, PageError>)
    requires
        start <= rows@.len(),
    ensures
        records_of(rows_view(rows@.skip(start as int))) == match r {
            Ok(v) => Ok(records_view(v@)),
            Err(e) => Err(fault_of(e)),
        },
{
    let ghost body = rows_view(rows@.skip(start as int));
    let mut out: Vec<RunRecord> = Vec::new();
    let mut i: usize = start;
    assert(body.take(0) =~= Seq::<RowView>::empty());
    assert(records_view(out@) =~= Seq::<RecordView>::empty());
    while i < rows.len()
        invariant
            start <= i <= rows@.len(),
            body == rows_view(rows@.skip(start as int)),
            body.len() == rows@.len() - start,
            records_of(body.take(i - start)) == Ok::<Seq<RecordView>, PageFault>(
                records_view(out@),
            ),
        decreases rows@.len() - i,
    {
        let row = &rows[i];
        let k = i - start;
        assert(body[k as int] == row_view(*row));
        assert(body.take(k + 1).drop_last() =~= body.take(k as int));
        assert(body.take(k + 1).last() == row_view(*row));
        let link = if row.cells.len() > 7 {
            assert(row_view(*row).cells[7] == row.cells@[7]@);
            link_in_cell(&row.cells[7])
        } else {
            None
        };
        assert(row_view(*row).cells.len() == row.cells@.len());
        assert(opt_text(link) == row_link(row_view(*row)));
        let ghost before = records_view(out@);
        match record_from_row(row, link) {
            Ok(rec) => {
                assert(records_of(body.take(k + 1)) == Ok::<Seq<RecordView>, PageFault>(
                    before.push(record_view(rec)),
                ));
                out.push(rec);
                assert(records_view(out@) =~= before.push(record_view(rec)));
            },
            Err(e) => {
                proof {
                    lemma_records_error_prefix(body, k + 1);
                }
                return Err(e);
            },
        }
        i = i + 1;
    }
    assert(body.take(i - start) =~= body);
    Ok(out)
}

/// An error in a prefix of the rows is the error of all of them.
proof fn lemma_records_error_prefix(rows: Seq<RowView>, k: int)
    requires
        0 <= k <= rows.len(),
        records_of(rows.take(k)) is Err,
    ensures
        records_of(rows) == records_of(rows.take(k)),
    decreases rows.len(),
{
    if k == rows.len() {
        assert(rows.take(k) =~= rows);
    } else {
        assert(rows.drop_last().take(k) =~= rows.take(k));
        lemma_records_error_prefix(rows.drop_last(), k);
    }
}

/// An error in a prefix of the links is the error of all of them.
proof fn lemma_next_page_error_prefix(links: Seq<NodeView>, k: int)
    requires
        0 <= k <= links.len(),
        next_page_of(links.take(k)) is Err,
    ensures
        next_page_of(links) == next_page_of(links.take(k)),
    decreases links.len(),
{
    if k == links.len() {
        assert(links.take(k) =~= links);
    } else {
        assert(links.drop_last().take(k) =~= links.take(k));
        lemma_next_page_error_prefix(links.drop_last(), k);
    }
}

/// The value of the first `page` pair.
fn page_in_pairs(pairs: &Vec<(String, String)>) -> (r: Option<String>)
    ensures
        opt_text(r) == page_value(pairs_view(pairs@)),
{
    let ghost pv = pairs_view(pairs@);
    let mut i: usize = 0;
    assert(pv.skip(0) =~= pv);
    while i < pairs.len()
        invariant
            i <= pairs@.len(),
            pv == pairs_view(pairs@),
            page_value(pv) == page_value(pv.skip(i as int)),
        decreases pairs@.len() - i,
    {
        assert(pv.skip(i as int)[0] == (pairs@[i as int].0@, pairs@[i as int].1@));
        if text_is(&pairs[i].0, "page") {
            return Some(pairs[i].1.clone());
        }
        assert(pv.skip(i as int).drop_first() =~= pv.skip(i + 1));
        i = i + 1;
    }
    None
}

/// Reads the next page off the links of a page.
pub fn next_page_from_links(links: &Vec<Node>) -> (r: Result<Option<String>, PageError>)
    requires
        forall|i: int| 0 <= i < links@.len() ==> (#[trigger] links@[i]).attrs@.len() == 2,
    ensures
        next_page_of(nodes_view(links@)) == match r {
            Ok(p) => Ok(opt_text(p)),
            Err(e) => Err(fault_of(e)),
        },
{
    let ghost lv = nodes_view(links@);
    let mut page: Option<String> = None;
    let mut i: usize = 0;
    assert(lv.take(0) =~= Seq::<NodeView>::empty());
    while i < links.len()
        invariant
            i <= links@.len(),
            lv == nodes_view(links@),
            forall|k: int| 0 <= k < links@.len() ==> (#[trigger] links@[k]).attrs@.len() == 2,
            next_page_of(lv.take(i as int)) == Ok::<Option<Seq<char>>, PageFault>(opt_text(page)),
        decreases links@.len() - i,
    {
        let a = &links[i];
        assert(lv.take(i + 1).drop_last() =~= lv.take(i as int));
        assert(lv.take(i + 1).last() == node_view(*a));
        assert(node_view(*a).attrs[0] == opt_text(a.attrs@[0]));
        assert(node_view(*a).attrs[1] == opt_text(a.attrs@[1]));
        if opt_text_is(&a.attrs[0], "next") {
            match &a.attrs[1] {
                Some(href) => {
                    match query_pairs_of(href.as_str()) {
                        Err(m) => {
                            proof {
                                lemma_next_page_error_prefix(lv, i + 1);
                            }
                            return Err(PageError::Url(m));
                        },
                        Ok(pairs) => {
                            match page_in_pairs(&pairs) {
                                None => {},
                                Some(v) => {
                                    if is_float_text(v.as_str()) {
                                        page = Some(v);
                                    } else {
                                        proof {
                                            lemma_next_page_error_prefix(lv, i + 1);
                                        }
                                        return Err(PageError::Page(float_error_of(&v)));
                                    }
                                },
                            }
                        },
                    }
                },
                None => {},
            }
        }
        i = i + 1;
    }
    assert(lv.take(i as int) =~= lv);
    Ok(page)
}

/// Reads a page of a player's runs: the runs of every row of the runs
/// table but the header, and the next page if the page links to one.
pub fn parse_run_page(text: &str) -> (r: Result<(Vec<RunRecord>, Option<String>), PageError>)
    ensures
        run_page(text@) == match r {
            Ok((runs, next)) => Ok((records_view(runs@), opt_text(next))),
            Err(e) => Err(fault_of(e)),
        },
{
    proof {
        reveal_strlit("tr");
        reveal_strlit("td");
        reveal_strlit("a");
    }
    let rows = select_rows(text, "tr", "td");
    let start: usize = if rows.len() > 0 {
        1
    } else {
        0
    };
    assert(rows_view(rows@).len() == rows@.len());
    assert(start == 1 ==> rows_view(rows@.skip(1)) =~= rows_view(rows@).drop_first());
    assert(start == 0 ==> rows_view(rows@.skip(0)) =~= rows_view(rows@));
    let runs = match records_from_rows(&rows, start) {
        Ok(v) => v,
        Err(e) => {
            return Err(e);
        },
    };
    let attrs: Vec<&str> = vec!["rel", "href"];
    assert(strs_view(attrs@) =~= seq!["rel"@, "href"@]);
    let links = select_in_document(text, "a", &attrs);
    match next_page_from_links(&links) {
        Ok(p) => Ok((runs, p)),
        Err(e) => Err(e),
    }
}

} // verus!
