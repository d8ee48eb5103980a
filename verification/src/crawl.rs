use vstd::prelude::*;

use crate::leaderboard::{list_contains, names_contain};
use crate::runpage::RunRecord;
use crate::text::{decimal, decimal_string, push_text};

verus! {

broadcast use vstd::string::group_string_axioms;

/// The address of a player's profile page.
pub fn profile_url(name: &str) -> (r: String)
    ensures
        r@ == "https://jstris.jezevec10.com/u/"@ + name@,
{
    let mut url = "https://jstris.jezevec10.com/u/".to_string();
    push_text(&mut url, name);
    url
}

/// The address of the leaderboard page that starts at `offset`.
pub fn leaderboard_url(offset: usize) -> (r: String)
    ensures
        r@ == "https://jstris.jezevec10.com/api/leaderboard/3?mode=3&offset="@ + decimal(
            offset as nat,
        ),
{
    let mut url = "https://jstris.jezevec10.com/api/leaderboard/3?mode=3&offset=".to_string();
    let digits = decimal_string(offset as u64);
    push_text(&mut url, digits.as_str());
    url
}

/// The address of a page of a player's cheese runs; `page` is the page
/// number as it is written in the address.
pub fn run_page_url(name: &str, page: &str) -> (r: String)
    ensures
        r@ == "https://jstris.jezevec10.com/cheese?display=5&user="@ + name@
            + "&lines=100L&page="@ + page@,
{
    let mut url = "https://jstris.jezevec10.com/cheese?display=5&user=".to_string();
    push_text(&mut url, name);
    push_text(&mut url, "&lines=100L&page=");
    push_text(&mut url, page);
    url
}

/// No two names of `s` read the same.
pub open spec fn distinct_names(s: Seq<String>) -> bool {
    forall|i: int, j: int| 0 <= i < j < s.len() ==> (#[trigger] s[i])@ != (#[trigger] s[j])@
}

/// `names` with `n` added, unless a name reading the same is there.
pub open spec fn add_name(names: Seq<String>, n: String) -> Seq<String> {
    if names_contain(names, n@) {
        names
    } else {
        names.push(n)
    }
}

/// Adds the names of a leaderboard page one by one, stopping as soon as
/// the collection holds `max` names (if there is a limit). Gives the names
/// and whether the limit stopped it.
pub open spec fn collect_names(names: Seq<String>, page: Seq<String>, max: Option<usize>) -> (
    Seq<String>,
    bool,
)
    decreases page.len(),
{
    if page.len() == 0 {
        (names, false)
    } else {
        let more = add_name(names, page[0]);
        if max matches Some(m) && more.len() >= m {
            (more, true)
        } else {
            collect_names(more, page.drop_first(), max)
        }
    }
}

/// The state of collecting player names from the leaderboard, page by page.
pub struct NameCollector {
    /// The offset of the next page to fetch.
    pub offset: usize,
    /// The names collected so far, each once.
    pub names: Vec<String>,
    /// How many names to collect at most, if there is a limit.
    pub max: Option<usize>,
}

impl NameCollector {
    /// A collection that starts at the first page with no names.
    pub fn new(max: Option<usize>) -> (r: NameCollector)
        ensures
            r.offset == 0,
            r.names@.len() == 0,
            r.max == max,
    {
        NameCollector { offset: 0, names: Vec::new(), max }
    }

    /// Takes the names of the page fetched at `offset`. Returns whether to
    /// fetch the next page: not when the page is empty, nor when the limit
    /// is reached. The next page starts where this one ends.
    pub fn absorb(&mut self, page: Vec<String>) -> (fetch_more: bool)
        requires
            old(self).offset + page@.len() <= usize::MAX,
        ensures
            page@.len() == 0 ==> *final(self) == *old(self) && !fetch_more,
            page@.len() > 0 ==> {
                &&& final(self).offset == old(self).offset + page@.len()
                &&& final(self).max == old(self).max
                &&& (final(self).names@, !fetch_more) == collect_names(
                    old(self).names@,
                    page@,
                    old(self).max,
                )
            },
    {
        if page.len() == 0 {
            return false;
        }
        self.offset = self.offset + page.len();
        let ghost all = page@;
        let ghost start = self.names@;
        let ghost mut k: int = 0;
        let mut rest = page;
        assert(all.skip(0) =~= all);
        while rest.len() > 0
            invariant
                0 <= k <= all.len(),
                all == page@,
                all.len() > 0,
                start == old(self).names@,
                self.offset == old(self).offset + all.len(),
                self.max == old(self).max,
                rest@ == all.skip(k),
                collect_names(start, all, self.max) == collect_names(
                    self.names@,
                    all.skip(k),
                    self.max,
                ),
            decreases rest.len(),
        {
            let ghost before = self.names@;
            let n = rest.remove(0);
            assert(all.skip(k)[0] == n);
            assert(all.skip(k).drop_first() =~= all.skip(k + 1));
            if !list_contains(&self.names, &n) {
                self.names.push(n);
            }
            assert(self.names@ == add_name(before, all.skip(k)[0]));
            match self.max {
                Some(m) => {
                    if self.names.len() >= m {
                        assert(collect_names(before, all.skip(k), self.max) == (self.names@, true));
                        return false;
                    }
                },
                None => {},
            }
            assert(collect_names(before, all.skip(k), self.max) == collect_names(
                self.names@,
                all.skip(k + 1),
                self.max,
            ));
            proof {
                k = k + 1;
            }
        }
        true
    }
}

/// Collecting keeps the names distinct.
pub proof fn lemma_collect_keeps_distinct(names: Seq<String>, page: Seq<String>, max: Option<usize>)
    requires
        distinct_names(names),
    ensures
        distinct_names(collect_names(names, page, max).0),
    decreases page.len(),
{
    if page.len() > 0 {
        let more = add_name(names, page[0]);
        assert(distinct_names(more)) by {
            if !names_contain(names, page[0]@) {
                assert forall|i: int, j: int| 0 <= i < j < more.len() implies (#[trigger] more[i])@
                    != (#[trigger] more[j])@ by {
                    if j == names.len() {
                        assert(more[i] == names[i]);
                    }
                }
            }
        }
        lemma_collect_keeps_distinct(more, page.drop_first(), max);
    }
}

/// Starting below the limit, a collection never goes past it, and one
/// stopped by the limit holds exactly that many names.
pub proof fn lemma_collect_respects_limit(names: Seq<String>, page: Seq<String>, m: usize)
    requires
        names.len() < m,
    ensures
        collect_names(names, page, Some(m)).0.len() <= m,
        collect_names(names, page, Some(m)).1 ==> collect_names(names, page, Some(m)).0.len() == m,
    decreases page.len(),
{
    if page.len() > 0 {
        let more = add_name(names, page[0]);
        if more.len() < m {
            lemma_collect_respects_limit(more, page.drop_first(), m);
        }
    }
}

/// Collecting loses no name and invents none: every name held before is
/// still held, every name held afterwards was held before or is on the
/// page, and unless the limit stopped the collection every name of the
/// page is held.
pub proof fn lemma_collect_takes_whole_page(
    names: Seq<String>,
    page: Seq<String>,
    max: Option<usize>,
)
    ensures
        forall|k: int|
            0 <= k < names.len() ==> names_contain(
                collect_names(names, page, max).0,
                (#[trigger] names[k])@,
            ),
        forall|k: int|
            0 <= k < collect_names(names, page, max).0.len() ==> names_contain(
                names,
                (#[trigger] collect_names(names, page, max).0[k])@,
            ) || names_contain(page, collect_names(names, page, max).0[k]@),
        !collect_names(names, page, max).1 ==> forall|k: int|
            0 <= k < page.len() ==> names_contain(
                collect_names(names, page, max).0,
                (#[trigger] page[k])@,
            ),
    decreases page.len(),
{
    if page.len() > 0 {
        let more = add_name(names, page[0]);
        let rest = page.drop_first();
        let r = collect_names(names, page, max).0;
        assert forall|k: int| 0 <= k < names.len() implies names_contain(
            more,
            (#[trigger] names[k])@,
        ) by {
            assert(more[k] == names[k]);
        }
        assert(names_contain(more, page[0]@)) by {
            if names_contain(names, page[0]@) {
            } else {
                assert(more[names.len() as int] == page[0]);
            }
        }
        assert forall|k: int| 0 <= k < more.len() implies names_contain(
            names,
            (#[trigger] more[k])@,
        ) || names_contain(page, more[k]@) by {
            if k < names.len() {
                assert(more[k] == names[k]);
            } else {
                assert(more[k] == page[0]);
            }
        }
        if max matches Some(m) && more.len() >= m {
        } else {
            lemma_collect_takes_whole_page(more, rest, max);
            assert forall|k: int| 0 <= k < names.len() implies names_contain(
                r,
                (#[trigger] names[k])@,
            ) by {
                let j = choose|j: int| 0 <= j < more.len() && #[trigger] more[j]@ == names[k]@;
                assert(names_contain(r, more[j]@));
            }
            assert forall|k: int| 0 <= k < r.len() implies names_contain(
                names,
                (#[trigger] r[k])@,
            ) || names_contain(page, r[k]@) by {
                if names_contain(more, r[k]@) {
                    let j = choose|j: int| 0 <= j < more.len() && #[trigger] more[j]@ == r[k]@;
                    assert(names_contain(names, more[j]@) || names_contain(page, more[j]@));
                } else {
                    assert(names_contain(rest, r[k]@));
                    let j = choose|j: int| 0 <= j < rest.len() && #[trigger] rest[j]@ == r[k]@;
                    assert(rest[j] == page[j + 1]);
                }
            }
            if !collect_names(names, page, max).1 {
                assert forall|k: int| 0 <= k < page.len() implies names_contain(
                    r,
                    (#[trigger] page[k])@,
                ) by {
                    if k == 0 {
                        let j = choose|j: int| 0 <= j < more.len() && #[trigger] more[j]@ == page[0]@;
                        assert(names_contain(r, more[j]@));
                    } else {
                        assert(rest[k - 1] == page[k]);
                    }
                }
            }
        }
    }
}

/// The state of collecting a player's runs, page by page.
pub struct RunCollector {
    /// The runs read so far, in page order.
    pub runs: Vec<RunRecord>,
    /// The number of the page to read next, as written in its address.
    pub page: String,
}

impl RunCollector {
    /// A collection that starts at page `0` with no runs.
    pub fn new() -> (r: RunCollector)
        ensures
            r.runs@.len() == 0,
            r.page@ == "0"@,
    {
        RunCollector { runs: Vec::new(), page: "0".to_string() }
    }

    /// Takes the runs of the page just read and the page it links to next.
    /// Returns whether there is a next page to read.
    pub fn absorb(&mut self, runs: Vec<RunRecord>, next: Option<String>) -> (more: bool)
        ensures
            final(self).runs@ == old(self).runs@ + runs@,
            more == next is Some,
            final(self).page == match next {
                Some(p) => p,
                None => old(self).page,
            },
    {
        let mut runs = runs;
        self.runs.append(&mut runs);
        match next {
            Some(p) => {
                self.page = p;
                true
            },
            None => false,
        }
    }
}

} // verus!
