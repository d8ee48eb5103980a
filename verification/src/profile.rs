use vstd::prelude::*;

use crate::html::{
    document_elements, is_type_selector, node_view, nodes_view, opt_text, select_in_document,
    strs_view, Node, NodeView,
};
use crate::model::{Country, CountryCode};
use crate::text::{trim_text, trimmed};

verus! {

broadcast use vstd::string::group_string_axioms;

/// Whether the string reads `lit`.
pub fn text_is(s: &String, lit: &str) -> (r: bool)
    ensures
        r == (s@ == lit@),
{
    *s == lit.to_string()
}

/// Whether the optional string is present and reads `lit`.
pub fn opt_text_is(s: &Option<String>, lit: &str) -> (r: bool)
    ensures
        r == (opt_text(*s) == Some(lit@)),
{
    match s {
        Some(t) => text_is(t, lit),
        None => false,
    }
}

/// The country table: countries under their two-letter codes. A code
/// entered twice stands for the country entered last.
pub struct CountryTable {
    pub entries: Vec<(String, Country)>,
}

/// The country that `entries` lists last under `code`, if any.
pub open spec fn find_country(entries: Seq<(String, Country)>, code: Seq<char>) -> Option<Country>
    decreases entries.len(),
{
    if entries.len() == 0 {
        None
    } else if entries.last().0@ == code {
        Some(entries.last().1)
    } else {
        find_country(entries.drop_last(), code)
    }
}

impl CountryTable {
    /// Pairs the `i`-th country with the `i`-th code, for every country.
    /// Both lists are read from the same country-code file, so there are
    /// at least as many codes as countries.
    pub fn from_lists(countries: &Vec<Country>, codes: &Vec<CountryCode>) -> (t: CountryTable)
        requires
            codes@.len() >= countries@.len(),
        ensures
            t.entries@.len() == countries@.len(),
            forall|i: int|
                0 <= i < countries@.len() ==> #[trigger] t.entries@[i] == (
                    codes@[i].alpha_2,
                    countries@[i],
                ),
    {
        let mut entries: Vec<(String, Country)> = Vec::new();
        let mut i: usize = 0;
        while i < countries.len()
            invariant
                i <= countries@.len() <= codes@.len(),
                entries@.len() == i,
                forall|j: int|
                    0 <= j < i ==> #[trigger] entries@[j] == (codes@[j].alpha_2, countries@[j]),
            decreases countries@.len() - i,
        {
            entries.push((codes[i].alpha_2.clone(), countries[i].duplicate()));
            i = i + 1;
        }
        CountryTable { entries }
    }

    /// The country listed under `code`, if any.
    pub fn get(&self, code: &String) -> (r: Option<Country>)
        ensures
            r == find_country(self.entries@, code@),
    {
        let ghost e = self.entries@;
        let mut i: usize = self.entries.len();
        assert(e.take(i as int) =~= e);
        while i > 0
            invariant
                i <= e.len(),
                e == self.entries@,
                find_country(e, code@) == find_country(e.take(i as int), code@),
            decreases i,
        {
            assert(e.take(i as int).drop_last() =~= e.take(i - 1));
            assert(e.take(i as int).last() == e[i - 1]);
            if self.entries[i - 1].0 == *code {
                return Some(self.entries[i - 1].1.duplicate());
            }
            i = i - 1;
        }
        None
    }
}

/// The country of a profile: the last image of class `flag` whose `alt`
/// code the table knows (attributes read: `class`, `alt`).
pub open spec fn flag_country(flags: Seq<NodeView>, table: Seq<(String, Country)>) -> Option<
    Country,
>
    decreases flags.len(),
{
    if flags.len() == 0 {
        None
    } else {
        let f = flags.last();
        match f.attrs[1] {
            Some(code) => if f.attrs[0] == Some("flag"@) && find_country(table, code) is Some {
                find_country(table, code)
            } else {
                flag_country(flags.drop_last(), table)
            },
            None => flag_country(flags.drop_last(), table),
        }
    }
}

/// A heading of class `mainName` (attribute read: `class`).
pub open spec fn is_main_name(h: NodeView) -> bool {
    h.attrs[0] == Some("mainName"@)
}

/// Every `mainName` heading has some text.
pub open spec fn main_names_have_text(heads: Seq<NodeView>) -> bool {
    forall|i: int| 0 <= i < heads.len() && is_main_name(#[trigger] heads[i]) ==> heads[i].text is Some
}

/// The name on a profile: the trimmed first text of the last `mainName` heading.
pub open spec fn main_name(heads: Seq<NodeView>) -> Option<Seq<char>>
    decreases heads.len(),
{
    if heads.len() == 0 {
        None
    } else if is_main_name(heads.last()) {
        match heads.last().text {
            Some(t) => Some(trimmed(t)),
            None => None,
        }
    } else {
        main_name(heads.drop_last())
    }
}

/// The table gives the country of the last entry under a code, and
/// nothing for a code it does not list.
pub proof fn lemma_find_country_is_last_entry(entries: Seq<(String, Country)>, code: Seq<char>)
    ensures
        find_country(entries, code) is None <==> forall|i: int|
            0 <= i < entries.len() ==> (#[trigger] entries[i]).0@ != code,
        find_country(entries, code) matches Some(c) ==> exists|i: int|
            0 <= i < entries.len() && (#[trigger] entries[i]).0@ == code && entries[i].1 == c
                && forall|j: int| i < j < entries.len() ==> (#[trigger] entries[j]).0@ != code,
    decreases entries.len(),
{
    if entries.len() > 0 {
        let front = entries.drop_last();
        lemma_find_country_is_last_entry(front, code);
        assert forall|i: int| 0 <= i < front.len() implies front[i] == entries[i] by {}
        if entries.last().0@ == code {
            assert(entries[entries.len() - 1].0@ == code);
        } else {
            match find_country(front, code) {
                Some(c) => {
                    let i = choose|i: int|
                        0 <= i < front.len() && (#[trigger] front[i]).0@ == code && front[i].1 == c
                            && forall|j: int| i < j < front.len() ==> (#[trigger] front[j]).0@ != code;
                    assert(entries[i] == front[i]);
                    assert forall|j: int| i < j < entries.len() implies (#[trigger] entries[j]).0@
                        != code by {
                        if j < front.len() {
                            assert(front[j] == entries[j]);
                        }
                    }
                },
                None => {
                    assert forall|i: int| 0 <= i < entries.len() implies (#[trigger] entries[i]).0@
                        != code by {
                        if i < front.len() {
                            assert(front[i] == entries[i]);
                        }
                    }
                },
            }
        }
    }
}

/// An image is a flag whose code the table knows.
pub open spec fn known_flag(f: NodeView, table: Seq<(String, Country)>) -> bool {
    f.attrs[0] == Some("flag"@) && f.attrs[1] is Some && find_country(table, f.attrs[1]->0) is Some
}

/// The country of a profile is that of the last known flag, and there is
/// none when no flag is known.
pub proof fn lemma_flag_country_is_last_known_flag(flags: Seq<NodeView>, table: Seq<(String, Country)>)
    ensures
        flag_country(flags, table) is None <==> forall|k: int|
            0 <= k < flags.len() ==> !known_flag(#[trigger] flags[k], table),
        flag_country(flags, table) is Some ==> exists|k: int|
            0 <= k < flags.len() && known_flag(#[trigger] flags[k], table) && flag_country(flags, table)
                == find_country(table, flags[k].attrs[1]->0) && forall|j: int|
                k < j < flags.len() ==> !known_flag(#[trigger] flags[j], table),
    decreases flags.len(),
{
    if flags.len() > 0 {
        let front = flags.drop_last();
        lemma_flag_country_is_last_known_flag(front, table);
        assert forall|i: int| 0 <= i < front.len() implies front[i] == flags[i] by {}
        if known_flag(flags.last(), table) {
            assert(known_flag(flags[flags.len() - 1], table));
        } else {
            assert(flag_country(flags, table) == flag_country(front, table));
            if flag_country(front, table) is Some {
                let k = choose|k: int|
                    0 <= k < front.len() && known_flag(#[trigger] front[k], table) && flag_country(
                        front,
                        table,
                    ) == find_country(table, front[k].attrs[1]->0) && forall|j: int|
                        k < j < front.len() ==> !known_flag(#[trigger] front[j], table);
                assert(flags[k] == front[k]);
                assert forall|j: int| k < j < flags.len() implies !known_flag(#[trigger] flags[j], table) by {
                    if j < front.len() {
                        assert(front[j] == flags[j]);
                    }
                }
            } else {
                assert forall|k: int| 0 <= k < flags.len() implies !known_flag(#[trigger] flags[k], table) by {
                    if k < front.len() {
                        assert(front[k] == flags[k]);
                    }
                }
            }
        }
    }
}

/// The name of a profile is the trimmed text of the last `mainName`
/// heading, and there is none when there is no such heading.
pub proof fn lemma_main_name_is_last_heading(heads: Seq<NodeView>)
    requires
        main_names_have_text(heads),
    ensures
        main_name(heads) is None <==> forall|k: int|
            0 <= k < heads.len() ==> !is_main_name(#[trigger] heads[k]),
        main_name(heads) is Some ==> exists|k: int|
            0 <= k < heads.len() && is_main_name(#[trigger] heads[k]) && main_name(heads) == Some(
                trimmed(heads[k].text->0),
            ) && forall|j: int| k < j < heads.len() ==> !is_main_name(#[trigger] heads[j]),
    decreases heads.len(),
{
    if heads.len() > 0 {
        let front = heads.drop_last();
        assert forall|i: int| 0 <= i < front.len() implies front[i] == heads[i] by {}
        assert(main_names_have_text(front)) by {
            assert forall|i: int| 0 <= i < front.len() && is_main_name(#[trigger] front[i]) implies front[i].text
                is Some by {
                assert(front[i] == heads[i]);
            }
        }
        lemma_main_name_is_last_heading(front);
        if is_main_name(heads.last()) {
            assert(is_main_name(heads[heads.len() - 1]));
        } else if main_name(front) is Some {
            let k = choose|k: int|
                0 <= k < front.len() && is_main_name(#[trigger] front[k]) && main_name(front) == Some(
                    trimmed(front[k].text->0),
                ) && forall|j: int| k < j < front.len() ==> !is_main_name(#[trigger] front[j]);
            assert(heads[k] == front[k]);
            assert forall|j: int| k < j < heads.len() implies !is_main_name(#[trigger] heads[j]) by {
                if j < front.len() {
                    assert(front[j] == heads[j]);
                }
            }
        } else {
            assert forall|k: int| 0 <= k < heads.len() implies !is_main_name(#[trigger] heads[k]) by {
                if k < front.len() {
                    assert(front[k] == heads[k]);
                }
            }
        }
    }
}

/// Reads the country and the name off the image and heading elements of
/// a profile page.
pub fn profile_from_nodes(flags: &Vec<Node>, heads: &Vec<Node>, table: &CountryTable) -> (r: (
    Option<Country>,
    Option<String>,
))
    requires
        forall|i: int| 0 <= i < flags@.len() ==> (#[trigger] flags@[i]).attrs@.len() == 2,
        forall|i: int| 0 <= i < heads@.len() ==> (#[trigger] heads@[i]).attrs@.len() == 1,
        main_names_have_text(nodes_view(heads@)),
    ensures
        r.0 == flag_country(nodes_view(flags@), table.entries@),
        opt_text(r.1) == main_name(nodes_view(heads@)),
{
    let ghost fv = nodes_view(flags@);
    let ghost hv = nodes_view(heads@);
    let mut country: Option<Country> = None;
    let mut i: usize = 0;
    assert(fv.take(0) =~= Seq::<NodeView>::empty());
    while i < flags.len()
        invariant
            i <= flags@.len(),
            fv == nodes_view(flags@),
            forall|k: int| 0 <= k < flags@.len() ==> (#[trigger] flags@[k]).attrs@.len() == 2,
            country == flag_country(fv.take(i as int), table.entries@),
        decreases flags@.len() - i,
    {
        let f = &flags[i];
        assert(fv.take(i + 1).drop_last() =~= fv.take(i as int));
        assert(fv.take(i + 1).last() == node_view(*f));
        assert(node_view(*f).attrs[0] == opt_text(f.attrs@[0]));
        assert(node_view(*f).attrs[1] == opt_text(f.attrs@[1]));
        if opt_text_is(&f.attrs[0], "flag") {
            match &f.attrs[1] {
                Some(code) => {
                    let found = table.get(code);
                    if found.is_some() {
                        country = found;
                    }
                },
                None => {},
            }
        }
        i = i + 1;
    }
    assert(fv.take(i as int) =~= fv);
    let mut name: Option<String> = None;
    let mut j: usize = 0;
    assert(hv.take(0) =~= Seq::<NodeView>::empty());
    while j < heads.len()
        invariant
            j <= heads@.len(),
            hv == nodes_view(heads@),
            forall|k: int| 0 <= k < heads@.len() ==> (#[trigger] heads@[k]).attrs@.len() == 1,
            main_names_have_text(hv),
            opt_text(name) == main_name(hv.take(j as int)),
        decreases heads@.len() - j,
    {
        let h = &heads[j];
        assert(hv.take(j + 1).drop_last() =~= hv.take(j as int));
        assert(hv.take(j + 1).last() == node_view(*h));
        assert(hv[j as int] == node_view(*h));
        assert(node_view(*h).attrs[0] == opt_text(h.attrs@[0]));
        if opt_text_is(&h.attrs[0], "mainName") {
            match &h.text {
                Some(t) => {
                    name = Some(trim_text(t.as_str()));
                },
                None => {},
            }
        }
        j = j + 1;
    }
    assert(hv.take(j as int) =~= hv);
    (country, name)
}

/// Whether every `mainName` heading among `heads` has some text.
pub fn names_have_text(heads: &Vec<Node>) -> (r: bool)
    requires
        forall|i: int| 0 <= i < heads@.len() ==> (#[trigger] heads@[i]).attrs@.len() == 1,
    ensures
        r == main_names_have_text(nodes_view(heads@)),
{
    let ghost hv = nodes_view(heads@);
    let mut j: usize = 0;
    while j < heads.len()
        invariant
            j <= heads@.len(),
            hv == nodes_view(heads@),
            forall|k: int| 0 <= k < heads@.len() ==> (#[trigger] heads@[k]).attrs@.len() == 1,
            forall|k: int| 0 <= k < j && is_main_name(#[trigger] hv[k]) ==> hv[k].text is Some,
        decreases heads@.len() - j,
    {
        let h = &heads[j];
        assert(hv[j as int] == node_view(*h));
        if opt_text_is(&h.attrs[0], "mainName") && h.text.is_none() {
            return false;
        }
        j = j + 1;
    }
    true
}

/// The image elements of a profile page, with their `class` and `alt`.
pub open spec fn profile_images(text: Seq<char>) -> Seq<NodeView> {
    document_elements(text, "img"@, seq!["class"@, "alt"@])
}

/// The `h1` headings of a profile page, with their `class`.
pub open spec fn profile_headings(text: Seq<char>) -> Seq<NodeView> {
    document_elements(text, "h1"@, seq!["class"@])
}

/// Reads a player's profile page: the country of the last known flag and
/// the trimmed name of the last `mainName` heading. `None` when a
/// `mainName` heading has no text at all.
pub fn parse_profile(text: &str, table: &CountryTable) -> (r: Option<(Option<Country>, Option<String>)>)
    ensures
        r is None <==> !main_names_have_text(profile_headings(text@)),
        r matches Some((country, name)) ==> country == flag_country(
            profile_images(text@),
            table.entries@,
        ) && opt_text(name) == main_name(profile_headings(text@)),
{
    proof {
        reveal_strlit("img");
        reveal_strlit("h1");
    }
    let image_attrs: Vec<&str> = vec!["class", "alt"];
    let heading_attrs: Vec<&str> = vec!["class"];
    assert(strs_view(image_attrs@) =~= seq!["class"@, "alt"@]);
    assert(strs_view(heading_attrs@) =~= seq!["class"@]);
    let flags = select_in_document(text, "img", &image_attrs);
    let heads = select_in_document(text, "h1", &heading_attrs);
    if !names_have_text(&heads) {
        return None;
    }
    Some(profile_from_nodes(&flags, &heads, table))
}

} // verus!
