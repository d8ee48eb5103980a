use vstd::prelude::*;

use crate::model::{CheeseRun, Player};
use crate::ranking::{first_named, lemma_first_named, position_of_name};
use crate::text::{
    align_left, align_right, decimal, decimal_string, push_left_aligned, push_right_aligned,
    push_text,
};

verus! {

/// A player who climbed the leaderboard, or is new on it.
///
/// Places are zero-based positions; the report shows them one-based.
#[derive(Debug)]
pub struct Change {
    pub old: Option<CheeseRun>,
    pub new: CheeseRun,
    pub name: String,
    pub old_place: Option<u32>,
    pub new_place: u32,
}

/// A player who is no longer on the leaderboard.
#[derive(Debug)]
pub struct Drop {
    pub old: CheeseRun,
    pub old_place: u32,
    pub name: String,
}

/// The changes between two leaderboards, taking the first `k` players of
/// the new one: every player that is new, or whose first entry of the same
/// name in the old board stands at a later place than now.
pub open spec fn changes_upto(old: Seq<Player>, new: Seq<Player>, k: int) -> Seq<Change>
    decreases k,
{
    if k <= 0 {
        Seq::empty()
    } else {
        let prev = changes_upto(old, new, k - 1);
        let p = new[k - 1];
        match first_named(old, p.name@) {
            Some(j) => if (j as u32) <= ((k - 1) as u32) {
                prev
            } else {
                prev.push(
                    Change {
                        old: Some(old[j].pb),
                        new: p.pb,
                        name: p.name,
                        old_place: Some(j as u32),
                        new_place: (k - 1) as u32,
                    },
                )
            },
            None => prev.push(
                Change {
                    old: None,
                    new: p.pb,
                    name: p.name,
                    old_place: None,
                    new_place: (k - 1) as u32,
                },
            ),
        }
    }
}

/// The drops between two leaderboards, taking the first `k` players of the
/// old one: every player whose name is not on the new board.
pub open spec fn drops_upto(old: Seq<Player>, new: Seq<Player>, k: int) -> Seq<Drop>
    decreases k,
{
    if k <= 0 {
        Seq::empty()
    } else {
        let prev = drops_upto(old, new, k - 1);
        let p = old[k - 1];
        if first_named(new, p.name@) is None {
            prev.push(Drop { old: p.pb, old_place: (k - 1) as u32, name: p.name })
        } else {
            prev
        }
    }
}

/// Compares the previous leaderboard with the current one: the players
/// that climbed or are new, in their current order, and the players that
/// dropped out, in their previous order.
pub fn compare(old_players: &Vec<Player>, new_players: &Vec<Player>) -> (r: (Vec<Change>, Vec<Drop>))
    ensures
        r.0@ == changes_upto(old_players@, new_players@, new_players@.len() as int),
        r.1@ == drops_upto(old_players@, new_players@, old_players@.len() as int),
{
    let mut changes: Vec<Change> = Vec::new();
    let mut drops: Vec<Drop> = Vec::new();
    let mut i: usize = 0;
    while i < new_players.len()
        invariant
            i <= new_players@.len(),
            changes@ == changes_upto(old_players@, new_players@, i as int),
        decreases new_players@.len() - i,
    {
        let player = &new_players[i];
        match position_of_name(old_players, &player.name) {
            Some(j) => {
                proof {
                    lemma_first_named(old_players@, player.name@);
                }
                if !(j as u32 <= i as u32) {
                    changes.push(
                        Change {
                            old: Some(old_players[j].pb.duplicate()),
                            new: player.pb.duplicate(),
                            name: player.name.clone(),
                            old_place: Some(j as u32),
                            new_place: i as u32,
                        },
                    );
                }
            },
            None => {
                changes.push(
                    Change {
                        old: None,
                        new: player.pb.duplicate(),
                        name: player.name.clone(),
                        old_place: None,
                        new_place: i as u32,
                    },
                );
            },
        }
        i = i + 1;
    }
    let mut i: usize = 0;
    while i < old_players.len()
        invariant
            i <= old_players@.len(),
            drops@ == drops_upto(old_players@, new_players@, i as int),
        decreases old_players@.len() - i,
    {
        let player = &old_players[i];
        if position_of_name(new_players, &player.name).is_none() {
            drops.push(
                Drop { old: player.pb.duplicate(), old_place: i as u32, name: player.name.clone() },
            );
        }
        i = i + 1;
    }
    (changes, drops)
}

/// Every reported change is a climb (a strictly earlier place than before)
/// or a newcomer, and sits at the place of a player of the new board.
pub proof fn lemma_changes_are_climbs(old: Seq<Player>, new: Seq<Player>, k: int)
    requires
        0 <= k <= new.len(),
    ensures
        forall|c: int|
            0 <= c < changes_upto(old, new, k).len() ==> {
                let ch = #[trigger] changes_upto(old, new, k)[c];
                &&& ch.old_place matches Some(op) ==> op > ch.new_place
                &&& ch.old_place is None ==> first_named(old, ch.name@) is None
                &&& ch.old is Some == ch.old_place is Some
            },
    decreases k,
{
    if k > 0 {
        lemma_changes_are_climbs(old, new, k - 1);
        let prev = changes_upto(old, new, k - 1);
        let cur = changes_upto(old, new, k);
        assert forall|c: int| 0 <= c < prev.len() implies cur[c] == prev[c] by {}
    }
}

/// Every reported drop names a player of the old board whose name is not
/// on the new board.
pub proof fn lemma_drops_are_gone(old: Seq<Player>, new: Seq<Player>, k: int)
    requires
        0 <= k <= old.len(),
    ensures
        forall|d: int|
            0 <= d < drops_upto(old, new, k).len() ==> first_named(
                new,
                (#[trigger] drops_upto(old, new, k)[d]).name@,
            ) is None,
    decreases k,
{
    if k > 0 {
        lemma_drops_are_gone(old, new, k - 1);
        let prev = drops_upto(old, new, k - 1);
        let cur = drops_upto(old, new, k);
        assert forall|d: int| 0 <= d < prev.len() implies cur[d] == prev[d] by {}
    }
}

/// `new[i]` is new on the board, or its first namesake on the old board
/// stood at a later place.
pub open spec fn climbed(old: Seq<Player>, new: Seq<Player>, i: int) -> bool {
    match first_named(old, new[i].name@) {
        None => true,
        Some(j) => j > i,
    }
}

/// The change reported for `new[i]`: its name, its new run and place, and
/// the run and place of its first namesake on the old board, if any.
pub open spec fn is_change_of(ch: Change, old: Seq<Player>, new: Seq<Player>, i: int) -> bool {
    &&& ch.new_place == i
    &&& ch.name == new[i].name
    &&& ch.new == new[i].pb
    &&& match first_named(old, new[i].name@) {
        None => ch.old_place is None && ch.old is None,
        Some(j) => ch.old_place == Some(j as u32) && ch.old == Some(old[j].pb),
    }
}

/// The changes are complete and sound: among the first `k` players of the
/// new board, exactly those that climbed or are new are reported, each
/// once, in board order, with its old and new place and run.
pub proof fn lemma_changes_are_complete(old: Seq<Player>, new: Seq<Player>, k: int)
    requires
        0 <= k <= new.len(),
        new.len() <= u32::MAX,
        old.len() <= u32::MAX,
    ensures
        forall|c: int|
            0 <= c < changes_upto(old, new, k).len() ==> {
                let ch = #[trigger] changes_upto(old, new, k)[c];
                &&& 0 <= ch.new_place < k
                &&& climbed(old, new, ch.new_place as int)
                &&& is_change_of(ch, old, new, ch.new_place as int)
            },
        forall|c1: int, c2: int|
            0 <= c1 < c2 < changes_upto(old, new, k).len() ==> (#[trigger] changes_upto(
                old,
                new,
                k,
            )[c1]).new_place < (#[trigger] changes_upto(old, new, k)[c2]).new_place,
        forall|i: int|
            0 <= i < k ==> (#[trigger] climbed(old, new, i) <==> exists|c: int|
                0 <= c < changes_upto(old, new, k).len() && (#[trigger] changes_upto(
                    old,
                    new,
                    k,
                )[c]).new_place == i),
    decreases k,
{
    if k > 0 {
        lemma_changes_are_complete(old, new, k - 1);
        let prev = changes_upto(old, new, k - 1);
        let cur = changes_upto(old, new, k);
        let i = k - 1;
        lemma_first_named(old, new[i].name@);
        assert(((k - 1) as u32) == k - 1);
        assert forall|c: int| 0 <= c < prev.len() implies cur[c] == prev[c] by {}
        assert(climbed(old, new, i) <==> cur.len() == prev.len() + 1);
        if climbed(old, new, i) {
            assert(cur.last().new_place == i);
            assert(is_change_of(cur.last(), old, new, i));
        } else {
            assert(cur == prev);
        }
        assert forall|j: int| 0 <= j < k implies (#[trigger] climbed(old, new, j) <==> exists|c: int|
            0 <= c < cur.len() && (#[trigger] cur[c]).new_place == j) by {
            if j < k - 1 {
                if climbed(old, new, j) {
                    let c = choose|c: int| 0 <= c < prev.len() && (#[trigger] prev[c]).new_place == j;
                    assert(cur[c] == prev[c]);
                } else if exists|c: int| 0 <= c < cur.len() && (#[trigger] cur[c]).new_place == j {
                    let c = choose|c: int| 0 <= c < cur.len() && (#[trigger] cur[c]).new_place == j;
                    if c < prev.len() {
                        assert(cur[c] == prev[c]);
                    }
                }
            } else {
                if climbed(old, new, j) {
                    assert(cur[cur.len() - 1].new_place == j);
                } else if exists|c: int| 0 <= c < cur.len() && (#[trigger] cur[c]).new_place == j {
                    let c = choose|c: int| 0 <= c < cur.len() && (#[trigger] cur[c]).new_place == j;
                    assert(cur[c] == prev[c]);
                }
            }
        }
    }
}

/// The drops are complete and sound: among the first `k` players of the
/// old board, exactly those whose name is not on the new board are
/// reported, each once, in board order, with their old place and run.
pub proof fn lemma_drops_are_complete(old: Seq<Player>, new: Seq<Player>, k: int)
    requires
        0 <= k <= old.len(),
        old.len() <= u32::MAX,
    ensures
        forall|x: int|
            0 <= x < drops_upto(old, new, k).len() ==> {
                let d = #[trigger] drops_upto(old, new, k)[x];
                &&& 0 <= d.old_place < k
                &&& d.name == old[d.old_place as int].name
                &&& d.old == old[d.old_place as int].pb
                &&& first_named(new, d.name@) is None
            },
        forall|x1: int, x2: int|
            0 <= x1 < x2 < drops_upto(old, new, k).len() ==> (#[trigger] drops_upto(
                old,
                new,
                k,
            )[x1]).old_place < (#[trigger] drops_upto(old, new, k)[x2]).old_place,
        forall|i: int|
            0 <= i < k ==> (first_named(new, (#[trigger] old[i]).name@) is None <==> exists|x: int|
                0 <= x < drops_upto(old, new, k).len() && (#[trigger] drops_upto(
                    old,
                    new,
                    k,
                )[x]).old_place == i),
    decreases k,
{
    if k > 0 {
        lemma_drops_are_complete(old, new, k - 1);
        let prev = drops_upto(old, new, k - 1);
        let cur = drops_upto(old, new, k);
        assert(((k - 1) as u32) == k - 1);
        assert forall|x: int| 0 <= x < prev.len() implies cur[x] == prev[x] by {}
        assert forall|i: int| 0 <= i < k implies (first_named(new, (#[trigger] old[i]).name@)
            is None <==> exists|x: int| 0 <= x < cur.len() && (#[trigger] cur[x]).old_place == i) by {
            if i < k - 1 {
                if first_named(new, old[i].name@) is None {
                    let x = choose|x: int| 0 <= x < prev.len() && (#[trigger] prev[x]).old_place == i;
                    assert(cur[x] == prev[x]);
                } else if exists|x: int| 0 <= x < cur.len() && (#[trigger] cur[x]).old_place == i {
                    let x = choose|x: int| 0 <= x < cur.len() && (#[trigger] cur[x]).old_place == i;
                    if x < prev.len() {
                        assert(cur[x] == prev[x]);
                    }
                }
            } else {
                if first_named(new, old[i].name@) is None {
                    assert(cur[cur.len() - 1].old_place == i);
                } else if exists|x: int| 0 <= x < cur.len() && (#[trigger] cur[x]).old_place == i {
                    let x = choose|x: int| 0 <= x < cur.len() && (#[trigger] cur[x]).old_place == i;
                    assert(cur[x] == prev[x]);
                }
            }
        }
    }
}

/// The report line of a change, as its `Display` writes it.
pub open spec fn change_line(c: Change) -> Seq<char> {
    let old_place = match c.old_place {
        Some(b) => decimal((b + 1) as nat),
        None => Seq::empty(),
    };
    let old_blocks = match c.old {
        Some(r) => decimal(r.blocks as nat),
        None => Seq::empty(),
    };
    " "@ + align_right(old_place, 3) + " \u{25b2} "@ + align_left(
        decimal((c.new_place + 1) as nat),
        3,
    ) + " ["@ + align_right(old_blocks, 3) + " \u{25b2} "@ + align_left(
        decimal(c.new.blocks as nat),
        3,
    ) + "] "@ + c.name@
}

/// The places of a change can be shown one-based without overflow.
pub open spec fn change_is_printable(c: Change) -> bool {
    &&& c.new_place < u32::MAX
    &&& c.old_place matches Some(b) ==> b < u32::MAX
}

/// The report line of a drop, as its `Display` writes it.
pub open spec fn drop_line(d: Drop) -> Seq<char> {
    "-"@ + align_right(decimal(d.old_place as nat), 3) + " \u{25bc}     ["@ + align_left(
        decimal(d.old.blocks as nat),
        3,
    ) + "]       "@ + align_left(d.name@, 20)
}

impl Change {
    /// The report line of this change: old place, new place, old blocks,
    /// new blocks and name.
    pub fn to_string(&self) -> (r: String)
        requires
            change_is_printable(*self),
        ensures
            r@ == change_line(*self),
    {
        let old_place = match self.old_place {
            Some(b) => decimal_string(b as u64 + 1),
            None => String::new(),
        };
        let old_blocks = match &self.old {
            Some(run) => decimal_string(run.blocks as u64),
            None => String::new(),
        };
        let mut out = String::new();
        push_text(&mut out, " ");
        push_right_aligned(&mut out, &old_place, 3);
        push_text(&mut out, " \u{25b2} ");
        push_left_aligned(&mut out, &decimal_string(self.new_place as u64 + 1), 3);
        push_text(&mut out, " [");
        push_right_aligned(&mut out, &old_blocks, 3);
        push_text(&mut out, " \u{25b2} ");
        push_left_aligned(&mut out, &decimal_string(self.new.blocks as u64), 3);
        push_text(&mut out, "] ");
        push_text(&mut out, self.name.as_str());
        assert(out@ =~= change_line(*self));
        out
    }
}

impl Drop {
    /// The report line of this drop: old place, blocks and name.
    pub fn to_string(&self) -> (r: String)
        ensures
            r@ == drop_line(*self),
    {
        let mut out = String::new();
        push_text(&mut out, "-");
        push_right_aligned(&mut out, &decimal_string(self.old_place as u64), 3);
        push_text(&mut out, " \u{25bc}     [");
        push_left_aligned(&mut out, &decimal_string(self.old.blocks as u64), 3);
        push_text(&mut out, "]       ");
        push_left_aligned(&mut out, &self.name, 20);
        assert(out@ =~= drop_line(*self));
        out
    }
}

/// A change is reported unless the player kept the same number of blocks.
pub open spec fn is_reported(c: Change) -> bool {
    !(c.old matches Some(o) && o.blocks == c.new.blocks)
}

/// The report lines of the reported changes among `v`, each ending in a newline.
pub open spec fn change_lines(v: Seq<Change>) -> Seq<char>
    decreases v.len(),
{
    if v.len() == 0 {
        Seq::empty()
    } else if is_reported(v.last()) {
        change_lines(v.drop_last()) + change_line(v.last()) + "\n"@
    } else {
        change_lines(v.drop_last())
    }
}

/// The report lines of `v`, each ending in a newline.
pub open spec fn drop_lines(v: Seq<Drop>) -> Seq<char>
    decreases v.len(),
{
    if v.len() == 0 {
        Seq::empty()
    } else {
        drop_lines(v.drop_last()) + drop_line(v.last()) + "\n"@
    }
}

/// The report lines of every change of `s`, in order, each ending in a newline.
pub open spec fn all_change_lines(s: Seq<Change>) -> Seq<char>
    decreases s.len(),
{
    if s.len() == 0 {
        Seq::empty()
    } else {
        all_change_lines(s.drop_last()) + change_line(s.last()) + "\n"@
    }
}

/// The test "is a newcomer, or changed its number of blocks".
pub open spec fn changed_blocks() -> spec_fn(Change) -> bool {
    |c: Change| c.old is None || c.old->0.blocks != c.new.blocks
}

/// The improvements block lists, in order, exactly the changes of
/// newcomers and of players whose number of blocks changed; it leaves out
/// only those that kept their blocks.
pub proof fn lemma_report_lists_changed_blocks(v: Seq<Change>)
    ensures
        change_lines(v) == all_change_lines(v.filter(changed_blocks())),
    decreases v.len(),
{
    if v.len() > 0 {
        let front = v.drop_last();
        lemma_report_lists_changed_blocks(front);
        assert(v =~= front.push(v.last()));
        front.lemma_filter_push(v.last(), changed_blocks());
        if changed_blocks()(v.last()) {
            let f = front.filter(changed_blocks());
            assert(f.push(v.last()).drop_last() =~= f);
        }
    }
}

/// The improvements block of the report: a `css` code block headed
/// `Improvements`, one line per reported change.
pub fn format_changes(v: &Vec<Change>) -> (r: String)
    requires
        forall|i: int| 0 <= i < v@.len() ==> change_is_printable(#[trigger] v@[i]),
    ensures
        r@ == "```css\nImprovements\n"@ + change_lines(v@) + "```"@,
{
    let mut out = String::new();
    push_text(&mut out, "```css\nImprovements\n");
    let mut i: usize = 0;
    while i < v.len()
        invariant
            i <= v@.len(),
            forall|k: int| 0 <= k < v@.len() ==> change_is_printable(#[trigger] v@[k]),
            out@ == "```css\nImprovements\n"@ + change_lines(v@.take(i as int)),
        decreases v@.len() - i,
    {
        let c = &v[i];
        assert(v@.take(i + 1).drop_last() =~= v@.take(i as int));
        let skip = match &c.old {
            Some(o) => o.blocks == c.new.blocks,
            None => false,
        };
        if !skip {
            let line = c.to_string();
            push_text(&mut out, line.as_str());
            push_text(&mut out, "\n");
        }
        i = i + 1;
    }
    assert(v@.take(i as int) =~= v@);
    push_text(&mut out, "```");
    out
}

/// The drops block of the report: a `diff` code block headed `Drops`, one
/// line per drop.
pub fn format_drops(v: &Vec<Drop>) -> (r: String)
    ensures
        r@ == "```diff\nDrops\n"@ + drop_lines(v@) + "```"@,
{
    let mut out = String::new();
    push_text(&mut out, "```diff\nDrops\n");
    let mut i: usize = 0;
    while i < v.len()
        invariant
            i <= v@.len(),
            out@ == "```diff\nDrops\n"@ + drop_lines(v@.take(i as int)),
        decreases v@.len() - i,
    {
        assert(v@.take(i + 1).drop_last() =~= v@.take(i as int));
        let line = v[i].to_string();
        push_text(&mut out, line.as_str());
        push_text(&mut out, "\n");
        i = i + 1;
    }
    assert(v@.take(i as int) =~= v@);
    push_text(&mut out, "```");
    out
}

} // verus!
