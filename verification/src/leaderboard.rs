use vstd::prelude::*;

use crate::model::Player;
use crate::ranking::{
    best_player, is_ranked, last_best_index, lemma_last_best_index, lemma_ranked_is_permutation,
    ranked, run_before, sort_players,
};

verus! {

/// The number of entries a published leaderboard keeps.
pub const LEADERBOARD_SIZE: usize = 500;

/// Some string of `v` reads `n`.
pub open spec fn names_contain(v: Seq<String>, n: Seq<char>) -> bool {
    exists|i: int| 0 <= i < v.len() && #[trigger] v[i]@ == n
}

/// Whether `name` is one of `list` (a whitelist, a ban list, a list of alts).
pub fn list_contains(list: &Vec<String>, name: &String) -> (r: bool)
    ensures
        r == names_contain(list@, name@),
{
    let mut i: usize = 0;
    while i < list.len()
        invariant
            i <= list@.len(),
            forall|j: int| 0 <= j < i ==> #[trigger] list@[j]@ != name@,
        decreases list@.len() - i,
    {
        if list[i] == *name {
            return true;
        }
        i = i + 1;
    }
    false
}

/// `p` belongs to the account group of `main`: it is `main` itself or one
/// of its alts.
pub open spec fn in_group(p: Player, main: String, alts: Seq<String>) -> bool {
    names_contain(alts, p.name@) || p.name@ == main@
}

/// The test "belongs to the group of `main`".
pub open spec fn member_of(main: String, alts: Seq<String>) -> spec_fn(Player) -> bool {
    |p: Player| in_group(p, main, alts)
}

/// The test "does not belong to the group of `main`".
pub open spec fn outside_of(main: String, alts: Seq<String>) -> spec_fn(Player) -> bool {
    |p: Player| !in_group(p, main, alts)
}

/// The test "is not on the ban list".
pub open spec fn not_banned(banned: Seq<String>) -> spec_fn(Player) -> bool {
    |p: Player| !names_contain(banned, p.name@)
}

/// Folds the account groups, in order, into `players`: each group takes
/// its members out of the players left so far and, if it has any, adds
/// its best member under the group's main name. Gives the group entries
/// and the players left over.
pub open spec fn merge_groups(players: Seq<Player>, groups: Seq<(String, Vec<String>)>) -> (
    Seq<Player>,
    Seq<Player>,
)
    decreases groups.len(),
{
    if groups.len() == 0 {
        (Seq::empty(), players)
    } else {
        let prev = merge_groups(players, groups.drop_last());
        let main = groups.last().0;
        let alts = groups.last().1@;
        let members = prev.1.filter(member_of(main, alts));
        let rest = prev.1.filter(outside_of(main, alts));
        if members.len() > 0 {
            let best = members[last_best_index(members)];
            (prev.0.push(Player { name: main, pb: best.pb, country: best.country }), rest)
        } else {
            (prev.0, rest)
        }
    }
}

/// The published leaderboard: the group entries, then the left-over
/// players that are not banned, ranked, cut to `LEADERBOARD_SIZE`.
pub open spec fn leaderboard(
    players: Seq<Player>,
    groups: Seq<(String, Vec<String>)>,
    banned: Seq<String>,
) -> Seq<Player> {
    let m = merge_groups(players, groups);
    let all = ranked(m.0 + m.1.filter(not_banned(banned)));
    if all.len() <= LEADERBOARD_SIZE {
        all
    } else {
        all.take(LEADERBOARD_SIZE as int)
    }
}

/// Splits `players` into the members of the group of `main` and the rest,
/// each in their order.
pub fn split_group(players: Vec<Player>, main: &String, alts: &Vec<String>) -> (r: (
    Vec<Player>,
    Vec<Player>,
))
    ensures
        r.0@ == players@.filter(member_of(*main, alts@)),
        r.1@ == players@.filter(outside_of(*main, alts@)),
{
    let ghost s = players@;
    let ghost inside = member_of(*main, alts@);
    let ghost outside = outside_of(*main, alts@);
    let ghost mut k: int = 0;
    let mut todo = players;
    let mut members: Vec<Player> = Vec::new();
    let mut others: Vec<Player> = Vec::new();
    assert(s.skip(0) =~= s);
    assert(s.take(0) =~= Seq::<Player>::empty());
    proof {
        reveal(Seq::filter);
    }
    while todo.len() > 0
        invariant
            0 <= k <= s.len(),
            todo@ == s.skip(k),
            members@ == s.take(k).filter(inside),
            others@ == s.take(k).filter(outside),
            inside == member_of(*main, alts@),
            outside == outside_of(*main, alts@),
        decreases todo.len(),
    {
        let p = todo.remove(0);
        assert(s.take(k + 1) =~= s.take(k).push(p));
        assert(s.skip(k).remove(0) =~= s.skip(k + 1));
        proof {
            s.take(k).lemma_filter_push(p, inside);
            s.take(k).lemma_filter_push(p, outside);
            k = k + 1;
        }
        if list_contains(alts, &p.name) || p.name == *main {
            members.push(p);
        } else {
            others.push(p);
        }
    }
    assert(s.take(k) =~= s);
    (members, others)
}

/// Builds the published leaderboard from all players, the account groups
/// (each a main name and its alts, in the order given) and the ban list.
pub fn build_leaderboard(
    players: Vec<Player>,
    groups: Vec<(String, Vec<String>)>,
    banned: &Vec<String>,
) -> (r: Vec<Player>)
    ensures
        r@ == leaderboard(players@, groups@, banned@),
        is_ranked(r@),
        r@.len() <= LEADERBOARD_SIZE,
{
    let ghost ps = players@;
    let ghost gs = groups@;
    let ghost mut k: int = 0;
    let mut left = players;
    let mut entries: Vec<Player> = Vec::new();
    let mut todo = groups;
    assert(gs.skip(0) =~= gs);
    assert(gs.take(0) =~= Seq::<(String, Vec<String>)>::empty());
    while todo.len() > 0
        invariant
            0 <= k <= gs.len(),
            todo@ == gs.skip(k),
            (entries@, left@) == merge_groups(ps, gs.take(k)),
        decreases todo.len(),
    {
        let (main, alts) = todo.remove(0);
        assert(gs.take(k + 1).drop_last() =~= gs.take(k));
        assert(gs.take(k + 1).last() == (main, alts));
        assert(gs.skip(k).remove(0) =~= gs.skip(k + 1));
        let (members, rest) = split_group(left, &main, &alts);
        if members.len() > 0 {
            let ghost ms = members@;
            proof {
                lemma_last_best_index(ms);
            }
            let best = best_player(members);
            match best {
                Some(b) => {
                    entries.push(Player { name: main, pb: b.pb, country: b.country });
                },
                None => {},
            }
        }
        left = rest;
        proof {
            k = k + 1;
        }
    }
    assert(gs.take(k) =~= gs);
    let ghost m = merge_groups(ps, gs);
    let ghost keep = not_banned(banned@);
    let ghost lefts = left@;
    let ghost mut j: int = 0;
    assert(lefts.take(0) =~= Seq::<Player>::empty());
    assert(lefts.skip(0) =~= lefts);
    proof {
        reveal(Seq::filter);
    }
    while left.len() > 0
        invariant
            0 <= j <= lefts.len(),
            left@ == lefts.skip(j),
            entries@ == m.0 + lefts.take(j).filter(keep),
            keep == not_banned(banned@),
        decreases left.len(),
    {
        let p = left.remove(0);
        assert(lefts.take(j + 1) =~= lefts.take(j).push(p));
        assert(lefts.skip(j).remove(0) =~= lefts.skip(j + 1));
        proof {
            lefts.take(j).lemma_filter_push(p, keep);
            j = j + 1;
        }
        if !list_contains(banned, &p.name) {
            entries.push(p);
        }
    }
    assert(lefts.take(j) =~= lefts);
    sort_players(&mut entries);
    let ghost sorted = entries@;
    entries.truncate(LEADERBOARD_SIZE);
    assert(is_ranked(entries@)) by {
        assert forall|a: int, b: int| 0 <= a < b < entries@.len() implies !crate::ranking::ranks_before(
            #[trigger] entries@[b],
            #[trigger] entries@[a],
        ) by {
            assert(entries@[a] == sorted[a] && entries@[b] == sorted[b]);
        }
    }
    entries
}

/// Each account group, in its turn, takes its members out of the players
/// still left and adds one entry under its main name if it has members.
/// That entry carries the personal best and country of one of the members,
/// and no member has a better run: the group stands at its best personal
/// best. A group without members adds nothing and takes nobody.
pub proof fn lemma_group_entry_is_best(players: Seq<Player>, groups: Seq<(String, Vec<String>)>)
    requires
        groups.len() > 0,
    ensures
        ({
            let prev = merge_groups(players, groups.drop_last());
            let cur = merge_groups(players, groups);
            let main = groups.last().0;
            let alts = groups.last().1@;
            &&& forall|q: Player|
                #[trigger] cur.1.contains(q) <==> prev.1.contains(q) && !in_group(q, main, alts)
            &&& (exists|m: int| 0 <= m < prev.1.len() && in_group(#[trigger] prev.1[m], main, alts))
                ==> {
                &&& cur.0.len() == prev.0.len() + 1
                &&& cur.0.drop_last() == prev.0
                &&& cur.0.last().name == main
                &&& forall|m: int|
                    0 <= m < prev.1.len() && in_group(#[trigger] prev.1[m], main, alts)
                        ==> !run_before(prev.1[m].pb, cur.0.last().pb)
                &&& exists|m: int|
                    0 <= m < prev.1.len() && in_group(#[trigger] prev.1[m], main, alts)
                        && prev.1[m].pb == cur.0.last().pb && prev.1[m].country
                        == cur.0.last().country
            }
            &&& !(exists|m: int| 0 <= m < prev.1.len() && in_group(#[trigger] prev.1[m], main, alts))
                ==> cur.0 == prev.0
        }),
{
    broadcast use vstd::seq_lib::group_filter_ensures;
    broadcast use vstd::seq::group_seq_axioms;

    let prev = merge_groups(players, groups.drop_last());
    let cur = merge_groups(players, groups);
    let main = groups.last().0;
    let alts = groups.last().1@;
    let inside = member_of(main, alts);
    let outside = outside_of(main, alts);
    let members = prev.1.filter(inside);
    assert forall|q: Player| #[trigger] cur.1.contains(q) <==> prev.1.contains(q) && !in_group(
        q,
        main,
        alts,
    ) by {
        if cur.1.contains(q) {
            prev.1.lemma_filter_contains_rev(outside, q);
            let k = choose|k: int| 0 <= k < cur.1.len() && cur.1[k] == q;
            assert(outside(cur.1[k]));
        }
        if prev.1.contains(q) && !in_group(q, main, alts) {
            let k = choose|k: int| 0 <= k < prev.1.len() && prev.1[k] == q;
            assert(outside(prev.1[k]));
        }
    }
    if exists|m: int| 0 <= m < prev.1.len() && in_group(#[trigger] prev.1[m], main, alts) {
        let m0 = choose|m: int| 0 <= m < prev.1.len() && in_group(#[trigger] prev.1[m], main, alts);
        assert(inside(prev.1[m0]));
        assert(members.contains(prev.1[m0]));
        assert(members.len() > 0);
        lemma_last_best_index(members);
        let k = last_best_index(members);
        let best = members[k];
        assert(cur.0 == prev.0.push(Player { name: main, pb: best.pb, country: best.country }));
        assert(cur.0.drop_last() =~= prev.0);
        assert forall|m: int|
            0 <= m < prev.1.len() && in_group(#[trigger] prev.1[m], main, alts) implies !run_before(
            prev.1[m].pb,
            cur.0.last().pb,
        ) by {
            assert(inside(prev.1[m]));
            assert(members.contains(prev.1[m]));
            let j = choose|j: int| 0 <= j < members.len() && members[j] == prev.1[m];
            assert(!crate::ranking::ranks_before(members[j], members[k]));
        }
        assert(members.contains(best));
        prev.1.lemma_filter_contains_rev(inside, best);
        let w = choose|w: int| 0 <= w < prev.1.len() && prev.1[w] == best;
        assert(inside(members[k]));
        assert(in_group(prev.1[w], main, alts));
    } else {
        if members.len() > 0 {
            assert(inside(members[0]));
            assert(members.contains(members[0]));
            prev.1.lemma_filter_contains_rev(inside, members[0]);
            let w = choose|w: int| 0 <= w < prev.1.len() && prev.1[w] == members[0];
            assert(in_group(prev.1[w], main, alts));
        }
    }
}

/// A player in no account group is never taken out by the groups.
pub proof fn lemma_ungrouped_player_left(
    players: Seq<Player>,
    groups: Seq<(String, Vec<String>)>,
    p: Player,
)
    requires
        players.contains(p),
        forall|g: int| 0 <= g < groups.len() ==> !in_group(p, (#[trigger] groups[g]).0, groups[g].1@),
    ensures
        merge_groups(players, groups).1.contains(p),
    decreases groups.len(),
{
    if groups.len() > 0 {
        let gs = groups.drop_last();
        assert forall|g: int| 0 <= g < gs.len() implies !in_group(p, (#[trigger] gs[g]).0, gs[g].1@) by {
            assert(gs[g] == groups[g]);
        }
        lemma_ungrouped_player_left(players, gs, p);
        lemma_group_entry_is_best(players, groups);
        assert(!in_group(p, groups[groups.len() - 1].0, groups[groups.len() - 1].1@));
    }
}

/// The published board holds the first `LEADERBOARD_SIZE` of the group
/// entries and the players left who are not banned; a player in no group
/// and not banned is among them, so on a board that is not full that
/// player is published.
pub proof fn lemma_leaderboard_keeps_others(
    players: Seq<Player>,
    groups: Seq<(String, Vec<String>)>,
    banned: Seq<String>,
    p: Player,
)
    requires
        players.contains(p),
        forall|g: int| 0 <= g < groups.len() ==> !in_group(p, (#[trigger] groups[g]).0, groups[g].1@),
        !names_contain(banned, p.name@),
    ensures
        ({
            let m = merge_groups(players, groups);
            let total: nat = m.0.len() + m.1.filter(not_banned(banned)).len();
            &&& leaderboard(players, groups, banned).len() == if total <= LEADERBOARD_SIZE {
                total
            } else {
                LEADERBOARD_SIZE as nat
            }
            &&& ranked(m.0 + m.1.filter(not_banned(banned))).contains(p)
            &&& leaderboard(players, groups, banned).len() < LEADERBOARD_SIZE ==> leaderboard(
                players,
                groups,
                banned,
            ).contains(p)
        }),
{
    broadcast use vstd::seq_lib::group_filter_ensures;
    broadcast use vstd::seq_lib::group_to_multiset_ensures;

    let m = merge_groups(players, groups);
    let kept = m.1.filter(not_banned(banned));
    let all = m.0 + kept;
    lemma_ungrouped_player_left(players, groups, p);
    let k = choose|k: int| 0 <= k < m.1.len() && m.1[k] == p;
    assert(not_banned(banned)(m.1[k]));
    assert(kept.contains(p));
    let j = choose|j: int| 0 <= j < kept.len() && kept[j] == p;
    assert(all[m.0.len() + j] == p);
    assert(all.contains(p));
    lemma_ranked_is_permutation(all);
    assert(all.to_multiset().count(p) > 0);
    assert(ranked(all).to_multiset().count(p) > 0);
    assert(ranked(all).contains(p));
    assert(ranked(all).len() == all.len()) by {
        assert(ranked(all).to_multiset().len() == all.to_multiset().len());
    }
}

/// `p` may stand on the published leaderboard: it carries the main name of
/// one of the account groups, or it is not banned.
pub open spec fn may_be_published(
    p: Player,
    groups: Seq<(String, Vec<String>)>,
    banned: Seq<String>,
) -> bool {
    (exists|g: int| 0 <= g < groups.len() && p.name == (#[trigger] groups[g]).0) || !names_contain(
        banned,
        p.name@,
    )
}

/// The group entries carry the main names of their groups.
proof fn lemma_group_entries_named(players: Seq<Player>, groups: Seq<(String, Vec<String>)>)
    ensures
        forall|i: int|
            0 <= i < merge_groups(players, groups).0.len() ==> exists|g: int|
                0 <= g < groups.len() && (#[trigger] merge_groups(players, groups).0[i]).name == (
                #[trigger] groups[g]).0,
    decreases groups.len(),
{
    if groups.len() > 0 {
        let gs = groups.drop_last();
        lemma_group_entries_named(players, gs);
        let prev = merge_groups(players, gs).0;
        let cur = merge_groups(players, groups).0;
        assert forall|i: int| 0 <= i < cur.len() implies exists|g: int|
            0 <= g < groups.len() && (#[trigger] cur[i]).name == (#[trigger] groups[g]).0 by {
            if i < prev.len() {
                assert(cur[i] == prev[i]);
                let g = choose|g: int| 0 <= g < gs.len() && prev[i].name == (#[trigger] gs[g]).0;
                assert(gs[g] == groups[g]);
            } else {
                assert(cur[i].name == groups[groups.len() - 1].0);
            }
        }
    }
}

/// Nobody is published who is banned, unless they carry the main name of
/// an account group: every entry of the leaderboard is a group entry or a
/// player who is not on the ban list.
pub proof fn lemma_leaderboard_entries(
    players: Seq<Player>,
    groups: Seq<(String, Vec<String>)>,
    banned: Seq<String>,
)
    ensures
        forall|i: int|
            0 <= i < leaderboard(players, groups, banned).len() ==> may_be_published(
                #[trigger] leaderboard(players, groups, banned)[i],
                groups,
                banned,
            ),
{
    broadcast use vstd::seq_lib::group_filter_ensures;
    broadcast use vstd::seq_lib::group_to_multiset_ensures;

    let m = merge_groups(players, groups);
    let kept = m.1.filter(not_banned(banned));
    let all = m.0 + kept;
    lemma_group_entries_named(players, groups);
    assert forall|k: int| 0 <= k < all.len() implies may_be_published(
        #[trigger] all[k],
        groups,
        banned,
    ) by {
        if k < m.0.len() {
            assert(all[k] == m.0[k]);
        } else {
            assert(all[k] == kept[k - m.0.len()]);
            assert(not_banned(banned)(kept[k - m.0.len()]));
        }
    }
    lemma_ranked_is_permutation(all);
    let r = ranked(all);
    assert forall|i: int| 0 <= i < r.len() implies may_be_published(#[trigger] r[i], groups, banned) by {
        assert(r.contains(r[i]));
        assert(r.to_multiset().count(r[i]) > 0);
        assert(all.to_multiset().count(r[i]) > 0);
        assert(all.contains(r[i]));
        let k = choose|k: int| 0 <= k < all.len() && all[k] == r[i];
        assert(may_be_published(all[k], groups, banned));
    }
    let b = leaderboard(players, groups, banned);
    assert forall|i: int| 0 <= i < b.len() implies may_be_published(#[trigger] b[i], groups, banned) by {
        assert(b[i] == r[i]);
    }
}

} // verus!
