use vstd::prelude::*;
use vstd::seq_lib::lemma_multiset_commutative;

use crate::model::{CheeseRun, Player};

verus! {

broadcast use vstd::seq_lib::group_to_multiset_ensures;

/// `a` is a strictly better run than `b`: it used fewer blocks, or as many
/// blocks at a higher pieces-per-second figure.
pub open spec fn run_before(a: CheeseRun, b: CheeseRun) -> bool {
    a.blocks < b.blocks || (a.blocks == b.blocks && a.pps > b.pps)
}

/// `a` ranks strictly above `b` on the leaderboard.
pub open spec fn ranks_before(a: Player, b: Player) -> bool {
    run_before(a.pb, b.pb)
}

/// `a` and `b` tie: same blocks and same pieces-per-second figure.
pub open spec fn same_rank(a: Player, b: Player) -> bool {
    a.pb.blocks == b.pb.blocks && a.pb.pps == b.pb.pps
}

/// The test "ties with `q`".
pub open spec fn ties_with(q: Player) -> spec_fn(Player) -> bool {
    |p: Player| same_rank(p, q)
}

/// The players of `s` that tie with `q`, in their order in `s`.
pub open spec fn ties_of(s: Seq<Player>, q: Player) -> Seq<Player> {
    s.filter(ties_with(q))
}

/// No entry of `s` ranks above an entry that comes before it.
pub open spec fn is_ranked(s: Seq<Player>) -> bool {
    forall|i: int, j: int| 0 <= i < j < s.len() ==> !ranks_before(#[trigger] s[j], #[trigger] s[i])
}

/// `x` placed into `t` right after the last entry that it does not rank above.
pub open spec fn insert_ranked(t: Seq<Player>, x: Player) -> Seq<Player>
    decreases t.len(),
{
    if t.len() == 0 {
        seq![x]
    } else if ranks_before(x, t.last()) {
        insert_ranked(t.drop_last(), x).push(t.last())
    } else {
        t.push(x)
    }
}

/// The leaderboard order of `s`: best first, ties in their order in `s`.
pub open spec fn ranked(s: Seq<Player>) -> Seq<Player>
    decreases s.len(),
{
    if s.len() == 0 {
        Seq::empty()
    } else {
        insert_ranked(ranked(s.drop_last()), s.last())
    }
}

/// `run_before` on runs held by reference.
pub fn run_is_better(a: &CheeseRun, b: &CheeseRun) -> (r: bool)
    ensures
        r == run_before(*a, *b),
{
    a.blocks < b.blocks || (a.blocks == b.blocks && a.pps > b.pps)
}

impl Player {
    /// Orders players the leaderboard way round: a player with fewer blocks
    /// is `Greater`; at equal blocks the higher pieces-per-second figure is
    /// `Greater`; same blocks and figure are `Equal`.
    pub fn cmp(&self, other: &Player) -> (r: core::cmp::Ordering)
        ensures
            (r == core::cmp::Ordering::Greater) == ranks_before(*self, *other),
            (r == core::cmp::Ordering::Less) == ranks_before(*other, *self),
            (r == core::cmp::Ordering::Equal) == same_rank(*self, *other),
    {
        if self.pb.blocks == other.pb.blocks {
            if self.pb.pps < other.pb.pps {
                core::cmp::Ordering::Less
            } else if self.pb.pps == other.pb.pps {
                core::cmp::Ordering::Equal
            } else {
                core::cmp::Ordering::Greater
            }
        } else if other.pb.blocks < self.pb.blocks {
            core::cmp::Ordering::Less
        } else {
            core::cmp::Ordering::Greater
        }
    }

    /// The order used to sort a leaderboard: the reverse of [`Player::cmp`],
    /// so the best player comes first.
    pub fn partial_cmp(&self, other: &Player) -> (r: Option<core::cmp::Ordering>)
        ensures
            r matches Some(o) && (o == core::cmp::Ordering::Less) == ranks_before(*self, *other)
                && (o == core::cmp::Ordering::Greater) == ranks_before(*other, *self)
                && (o == core::cmp::Ordering::Equal) == same_rank(*self, *other),
    {
        Some(other.cmp(self))
    }

    /// Two players are equal when their personal bests tie.
    pub fn eq(&self, other: &Player) -> (r: bool)
        ensures
            r == same_rank(*self, *other),
    {
        other.pb.pps == self.pb.pps && self.pb.blocks == other.pb.blocks
    }
}

/// `ranks_before` on players held by reference.
fn player_is_better(a: &Player, b: &Player) -> (r: bool)
    ensures
        r == ranks_before(*a, *b),
{
    run_is_better(&a.pb, &b.pb)
}

/// Where `insert_ranked` puts `x`, and what lies on each side of it.
proof fn lemma_insert_shape(t: Seq<Player>, x: Player) -> (p: int)
    ensures
        0 <= p <= t.len(),
        insert_ranked(t, x) == t.take(p).push(x) + t.skip(p),
        forall|i: int| p <= i < t.len() ==> ranks_before(x, #[trigger] t[i]),
        p > 0 ==> !ranks_before(x, t[p - 1]),
    decreases t.len(),
{
    if t.len() == 0 {
        assert(t.take(0).push(x) + t.skip(0) =~= seq![x]);
        0
    } else if ranks_before(x, t.last()) {
        let q = lemma_insert_shape(t.drop_last(), x);
        assert forall|i: int| q <= i < t.len() implies ranks_before(x, #[trigger] t[i]) by {
            if i < t.len() - 1 {
                assert(t.drop_last()[i] == t[i]);
            }
        }
        assert(t.drop_last().take(q) =~= t.take(q));
        assert(t.drop_last().skip(q).push(t.last()) =~= t.skip(q));
        assert(insert_ranked(t, x) =~= t.take(q).push(x) + t.skip(q));
        q
    } else {
        assert(t.take(t.len() as int) =~= t);
        assert(t.skip(t.len() as int) =~= Seq::<Player>::empty());
        assert(insert_ranked(t, x) =~= t.take(t.len() as int).push(x) + t.skip(t.len() as int));
        t.len() as int
    }
}

/// Inserting into a ranked sequence keeps it ranked.
proof fn lemma_insert_keeps_order(t: Seq<Player>, x: Player)
    requires
        is_ranked(t),
    ensures
        is_ranked(insert_ranked(t, x)),
{
    let p = lemma_insert_shape(t, x);
    let r = insert_ranked(t, x);
    assert forall|i: int, j: int| 0 <= i < j < r.len() implies !ranks_before(
        #[trigger] r[j],
        #[trigger] r[i],
    ) by {
        if j < p {
            assert(r[i] == t[i] && r[j] == t[j]);
        } else if j == p {
            assert(r[i] == t[i]);
            if i < p - 1 {
                assert(!ranks_before(t[p - 1], t[i]));
            }
        } else if i < p {
            assert(r[i] == t[i] && r[j] == t[j - 1]);
        } else if i == p {
            assert(r[j] == t[j - 1]);
        } else {
            assert(r[i] == t[i - 1] && r[j] == t[j - 1]);
        }
    }
}

/// Inserting adds exactly `x`.
proof fn lemma_insert_adds_one(t: Seq<Player>, x: Player)
    ensures
        insert_ranked(t, x).to_multiset() =~= t.to_multiset().insert(x),
{
    let p = lemma_insert_shape(t, x);
    let a = t.take(p);
    let b = t.skip(p);
    assert(t =~= a + b);
    lemma_multiset_commutative(a.push(x), b);
    lemma_multiset_commutative(a, b);
}

/// Inserting puts `x` last among the players it ties with.
proof fn lemma_insert_keeps_ties(t: Seq<Player>, x: Player, q: Player)
    ensures
        ties_of(insert_ranked(t, x), q) == ties_of(t.push(x), q),
{
    let p = lemma_insert_shape(t, x);
    let a = t.take(p);
    let b = t.skip(p);
    let r = insert_ranked(t, x);
    let f = ties_with(q);
    assert(t =~= a + b);
    Seq::filter_distributes_over_add(a.push(x), b, f);
    Seq::filter_distributes_over_add(a, b, f);
    a.lemma_filter_push(x, f);
    t.lemma_filter_push(x, f);
    if f(x) {
        assert(b.all(|y: Player| !f(y))) by {
            assert forall|k: int| 0 <= k < b.len() implies !f(#[trigger] b[k]) by {
                assert(b[k] == t[p + k]);
            }
        }
        b.lemma_all_neg_filter_empty(f);
        assert(b.filter(f) =~= Seq::<Player>::empty());
        assert(r.filter(f) =~= t.push(x).filter(f));
    } else {
        assert(r.filter(f) =~= t.push(x).filter(f));
    }
}

/// Ranking a sequence orders it best first.
pub proof fn lemma_ranked_is_ordered(s: Seq<Player>)
    ensures
        is_ranked(ranked(s)),
    decreases s.len(),
{
    if s.len() > 0 {
        lemma_ranked_is_ordered(s.drop_last());
        lemma_insert_keeps_order(ranked(s.drop_last()), s.last());
    }
}

/// Ranking a sequence neither loses nor adds players.
pub proof fn lemma_ranked_is_permutation(s: Seq<Player>)
    ensures
        ranked(s).to_multiset() =~= s.to_multiset(),
    decreases s.len(),
{
    if s.len() > 0 {
        lemma_ranked_is_permutation(s.drop_last());
        lemma_insert_adds_one(ranked(s.drop_last()), s.last());
        assert(s =~= s.drop_last().push(s.last()));
    }
}

/// Ranking is stable: players that tie keep their relative order.
pub proof fn lemma_ranked_is_stable(s: Seq<Player>, q: Player)
    ensures
        ties_of(ranked(s), q) == ties_of(s, q),
    decreases s.len(),
{
    reveal(Seq::filter);
    if s.len() > 0 {
        let f = ties_with(q);
        lemma_ranked_is_stable(s.drop_last(), q);
        lemma_insert_keeps_ties(ranked(s.drop_last()), s.last(), q);
        assert(ties_of(insert_ranked(ranked(s.drop_last()), s.last()), q) == ties_of(
            ranked(s.drop_last()).push(s.last()),
            q,
        ));
        ranked(s.drop_last()).lemma_filter_push(s.last(), f);
        s.drop_last().lemma_filter_push(s.last(), f);
        assert(s =~= s.drop_last().push(s.last()));
    }
}

/// Inserts `x` into `sorted` where `insert_ranked` puts it.
fn insert_ranked_into(sorted: &mut Vec<Player>, x: Player)
    ensures
        final(sorted)@ == insert_ranked(old(sorted)@, x),
{
    let ghost s = sorted@;
    let mut p: usize = sorted.len();
    assert(s.take(p as int) =~= s);
    assert(s.skip(p as int) =~= Seq::<Player>::empty());
    while p > 0 && player_is_better(&x, &sorted[p - 1])
        invariant
            p <= sorted@.len(),
            sorted@ == s,
            insert_ranked(s, x) == insert_ranked(s.take(p as int), x) + s.skip(p as int),
        decreases p,
    {
        assert(s.take(p as int).drop_last() =~= s.take(p - 1));
        assert(s.take(p as int).last() == s[p - 1]);
        assert(s.skip(p - 1) =~= seq![s[p - 1]] + s.skip(p as int));
        assert(insert_ranked(s.take(p - 1), x).push(s[p - 1]) + s.skip(p as int)
            =~= insert_ranked(s.take(p - 1), x) + s.skip(p - 1));
        p = p - 1;
    }
    proof {
        if p == 0 {
            assert(insert_ranked(s.take(0), x) =~= seq![x]);
        } else {
            assert(s.take(p as int).last() == s[p - 1]);
            assert(insert_ranked(s.take(p as int), x) == s.take(p as int).push(x));
        }
        assert(s.insert(p as int, x) =~= s.take(p as int).push(x) + s.skip(p as int));
    }
    sorted.insert(p, x);
}

/// Sorts a leaderboard best first, keeping tied players in their order.
pub fn sort_players(players: &mut Vec<Player>)
    ensures
        final(players)@ == ranked(old(players)@),
        is_ranked(final(players)@),
        final(players)@.to_multiset() =~= old(players)@.to_multiset(),
        forall|q: Player| #[trigger] ties_of(final(players)@, q) == ties_of(old(players)@, q),
{
    let ghost orig = players@;
    let ghost mut k: int = 0;
    let mut out: Vec<Player> = Vec::new();
    assert(orig.skip(0) =~= orig);
    assert(orig.take(0) =~= Seq::<Player>::empty());
    while players.len() > 0
        invariant
            0 <= k <= orig.len(),
            players@ == orig.skip(k),
            out@ == ranked(orig.take(k)),
        decreases players.len(),
    {
        let x = players.remove(0);
        assert(orig.take(k + 1).drop_last() =~= orig.take(k));
        assert(orig.take(k + 1).last() == x);
        insert_ranked_into(&mut out, x);
        assert(orig.skip(k).remove(0) =~= orig.skip(k + 1));
        proof {
            k = k + 1;
        }
    }
    assert(orig.take(k) =~= orig);
    *players = out;
    proof {
        lemma_ranked_is_ordered(orig);
        lemma_ranked_is_permutation(orig);
        assert forall|q: Player| #[trigger] ties_of(ranked(orig), q) == ties_of(orig, q) by {
            lemma_ranked_is_stable(orig, q);
        }
    }
}

/// The index of the first best run of `s` (which must not be empty).
pub open spec fn first_best_run_index(s: Seq<CheeseRun>) -> int
    decreases s.len(),
{
    if s.len() <= 1 {
        0
    } else {
        let k = first_best_run_index(s.drop_last());
        if run_before(s.last(), s[k]) {
            s.len() - 1
        } else {
            k
        }
    }
}

/// `i` is the first of the best runs of `s`: no run beats it, and it beats
/// every run before it.
pub open spec fn is_first_best_run(s: Seq<CheeseRun>, i: int) -> bool {
    &&& 0 <= i < s.len()
    &&& forall|j: int| 0 <= j < s.len() ==> !run_before(#[trigger] s[j], s[i])
    &&& forall|j: int| 0 <= j < i ==> run_before(s[i], #[trigger] s[j])
}

/// The fold that picks the first best run picks the first of the best runs.
pub proof fn lemma_first_best_run_index(s: Seq<CheeseRun>)
    requires
        s.len() > 0,
    ensures
        is_first_best_run(s, first_best_run_index(s)),
    decreases s.len(),
{
    if s.len() > 1 {
        let t = s.drop_last();
        lemma_first_best_run_index(t);
        let k = first_best_run_index(t);
        let i = first_best_run_index(s);
        assert(t[k] == s[k]);
        assert forall|j: int| 0 <= j < s.len() implies !run_before(#[trigger] s[j], s[i]) by {
            if j < s.len() - 1 {
                assert(t[j] == s[j]);
            }
        }
        assert forall|j: int| 0 <= j < i implies run_before(s[i], #[trigger] s[j]) by {
            if j < s.len() - 1 {
                assert(t[j] == s[j]);
            }
        }
    }
}

/// The index of the last best player of `s` (which must not be empty).
pub open spec fn last_best_index(s: Seq<Player>) -> int
    decreases s.len(),
{
    if s.len() <= 1 {
        0
    } else {
        let k = last_best_index(s.drop_last());
        if ranks_before(s[k], s.last()) {
            k
        } else {
            s.len() - 1
        }
    }
}

/// `i` is the last of the best players of `s`: nobody ranks above it, and
/// it ranks above everybody after it.
pub open spec fn is_last_best(s: Seq<Player>, i: int) -> bool {
    &&& 0 <= i < s.len()
    &&& forall|j: int| 0 <= j < s.len() ==> !ranks_before(#[trigger] s[j], s[i])
    &&& forall|j: int| i < j < s.len() ==> ranks_before(s[i], #[trigger] s[j])
}

/// The fold that picks the last best player picks the last of the best.
pub proof fn lemma_last_best_index(s: Seq<Player>)
    requires
        s.len() > 0,
    ensures
        is_last_best(s, last_best_index(s)),
    decreases s.len(),
{
    if s.len() > 1 {
        let t = s.drop_last();
        lemma_last_best_index(t);
        let k = last_best_index(t);
        let i = last_best_index(s);
        assert(t[k] == s[k]);
        assert forall|j: int| 0 <= j < s.len() implies !ranks_before(#[trigger] s[j], s[i]) by {
            if j < s.len() - 1 {
                assert(t[j] == s[j]);
            }
        }
        assert forall|j: int| i < j < s.len() implies ranks_before(s[i], #[trigger] s[j]) by {
            if j < s.len() - 1 {
                assert(t[j] == s[j]);
            }
        }
    }
}

/// The personal best among `runs`: fewest blocks, then highest pieces per
/// second, the first such run where several tie. `None` when there are no runs.
pub fn best_run(runs: Vec<CheeseRun>) -> (r: Option<CheeseRun>)
    ensures
        runs@.len() == 0 ==> r is None,
        runs@.len() > 0 ==> r == Some(runs@[first_best_run_index(runs@)]),
        runs@.len() > 0 ==> is_first_best_run(runs@, first_best_run_index(runs@)),
{
    let ghost s = runs@;
    if runs.len() == 0 {
        return None;
    }
    let mut best: usize = 0;
    let mut i: usize = 1;
    while i < runs.len()
        invariant
            runs@ == s,
            1 <= i <= s.len(),
            best == first_best_run_index(s.take(i as int)),
        decreases s.len() - i,
    {
        proof {
            lemma_first_best_run_index(s.take(i as int));
        }
        assert(s.take(i + 1).drop_last() =~= s.take(i as int));
        assert(s.take(i + 1)[best as int] == s[best as int]);
        if run_is_better(&runs[i], &runs[best]) {
            best = i;
        }
        i = i + 1;
    }
    assert(s.take(i as int) =~= s);
    proof {
        lemma_first_best_run_index(s);
    }
    let mut runs = runs;
    Some(runs.swap_remove(best))
}

/// The best player of `players`, the last such player where several tie;
/// `None` when there are none.
pub fn best_player(players: Vec<Player>) -> (r: Option<Player>)
    ensures
        players@.len() == 0 ==> r is None,
        players@.len() > 0 ==> r == Some(players@[last_best_index(players@)]),
        players@.len() > 0 ==> is_last_best(players@, last_best_index(players@)),
{
    let ghost s = players@;
    if players.len() == 0 {
        return None;
    }
    let mut best: usize = 0;
    let mut i: usize = 1;
    while i < players.len()
        invariant
            players@ == s,
            1 <= i <= s.len(),
            best == last_best_index(s.take(i as int)),
        decreases s.len() - i,
    {
        proof {
            lemma_last_best_index(s.take(i as int));
        }
        assert(s.take(i + 1).drop_last() =~= s.take(i as int));
        assert(s.take(i + 1)[best as int] == s[best as int]);
        if !player_is_better(&players[best], &players[i]) {
            best = i;
        }
        i = i + 1;
    }
    assert(s.take(i as int) =~= s);
    proof {
        lemma_last_best_index(s);
    }
    let mut players = players;
    Some(players.swap_remove(best))
}

/// The index of the first player of `s` named `name`, if any.
pub open spec fn first_named(s: Seq<Player>, name: Seq<char>) -> Option<int>
    decreases s.len(),
{
    if s.len() == 0 {
        None
    } else {
        match first_named(s.drop_last(), name) {
            Some(i) => Some(i),
            None => if s.last().name@ == name {
                Some(s.len() - 1)
            } else {
                None
            },
        }
    }
}

/// A match found in a prefix is the first match of the whole sequence.
proof fn lemma_first_named_prefix(s: Seq<Player>, name: Seq<char>, k: int)
    requires
        0 <= k <= s.len(),
        first_named(s.take(k), name) is Some,
    ensures
        first_named(s, name) == first_named(s.take(k), name),
    decreases s.len(),
{
    if k == s.len() {
        assert(s.take(k) =~= s);
    } else {
        assert(s.drop_last().take(k) =~= s.take(k));
        lemma_first_named_prefix(s.drop_last(), name, k);
    }
}

/// `first_named` finds a player with that name, and none before it.
pub proof fn lemma_first_named(s: Seq<Player>, name: Seq<char>)
    ensures
        first_named(s, name) matches Some(i) ==> 0 <= i < s.len() && s[i].name@ == name && forall|j: int|
            0 <= j < i ==> #[trigger] s[j].name@ != name,
        first_named(s, name) is None ==> forall|j: int| 0 <= j < s.len() ==> #[trigger] s[j].name@ != name,
    decreases s.len(),
{
    if s.len() > 0 {
        let t = s.drop_last();
        lemma_first_named(t, name);
        assert forall|j: int| 0 <= j < s.len() - 1 implies s[j] == #[trigger] t[j] by {}
        match first_named(t, name) {
            Some(i) => {
                assert(s[i] == t[i]);
                assert forall|j: int| 0 <= j < i implies #[trigger] s[j].name@ != name by {
                    assert(s[j] == t[j]);
                }
            },
            None => {
                assert forall|j: int| 0 <= j < s.len() - 1 implies #[trigger] s[j].name@ != name by {
                    assert(s[j] == t[j]);
                }
            },
        }
    }
}

/// The position of the first player named `name`.
pub fn position_of_name(players: &Vec<Player>, name: &String) -> (r: Option<usize>)
    ensures
        r matches Some(i) ==> first_named(players@, name@) == Some(i as int),
        r is None ==> first_named(players@, name@) is None,
{
    let ghost s = players@;
    let mut i: usize = 0;
    assert(s.take(0) =~= Seq::<Player>::empty());
    while i < players.len()
        invariant
            players@ == s,
            i <= s.len(),
            first_named(s.take(i as int), name@) is None,
        decreases s.len() - i,
    {
        assert(s.take(i + 1).drop_last() =~= s.take(i as int));
        if players[i].name == *name {
            assert(first_named(s.take(i + 1), name@) == Some(i as int));
            proof {
                lemma_first_named_prefix(s, name@, i + 1);
            }
            return Some(i);
        }
        i = i + 1;
    }
    assert(s.take(i as int) =~= s);
    None
}

/// `s` without its first player named `name`, the last player moved into
/// that place.
pub open spec fn without_first_named(s: Seq<Player>, name: Seq<char>) -> Seq<Player> {
    match first_named(s, name) {
        Some(i) => s.update(i, s.last()).drop_last(),
        None => s,
    }
}

/// Records a player's new personal best: an entry under the same name
/// gives way (the last entry fills its place), the player joins, and the
/// leaderboard is sorted again.
pub fn upsert_player(players: &mut Vec<Player>, player: Player)
    ensures
        final(players)@ == ranked(without_first_named(old(players)@, player.name@).push(player)),
        is_ranked(final(players)@),
{
    let ghost name = player.name@;
    if let Some(index) = position_of_name(players, &player.name) {
        proof {
            lemma_first_named(players@, name);
        }
        players.swap_remove(index);
    }
    players.push(player);
    sort_players(players);
}

/// After an update the player is on the leaderboard, and the leaderboard
/// holds one entry fewer than before plus the newcomer where the name was
/// already there.
pub proof fn lemma_upsert_keeps_player(s: Seq<Player>, player: Player)
    ensures
        ranked(without_first_named(s, player.name@).push(player)).contains(player),
        ranked(without_first_named(s, player.name@).push(player)).len() == if first_named(
            s,
            player.name@,
        ) is Some {
            s.len()
        } else {
            s.len() + 1
        },
{
    let t = without_first_named(s, player.name@).push(player);
    lemma_first_named(s, player.name@);
    lemma_ranked_is_permutation(t);
    assert(t[t.len() - 1] == player);
    assert(t.to_multiset().count(player) > 0);
    assert(ranked(t).to_multiset().count(player) > 0);
    assert(ranked(t).to_multiset().len() == t.to_multiset().len());
}

/// An update replaces exactly the first entry under the player's name, if
/// there is one, by the player: the updated board holds the old players
/// less that entry, plus the player.
pub proof fn lemma_upsert_replaces_first_namesake(s: Seq<Player>, player: Player)
    ensures
        ranked(without_first_named(s, player.name@).push(player)).to_multiset() =~= match first_named(
            s,
            player.name@,
        ) {
            Some(i) => s.to_multiset().remove(s[i]).insert(player),
            None => s.to_multiset().insert(player),
        },
{
    broadcast use vstd::multiset::group_multiset_axioms;
    broadcast use vstd::seq_lib::to_multiset_update;
    broadcast use vstd::seq_lib::to_multiset_remove;

    let w = without_first_named(s, player.name@);
    lemma_first_named(s, player.name@);
    lemma_ranked_is_permutation(w.push(player));
    match first_named(s, player.name@) {
        Some(i) => {
            let u = s.update(i, s.last());
            assert(u.to_multiset() == s.to_multiset().insert(s.last()).remove(s[i]));
            assert(u.drop_last() =~= u.remove(u.len() - 1));
            assert(u[u.len() - 1] == s.last());
            assert(w.to_multiset() == u.to_multiset().remove(s.last()));
            assert(w.to_multiset() =~= s.to_multiset().remove(s[i]));
        },
        None => {},
    }
}

/// The leaderboard order is a strict weak order: nobody ranks above
/// themselves, ranking above is asymmetric and transitive, and any two
/// players either tie or one of them ranks above the other.
pub proof fn lemma_rank_order(a: Player, b: Player, c: Player)
    ensures
        !ranks_before(a, a),
        ranks_before(a, b) ==> !ranks_before(b, a),
        ranks_before(a, b) && ranks_before(b, c) ==> ranks_before(a, c),
        same_rank(a, b) <==> !ranks_before(a, b) && !ranks_before(b, a),
        same_rank(a, b) && same_rank(b, c) ==> same_rank(a, c),
{
}

} // verus!
