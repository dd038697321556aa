//! Tiebreakers: what settles the teams that the sub-orders leave tied.
//!
//! A tiebreaker answers the question how one team compares to another.
//! Teams that are tied are ranked by asking it, one newcomer at a time: the
//! newcomer goes behind the leading teams that it is less than.
use crate::group::laws::{
    lemma_arranges_strict, lemma_drawn_single, lemma_drawn_sorted, lemma_slot, sorted_by,
    strictly_orders,
};
use crate::group::order::{firsts, is_strict, GroupOrder, NonStrictGroupOrder};
use crate::group::{Group, GroupError};
use crate::team::{TeamId, TeamRank};
use rand::Rng;
use std::cmp::Ordering;
use std::collections::HashMap;
use vstd::prelude::*;

verus! {

broadcast use vstd::std_specs::hash::group_hash_axioms;

/// How one team compares to another.
#[derive(Clone, Copy, Debug, PartialEq, Eq, Structural)]
pub enum Outcome {
    /// The first team is the worse one.
    Less,
    /// Neither team is better.
    Equal,
    /// The first team is the better one.
    Greater,
}

/// How `x` compares to `y`.
pub open spec fn compare(x: int, y: int) -> Outcome {
    if x < y {
        Outcome::Less
    } else if x == y {
        Outcome::Equal
    } else {
        Outcome::Greater
    }
}

/// Whether `team` is less than `other` by `answers`.
pub open spec fn behind(
    answers: Map<(TeamId, TeamId), Outcome>,
    team: TeamId,
    other: TeamId,
) -> bool {
    answers[(team, other)] == Outcome::Less
}

/// Where `team` goes in `ranked`: behind the leading teams that it is less
/// than.
pub open spec fn slot(
    ranked: Seq<TeamId>,
    team: TeamId,
    answers: Map<(TeamId, TeamId), Outcome>,
) -> int
    decreases ranked.len(),
{
    if ranked.len() == 0 || !behind(answers, team, ranked[0]) {
        0
    } else {
        1 + slot(ranked.drop_first(), team, answers)
    }
}

/// The teams of `order` from best to worst by `answers`: each team in turn
/// takes its slot among those that came before it.
pub open spec fn drawn(order: Seq<TeamId>, answers: Map<(TeamId, TeamId), Outcome>) -> Seq<
    TeamId,
>
    decreases order.len(),
{
    if order.len() == 0 {
        Seq::empty()
    } else {
        let ranked = drawn(order.drop_last(), answers);
        ranked.insert(slot(ranked, order.last(), answers), order.last())
    }
}

/// The teams of all subsets from best to worst: the subsets stay in their
/// order, and the teams of each are ranked by `answers`.
pub open spec fn settled(
    order: Seq<Seq<TeamId>>,
    answers: Map<(TeamId, TeamId), Outcome>,
) -> Seq<TeamId>
    decreases order.len(),
{
    if order.len() == 0 {
        Seq::empty()
    } else {
        settled(order.drop_last(), answers) + drawn(order.last(), answers)
    }
}

/// Whether `answers` holds an answer for every two teams that stand at
/// different places of `order`, whichever of them is asked about first.
pub open spec fn decided(answers: Map<(TeamId, TeamId), Outcome>, order: Seq<TeamId>) -> bool {
    forall|i: int, j: int|
        0 <= i < order.len() && 0 <= j < order.len() && i != j ==> answers.contains_key(
            (#[trigger] order[i], #[trigger] order[j]),
        )
}

/// Whether `answers` can settle every subset of `order`.
pub open spec fn resolves(
    answers: Map<(TeamId, TeamId), Outcome>,
    order: Seq<Seq<TeamId>>,
) -> bool {
    forall|i: int| 0 <= i < order.len() ==> decided(answers, #[trigger] order[i])
}

/// Whether `flat` lists the teams of `order` subset by subset: the teams of
/// each subset stand together, in some order, where the subset stands.
pub open spec fn arranges(flat: Seq<TeamId>, order: Seq<Seq<TeamId>>) -> bool
    decreases order.len(),
{
    if order.len() == 0 {
        flat.len() == 0
    } else {
        let n = flat.len() - order.last().len();
        &&& n >= 0
        &&& flat.skip(n).to_multiset() == order.last().to_multiset()
        &&& arranges(flat.take(n), order.drop_last())
    }
}

/// The outcome that an ordering of the standard library stands for.
pub open spec fn outcome_of(o: Ordering) -> Outcome {
    match o {
        Ordering::Less => Outcome::Less,
        Ordering::Equal => Outcome::Equal,
        Ordering::Greater => Outcome::Greater,
    }
}

impl Outcome {
    /// The same outcome as an ordering of the standard library.
    pub fn ordering(self) -> (o: Ordering)
        ensures
            outcome_of(o) == self,
    {
        match self {
            Outcome::Less => Ordering::Less,
            Outcome::Equal => Ordering::Equal,
            Outcome::Greater => Ordering::Greater,
        }
    }

    /// The outcome that an ordering of the standard library stands for.
    pub fn of(o: Ordering) -> (outcome: Outcome)
        ensures
            outcome == outcome_of(o),
    {
        match o {
            Ordering::Less => Outcome::Less,
            Ordering::Equal => Outcome::Equal,
            Ordering::Greater => Outcome::Greater,
        }
    }
}

/// Associated with [`crate::group::order::Rules`] to ensure a strict order.
pub trait Tiebreaker {
    /// The comparisons that the tiebreaker can make, each with its answer
    /// where the answers are fixed.
    spec fn answers(&self) -> Map<(TeamId, TeamId), Outcome>;

    /// Whether the answer to a comparison depends on nothing but the teams
    /// compared. Where it does not, nothing is known of an answer.
    spec fn fixed(&self) -> bool;

    /// Answers a comparison posed like this: "Compare `id_1` to `id_2`".
    /// If the answer is `Ordering::Greater`, `id_1` is the better team.
    fn cmp(&self, id_1: TeamId, id_2: TeamId) -> (o: Ordering)
        requires
            self.answers().contains_key((id_1, id_2)),
        ensures
            self.fixed() ==> outcome_of(o) == self.answers()[(id_1, id_2)],
    ;

    /// Whether the tiebreaker can compare `id_1` to `id_2`.
    fn decides(&self, id_1: TeamId, id_2: TeamId) -> (known: bool)
        ensures
            known == self.answers().contains_key((id_1, id_2)),
    ;

    /// Whether `id_1` is less than `id_2`.
    fn is_behind(&self, id_1: TeamId, id_2: TeamId) -> (less: bool)
        requires
            self.answers().contains_key((id_1, id_2)),
        ensures
            self.fixed() ==> less == behind(self.answers(), id_1, id_2),
    {
        match self.cmp(id_1, id_2) {
            Ordering::Less => true,
            _ => false,
        }
    }

    /// Whether the tiebreaker can compare every two teams that stand at
    /// different places of `order`.
    fn decides_all(&self, order: &[TeamId]) -> (known: bool)
        ensures
            known == decided(self.answers(), order@),
    {
        let mut i: usize = 0;
        while i < order.len()
            invariant
                i <= order@.len(),
                forall|a: int, b: int|
                    0 <= a < i && 0 <= b < order@.len() && a != b ==> self.answers().contains_key(
                        (#[trigger] order@[a], #[trigger] order@[b]),
                    ),
            decreases order@.len() - i,
        {
            let mut j: usize = 0;
            while j < order.len()
                invariant
                    i < order@.len(),
                    j <= order@.len(),
                    forall|b: int|
                        0 <= b < j && i != b ==> self.answers().contains_key(
                            (order@[i as int], #[trigger] order@[b]),
                        ),
                decreases order@.len() - j,
            {
                if i != j && !self.decides(order[i], order[j]) {
                    return false;
                }
                j += 1;
            }
            i += 1;
        }
        true
    }

    /// Whether the tiebreaker can settle every subset of `non_strict`.
    fn settles(&self, non_strict: &NonStrictGroupOrder) -> (known: bool)
        ensures
            known == resolves(self.answers(), non_strict@),
    {
        let subsets = &non_strict.0;
        let mut i: usize = 0;
        while i < subsets.len()
            invariant
                i <= subsets@.len(),
                subsets@.len() == non_strict@.len(),
                forall|k: int| 0 <= k < subsets@.len() ==> (#[trigger] subsets@[k])@ == non_strict@[k],
                forall|k: int| 0 <= k < i ==> decided(self.answers(), #[trigger] non_strict@[k]),
            decreases subsets@.len() - i,
        {
            if !self.decides_all(subsets[i].as_slice()) {
                assert(!decided(self.answers(), non_strict@[i as int]));
                return false;
            }
            i += 1;
        }
        true
    }

    /// Ranks teams that are tied with each other, from best to worst.
    ///
    /// The result always holds the teams of `order`, each as often as
    /// `order` does. Where the answers are fixed it is the ranking that
    /// they determine. Where, on top of that, being less is a strict total
    /// order on the teams, every team of the ranking is less than every
    /// team before it.
    fn order_sub_group(&self, group: &Group, order: &[TeamId]) -> (ranking: GroupOrder)
        requires
            decided(self.answers(), order@),
        ensures
            ranking@.to_multiset() == order@.to_multiset(),
            self.fixed() ==> ranking@ == drawn(order@, self.answers()),
            self.fixed() && order@.no_duplicates() && strictly_orders(self.answers(), order@)
                ==> sorted_by(ranking@, self.answers()),
    {
        let ghost answers = self.answers();
        let mut ranked: Vec<TeamId> = Vec::new();
        let mut i: usize = 0;
        assert(order@.take(0) == ranked@);
        while i < order.len()
            invariant
                i <= order@.len(),
                answers == self.answers(),
                decided(answers, order@),
                ranked@.to_multiset() == order@.take(i as int).to_multiset(),
                forall|j: int|
                    0 <= j < ranked@.len() ==> order@.take(i as int).contains(
                        #[trigger] ranked@[j],
                    ),
                self.fixed() ==> ranked@ == drawn(order@.take(i as int), answers),
            decreases order@.len() - i,
        {
            let team = order[i];
            let mut k: usize = 0;
            let mut searching = true;
            while searching && k < ranked.len()
                invariant
                    k <= ranked@.len(),
                    i < order@.len(),
                    team == order@[i as int],
                    answers == self.answers(),
                    decided(answers, order@),
                    forall|j: int|
                        0 <= j < ranked@.len() ==> order@.take(i as int).contains(
                            #[trigger] ranked@[j],
                        ),
                    self.fixed() ==> forall|j: int|
                        0 <= j < k ==> behind(answers, team, #[trigger] ranked@[j]),
                    !searching ==> k < ranked@.len() && (self.fixed() ==> !behind(
                        answers,
                        team,
                        ranked@[k as int],
                    )),
                decreases ranked@.len() - k + (if searching { 1int } else { 0int }),
            {
                proof {
                    let met = order@.take(i as int);
                    assert(met.contains(ranked@[k as int]));
                    let p = choose|p: int| 0 <= p < met.len() && met[p] == ranked@[k as int];
                    assert(answers.contains_key((order@[i as int], order@[p])));
                }
                if self.is_behind(team, ranked[k]) {
                    k += 1;
                } else {
                    searching = false;
                }
            }
            proof {
                let before = order@.take(i as int);
                assert(order@.take(i + 1) == before.push(team));
                assert(order@.take(i + 1).drop_last() == before);
                vstd::seq_lib::to_multiset_build(before, team);
                vstd::seq_lib::to_multiset_insert(ranked@, k as int, team);
                if self.fixed() {
                    lemma_slot(ranked@, team, answers, k as int);
                }
            }
            let ghost earlier = ranked@;
            ranked.insert(k, team);
            proof {
                let met = order@.take(i as int);
                let now = order@.take(i + 1);
                assert forall|j: int| 0 <= j < ranked@.len() implies now.contains(
                    #[trigger] ranked@[j],
                ) by {
                    if j == k {
                        assert(now[i as int] == ranked@[j]);
                    } else {
                        let e = if j < k {
                            j
                        } else {
                            j - 1
                        };
                        assert(ranked@[j] == earlier[e]);
                        assert(met.contains(earlier[e]));
                        let p = choose|p: int| 0 <= p < met.len() && met[p] == earlier[e];
                        assert(now[p] == ranked@[j]);
                    }
                }
            }
            i += 1;
        }
        proof {
            assert(order@.take(i as int) == order@);
            if self.fixed() && order@.no_duplicates() && strictly_orders(answers, order@) {
                lemma_drawn_sorted(order@, answers);
            }
        }
        GroupOrder(ranked)
    }

    /// Turns an order that may hold ties into a strict one. The subsets stay
    /// in their order; a subset of one team is taken as it is, and the teams
    /// of any other subset are ranked among themselves. An order that is
    /// strict already comes back unchanged.
    fn order(&self, group: &Group, non_strict: NonStrictGroupOrder) -> (ranking: GroupOrder)
        requires
            resolves(self.answers(), non_strict@),
        ensures
            arranges(ranking@, non_strict@),
            self.fixed() ==> ranking@ == settled(non_strict@, self.answers()),
            is_strict(non_strict@) ==> ranking@ == firsts(non_strict@),
    {
        let ghost answers = self.answers();
        let subsets = non_strict.0;
        let mut acc: Vec<TeamId> = Vec::new();
        let mut i: usize = 0;
        assert(non_strict@.take(0).len() == 0);
        while i < subsets.len()
            invariant
                i <= subsets@.len(),
                subsets@.len() == non_strict@.len(),
                forall|k: int| 0 <= k < subsets@.len() ==> (#[trigger] subsets@[k])@ == non_strict@[k],
                answers == self.answers(),
                resolves(answers, non_strict@),
                arranges(acc@, non_strict@.take(i as int)),
                self.fixed() ==> acc@ == settled(non_strict@.take(i as int), answers),
            decreases subsets@.len() - i,
        {
            let x = &subsets[i];
            let ghost before = acc@;
            let ghost tied = non_strict@[i as int];
            assert(x@ == tied);
            assert(decided(answers, tied));
            if x.len() == 1 {
                acc.push(x[0]);
                proof {
                    assert(acc@ == before + tied);
                    lemma_drawn_single(x@[0], answers);
                    assert(tied == seq![x@[0]]);
                }
            } else {
                let mut piece = self.order_sub_group(group, x.as_slice());
                proof {
                    vstd::seq_lib::to_multiset_len(piece@);
                    vstd::seq_lib::to_multiset_len(tied);
                }
                let ghost ranked = piece@;
                acc.append(&mut piece.0);
                assert(acc@ == before + ranked);
                assert(acc@.skip(before.len() as int) == ranked);
            }
            proof {
                let upto = non_strict@.take(i + 1);
                assert(upto.drop_last() == non_strict@.take(i as int));
                assert(upto.last() == tied);
                let n = acc@.len() - tied.len();
                assert(n == before.len());
                assert(acc@.take(n) == before);
                if x@.len() == 1 {
                    assert(acc@.skip(n) == tied);
                }
                assert(acc@.skip(n).to_multiset() == tied.to_multiset());
                assert(arranges(acc@.take(n), upto.drop_last()));
                assert(arranges(acc@, upto));
            }
            i += 1;
        }
        proof {
            assert(non_strict@.take(i as int) == non_strict@);
            if is_strict(non_strict@) {
                lemma_arranges_strict(acc@, non_strict@);
            }
        }
        GroupOrder(acc)
    }
}

/// Manual tiebreaker
///
/// For actual tournaments some ties are settled out of anyone's control,
/// such as a drawing of lots that took place. This tiebreaker holds the
/// answers as they were given, pair by pair, in order to comply with actual
/// events. It has no answer for a pair that it was not given.
pub struct Manual(HashMap<u16, Outcome>);

/// The number under which the answer for the comparison of `id_1` to `id_2`
/// is kept.
pub open spec fn pair_code(id_1: TeamId, id_2: TeamId) -> u16 {
    (id_1.0 * 256 + id_2.0) as u16
}

/// Different comparisons are kept under different numbers.
pub proof fn lemma_pair_code_injective(a: (TeamId, TeamId), b: (TeamId, TeamId))
    ensures
        pair_code(a.0, a.1) == pair_code(b.0, b.1) <==> a == b,
{
}

/// The answers that a list of entries gives. Each entry says how its first
/// team compares to its second; of two entries for one comparison the later
/// one counts.
pub open spec fn answers_of(entries: Seq<(TeamId, TeamId, Outcome)>) -> Map<
    (TeamId, TeamId),
    Outcome,
>
    decreases entries.len(),
{
    if entries.len() == 0 {
        Map::empty()
    } else {
        let last = entries.last();
        answers_of(entries.drop_last()).insert((last.0, last.1), last.2)
    }
}

fn code_of(id_1: TeamId, id_2: TeamId) -> (code: u16)
    ensures
        code == pair_code(id_1, id_2),
{
    let high: u16 = id_1.0 as u16;
    let low: u16 = id_2.0 as u16;
    high * 256 + low
}

impl Manual {
    /// The answers as they are kept.
    pub closed spec fn table(&self) -> Map<u16, Outcome> {
        self.0@
    }

    /// A tiebreaker that gives the answers of `entries`.
    pub fn new(entries: Vec<(TeamId, TeamId, Outcome)>) -> (manual: Manual)
        ensures
            manual.answers() == answers_of(entries@),
    {
        let mut manual = Manual(HashMap::new());
        assert(manual.answers() =~= answers_of(entries@.take(0)));
        let mut i: usize = 0;
        while i < entries.len()
            invariant
                i <= entries@.len(),
                manual.answers() == answers_of(entries@.take(i as int)),
            decreases entries@.len() - i,
        {
            let entry = entries[i];
            let ghost before = manual.answers();
            let ghost kept = manual.0@;
            manual.0.insert(code_of(entry.0, entry.1), entry.2);
            proof {
                assert(entries@.take(i + 1).drop_last() == entries@.take(i as int));
                assert forall|p: (TeamId, TeamId)|
                    manual.answers().contains_key(p) <==> before.insert(
                        (entry.0, entry.1),
                        entry.2,
                    ).contains_key(p) by {
                    lemma_pair_code_injective(p, (entry.0, entry.1));
                    assert(before.contains_key(p) <==> kept.contains_key(pair_code(p.0, p.1)));
                }
                assert forall|p: (TeamId, TeamId)| manual.answers().contains_key(p) implies (
                #[trigger] manual.answers()[p]) == before.insert((entry.0, entry.1), entry.2)[p] by {
                    lemma_pair_code_injective(p, (entry.0, entry.1));
                    assert(before.contains_key(p) <==> kept.contains_key(pair_code(p.0, p.1)));
                }
                assert(manual.answers() =~= before.insert((entry.0, entry.1), entry.2));
            }
            i += 1;
        }
        assert(entries@.take(i as int) == entries@);
        manual
    }
}

impl Tiebreaker for Manual {
    open spec fn answers(&self) -> Map<(TeamId, TeamId), Outcome> {
        Map::new(
            |p: (TeamId, TeamId)| self.table().contains_key(pair_code(p.0, p.1)),
            |p: (TeamId, TeamId)| self.table()[pair_code(p.0, p.1)],
        )
    }

    open spec fn fixed(&self) -> bool {
        true
    }

    fn decides(&self, id_1: TeamId, id_2: TeamId) -> (known: bool) {
        self.0.contains_key(&code_of(id_1, id_2))
    }

    fn cmp(&self, id_1: TeamId, id_2: TeamId) -> (o: Ordering) {
        self.0.get(&code_of(id_1, id_2)).unwrap().ordering()
    }
}

/// A source of lots. Every draw stands for itself: nothing is known of what
/// a draw gives, and two draws may differ.
pub trait Lots {
    /// Draws a lot.
    fn draw(&self) -> bool;
}

/// Lots drawn from the random number generator of the running thread.
#[derive(Debug, Clone, Copy, PartialEq, Eq, Structural)]
pub struct ThreadLots;

/// Calls `rand::thread_rng` and, on the generator it returns, `Rng::gen`
/// for a `bool`. Nothing is claimed of the value.
#[verifier::external_body]
fn thread_lot() -> bool {
    rand::thread_rng().gen::<bool>()
}

impl Lots for ThreadLots {
    fn draw(&self) -> bool {
        thread_lot()
    }
}

/// Random tiebreaker: a drawing of lots.
///
/// Every comparison draws a lot of its own. The answers are therefore not
/// fixed, and those given while one set of teams is ranked need not agree
/// with each other: asked twice about the same two teams, the tiebreaker
/// may answer differently. What it returns is some ranking of the teams.
#[derive(Debug, Clone, Copy)]
pub struct Random<L: Lots = ThreadLots> {
    pub lots: L,
}

/// What a lot means for the team that is asked about first: it loses on
/// `true` and wins on `false`.
pub fn lot_outcome(lot: bool) -> (outcome: Outcome)
    ensures
        outcome == (if lot {
            Outcome::Less
        } else {
            Outcome::Greater
        }),
{
    if lot {
        Outcome::Less
    } else {
        Outcome::Greater
    }
}

impl Random<ThreadLots> {
    /// A drawing of lots from the random number generator of the running
    /// thread.
    pub fn new() -> (random: Self)
        ensures
            random.lots == ThreadLots,
    {
        Random { lots: ThreadLots }
    }
}

impl<L: Lots> Random<L> {
    /// A drawing of lots from `lots`.
    pub fn with_lots(lots: L) -> (random: Self)
        ensures
            random.lots == lots,
    {
        Random { lots }
    }
}

impl<L: Lots> Tiebreaker for Random<L> {
    /// Any two teams can be compared.
    open spec fn answers(&self) -> Map<(TeamId, TeamId), Outcome> {
        Map::total(|p: (TeamId, TeamId)| Outcome::Less)
    }

    open spec fn fixed(&self) -> bool {
        false
    }

    fn decides(&self, id_1: TeamId, id_2: TeamId) -> (known: bool) {
        true
    }

    fn cmp(&self, id_1: TeamId, id_2: TeamId) -> (o: Ordering)
        ensures
            outcome_of(o) != Outcome::Equal,
    {
        lot_outcome(self.lots.draw()).ordering()
    }
}

/// Rank tiebreaker: the team with the better rank in an outside ranking is
/// the better team. A lower rank is a better rank.
pub struct UefaRanking(HashMap<u8, TeamRank>);

/// Whether `ranks` holds a rank for every team of every one of `groups`.
pub open spec fn covers(ranks: Map<u8, TeamRank>, groups: Seq<Group>) -> bool {
    forall|g: int, t: int|
        0 <= g < groups.len() && 0 <= t < groups[g].teams().len() ==> ranks.contains_key(
            (#[trigger] groups[g].teams()[t]).0,
        )
}

impl UefaRanking {
    /// The rank of each ranked team, by the number of the team.
    pub closed spec fn ranks(&self) -> Map<u8, TeamRank> {
        self.0@
    }

    /// Whether `team` is ranked.
    pub open spec fn has_rank(&self, team: TeamId) -> bool {
        self.ranks().contains_key(team.0)
    }

    /// The rank of `team`.
    pub open spec fn rank_of(&self, team: TeamId) -> int {
        self.ranks()[team.0].0 as int
    }

    /// A tiebreaker by the ranks of `ranking_map`, which is keyed by the
    /// numbers of the teams. Fails exactly when a team of one of `groups`
    /// has no rank.
    pub fn try_new(groups: &[Group], ranking_map: HashMap<u8, TeamRank>) -> (ranking: Result<
        Self,
        GroupError,
    >)
        ensures
            covers(ranking_map@, groups@) ==> (ranking matches Ok(r) && r.ranks() == ranking_map@),
            !covers(ranking_map@, groups@) ==> (ranking matches Err(e) && e
                == GroupError::GenericError),
    {
        let mut g: usize = 0;
        while g < groups.len()
            invariant
                g <= groups@.len(),
                forall|a: int, t: int|
                    0 <= a < g && 0 <= t < groups@[a].teams().len() ==> ranking_map@.contains_key(
                        (#[trigger] groups@[a].teams()[t]).0,
                    ),
            decreases groups@.len() - g,
        {
            let teams = groups[g].team_ids();
            let mut t: usize = 0;
            while t < teams.len()
                invariant
                    g < groups@.len(),
                    t <= teams@.len(),
                    teams@ == groups@[g as int].teams(),
                    forall|b: int|
                        0 <= b < t ==> ranking_map@.contains_key((#[trigger] teams@[b]).0),
                decreases teams@.len() - t,
            {
                if !ranking_map.contains_key(&teams[t].0) {
                    assert(!ranking_map@.contains_key(groups@[g as int].teams()[t as int].0));
                    return Err(GroupError::GenericError);
                }
                t += 1;
            }
            g += 1;
        }
        Ok(UefaRanking(ranking_map))
    }
}

impl Tiebreaker for UefaRanking {
    /// Two teams can be compared if both are ranked. The team with the lower
    /// rank is the greater one.
    open spec fn answers(&self) -> Map<(TeamId, TeamId), Outcome> {
        Map::new(
            |p: (TeamId, TeamId)| self.has_rank(p.0) && self.has_rank(p.1),
            |p: (TeamId, TeamId)| compare(self.rank_of(p.1), self.rank_of(p.0)),
        )
    }

    open spec fn fixed(&self) -> bool {
        true
    }

    fn decides(&self, id_1: TeamId, id_2: TeamId) -> (known: bool) {
        self.0.contains_key(&id_1.0) && self.0.contains_key(&id_2.0)
    }

    /// Comparison by rank. The ranks are compared the other way round, so
    /// that a small rank is better than a large one.
    fn cmp(&self, id_1: TeamId, id_2: TeamId) -> (o: Ordering) {
        let rank_1 = self.0.get(&id_1.0).unwrap().0;
        let rank_2 = self.0.get(&id_2.0).unwrap().0;
        if rank_2 < rank_1 {
            Ordering::Less
        } else if rank_2 == rank_1 {
            Ordering::Equal
        } else {
            Ordering::Greater
        }
    }
}

} // verus!
