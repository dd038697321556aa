//! Group ordering
//!
//! A group is ordered by a list of sub-orders, see [`Rules`], followed by a
//! final [`Tiebreaker`]. The ordering is greedy: the next sub-order is only
//! applied while some teams are still tied, and only to them. If teams are
//! still tied when the sub-orders are used up, the tiebreaker settles them.
use crate::fair_play::{FifaFairPlayValue, UefaFairPlayValue};
use crate::game::{GoalCount, GoalDiff};
use crate::group::laws::{
    graded, lemma_blocks_nonempty, lemma_initial_regroups, lemma_order_is_complete,
    lemma_refined_regroups, lemma_settled_strict, lemma_split_by_graded, lemma_stats_are_totals,
};
use crate::group::stats::{internal_team_stats, numbered, team_stats, total, NumWins, UnaryStat};
use crate::group::tiebreak::{arranges, compare, drawn, resolves, settled, Outcome};
pub use crate::group::tiebreak::{Lots, Manual, Random, ThreadLots, Tiebreaker, UefaRanking};
use crate::group::{Group, GroupError, GroupPoint};
use crate::team::TeamId;
use std::cmp::Ordering;
use std::collections::{HashMap, HashSet};
use std::marker::PhantomData;
use vstd::prelude::*;
use vstd::std_specs::iter::IteratorSpec;

verus! {

broadcast use vstd::std_specs::hash::group_hash_axioms;

/// Indexes [`GroupOrder`]. Rank 0 is the best.
#[derive(Clone, Copy, Debug, PartialEq, Eq, Structural)]
pub struct GroupRank(pub usize);

/// The teams of a group from best to worst.
#[derive(Debug, PartialEq)]
pub struct GroupOrder(pub Vec<TeamId>);

/// Intermediate group order: a list, from best to worst, of lists of teams
/// that are tied with each other.
#[derive(Debug, PartialEq)]
pub struct NonStrictGroupOrder(pub Vec<Vec<TeamId>>);

impl View for GroupOrder {
    type V = Seq<TeamId>;

    open spec fn view(&self) -> Seq<TeamId> {
        self.0@
    }
}

impl View for NonStrictGroupOrder {
    type V = Seq<Seq<TeamId>>;

    open spec fn view(&self) -> Seq<Seq<TeamId>> {
        Seq::new(self.0@.len(), |i: int| self.0@[i]@)
    }
}

/// Whether every subset holds exactly one team.
pub open spec fn is_strict(order: Seq<Seq<TeamId>>) -> bool {
    forall|i: int| 0 <= i < order.len() ==> (#[trigger] order[i]).len() == 1
}

/// The teams of a strict order, one per subset.
pub open spec fn firsts(order: Seq<Seq<TeamId>>) -> Seq<TeamId> {
    Seq::new(order.len(), |i: int| order[i][0])
}

impl GroupOrder {
    /// The best team.
    pub fn winner(&self) -> (team: TeamId)
        requires
            self@.len() > 0,
        ensures
            team == self@[0],
    {
        self[GroupRank(0)]
    }

    /// The second best team.
    pub fn runner_up(&self) -> (team: TeamId)
        requires
            self@.len() > 1,
        ensures
            team == self@[1],
    {
        self[GroupRank(1)]
    }

    /// How many teams are ordered.
    pub fn len(&self) -> (n: usize)
        ensures
            n == self@.len(),
    {
        self.0.len()
    }

    /// The teams from best to worst.
    pub fn iter(&self) -> (teams: std::slice::Iter<'_, TeamId>)
        ensures
            teams.remaining() == self@.as_ref(),
    {
        self.0.iter()
    }

    /// Takes an order without ties as it stands. Fails exactly when some
    /// subset does not hold exactly one team.
    pub fn try_from(value: NonStrictGroupOrder) -> (order: Result<GroupOrder, GroupError>)
        ensures
            is_strict(value@) ==> (order matches Ok(o) && o@ == firsts(value@)),
            !is_strict(value@) ==> order == Err::<GroupOrder, GroupError>(
                GroupError::NonStrictOrder,
            ),
    {
        if value.is_strict() {
            let mut teams: Vec<TeamId> = Vec::new();
            let mut i: usize = 0;
            while i < value.0.len()
                invariant
                    i <= value.0@.len(),
                    is_strict(value@),
                    teams@ == firsts(value@).take(i as int),
                decreases value.0@.len() - i,
            {
                assert(value@[i as int].len() == 1);
                teams.push(value.0[i][0]);
                assert(teams@ == firsts(value@).take(i + 1));
                i += 1;
            }
            assert(teams@ == firsts(value@));
            Ok(GroupOrder(teams))
        } else {
            Err(GroupError::NonStrictOrder)
        }
    }
}

impl vstd::std_specs::core::IndexSpecImpl<GroupRank> for GroupOrder {
    /// An order can be asked for the ranks that it has teams at.
    open spec fn index_req(&self, index: &GroupRank) -> bool {
        index.0 < self@.len()
    }
}

impl std::ops::Index<GroupRank> for GroupOrder {
    type Output = TeamId;

    /// The team at rank `idx`.
    fn index(&self, idx: GroupRank) -> (team: &TeamId)
        ensures
            *team == self@[idx.0 as int],
    {
        &self.0[idx.0]
    }
}

impl IntoIterator for GroupOrder {
    type Item = TeamId;

    type IntoIter = std::vec::IntoIter<TeamId>;

    /// The teams from best to worst.
    fn into_iter(self) -> (teams: std::vec::IntoIter<TeamId>)
        ensures
            teams.remaining() == self@,
    {
        self.0.into_iter()
    }
}

impl IntoIterator for NonStrictGroupOrder {
    type Item = Vec<TeamId>;

    type IntoIter = std::vec::IntoIter<Vec<TeamId>>;

    /// The subsets from best to worst.
    fn into_iter(self) -> (subsets: std::vec::IntoIter<Vec<TeamId>>)
        ensures
            subsets.remaining() == self.0@,
    {
        self.0.into_iter()
    }
}

impl NonStrictGroupOrder {
    /// The order in which the teams of `x` are tied with each other.
    pub fn single(x: Vec<TeamId>) -> (order: NonStrictGroupOrder)
        ensures
            order@ == seq![x@],
    {
        let mut subsets: Vec<Vec<TeamId>> = Vec::new();
        subsets.push(x);
        let order = NonStrictGroupOrder(subsets);
        assert(order@ =~= seq![x@]);
        order
    }

    /// The order of no teams.
    pub fn empty() -> (order: NonStrictGroupOrder)
        ensures
            order@ == Seq::<Seq<TeamId>>::empty(),
    {
        let order = NonStrictGroupOrder(Vec::new());
        assert(order@ =~= Seq::<Seq<TeamId>>::empty());
        order
    }

    /// The subsets from best to worst.
    pub fn iter(&self) -> (subsets: std::slice::Iter<'_, Vec<TeamId>>)
        ensures
            subsets.remaining() == self.0@.as_ref(),
    {
        self.0.iter()
    }

    /// The order before any rule has been applied: all teams of the group
    /// tied with each other. A group without teams has the empty order.
    pub fn init(group: &Group) -> (order: NonStrictGroupOrder)
        ensures
            order@ == initial(group.teams()),
            regroups(order@, group.teams()),
    {
        let teams = group.team_ids();
        proof {
            lemma_initial_regroups(teams@);
        }
        if teams.len() == 0 {
            NonStrictGroupOrder::empty()
        } else {
            NonStrictGroupOrder::single(teams.clone())
        }
    }

    /// Whether no two teams are tied: every subset holds exactly one team.
    pub fn is_strict(&self) -> (strict: bool)
        ensures
            strict == is_strict(self@),
    {
        let mut i: usize = 0;
        while i < self.0.len()
            invariant
                i <= self.0@.len(),
                forall|k: int| 0 <= k < i ==> (#[trigger] self@[k]).len() == 1,
            decreases self.0@.len() - i,
        {
            if self.0[i].len() != 1 {
                assert(self@[i as int].len() != 1);
                return false;
            }
            i += 1;
        }
        true
    }

    /// Adds `team` to the last subset, or to a first subset if there is none
    /// yet.
    pub fn extend_sub_order(self, team: TeamId) -> (order: NonStrictGroupOrder)
        ensures
            order@ == (if self@.len() == 0 {
                seq![seq![team]]
            } else {
                self@.drop_last().push(self@.last().push(team))
            }),
    {
        let ghost before = self@;
        let mut subsets = self.0;
        let mut new_inner: Vec<TeamId> = match subsets.pop() {
            Some(inner) => inner,
            None => Vec::new(),
        };
        new_inner.push(team);
        subsets.push(new_inner);
        let order = NonStrictGroupOrder(subsets);
        assert(order@ =~= (if before.len() == 0 {
            seq![seq![team]]
        } else {
            before.drop_last().push(before.last().push(team))
        }));
        order
    }

    /// Adds a new last subset that holds `team` alone.
    pub fn add_sub_order(self, team: TeamId) -> (order: NonStrictGroupOrder)
        ensures
            order@ == self@.push(seq![team]),
    {
        let ghost before = self@;
        let mut subsets = self.0;
        let mut inner: Vec<TeamId> = Vec::new();
        inner.push(team);
        subsets.push(inner);
        let order = NonStrictGroupOrder(subsets);
        assert(order@ =~= before.push(seq![team]));
        order
    }

    /// The subsets of `self` followed by those of `sub_order`.
    pub fn extend(self, sub_order: NonStrictGroupOrder) -> (order: NonStrictGroupOrder)
        ensures
            order@ == self@ + sub_order@,
    {
        let ghost before = self@;
        let ghost added = sub_order@;
        let mut subsets = self.0;
        let mut more = sub_order.0;
        subsets.append(&mut more);
        let order = NonStrictGroupOrder(subsets);
        assert(order@ =~= before + added);
        order
    }
}

/// All of `teams` tied with each other, or the empty order if there are none.
pub open spec fn initial(teams: Seq<TeamId>) -> Seq<Seq<TeamId>> {
    if teams.len() == 0 {
        Seq::empty()
    } else {
        seq![teams]
    }
}

/// Whether `parts` holds the teams of `tied`, each as often as `tied` does,
/// in subsets none of which is empty.
pub open spec fn regroups(parts: Seq<Seq<TeamId>>, tied: Seq<TeamId>) -> bool {
    &&& parts.flatten().to_multiset() == tied.to_multiset()
    &&& forall|i: int| 0 <= i < parts.len() ==> (#[trigger] parts[i]).len() > 0
}

/// Total, but not strict order
///
/// A complete order of a group is defined by a prioritised list of rules of
/// this kind. Each gives every team a score, and splits teams that are tied
/// into subsets, from best to worst, of teams with the same score.
pub trait SubOrdering {
    /// The score of every team when the teams of `tied` are to be split.
    spec fn scores(&self, group: &Group, tied: Seq<TeamId>) -> Map<TeamId, int>;

    /// Splits the teams of `order`, which are tied, by their scores.
    ///
    /// The subsets hold the teams of `order` and none is empty. The teams
    /// of a subset have the same score, and more than the teams of every
    /// subset behind it. Of two teams of a subset, the one that stands
    /// later in `order` comes first.
    fn order(&self, group: &Group, order: Vec<TeamId>) -> (sub_order: NonStrictGroupOrder)
        ensures
            sub_order@ == split_by(order@, self.scores(group, order@)),
            regroups(sub_order@, order@),
            graded(sub_order@, self.scores(group, order@)),
    ;
}

/// How the teams compare by what they have in `scores`: the team that has
/// more is the greater one.
pub open spec fn by_score(scores: Map<TeamId, int>) -> Map<(TeamId, TeamId), Outcome> {
    Map::total(|p: (TeamId, TeamId)| compare(scores[p.0], scores[p.1]))
}

/// The teams of `ranked`, which stand from best to worst, in subsets of
/// neighbours that have the same in `scores`.
pub open spec fn blocks(ranked: Seq<TeamId>, scores: Map<TeamId, int>) -> Seq<Seq<TeamId>>
    decreases ranked.len(),
{
    if ranked.len() == 0 {
        Seq::empty()
    } else {
        let before = blocks(ranked.drop_last(), scores);
        let team = ranked.last();
        if ranked.len() >= 2 && scores[ranked[ranked.len() - 2]] == scores[team] {
            before.drop_last().push(before.last().push(team))
        } else {
            before.push(seq![team])
        }
    }
}

/// The teams of `tied` split by what they have in `scores`: the subsets
/// stand from the greatest score to the least, the teams of a subset have
/// the same, and of two of them the one that stands later in `tied` comes
/// first.
pub open spec fn split_by(tied: Seq<TeamId>, scores: Map<TeamId, int>) -> Seq<Seq<TeamId>> {
    blocks(drawn(tied, by_score(scores)), scores)
}

/// What `team` has in `stats`, which is keyed by the numbers of the teams.
/// A team that is not in `stats` has nothing.
pub open spec fn score_in(stats: Map<u8, i128>, team: TeamId) -> int {
    if stats.contains_key(team.0) {
        stats[team.0] as int
    } else {
        0
    }
}

/// What every team has in `stats`.
pub open spec fn scores_of(stats: Map<u8, i128>) -> Map<TeamId, int> {
    Map::total(|t: TeamId| score_in(stats, t))
}

/// What every team has of the statistic `T` over the games of the group in
/// which both sides are among `among`.
pub open spec fn totals<T: UnaryStat>(group: &Group, among: Set<TeamId>) -> Map<TeamId, int> {
    Map::total(|t: TeamId| total::<T>(group.played(), among, t))
}

/// What `team` has in `stats`.
pub fn score(stats: &HashMap<u8, i128>, team: TeamId) -> (s: i128)
    ensures
        s == score_in(stats@, team),
{
    match stats.get(&team.0) {
        Some(v) => *v,
        None => 0,
    }
}

/// Compares teams by what they have in a table of statistics.
struct ByStat<'a> {
    stats: &'a HashMap<u8, i128>,
}

impl<'a> Tiebreaker for ByStat<'a> {
    closed spec fn answers(&self) -> Map<(TeamId, TeamId), Outcome> {
        by_score(scores_of(self.stats@))
    }

    closed spec fn fixed(&self) -> bool {
        true
    }

    fn decides(&self, id_1: TeamId, id_2: TeamId) -> (known: bool) {
        true
    }

    fn cmp(&self, id_1: TeamId, id_2: TeamId) -> (o: Ordering) {
        let stat_1 = score(self.stats, id_1);
        let stat_2 = score(self.stats, id_2);
        if stat_1 < stat_2 {
            Ordering::Less
        } else if stat_1 == stat_2 {
            Ordering::Equal
        } else {
            Ordering::Greater
        }
    }
}

/// Splits the teams of `order` by what they have in `stats`.
///
/// The teams are ranked from the most to the least, a team that stands
/// later in `order` before one that has the same. Then neighbours that have
/// the same are put together.
pub fn split_by_stats(group: &Group, stats: &HashMap<u8, i128>, order: Vec<TeamId>) -> (sub_order:
    NonStrictGroupOrder)
    ensures
        sub_order@ == split_by(order@, scores_of(stats@)),
        regroups(sub_order@, order@),
        graded(sub_order@, scores_of(stats@)),
{
    let ghost scores = scores_of(stats@);
    proof {
        lemma_split_by_graded(order@, scores);
    }
    let by_stat = ByStat { stats };
    assert forall|i: int, j: int|
        0 <= i < order@.len() && 0 <= j < order@.len() && i != j implies by_stat.answers().contains_key(
        (#[trigger] order@[i], #[trigger] order@[j]),
    ) by {}
    let ranked = by_stat.order_sub_group(group, order.as_slice());
    let teams = &ranked.0;
    let mut previous: i128 = 0;
    let mut acc = NonStrictGroupOrder::empty();
    let mut i: usize = 0;
    assert(teams@.take(0) == Seq::<TeamId>::empty());
    while i < teams.len()
        invariant
            i <= teams@.len(),
            scores == scores_of(stats@),
            acc@ == blocks(teams@.take(i as int), scores),
            i > 0 ==> previous == scores[teams@[i - 1]],
        decreases teams@.len() - i,
    {
        let team = teams[i];
        let stat = score(stats, team);
        proof {
            let upto = teams@.take(i + 1);
            assert(upto.drop_last() == teams@.take(i as int));
            assert(upto.last() == team);
            lemma_blocks_nonempty(teams@.take(i as int), scores);
            if i > 0 {
                assert(upto[upto.len() - 2] == teams@[i - 1]);
            }
        }
        if i > 0 && previous == stat {
            acc = acc.extend_sub_order(team);
        } else {
            acc = acc.add_sub_order(team);
        }
        previous = stat;
        i += 1;
    }
    assert(teams@.take(i as int) == teams@);
    acc
}

/// Ordering stat based on all games in the group
///
/// Splits tied teams by what they have of the statistic `T` over all games
/// of the group, whichever teams are being split.
pub struct AllGroupStat<T: UnaryStat>(pub PhantomData<T>);

/// Ordering stat based on the internal games in a teams subset
///
/// Splits tied teams by what they have of the statistic `T` over the games
/// of the group in which both sides are among the teams being split.
pub struct InternalGroupStat<T: UnaryStat>(pub PhantomData<T>);

impl<T: UnaryStat> AllGroupStat<T> {
    pub fn new() -> (rule: Self)
        ensures
            rule == AllGroupStat(PhantomData::<T>),
    {
        AllGroupStat(PhantomData::<T>)
    }
}

impl<T: UnaryStat> InternalGroupStat<T> {
    pub fn new() -> (rule: Self)
        ensures
            rule == InternalGroupStat(PhantomData::<T>),
    {
        InternalGroupStat(PhantomData::<T>)
    }
}

/// The numbers of `teams`.
pub fn numbers_of(teams: &Vec<TeamId>) -> (numbers: HashSet<u8>)
    ensures
        numbered(numbers@) == teams@.to_set(),
{
    let mut numbers: HashSet<u8> = HashSet::new();
    let mut i: usize = 0;
    while i < teams.len()
        invariant
            i <= teams@.len(),
            forall|k: u8| numbers@.contains(k) <==> teams@.take(i as int).contains(TeamId(k)),
        decreases teams@.len() - i,
    {
        numbers.insert(teams[i].0);
        proof {
            let met = teams@.take(i as int);
            let now = teams@.take(i + 1);
            assert(now == met.push(teams@[i as int]));
            assert forall|k: u8| numbers@.contains(k) <==> now.contains(TeamId(k)) by {
                if met.contains(TeamId(k)) {
                    let j = choose|j: int| 0 <= j < met.len() && met[j] == TeamId(k);
                    assert(now[j] == TeamId(k));
                }
                if k == teams@[i as int].0 {
                    assert(now[i as int] == TeamId(k));
                }
            }
        }
        i += 1;
    }
    proof {
        assert(teams@.take(i as int) == teams@);
        assert forall|t: TeamId| numbered(numbers@).contains(t) <==> teams@.to_set().contains(
            t,
        ) by {
            assert(TeamId(t.0) == t);
        }
        assert(numbered(numbers@) =~= teams@.to_set());
    }
    numbers
}

impl<T: UnaryStat> SubOrdering for AllGroupStat<T> {
    /// What the team has of the statistic over all games of the group.
    open spec fn scores(&self, group: &Group, tied: Seq<TeamId>) -> Map<TeamId, int> {
        totals::<T>(group, Set::full())
    }

    fn order(&self, group: &Group, order: Vec<TeamId>) -> (sub_order: NonStrictGroupOrder) {
        let stats_all_teams = team_stats::<T>(group);
        proof {
            use_type_invariant(group);
            lemma_stats_are_totals::<T>(group, stats_all_teams@, Set::full());
        }
        split_by_stats(group, &stats_all_teams, order)
    }
}

impl<T: UnaryStat> SubOrdering for InternalGroupStat<T> {
    /// What the team has of the statistic over the games among the teams of
    /// `tied`.
    open spec fn scores(&self, group: &Group, tied: Seq<TeamId>) -> Map<TeamId, int> {
        totals::<T>(group, tied.to_set())
    }

    fn order(&self, group: &Group, order: Vec<TeamId>) -> (sub_order: NonStrictGroupOrder) {
        let subset = numbers_of(&order);
        let internal_stats = internal_team_stats::<T>(group, &subset);
        proof {
            use_type_invariant(group);
            lemma_stats_are_totals::<T>(group, internal_stats@, order@.to_set());
        }
        split_by_stats(group, &internal_stats, order)
    }
}

/// Group ordering rules
///
/// All ordering rules have an ordered list of sub-orders. These may leave
/// teams tied, therefore a proper ordering rule must also define a
/// tiebreaker, which maps an order that may hold ties to a strict one.
///
/// E.g.
///
/// - Fifa 2018 rules are an ordered list of seven sub-orders and then a
///   drawing of lots as the tiebreaker.
/// - Euro 2020 rules use a similar (but not the same) list of sub-orders but
///   instead let the team rank define the tiebreaker.
pub struct Rules<T: Tiebreaker> {
    pub non_strict: Vec<Rule>,
    pub tiebreaker: T,
}

/// The statistics that a rule can go by.
#[derive(Clone, Copy, Debug, PartialEq, Eq, Structural)]
pub enum StatKind {
    /// Points: see [`GroupPoint`].
    GroupPoint,
    /// Goal difference: see [`GoalDiff`].
    GoalDiff,
    /// Goals scored: see [`GoalCount`].
    GoalCount,
    /// Games won: see [`NumWins`].
    NumWins,
    /// Fair-play points under the FIFA weights: see [`FifaFairPlayValue`].
    FifaFairPlay,
    /// Fair-play points under the UEFA weights: see [`UefaFairPlayValue`].
    UefaFairPlay,
}

/// The games that a rule looks at.
#[derive(Clone, Copy, Debug, PartialEq, Eq, Structural)]
pub enum Scope {
    /// All games of the group.
    AllGames,
    /// The games among the teams that are being split.
    InternalGames,
}

/// One rule of the catalogue: a statistic and the games it is taken over.
#[derive(Clone, Copy, Debug, PartialEq, Eq, Structural)]
pub struct Rule {
    pub kind: StatKind,
    pub scope: Scope,
}

/// The teams whose games count when the teams of `tied` are split.
pub open spec fn in_scope(scope: Scope, tied: Seq<TeamId>) -> Set<TeamId> {
    match scope {
        Scope::AllGames => Set::full(),
        Scope::InternalGames => tied.to_set(),
    }
}

impl Rule {
    /// The rule that goes by `kind` over all games of the group.
    pub fn all(kind: StatKind) -> (rule: Rule)
        ensures
            rule == (Rule { kind, scope: Scope::AllGames }),
    {
        Rule { kind, scope: Scope::AllGames }
    }

    /// The rule that goes by `kind` over the games among the tied teams.
    pub fn internal(kind: StatKind) -> (rule: Rule)
        ensures
            rule == (Rule { kind, scope: Scope::InternalGames }),
    {
        Rule { kind, scope: Scope::InternalGames }
    }
}

/// Splits by the statistic `T` over the games that `scope` names.
fn order_by<T: UnaryStat>(scope: Scope, group: &Group, order: Vec<TeamId>) -> (sub_order:
    NonStrictGroupOrder)
    ensures
        sub_order@ == split_by(order@, totals::<T>(group, in_scope(scope, order@))),
        regroups(sub_order@, order@),
        graded(sub_order@, totals::<T>(group, in_scope(scope, order@))),
{
    match scope {
        Scope::AllGames => AllGroupStat::<T>::new().order(group, order),
        Scope::InternalGames => InternalGroupStat::<T>::new().order(group, order),
    }
}

impl SubOrdering for Rule {
    /// What the team has of the rule's statistic over the games that the
    /// rule looks at.
    open spec fn scores(&self, group: &Group, tied: Seq<TeamId>) -> Map<TeamId, int> {
        let among = in_scope(self.scope, tied);
        match self.kind {
            StatKind::GroupPoint => totals::<GroupPoint>(group, among),
            StatKind::GoalDiff => totals::<GoalDiff>(group, among),
            StatKind::GoalCount => totals::<GoalCount>(group, among),
            StatKind::NumWins => totals::<NumWins>(group, among),
            StatKind::FifaFairPlay => totals::<FifaFairPlayValue>(group, among),
            StatKind::UefaFairPlay => totals::<UefaFairPlayValue>(group, among),
        }
    }

    fn order(&self, group: &Group, order: Vec<TeamId>) -> (sub_order: NonStrictGroupOrder) {
        match self.kind {
            StatKind::GroupPoint => order_by::<GroupPoint>(self.scope, group, order),
            StatKind::GoalDiff => order_by::<GoalDiff>(self.scope, group, order),
            StatKind::GoalCount => order_by::<GoalCount>(self.scope, group, order),
            StatKind::NumWins => order_by::<NumWins>(self.scope, group, order),
            StatKind::FifaFairPlay => order_by::<FifaFairPlayValue>(self.scope, group, order),
            StatKind::UefaFairPlay => order_by::<UefaFairPlayValue>(self.scope, group, order),
        }
    }
}

/// What becomes of a subset when `rule` is applied: a subset of one team
/// stays as it is, any other is split by the rule.
pub open spec fn refine_subset<R: SubOrdering>(rule: &R, group: &Group, subset: Seq<TeamId>) -> Seq<
    Seq<TeamId>,
> {
    if subset.len() > 1 {
        split_by(subset, rule.scores(group, subset))
    } else {
        seq![subset]
    }
}

/// What becomes of every subset of `order` when `rule` is applied.
pub open spec fn refine_parts<R: SubOrdering>(
    rule: &R,
    group: &Group,
    order: Seq<Seq<TeamId>>,
) -> Seq<Seq<Seq<TeamId>>> {
    Seq::new(order.len(), |i: int| refine_subset(rule, group, order[i]))
}

/// What becomes of `order` when `rule` is applied: every subset gives way
/// to what becomes of it, where it stands.
pub open spec fn refine_step<R: SubOrdering>(
    rule: &R,
    group: &Group,
    order: Seq<Seq<TeamId>>,
) -> Seq<Seq<TeamId>> {
    refine_parts(rule, group, order).flatten()
}

/// What becomes of `order` when `rules` are applied one after the other,
/// for as long as teams are tied and rules are left.
pub open spec fn refined<R: SubOrdering>(
    rules: Seq<R>,
    group: &Group,
    order: Seq<Seq<TeamId>>,
) -> Seq<Seq<TeamId>>
    decreases rules.len(),
{
    if is_strict(order) || rules.len() == 0 {
        order
    } else {
        refined(rules.drop_first(), group, refine_step(&rules[0], group, order))
    }
}

/// The order of the group by `rules`, before the tiebreaker.
pub open spec fn group_refined<R: SubOrdering>(rules: Seq<R>, group: &Group) -> Seq<
    Seq<TeamId>,
> {
    refined(rules, group, initial(group.teams()))
}

/// Applies one rule to every subset that holds more than one team.
fn refine<R: SubOrdering>(group: &Group, rule: &R, sub_order: NonStrictGroupOrder) -> (result:
    NonStrictGroupOrder)
    ensures
        result@ == refine_step(rule, group, sub_order@),
{
    let subsets = sub_order.0;
    let ghost parts = refine_parts(rule, group, sub_order@);
    let mut acc = NonStrictGroupOrder::empty();
    let mut i: usize = 0;
    assert(parts.take(0) == Seq::<Seq<Seq<TeamId>>>::empty());
    while i < subsets.len()
        invariant
            i <= subsets@.len(),
            subsets@.len() == sub_order@.len(),
            forall|k: int| 0 <= k < subsets@.len() ==> (#[trigger] subsets@[k])@ == sub_order@[k],
            parts == refine_parts(rule, group, sub_order@),
            acc@ == parts.take(i as int).flatten(),
        decreases subsets@.len() - i,
    {
        let x = subsets[i].clone();
        assert(x@ == sub_order@[i as int]);
        // A rule is not applied to a subset that is decided already, that
        // is one that holds a single team.
        let new_order = if x.len() > 1 {
            rule.order(group, x)
        } else {
            NonStrictGroupOrder::single(x)
        };
        assert(new_order@ == parts[i as int]);
        acc = acc.extend(new_order);
        proof {
            assert(parts.take(i + 1) == parts.take(i as int).push(parts[i as int]));
            parts.take(i as int).lemma_flatten_push(parts[i as int]);
        }
        i += 1;
    }
    assert(parts.take(i as int) == parts);
    acc
}

/// Try ordering a NonStrictGroupOrder
///
/// Applies the rules one after the other to the order as it stands, and
/// stops as soon as the order is strict or no rule is left. An order of
/// some teams stays an order of these teams: no team is lost or added, and
/// no subset becomes empty.
pub fn non_strict_ordering<R: SubOrdering>(
    group: &Group,
    rules: &[R],
    sub_order: NonStrictGroupOrder,
) -> (result: NonStrictGroupOrder)
    ensures
        result@ == refined(rules@, group, sub_order@),
        forall|teams: Seq<TeamId>|
            regroups(sub_order@, teams) ==> #[trigger] regroups(result@, teams),
{
    let ghost start = sub_order@;
    proof {
        assert forall|teams: Seq<TeamId>| regroups(start, teams) implies #[trigger] regroups(
            refined(rules@, group, start),
            teams,
        ) by {
            lemma_refined_regroups(rules@, group, start, teams);
        }
    }
    let mut current = sub_order;
    let mut strict = current.is_strict();
    let mut k: usize = 0;
    assert(rules@.skip(0) == rules@);
    while !strict && k < rules.len()
        invariant
            k <= rules@.len(),
            strict == is_strict(current@),
            refined(rules@, group, start) == refined(rules@.skip(k as int), group, current@),
        decreases rules@.len() - k,
    {
        proof {
            let left = rules@.skip(k as int);
            assert(left[0] == rules@[k as int]);
            assert(left.drop_first() == rules@.skip(k + 1));
        }
        current = refine(group, &rules[k], current);
        strict = current.is_strict();
        k += 1;
    }
    proof {
        let left = rules@.skip(k as int);
        assert(!strict ==> left.len() == 0);
    }
    current
}

/// Whether `order` is an order of the group by `rules` and `tiebreaker`.
///
/// Every subset of the order by the rules keeps its place, with its teams
/// in some order. Where the answers of the tiebreaker are fixed, each
/// subset is ranked by them. Where the rules leave no teams tied, their
/// order stands.
pub open spec fn orders<T: Tiebreaker, R: SubOrdering>(
    order: Seq<TeamId>,
    group: &Group,
    rules: Seq<R>,
    tiebreaker: &T,
) -> bool {
    &&& arranges(order, group_refined(rules, group))
    &&& tiebreaker.fixed() ==> order == settled(group_refined(rules, group), tiebreaker.answers())
    &&& is_strict(group_refined(rules, group)) ==> order == firsts(group_refined(rules, group))
}

/// Order group based on rules
///
/// First orders by the list of sub-orders. If teams are still tied after
/// that, the rules' tiebreaker settles them.
///
/// The tiebreaker must be able to compare the teams that are still tied.
/// Whatever the tiebreaker, the order holds every team of the group once,
/// and a team that is alone in its subset after the sub-orders stands where
/// that subset stands. Where the answers of the tiebreaker are fixed, the
/// order is determined by the group and the rules.
pub fn order_group<T: Tiebreaker>(group: &Group, rules: &Rules<T>) -> (order: GroupOrder)
    requires
        resolves(rules.tiebreaker.answers(), group_refined(rules.non_strict@, group)),
    ensures
        orders(order@, group, rules.non_strict@, &rules.tiebreaker),
        order@.to_multiset() == group.teams().to_multiset(),
        order@.len() == group.teams().len(),
        order@.no_duplicates(),
{
    let possibly_non_strict = non_strict_ordering(
        group,
        rules.non_strict.as_slice(),
        NonStrictGroupOrder::init(group),
    );
    let order = if !possibly_non_strict.is_strict() {
        rules.tiebreaker.order(group, possibly_non_strict)
    } else {
        proof {
            lemma_settled_strict(possibly_non_strict@, rules.tiebreaker.answers());
        }
        match GroupOrder::try_from(possibly_non_strict) {
            Ok(order) => order,
            Err(_) => GroupOrder(Vec::new()),
        }
    };
    proof {
        use_type_invariant(group);
        lemma_order_is_complete(order@, rules.non_strict@, group);
    }
    order
}

/// Orders the group as [`order_group`] does, if the tiebreaker can compare
/// the teams that are still tied after the sub-orders. Returns `None`
/// exactly when it cannot.
pub fn checked_order_group<T: Tiebreaker>(group: &Group, rules: &Rules<T>) -> (order: Option<
    GroupOrder,
>)
    ensures
        order is Some <==> resolves(
            rules.tiebreaker.answers(),
            group_refined(rules.non_strict@, group),
        ),
        order matches Some(o) ==> {
            &&& orders(o@, group, rules.non_strict@, &rules.tiebreaker)
            &&& o@.to_multiset() == group.teams().to_multiset()
            &&& o@.len() == group.teams().len()
            &&& o@.no_duplicates()
        },
{
    let possibly_non_strict = non_strict_ordering(
        group,
        rules.non_strict.as_slice(),
        NonStrictGroupOrder::init(group),
    );
    if rules.tiebreaker.settles(&possibly_non_strict) {
        Some(order_group(group, rules))
    } else {
        None
    }
}



/// The sub-orders of the Fifa World Cup 2018, in the order in which they
/// are applied.
pub open spec fn fifa_2018_rules() -> Seq<Rule> {
    seq![
        Rule { kind: StatKind::GroupPoint, scope: Scope::AllGames },
        Rule { kind: StatKind::GoalDiff, scope: Scope::AllGames },
        Rule { kind: StatKind::GoalCount, scope: Scope::AllGames },
        Rule { kind: StatKind::GroupPoint, scope: Scope::InternalGames },
        Rule { kind: StatKind::GoalDiff, scope: Scope::InternalGames },
        Rule { kind: StatKind::GoalCount, scope: Scope::InternalGames },
        Rule { kind: StatKind::FifaFairPlay, scope: Scope::AllGames },
    ]
}

/// The sub-orders of the Uefa Euro 2020, in the order in which they are
/// applied.
pub open spec fn euro_2020_rules() -> Seq<Rule> {
    seq![
        Rule { kind: StatKind::GroupPoint, scope: Scope::AllGames },
        Rule { kind: StatKind::GroupPoint, scope: Scope::InternalGames },
        Rule { kind: StatKind::GoalDiff, scope: Scope::InternalGames },
        Rule { kind: StatKind::GoalCount, scope: Scope::InternalGames },
        Rule { kind: StatKind::GoalDiff, scope: Scope::AllGames },
        Rule { kind: StatKind::NumWins, scope: Scope::AllGames },
        Rule { kind: StatKind::UefaFairPlay, scope: Scope::InternalGames },
    ]
}

/// Fifa World Cup 2018 Order, with the lots drawn from `lots`.
///
/// First step:
///
/// 1. Greatest number of points obtained in all group matches
/// 2. Goal difference in all group matches
/// 3. Greatest number of goals scored in all group matches.
///
/// Second step: If two or more teams are equal on the basis of the first
/// step, their ranking will be determined by applying to the group matches
/// between the teams concerned:
///
/// 4. Greatest number of points obtained in the group matches between the
///    teams concerned
/// 5. Goal difference resulting from the group matches between the teams
///    concerned
/// 6. Greater number of goals scored in all group matches between the teams
///    concerned
/// 7. Greater number of points obtained in the fair play conduct of the
///    teams based on yellow and red cards received in all group matches
///     - Yellow card: -1 points
///     - Indirect red card (second yellow card): -3 points
///     - Direct red card: -4 points
///     - Yellow card and direct red card: -5 points
/// 8. Drawing of lots.
pub fn fifa_2018_with<L: Lots>(lots: L) -> (rules: Rules<Random<L>>)
    ensures
        rules.non_strict@ == fifa_2018_rules(),
        rules.tiebreaker.lots == lots,
{
    let group_point = Rule::all(StatKind::GroupPoint);
    let goal_diff = Rule::all(StatKind::GoalDiff);
    let goal_count = Rule::all(StatKind::GoalCount);
    let int_group_point = Rule::internal(StatKind::GroupPoint);
    let int_goal_diff = Rule::internal(StatKind::GoalDiff);
    let int_goal_count = Rule::internal(StatKind::GoalCount);
    let fair_play = Rule::all(StatKind::FifaFairPlay);
    let rules = Rules {
        non_strict: vec![
            group_point,
            goal_diff,
            goal_count,
            int_group_point,
            int_goal_diff,
            int_goal_count,
            fair_play,
        ],
        tiebreaker: Random::with_lots(lots),
    };
    assert(rules.non_strict@ =~= fifa_2018_rules());
    rules
}

/// Fifa World Cup 2018 Order, with the lots drawn from the random number
/// generator of the running thread. See [`fifa_2018_with`] for the rules.
pub fn fifa_2018() -> (rules: Rules<Random>)
    ensures
        rules.non_strict@ == fifa_2018_rules(),
        rules.tiebreaker.lots == ThreadLots,
{
    fifa_2018_with(ThreadLots)
}

/// Uefa Euro 2020 Order
///
/// If two or more teams are equal on points on completion of the group
/// matches, the following tie-breaking criteria are applied:
///
/// 1. Higher number of points obtained in the matches played between the
///    teams in question;
/// 2. Superior goal difference resulting from the matches played between
///    the teams in question;
/// 3. Higher number of goals scored in the matches played between the teams
///    in question;
/// 4. Superior goal difference in all group matches;
/// 5. Higher number of wins in all group matches;
/// 6. Lower disciplinary points total in the matches played between the
///    teams in question:
///     - Yellow card: -1 points
///     - Indirect red card (second yellow card): -3 points
///     - Direct red card: -3 points
///     - Yellow card and direct red card: -5 points
/// 7. Higher position in the European Qualifiers overall ranking.
///
/// The regulations also reapply criteria 1 to 3 to the teams that these
/// leave level, count the goals scored in all group matches, and settle
/// some ties by a penalty shoot-out. These are not part of the rules here.
pub fn euro_2020(ranking: UefaRanking) -> (rules: Rules<UefaRanking>)
    ensures
        rules.non_strict@ == euro_2020_rules(),
        rules.tiebreaker == ranking,
{
    let group_point = Rule::all(StatKind::GroupPoint);
    let int_group_point = Rule::internal(StatKind::GroupPoint);
    let int_goal_diff = Rule::internal(StatKind::GoalDiff);
    let int_goal_count = Rule::internal(StatKind::GoalCount);
    let goal_diff = Rule::all(StatKind::GoalDiff);
    let num_wins = Rule::all(StatKind::NumWins);
    let fair_play = Rule::internal(StatKind::UefaFairPlay);
    let rules = Rules {
        non_strict: vec![
            group_point,
            int_group_point,
            int_goal_diff,
            int_goal_count,
            goal_diff,
            num_wins,
            fair_play,
        ],
        tiebreaker: ranking,
    };
    assert(rules.non_strict@ =~= euro_2020_rules());
    rules
}

} // verus!
