//! Who owns how many lines, and what share of the whole that is.

use vstd::prelude::*;
use core::cmp::Ordering;
use vstd::std_specs::cmp::{PartialEqSpecImpl, PartialOrdSpecImpl};
use crate::person::{Person, PersonView};
use crate::ranking::{
    in_rank_order, lemma_sum_by_take, sort_ranked, sum_by, Ranked,
};
use crate::text::{
    lemma_text_before_irreflexive, lemma_text_before_transitive, str_before, text_before,
};
use crate::tracking::{team_rows, CombinedTracking, CombinedView};

verus! {

/// The lines that one person, or one team, owns.
#[derive(Debug, Clone, Copy)]
pub struct OwnershipScore {
    pub total_lines_owned: u32,
}

impl Default for OwnershipScore {
    /// Nothing owned yet.
    fn default() -> (score: OwnershipScore)
        ensures
            score.total_lines_owned == 0,
    {
        OwnershipScore { total_lines_owned: 0 }
    }
}

impl OwnershipScore {
    /// Counts `lines` more lines as owned.
    pub fn add_lines(&mut self, lines: u32)
        requires
            old(self).total_lines_owned + lines <= u32::MAX,
        ensures
            final(self).total_lines_owned == old(self).total_lines_owned + lines,
    {
        self.total_lines_owned = self.total_lines_owned + lines;
    }
}

/// The lines that someone owns, out of a total. The share owned is the ratio
/// of the two, kept exact.
#[derive(Debug, Clone, Copy)]
pub struct ComputedOwnership {
    pub total_lines_owned: u32,
    pub total_lines: u32,
}

impl ComputedOwnership {
    /// The share owned in hundredths of a percent, rounded to the nearest
    /// and upwards from the half.
    pub open spec fn share(&self) -> int {
        if self.total_lines == 0 {
            0
        } else {
            (self.total_lines_owned * 10000 + self.total_lines / 2) / (self.total_lines as int)
        }
    }

    /// The share owned in hundredths of a percent, so that 7222 stands for
    /// 72.22%. Of a total of no lines everybody owns 0%.
    pub fn basis_points(&self) -> (points: u64)
        ensures
            points == self.share(),
    {
        if self.total_lines == 0 {
            0
        } else {
            let owned: u64 = self.total_lines_owned as u64;
            let total: u64 = self.total_lines as u64;
            (owned * 10000 + total / 2) / total
        }
    }
}

/// Two ownerships are equal when the same number of lines is owned.
impl PartialEq for ComputedOwnership {
    fn eq(&self, other: &ComputedOwnership) -> (same: bool) {
        self.total_lines_owned == other.total_lines_owned
    }
}

impl PartialEqSpecImpl for ComputedOwnership {
    open spec fn obeys_eq_spec() -> bool {
        true
    }

    open spec fn eq_spec(&self, other: &ComputedOwnership) -> bool {
        self.total_lines_owned == other.total_lines_owned
    }
}

impl Eq for ComputedOwnership {

}

/// Ownerships are ordered by the number of lines owned.
impl PartialOrd for ComputedOwnership {
    fn partial_cmp(&self, other: &ComputedOwnership) -> (order: Option<Ordering>) {
        if self.total_lines_owned < other.total_lines_owned {
            Some(Ordering::Less)
        } else if self.total_lines_owned > other.total_lines_owned {
            Some(Ordering::Greater)
        } else {
            Some(Ordering::Equal)
        }
    }
}

impl PartialOrdSpecImpl for ComputedOwnership {
    open spec fn obeys_partial_cmp_spec() -> bool {
        true
    }

    open spec fn partial_cmp_spec(&self, other: &ComputedOwnership) -> Option<Ordering> {
        if self.total_lines_owned < other.total_lines_owned {
            Some(Ordering::Less)
        } else if self.total_lines_owned > other.total_lines_owned {
            Some(Ordering::Greater)
        } else {
            Some(Ordering::Equal)
        }
    }
}

/// The lines of all rows of a tracker together.
pub open spec fn lines_tracked<K>(rows: Seq<(K, OwnershipScore)>) -> int {
    sum_by(rows, |row: (K, OwnershipScore)| row.1.total_lines_owned as int)
}

/// The lines of all rows of a toplist together.
pub open spec fn lines_listed<K>(rows: Seq<(K, ComputedOwnership)>) -> int {
    sum_by(rows, |row: (K, ComputedOwnership)| row.1.total_lines_owned as int)
}

/// What name a row goes by comes first: no name before any name, and names
/// in the order of [`text_before`].
pub open spec fn name_before(a: Option<Seq<char>>, b: Option<Seq<char>>) -> bool {
    match (a, b) {
        (None, Some(_)) => true,
        (Some(x), Some(y)) => text_before(x, y),
        _ => false,
    }
}

/// The order of a toplist: more lines first, and among rows with the same
/// number of lines the one whose name comes first.
pub open spec fn row_before(
    a_name: Option<Seq<char>>,
    a: ComputedOwnership,
    b_name: Option<Seq<char>>,
    b: ComputedOwnership,
) -> bool {
    a.total_lines_owned > b.total_lines_owned || (a.total_lines_owned == b.total_lines_owned
        && name_before(a_name, b_name))
}

/// The order of a toplist is transitive.
pub proof fn lemma_row_before_transitive(
    a_name: Option<Seq<char>>,
    a: ComputedOwnership,
    b_name: Option<Seq<char>>,
    b: ComputedOwnership,
    c_name: Option<Seq<char>>,
    c: ComputedOwnership,
)
    requires
        row_before(a_name, a, b_name, b),
        row_before(b_name, b, c_name, c),
    ensures
        row_before(a_name, a, c_name, c),
{
    if a.total_lines_owned == b.total_lines_owned && b.total_lines_owned == c.total_lines_owned {
        if a_name is Some && b_name is Some && c_name is Some {
            lemma_text_before_transitive(a_name->0, b_name->0, c_name->0);
        }
    }
}

/// In the order of a toplist no row comes before itself.
pub proof fn lemma_row_before_irreflexive(a_name: Option<Seq<char>>, a: ComputedOwnership)
    ensures
        !row_before(a_name, a, a_name, a),
{
    if a_name is Some {
        lemma_text_before_irreflexive(a_name->0);
    }
}

/// Whether no name, or `a`, comes before no name, or `b`.
fn is_name_before(a: Option<&str>, b: Option<&str>) -> (before: bool)
    ensures
        before == name_before(
            match a {
                Some(x) => Some(x@),
                None => None,
            },
            match b {
                Some(y) => Some(y@),
                None => None,
            },
        ),
{
    match (a, b) {
        (None, Some(_)) => true,
        (Some(x), Some(y)) => str_before(x, y),
        _ => false,
    }
}

impl<'a> Ranked for (&'a Person, ComputedOwnership) {
    open spec fn ranks_before(&self, other: &Self) -> bool {
        row_before(Some(self.0@.name), self.1, Some(other.0@.name), other.1)
    }

    fn is_before(&self, other: &Self) -> (before: bool) {
        self.1.total_lines_owned > other.1.total_lines_owned || (self.1.total_lines_owned
            == other.1.total_lines_owned && is_name_before(
            Some(self.0.name()),
            Some(other.0.name()),
        ))
    }

    proof fn lemma_ranks_irreflexive(a: &Self) {
        lemma_row_before_irreflexive(Some(a.0@.name), a.1);
    }

    proof fn lemma_ranks_transitive(a: &Self, b: &Self, c: &Self) {
        lemma_row_before_transitive(
            Some(a.0@.name),
            a.1,
            Some(b.0@.name),
            b.1,
            Some(c.0@.name),
            c.1,
        );
    }
}

/// The text of the name that a team row goes by, if it has one.
pub open spec fn team_name_text(name: Option<&str>) -> Option<Seq<char>> {
    match name {
        Some(team) => Some(team@),
        None => None,
    }
}

impl<'a> Ranked for (Option<&'a str>, ComputedOwnership) {
    open spec fn ranks_before(&self, other: &Self) -> bool {
        row_before(team_name_text(self.0), self.1, team_name_text(other.0), other.1)
    }

    fn is_before(&self, other: &Self) -> (before: bool) {
        self.1.total_lines_owned > other.1.total_lines_owned || (self.1.total_lines_owned
            == other.1.total_lines_owned && is_name_before(self.0, other.0))
    }

    proof fn lemma_ranks_irreflexive(a: &Self) {
        lemma_row_before_irreflexive(team_name_text(a.0), a.1);
    }

    proof fn lemma_ranks_transitive(a: &Self, b: &Self, c: &Self) {
        lemma_row_before_transitive(
            team_name_text(a.0),
            a.1,
            team_name_text(b.0),
            b.1,
            team_name_text(c.0),
            c.1,
        );
    }
}

/// The row of a people toplist that belongs to a row of the tracker, with
/// `total_lines` lines in all.
pub open spec fn person_listed(
    row: (&Person, ComputedOwnership),
    source: (PersonView, OwnershipScore),
    total_lines: u32,
) -> bool {
    &&& row.0@ == source.0
    &&& row.1 == ComputedOwnership {
        total_lines_owned: source.1.total_lines_owned,
        total_lines,
    }
}

/// The row of a team toplist that belongs to a row of the walk over the
/// teams, with `total_lines` lines in all.
pub open spec fn team_listed(
    row: (Option<&str>, ComputedOwnership),
    source: (Option<Seq<char>>, OwnershipScore),
    total_lines: u32,
) -> bool {
    &&& team_name_text(row.0) == source.0
    &&& row.1 == ComputedOwnership {
        total_lines_owned: source.1.total_lines_owned,
        total_lines,
    }
}

/// The outcome of a count: the lines per person and per team, and the lines
/// in all, which are those of all people together.
#[derive(Debug)]
pub struct OwnershipStatistics<'context> {
    total_lines: u32,
    combined_tracking: CombinedTracking<'context, OwnershipScore>,
}

impl<'context> View for OwnershipStatistics<'context> {
    type V = CombinedView<OwnershipScore>;

    closed spec fn view(&self) -> CombinedView<OwnershipScore> {
        self.combined_tracking@
    }
}

impl<'context> OwnershipStatistics<'context> {
    /// The lines in all, for use in contracts.
    pub closed spec fn spec_total_lines(&self) -> u32 {
        self.total_lines
    }

    /// The rows are well formed and the lines in all are the lines of all
    /// people together: none left out, none counted twice.
    pub open spec fn wf(&self) -> bool {
        &&& self@.distinct()
        &&& self.spec_total_lines() == lines_tracked(self@.people)
    }

    /// Sums up what was counted. The lines in all are taken from the people
    /// alone: the teams hold the same lines a second time.
    pub fn from_tracking(owners: CombinedTracking<'context, OwnershipScore>) -> (statistics:
        OwnershipStatistics<'context>)
        requires
            owners.wf(),
            lines_tracked(owners@.people) <= u32::MAX,
        ensures
            statistics.wf(),
            statistics@ == owners@,
            statistics.spec_total_lines() == lines_tracked(owners@.people),
    {
        let rows = owners.people_iter();
        let ghost source = owners@.people;
        let ghost measure = |row: (PersonView, OwnershipScore)| row.1.total_lines_owned as int;
        let mut total_lines: u32 = 0;
        let mut i: usize = 0;
        while i < rows.len()
            invariant
                i <= rows@.len(),
                rows@.len() == source.len(),
                forall|k: int|
                    0 <= k < rows@.len() ==> (#[trigger] rows@[k]).0@ == source[k].0
                        && *rows@[k].1 == source[k].1,
                total_lines == sum_by(source.take(i as int), measure),
                sum_by(source, measure) <= u32::MAX,
                measure == |row: (PersonView, OwnershipScore)| row.1.total_lines_owned as int,
            decreases rows@.len() - i,
        {
            proof {
                lemma_sum_by_take(source, i as int, measure);
                lemma_sum_by_take(source, i as int + 1, measure);
            }
            total_lines = total_lines + rows[i].1.total_lines_owned;
            i += 1;
        }
        assert(source.take(i as int) =~= source);
        OwnershipStatistics { total_lines, combined_tracking: owners }
    }

    /// The lines in all.
    pub fn total_lines(&self) -> (lines: u32)
        requires
            self.wf(),
        ensures
            lines == self.spec_total_lines(),
            lines == lines_tracked(self@.people),
    {
        self.total_lines
    }

    /// The people, those who own most first; of people who own the same
    /// number of lines the one whose name comes first in the order of
    /// [`text_before`] goes first. Each person that has a score has one row,
    /// every row is out of the lines in all, and the rows together hold
    /// exactly the lines in all: where there are any lines, the shares of
    /// the people add up to the whole.
    pub fn people_toplist(&self) -> (toplist: Vec<(&Person, ComputedOwnership)>)
        requires
            self.wf(),
        ensures
            toplist@.len() == self@.people.len(),
            in_rank_order(toplist@),
            forall|i: int|
                0 <= i < self@.people.len() ==> exists|j: int|
                    0 <= j < toplist@.len() && person_listed(
                        toplist@[j],
                        #[trigger] self@.people[i],
                        self.spec_total_lines(),
                    ),
            forall|j: int|
                0 <= j < toplist@.len() ==> exists|i: int|
                    0 <= i < self@.people.len() && person_listed(
                        #[trigger] toplist@[j],
                        self@.people[i],
                        self.spec_total_lines(),
                    ),
            forall|j: int|
                0 <= j < toplist@.len() ==> (#[trigger] toplist@[j]).1.total_lines
                    == self.spec_total_lines(),
            lines_listed(toplist@) == self.spec_total_lines(),
    {
        let rows = self.combined_tracking.people_iter();
        let ghost source = self@.people;
        let ghost source_measure = |row: (PersonView, OwnershipScore)|
            row.1.total_lines_owned as int;
        let ghost listed_measure = |row: (&Person, ComputedOwnership)|
            row.1.total_lines_owned as int;
        let mut listed: Vec<(&Person, ComputedOwnership)> = Vec::new();
        let mut i: usize = 0;
        while i < rows.len()
            invariant
                i <= rows@.len(),
                rows@.len() == source.len(),
                listed@.len() == i,
                forall|k: int|
                    0 <= k < rows@.len() ==> (#[trigger] rows@[k]).0@ == source[k].0
                        && *rows@[k].1 == source[k].1,
                forall|k: int|
                    0 <= k < i ==> person_listed(
                        #[trigger] listed@[k],
                        source[k],
                        self.spec_total_lines(),
                    ),
                sum_by(listed@, listed_measure) == sum_by(source.take(i as int), source_measure),
                source_measure == |row: (PersonView, OwnershipScore)|
                    row.1.total_lines_owned as int,
                listed_measure == |row: (&Person, ComputedOwnership)|
                    row.1.total_lines_owned as int,
            decreases rows@.len() - i,
        {
            let row = (rows[i].0, self.compute_ownership(rows[i].1));
            proof {
                lemma_sum_by_take(source, i as int, source_measure);
                assert(listed@.push(row).drop_last() =~= listed@);
            }
            listed.push(row);
            i += 1;
        }
        assert(source.take(i as int) =~= source);
        let toplist = sort_ranked(listed);
        proof {
            assert(sum_by(toplist@, listed_measure) == sum_by(listed@, listed_measure));
            assert forall|i: int| 0 <= i < source.len() implies exists|j: int|
                0 <= j < toplist@.len() && person_listed(
                    toplist@[j],
                    #[trigger] source[i],
                    self.spec_total_lines(),
                ) by {
                assert(toplist@.contains(listed@[i]));
                let j = choose|j: int| 0 <= j < toplist@.len() && toplist@[j] == listed@[i];
                assert(person_listed(toplist@[j], source[i], self.spec_total_lines()));
            }
            assert forall|j: int| 0 <= j < toplist@.len() implies exists|i: int|
                0 <= i < source.len() && person_listed(
                    #[trigger] toplist@[j],
                    source[i],
                    self.spec_total_lines(),
                ) by {
                assert(listed@.contains(toplist@[j]));
                let i = choose|i: int| 0 <= i < listed@.len() && listed@[i] == toplist@[j];
                assert(person_listed(toplist@[j], source[i], self.spec_total_lines()));
            }
        }
        toplist
    }

    /// The teams, those that own most first; of rows with the same number of
    /// lines that of the people without a team goes first, then the teams in
    /// the order of their names. The people without a team always have a
    /// row, which has no name, and each team that has a score has one.
    pub fn teams_toplist(&self) -> (toplist: Vec<(Option<&str>, ComputedOwnership)>)
        requires
            self.wf(),
        ensures
            toplist@.len() == self@.teams.len() + 1,
            in_rank_order(toplist@),
            forall|i: int|
                0 <= i <= self@.teams.len() ==> exists|j: int|
                    0 <= j < toplist@.len() && team_listed(
                        toplist@[j],
                        #[trigger] team_rows(self@.no_team, self@.teams)[i],
                        self.spec_total_lines(),
                    ),
            forall|j: int|
                0 <= j < toplist@.len() ==> exists|i: int|
                    0 <= i <= self@.teams.len() && team_listed(
                        #[trigger] toplist@[j],
                        team_rows(self@.no_team, self@.teams)[i],
                        self.spec_total_lines(),
                    ),
            forall|j: int|
                0 <= j < toplist@.len() ==> (#[trigger] toplist@[j]).1.total_lines
                    == self.spec_total_lines(),
            lines_listed(toplist@) == lines_tracked(team_rows(self@.no_team, self@.teams)),
    {
        let mut rows = self.combined_tracking.team_iter();
        let ghost source = team_rows(self@.no_team, self@.teams);
        let ghost source_measure = |row: (Option<Seq<char>>, OwnershipScore)|
            row.1.total_lines_owned as int;
        let ghost listed_measure = |row: (Option<&str>, ComputedOwnership)|
            row.1.total_lines_owned as int;
        let mut listed: Vec<(Option<&str>, ComputedOwnership)> = Vec::new();
        loop
            invariant
                rows.wf(),
                listed@.len() <= source.len(),
                rows.remaining() == source.skip(listed@.len() as int),
                forall|k: int|
                    0 <= k < listed@.len() ==> team_listed(
                        #[trigger] listed@[k],
                        source[k],
                        self.spec_total_lines(),
                    ),
                sum_by(listed@, listed_measure) == sum_by(
                    source.take(listed@.len() as int),
                    source_measure,
                ),
                source_measure == |row: (Option<Seq<char>>, OwnershipScore)|
                    row.1.total_lines_owned as int,
                listed_measure == |row: (Option<&str>, ComputedOwnership)|
                    row.1.total_lines_owned as int,
            ensures
                listed@.len() == source.len(),
            decreases source.len() - listed@.len(),
        {
            match rows.next() {
                Some((team, score)) => {
                    let row = (team, self.compute_ownership(score));
                    proof {
                        lemma_sum_by_take(source, listed@.len() as int, source_measure);
                        assert(listed@.push(row).drop_last() =~= listed@);
                        assert(source.skip(listed@.len() as int).drop_first() =~= source.skip(
                            listed@.len() as int + 1,
                        ));
                    }
                    listed.push(row);
                },
                None => {
                    break ;
                },
            }
        }
        assert(source.take(listed@.len() as int) =~= source);
        let toplist = sort_ranked(listed);
        proof {
            assert(sum_by(toplist@, listed_measure) == sum_by(listed@, listed_measure));
            assert forall|i: int| 0 <= i <= self@.teams.len() implies exists|j: int|
                0 <= j < toplist@.len() && team_listed(
                    toplist@[j],
                    #[trigger] team_rows(self@.no_team, self@.teams)[i],
                    self.spec_total_lines(),
                ) by {
                assert(toplist@.contains(listed@[i]));
                let j = choose|j: int| 0 <= j < toplist@.len() && toplist@[j] == listed@[i];
                assert(team_listed(toplist@[j], source[i], self.spec_total_lines()));
            }
            assert forall|j: int| 0 <= j < toplist@.len() implies exists|i: int|
                0 <= i <= self@.teams.len() && team_listed(
                    #[trigger] toplist@[j],
                    team_rows(self@.no_team, self@.teams)[i],
                    self.spec_total_lines(),
                ) by {
                assert(listed@.contains(toplist@[j]));
                let i = choose|i: int| 0 <= i < listed@.len() && listed@[i] == toplist@[j];
                assert(team_listed(toplist@[j], source[i], self.spec_total_lines()));
            }
        }
        toplist
    }

    /// The lines of a score out of the lines in all.
    fn compute_ownership(&self, score: &OwnershipScore) -> (ownership: ComputedOwnership)
        ensures
            ownership == (ComputedOwnership {
                total_lines_owned: score.total_lines_owned,
                total_lines: self.spec_total_lines(),
            }),
    {
        ComputedOwnership {
            total_lines_owned: score.total_lines_owned,
            total_lines: self.total_lines,
        }
    }
}

} // verus!
