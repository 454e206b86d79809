//! Scores kept per person and per team.
//!
//! A tracker hands out one score for each key it is asked about, making a
//! fresh one the first time. Keys are display names and team names; rows
//! stay in the order in which they were first asked for.

use vstd::prelude::*;
use crate::person::{Person, PersonView};
use crate::text::{lemma_position, lemma_pushed_key, position, str_eq};

verus! {

/// The display names of the rows of a people tracker, in order.
pub open spec fn person_names<T>(rows: Seq<(PersonView, T)>) -> Seq<Seq<char>> {
    Seq::new(rows.len(), |i: int| rows[i].0.name)
}

/// The team names of the rows of a team tracker, in order.
pub open spec fn team_names<T>(rows: Seq<(Seq<char>, T)>) -> Seq<Seq<char>> {
    Seq::new(rows.len(), |i: int| rows[i].0)
}

/// The score of the people row of this name, if there is one.
pub open spec fn person_row_score<T>(rows: Seq<(PersonView, T)>, name: Seq<char>) -> Option<T> {
    match position(person_names(rows), name) {
        Some(i) => Some(rows[i].1),
        None => None,
    }
}

/// The score of the team row of this name, if there is one.
pub open spec fn team_row_score<T>(rows: Seq<(Seq<char>, T)>, team: Seq<char>) -> Option<T> {
    match position(team_names(rows), team) {
        Some(i) => Some(rows[i].1),
        None => None,
    }
}

/// `value` is what a slot holds before it is changed: the score that is
/// there, or a fresh default score where there is none yet.
pub open spec fn starts_from<T: Default>(score: Option<T>, value: T) -> bool {
    match score {
        Some(score) => value == score,
        None => call_ensures(T::default, (), value),
    }
}

/// The people rows after `value` was stored for `person`: in the row of
/// that name if there is one, else in a new last row.
pub open spec fn person_stored<T>(
    rows: Seq<(PersonView, T)>,
    person: PersonView,
    value: T,
) -> Seq<(PersonView, T)> {
    match position(person_names(rows), person.name) {
        Some(i) => rows.update(i, (rows[i].0, value)),
        None => rows.push((person, value)),
    }
}

/// The team rows after `value` was stored for `team`: in the row of that
/// name if there is one, else in a new last row.
pub open spec fn team_stored<T>(rows: Seq<(Seq<char>, T)>, team: Seq<char>, value: T) -> Seq<
    (Seq<char>, T),
> {
    match position(team_names(rows), team) {
        Some(i) => rows.update(i, (team, value)),
        None => rows.push((team, value)),
    }
}

/// Storing a score for a person leaves no display name with two rows.
pub proof fn lemma_person_stored_names<T>(rows: Seq<(PersonView, T)>, person: PersonView, value: T)
    requires
        person_names(rows).no_duplicates(),
    ensures
        person_names(person_stored(rows, person, value)).no_duplicates(),
{
    let after = person_stored(rows, person, value);
    match position(person_names(rows), person.name) {
        Some(i) => {
            assert(person_names(after) =~= person_names(rows));
        },
        None => {
            lemma_pushed_key(person_names(rows), person.name);
            assert(person_names(after) =~= person_names(rows).push(person.name));
        },
    }
}

/// Storing a score for a team leaves no team name with two rows.
pub proof fn lemma_team_stored_names<T>(rows: Seq<(Seq<char>, T)>, team: Seq<char>, value: T)
    requires
        team_names(rows).no_duplicates(),
    ensures
        team_names(team_stored(rows, team, value)).no_duplicates(),
{
    let after = team_stored(rows, team, value);
    match position(team_names(rows), team) {
        Some(i) => {
            assert(team_names(after) =~= team_names(rows));
        },
        None => {
            lemma_pushed_key(team_names(rows), team);
            assert(team_names(after) =~= team_names(rows).push(team));
        },
    }
}

/// One score per person, found by display name.
#[derive(Debug)]
pub struct PeopleTracking<'people, T> where T: Default {
    entries: Vec<(&'people Person, T)>,
}

impl<'people, T> View for PeopleTracking<'people, T> where T: Default {
    type V = Seq<(PersonView, T)>;

    closed spec fn view(&self) -> Seq<(PersonView, T)> {
        Seq::new(self.entries@.len(), |i: int| (self.entries@[i].0@, self.entries@[i].1))
    }
}

impl<'people, T> PeopleTracking<'people, T> where T: Default {
    /// No display name has two rows.
    pub open spec fn wf(&self) -> bool {
        person_names(self@).no_duplicates()
    }

    /// A tracker without rows.
    pub fn new() -> (tracking: Self)
        ensures
            tracking.wf(),
            tracking@ == Seq::<(PersonView, T)>::empty(),
    {
        PeopleTracking { entries: Vec::new() }
    }

    /// The row of the person of this name, if there is one.
    fn find(&self, person: &Person) -> (found: Option<usize>)
        requires
            self.wf(),
        ensures
            match found {
                Some(i) => position(person_names(self@), person@.name) == Some(i as int) && i
                    < self.entries@.len(),
                None => position(person_names(self@), person@.name) is None,
            },
    {
        let mut i: usize = 0;
        while i < self.entries.len()
            invariant
                self.wf(),
                i <= self.entries.len(),
                forall|k: int| 0 <= k < i ==> person_names(self@)[k] != person@.name,
            decreases self.entries.len() - i,
        {
            if *self.entries[i].0 == *person {
                proof {
                    lemma_position(person_names(self@), person@.name, i as int);
                }
                return Some(i);
            }
            i += 1;
        }
        None
    }

    /// The score of a person, to read or to change. A person asked about for
    /// the first time gets a new last row with a default score.
    pub fn for_person(&mut self, person: &'people Person) -> (slot: &mut T)
        requires
            old(self).wf(),
        ensures
            starts_from(person_row_score(old(self)@, person@.name), *slot),
            final(self)@ == person_stored(old(self)@, person@, *final(slot)),
            person_names(final(self)@) == match position(
                person_names(old(self)@),
                person@.name,
            ) {
                Some(_) => person_names(old(self)@),
                None => person_names(old(self)@).push(person@.name),
            },
            final(self).wf(),
    {
        let index = match self.find(person) {
            Some(i) => i,
            None => {
                self.entries.push((person, T::default()));
                self.entries.len() - 1
            },
        };
        proof {
            assert forall|value: T| #[trigger]
                person_stored(old(self)@, person@, value).len() >= 0 implies person_names(
                person_stored(old(self)@, person@, value),
            ).no_duplicates() by {
                lemma_person_stored_names(old(self)@, person@, value);
            }
        }
        &mut self.entries[index].1
    }

    /// The score of a person, if the person was ever asked about.
    pub fn person_value(&self, person: &Person) -> (value: Option<&T>)
        requires
            self.wf(),
        ensures
            match value {
                Some(score) => person_row_score(self@, person@.name) == Some(*score),
                None => person_row_score(self@, person@.name) is None,
            },
    {
        match self.find(person) {
            Some(i) => Some(&self.entries[i].1),
            None => None,
        }
    }

    /// All rows, in the order in which the people were first asked about.
    pub fn iter(&self) -> (rows: Vec<(&'people Person, &T)>)
        ensures
            rows@.len() == self@.len(),
            forall|i: int|
                0 <= i < rows@.len() ==> (#[trigger] rows@[i]).0@ == self@[i].0 && *rows@[i].1
                    == self@[i].1,
    {
        let mut rows: Vec<(&'people Person, &T)> = Vec::new();
        let mut i: usize = 0;
        while i < self.entries.len()
            invariant
                i <= self.entries.len(),
                rows@.len() == i,
                forall|k: int|
                    0 <= k < i ==> (#[trigger] rows@[k]).0@ == self@[k].0 && *rows@[k].1
                        == self@[k].1,
            decreases self.entries.len() - i,
        {
            rows.push((self.entries[i].0, &self.entries[i].1));
            i += 1;
        }
        rows
    }
}

impl<'people, T> Default for PeopleTracking<'people, T> where T: Default {
    /// A tracker without rows.
    fn default() -> (tracking: Self)
        ensures
            tracking.wf(),
            tracking@ == Seq::<(PersonView, T)>::empty(),
    {
        PeopleTracking::new()
    }
}

/// What a [`TeamTracking`] stands for: the score of those without a team,
/// and one row for each team.
pub struct TeamView<T> {
    pub no_team: T,
    pub teams: Seq<(Seq<char>, T)>,
}

/// The rows of a team tracker as they are walked: first the row of those
/// without a team, which has no name, then the teams in order.
pub open spec fn team_rows<T>(no_team: T, teams: Seq<(Seq<char>, T)>) -> Seq<
    (Option<Seq<char>>, T),
> {
    seq![(None::<Seq<char>>, no_team)] + Seq::new(
        teams.len(),
        |i: int| (Some(teams[i].0), teams[i].1),
    )
}

/// One score per team, found by team name, and one more for everybody who
/// is on no team.
#[derive(Debug)]
pub struct TeamTracking<'people, T> where T: Default {
    no_team: T,
    entries: Vec<(&'people str, T)>,
}

impl<'people, T> View for TeamTracking<'people, T> where T: Default {
    type V = TeamView<T>;

    closed spec fn view(&self) -> TeamView<T> {
        TeamView {
            no_team: self.no_team,
            teams: Seq::new(self.entries@.len(), |i: int| (self.entries@[i].0@, self.entries@[i].1)),
        }
    }
}

impl<'people, T> TeamTracking<'people, T> where T: Default {
    /// No team name has two rows.
    pub open spec fn wf(&self) -> bool {
        team_names(self@.teams).no_duplicates()
    }

    /// A tracker with no team rows and a default score for those without a
    /// team.
    pub fn new() -> (tracking: Self)
        ensures
            tracking.wf(),
            tracking@.teams == Seq::<(Seq<char>, T)>::empty(),
            call_ensures(T::default, (), tracking@.no_team),
    {
        TeamTracking { no_team: T::default(), entries: Vec::new() }
    }

    /// The row of the team of this name, if there is one.
    fn find(&self, team_name: &str) -> (found: Option<usize>)
        requires
            self.wf(),
        ensures
            match found {
                Some(i) => position(team_names(self@.teams), team_name@) == Some(i as int) && i
                    < self.entries@.len(),
                None => position(team_names(self@.teams), team_name@) is None,
            },
    {
        let mut i: usize = 0;
        while i < self.entries.len()
            invariant
                self.wf(),
                i <= self.entries.len(),
                forall|k: int| 0 <= k < i ==> team_names(self@.teams)[k] != team_name@,
            decreases self.entries.len() - i,
        {
            if str_eq(self.entries[i].0, team_name) {
                proof {
                    lemma_position(team_names(self@.teams), team_name@, i as int);
                }
                return Some(i);
            }
            i += 1;
        }
        None
    }

    /// The score that a person counts towards: that of its team, or that of
    /// those without a team.
    pub fn for_person(&mut self, person: &'people Person) -> (slot: &mut T)
        requires
            old(self).wf(),
        ensures
            match person@.team_name {
                Some(team) => {
                    &&& starts_from(team_row_score(old(self)@.teams, team), *slot)
                    &&& final(self)@.teams == team_stored(old(self)@.teams, team, *final(slot))
                    &&& final(self)@.no_team == old(self)@.no_team
                },
                None => {
                    &&& *slot == old(self)@.no_team
                    &&& final(self)@.no_team == *final(slot)
                    &&& final(self)@.teams == old(self)@.teams
                },
            },
            final(self).wf(),
    {
        match person.team_name() {
            Some(name) => self.for_team_name(name),
            None => self.for_no_team(),
        }
    }

    /// The score of a team, to read or to change. A team asked about for the
    /// first time gets a new last row with a default score.
    pub fn for_team_name(&mut self, team_name: &'people str) -> (slot: &mut T)
        requires
            old(self).wf(),
        ensures
            starts_from(team_row_score(old(self)@.teams, team_name@), *slot),
            final(self)@.teams == team_stored(old(self)@.teams, team_name@, *final(slot)),
            final(self)@.no_team == old(self)@.no_team,
            team_names(final(self)@.teams) == match position(
                team_names(old(self)@.teams),
                team_name@,
            ) {
                Some(_) => team_names(old(self)@.teams),
                None => team_names(old(self)@.teams).push(team_name@),
            },
            final(self).wf(),
    {
        let index = match self.find(team_name) {
            Some(i) => i,
            None => {
                self.entries.push((team_name, T::default()));
                self.entries.len() - 1
            },
        };
        proof {
            assert forall|value: T| #[trigger]
                team_stored(old(self)@.teams, team_name@, value).len() >= 0 implies team_names(
                team_stored(old(self)@.teams, team_name@, value),
            ).no_duplicates() by {
                lemma_team_stored_names(old(self)@.teams, team_name@, value);
            }
        }
        &mut self.entries[index].1
    }

    /// The score of those without a team, to read or to change.
    pub fn for_no_team(&mut self) -> (slot: &mut T)
        requires
            old(self).wf(),
        ensures
            *slot == old(self)@.no_team,
            final(self)@.no_team == *final(slot),
            final(self)@.teams == old(self)@.teams,
            final(self).wf(),
    {
        &mut self.no_team
    }

    /// The score of a team, if the team was ever asked about.
    pub fn team_value(&self, team_name: &str) -> (value: Option<&T>)
        requires
            self.wf(),
        ensures
            match value {
                Some(score) => team_row_score(self@.teams, team_name@) == Some(*score),
                None => team_row_score(self@.teams, team_name@) is None,
            },
    {
        match self.find(team_name) {
            Some(i) => Some(&self.entries[i].1),
            None => None,
        }
    }

    /// The score of those without a team.
    pub fn no_team_value(&self) -> (value: &T)
        ensures
            *value == self@.no_team,
    {
        &self.no_team
    }

    /// Walks the rows: first that of those without a team, which is always
    /// there, then the teams in the order in which they were first asked
    /// about.
    pub fn iter(&self) -> (rows: TeamTrackingIter<'_, T>)
        ensures
            rows.wf(),
            rows.remaining() == team_rows(self@.no_team, self@.teams),
    {
        let rows = TeamTrackingIter {
            emitted_no_team: false,
            no_team_value: self.no_team_value(),
            entries: &self.entries,
            next_index: 0,
        };
        assert(rows.remaining() =~= team_rows(self@.no_team, self@.teams));
        rows
    }
}

impl<'people, T> Default for TeamTracking<'people, T> where T: Default {
    /// A tracker with no team rows and a default score for those without a
    /// team.
    fn default() -> (tracking: Self)
        ensures
            tracking.wf(),
            tracking@.teams == Seq::<(Seq<char>, T)>::empty(),
            call_ensures(T::default, (), tracking@.no_team),
    {
        TeamTracking::new()
    }
}

/// A walk over the rows of a [`TeamTracking`], one [`TeamTrackingIter::next`]
/// at a time.
pub struct TeamTrackingIter<'a, T> {
    emitted_no_team: bool,
    no_team_value: &'a T,
    entries: &'a Vec<(&'a str, T)>,
    next_index: usize,
}

impl<'a, T> TeamTrackingIter<'a, T> {
    /// The walk has not run past its rows.
    pub closed spec fn wf(&self) -> bool {
        &&& self.next_index <= self.entries@.len()
        &&& !self.emitted_no_team ==> self.next_index == 0
    }

    /// The rows that the walk has still to give, in order. The row of those
    /// without a team has no name.
    pub closed spec fn remaining(&self) -> Seq<(Option<Seq<char>>, T)> {
        let teams = Seq::new(
            (self.entries@.len() - self.next_index) as nat,
            |i: int|
                (Some(self.entries@[self.next_index + i].0@), self.entries@[self.next_index + i].1),
        );
        if self.emitted_no_team {
            teams
        } else {
            seq![(None::<Seq<char>>, *self.no_team_value)] + teams
        }
    }

    /// The next row, or `None` when all were given.
    pub fn next(&mut self) -> (row: Option<(Option<&'a str>, &'a T)>)
        requires
            old(self).wf(),
        ensures
            final(self).wf(),
            match row {
                Some((team, score)) => {
                    &&& old(self).remaining().len() > 0
                    &&& old(self).remaining()[0] == (
                        match team {
                            Some(name) => Some(name@),
                            None => None,
                        },
                        *score,
                    )
                    &&& final(self).remaining() == old(self).remaining().drop_first()
                },
                None => {
                    &&& old(self).remaining().len() == 0
                    &&& final(self).remaining() == old(self).remaining()
                },
            },
    {
        if !self.emitted_no_team {
            self.emitted_no_team = true;
            assert(self.remaining() =~= old(self).remaining().drop_first());
            Some((None, self.no_team_value))
        } else if self.next_index < self.entries.len() {
            let entry = &self.entries[self.next_index];
            self.next_index = self.next_index + 1;
            assert(self.remaining() =~= old(self).remaining().drop_first());
            Some((Some(entry.0), &entry.1))
        } else {
            None
        }
    }
}

/// The walk over team rows always starts with the row of those without a
/// team, whatever was tracked, and then has one row for each team.
pub proof fn lemma_team_rows_start_without_team<T>(no_team: T, teams: Seq<(Seq<char>, T)>)
    ensures
        team_rows(no_team, teams).len() == teams.len() + 1,
        team_rows(no_team, teams)[0] == (None::<Seq<char>>, no_team),
        forall|i: int|
            0 <= i < teams.len() ==> #[trigger] team_rows(no_team, teams)[i + 1] == (
                Some(teams[i].0),
                teams[i].1,
            ),
{
}

/// What a [`CombinedTracking`] stands for: the rows of the people, the rows
/// of the teams, and the score of those without a team.
pub struct CombinedView<T> {
    pub people: Seq<(PersonView, T)>,
    pub teams: Seq<(Seq<char>, T)>,
    pub no_team: T,
}

/// `func` may be called on a score of `before`.
pub open spec fn accepts<T, F: FnMut(&mut T)>(func: F, before: T) -> bool {
    forall|slot: &mut T| *slot == before ==> #[trigger] call_requires(func, (slot,))
}

impl<T: Default> CombinedView<T> {
    /// No display name and no team name has two rows.
    pub open spec fn distinct(self) -> bool {
        &&& person_names(self.people).no_duplicates()
        &&& team_names(self.teams).no_duplicates()
    }

    /// The state of a tracker that has tracked nothing yet.
    pub open spec fn fresh(self) -> bool {
        &&& self.people.len() == 0
        &&& self.teams.len() == 0
        &&& call_ensures(T::default, (), self.no_team)
    }

    /// The score of the person of this name, if it has a row.
    pub open spec fn person_score(self, name: Seq<char>) -> Option<T> {
        person_row_score(self.people, name)
    }

    /// The score that a person on `team` counts towards, if it has a row:
    /// that of the team, or with `None` that of those without a team, which
    /// is always there.
    pub open spec fn team_score(self, team: Option<Seq<char>>) -> Option<T> {
        match team {
            Some(name) => team_row_score(self.teams, name),
            None => Some(self.no_team),
        }
    }

    /// `value` is what the score of `person` is before a change.
    pub open spec fn person_start(self, person: PersonView, value: T) -> bool {
        starts_from(self.person_score(person.name), value)
    }

    /// `value` is what the score that `person` counts towards, that of its
    /// team or of those without a team, is before a change.
    pub open spec fn team_start(self, person: PersonView, value: T) -> bool {
        starts_from(self.team_score(person.team_name), value)
    }

    /// The state after `person_value` was stored for `person` and
    /// `team_value` for its team, or for those without a team.
    pub open spec fn stored(self, person: PersonView, person_value: T, team_value: T) -> Self {
        CombinedView {
            people: person_stored(self.people, person, person_value),
            teams: match person.team_name {
                Some(team) => team_stored(self.teams, team, team_value),
                None => self.teams,
            },
            no_team: match person.team_name {
                Some(_) => self.no_team,
                None => team_value,
            },
        }
    }

    /// `after` is what tracking `person` once makes of this state, where
    /// `step` relates a score before the change to the score after it: the
    /// change was made to the score of `person` and to the score of its team
    /// (to that of those without a team, if it has none), and to nothing
    /// else.
    pub open spec fn tracked_by(
        self,
        after: Self,
        person: PersonView,
        step: spec_fn(T, T) -> bool,
    ) -> bool {
        exists|a: T, b: T, c: T, d: T|
            #![trigger self.person_start(person, a), self.team_start(person, c), self.stored(person, b, d)]
            {
                &&& self.person_start(person, a)
                &&& self.team_start(person, c)
                &&& step(a, b)
                &&& step(c, d)
                &&& after == self.stored(person, b, d)
            }
    }
}

/// Scores per person and per team at once: whatever is tracked for a person
/// counts for its team as well.
#[derive(Debug)]
pub struct CombinedTracking<'people, T> where T: Default {
    people_tracking: PeopleTracking<'people, T>,
    team_tracking: TeamTracking<'people, T>,
}

impl<'people, T> View for CombinedTracking<'people, T> where T: Default {
    type V = CombinedView<T>;

    closed spec fn view(&self) -> CombinedView<T> {
        CombinedView {
            people: self.people_tracking@,
            teams: self.team_tracking@.teams,
            no_team: self.team_tracking@.no_team,
        }
    }
}

impl<'people, T> CombinedTracking<'people, T> where T: Default {
    /// No display name and no team name has two rows.
    pub open spec fn wf(&self) -> bool {
        self@.distinct()
    }

    /// A tracker with no rows and a default score for those without a team.
    pub fn new() -> (tracking: Self)
        ensures
            tracking.wf(),
            tracking@.fresh(),
            tracking@.people == Seq::<(PersonView, T)>::empty(),
            tracking@.teams == Seq::<(Seq<char>, T)>::empty(),
    {
        CombinedTracking {
            people_tracking: PeopleTracking::new(),
            team_tracking: TeamTracking::new(),
        }
    }

    /// Makes one change, `func`, to the score of the person and to the score
    /// of its team, or of those without a team if it has none. Scores that
    /// are not there yet start from the default.
    pub fn track_person<F>(&mut self, person: &'people Person, mut func: F) where
        F: FnMut(&mut T),

        requires
            old(self).wf(),
            forall|before: T| old(self)@.person_start(person@, before) ==> accepts(func, before),
            forall|before: T| old(self)@.team_start(person@, before) ==> accepts(func, before),
        ensures
            final(self).wf(),
            forall|step: spec_fn(T, T) -> bool|
                (forall|slot: &mut T| #[trigger]
                    call_ensures(func, (slot,), ()) ==> step(*slot, *final(slot)))
                    ==> #[trigger] old(self)@.tracked_by(final(self)@, person@, step),
    {
        let slot = self.people_tracking.for_person(person);
        let ghost a = *slot;
        assert(old(self)@.person_start(person@, a));
        assert(accepts(func, a));
        func(&mut *slot);
        let ghost b = *slot;
        let slot = self.team_tracking.for_person(person);
        let ghost c = *slot;
        assert(old(self)@.team_start(person@, c));
        assert(accepts(func, c));
        func(&mut *slot);
        let ghost d = *slot;
        proof {
            assert(self@ == old(self)@.stored(person@, b, d));
            assert forall|step: spec_fn(T, T) -> bool|
                (forall|slot: &mut T| #[trigger]
                    call_ensures(func, (slot,), ()) ==> step(
                        *slot,
                        *final(slot),
                    )) implies #[trigger] old(self)@.tracked_by(self@, person@, step) by {
                assert(step(a, b));
                assert(step(c, d));
            }
        }
    }

    /// The score of a person, if the person was ever tracked.
    pub fn person_value(&self, person: &Person) -> (value: Option<&T>)
        requires
            self.wf(),
        ensures
            match value {
                Some(score) => self@.person_score(person@.name) == Some(*score),
                None => self@.person_score(person@.name) is None,
            },
    {
        self.people_tracking.person_value(person)
    }

    /// The score of a team, if someone on it was ever tracked.
    pub fn team_value(&self, team_name: &str) -> (value: Option<&T>)
        requires
            self.wf(),
        ensures
            match value {
                Some(score) => team_row_score(self@.teams, team_name@) == Some(*score),
                None => team_row_score(self@.teams, team_name@) is None,
            },
    {
        self.team_tracking.team_value(team_name)
    }

    /// The score of those without a team.
    pub fn no_team_value(&self) -> (value: &T)
        ensures
            *value == self@.no_team,
    {
        self.team_tracking.no_team_value()
    }

    /// The rows of the people, in the order in which they were first
    /// tracked.
    pub fn people_iter(&self) -> (rows: Vec<(&'people Person, &T)>)
        ensures
            rows@.len() == self@.people.len(),
            forall|i: int|
                0 <= i < rows@.len() ==> (#[trigger] rows@[i]).0@ == self@.people[i].0
                    && *rows@[i].1 == self@.people[i].1,
    {
        self.people_tracking.iter()
    }

    /// A walk over the team rows: first that of those without a team, then
    /// the teams in the order in which they were first tracked.
    pub fn team_iter(&self) -> (rows: TeamTrackingIter<'_, T>)
        ensures
            rows.wf(),
            rows.remaining() == team_rows(self@.no_team, self@.teams),
    {
        self.team_tracking.iter()
    }
}

impl<'people, T> Default for CombinedTracking<'people, T> where T: Default {
    /// A tracker with no rows and a default score for those without a team.
    fn default() -> (tracking: Self)
        ensures
            tracking.wf(),
            tracking@.fresh(),
    {
        let tracking = CombinedTracking::new();
        assert(tracking@.people.len() == 0);
        tracking
    }
}

/// Tracking a person once puts the changed scores where they are found
/// again: under the person's name and under its team.
pub proof fn lemma_tracked_once<T: Default>(
    before: CombinedView<T>,
    after: CombinedView<T>,
    person: PersonView,
    step: spec_fn(T, T) -> bool,
)
    requires
        before.distinct(),
        before.tracked_by(after, person, step),
    ensures
        after.distinct(),
        exists|a: T, b: T, c: T, d: T|
            #![trigger before.person_start(person, a), before.team_start(person, c), before.stored(person, b, d)]
            {
                &&& before.person_start(person, a)
                &&& before.team_start(person, c)
                &&& step(a, b)
                &&& step(c, d)
                &&& after.person_score(person.name) == Some(b)
                &&& after.team_score(person.team_name) == Some(d)
            },
{
    let (a, b, c, d) = choose|a: T, b: T, c: T, d: T|
        #![trigger before.person_start(person, a), before.team_start(person, c), before.stored(person, b, d)]
        {
            &&& before.person_start(person, a)
            &&& before.team_start(person, c)
            &&& step(a, b)
            &&& step(c, d)
            &&& after == before.stored(person, b, d)
        };
    lemma_person_stored_names(before.people, person, b);
    match position(person_names(before.people), person.name) {
        Some(i) => {
            assert(person_names(after.people) =~= person_names(before.people));
            lemma_position(person_names(after.people), person.name, i);
        },
        None => {
            assert(person_names(after.people) =~= person_names(before.people).push(
                person.name,
            ));
            lemma_position(
                person_names(after.people),
                person.name,
                before.people.len() as int,
            );
        },
    }
    match person.team_name {
        Some(team) => {
            lemma_team_stored_names(before.teams, team, d);
            match position(team_names(before.teams), team) {
                Some(i) => {
                    assert(team_names(after.teams) =~= team_names(before.teams));
                    lemma_position(team_names(after.teams), team, i);
                },
                None => {
                    assert(team_names(after.teams) =~= team_names(before.teams).push(team));
                    lemma_position(team_names(after.teams), team, before.teams.len() as int);
                },
            }
        },
        None => {},
    }
    assert(before.person_start(person, a) && before.team_start(person, c) && before.stored(
        person,
        b,
        d,
    ) == after);
}

/// Tracking the same person again and again, each time with a change that
/// counts one more, leaves the person's score and the score of its team (of
/// those without a team, if it has none) at the number of times it was
/// tracked. `states` holds the state before the first time and the state
/// after each time; `count` reads the number off a score.
pub proof fn lemma_tracked_repeatedly<T: Default>(
    states: Seq<CombinedView<T>>,
    person: PersonView,
    count: spec_fn(T) -> int,
    step: spec_fn(T, T) -> bool,
)
    requires
        states.len() >= 2,
        states[0].fresh(),
        forall|fresh: T| call_ensures(T::default, (), fresh) ==> #[trigger] count(fresh) == 0,
        forall|before: T, after: T| #[trigger]
            step(before, after) ==> count(after) == count(before) + 1,
        forall|i: int|
            0 <= i < states.len() - 1 ==> (#[trigger] states[i]).tracked_by(
                states[i + 1],
                person,
                step,
            ),
    ensures
        states.last().distinct(),
        states.last().person_score(person.name) is Some,
        count(states.last().person_score(person.name)->0) == states.len() - 1,
        states.last().team_score(person.team_name) is Some,
        count(states.last().team_score(person.team_name)->0) == states.len() - 1,
    decreases states.len(),
{
    let n = states.len() - 1;
    let before = states[n - 1];
    let after = states[n];
    assert(after == states.last());
    assert(before.tracked_by(states[n - 1 + 1], person, step));
    if n == 1 {
        assert(person_names(before.people) =~= Seq::empty());
        assert(team_names(before.teams) =~= Seq::empty());
        lemma_tracked_once(before, after, person, step);
    } else {
        let earlier = states.drop_last();
        assert forall|i: int| 0 <= i < earlier.len() - 1 implies (#[trigger] earlier[i]).tracked_by(
            earlier[i + 1],
            person,
            step,
        ) by {
            assert(states[i].tracked_by(states[i + 1], person, step));
        }
        lemma_tracked_repeatedly(earlier, person, count, step);
        assert(earlier.last() == before);
        lemma_tracked_once(before, after, person, step);
    }
}

} // verus!
