//! One count of who owns the lines of a tree.
//!
//! The count itself does no reading. It says what it needs to know next,
//! what a directory holds, a file's kind of content or the attribution of
//! its lines, and is told the answer; the caller does the asking.

use vstd::prelude::*;
use crate::errors::Error;
use crate::ownership::{lines_tracked, OwnershipScore, OwnershipStatistics};
use crate::person::{holds_email, owner_index, Email, PeopleDatabase, Person, PersonView};
use crate::ranking::{
    lemma_sum_by_bounds, lemma_sum_by_nonnegative, lemma_sum_by_push, lemma_sum_by_take,
    lemma_sum_by_update, sum_by,
};
use crate::text::{lemma_position, lemma_pushed_key, position};
use crate::tracking::{
    lemma_person_stored_names, lemma_team_stored_names, person_names, team_names,
    CombinedTracking, CombinedView,
};
use crate::tree_walker::{Entry, EntryKind, EntryView, NodeView, Tree, TreeWalker, WalkView};

verus! {

/// A run of lines of a file that were last changed under one address.
#[derive(Debug)]
pub struct Hunk {
    pub email: Email,
    pub lines: u32,
}

/// What a [`Hunk`] stands for.
pub struct HunkView {
    pub email: Seq<char>,
    pub lines: u32,
}

impl View for Hunk {
    type V = HunkView;

    open spec fn view(&self) -> HunkView {
        HunkView { email: self.email@, lines: self.lines }
    }
}

impl Hunk {
    /// A hunk of `lines` lines under the address `email`. Where the author
    /// has no address that is text the hunk goes under the empty address,
    /// which nobody has. The number of lines is cut to its lower 32 bits.
    pub fn new(email: Option<&str>, lines: usize) -> (hunk: Hunk)
        ensures
            hunk@.email == match email {
                Some(email) => email@,
                None => Seq::<char>::empty(),
            },
            hunk@.lines == (lines as int) % 0x1_0000_0000,
    {
        let email = match email {
            Some(email) => Email::from(email),
            None => {
                proof {
                    reveal_strlit("");
                }
                assert(""@ =~= Seq::<char>::empty());
                Email::from("")
            },
        };
        let cut: u32 = #[verifier::truncate]
        (lines as u32);
        assert(cut == (lines as int) % 0x1_0000_0000) by {
            let wide = lines as u64;
            assert(#[verifier::truncate] (wide as u32) == wide % 0x1_0000_0000) by (bit_vector);
        }
        Hunk { email, lines: cut }
    }
}

/// What a sequence of hunks stands for.
pub open spec fn hunk_views(hunks: Seq<Hunk>) -> Seq<HunkView> {
    Seq::new(hunks.len(), |i: int| hunks[i]@)
}

/// The lines of all `hunks` together.
pub open spec fn hunk_lines(hunks: Seq<HunkView>) -> int {
    sum_by(hunks, |hunk: HunkView| hunk.lines as int)
}

/// The lines of a score, and none where there is no score.
pub open spec fn lines_of(score: Option<OwnershipScore>) -> int {
    match score {
        Some(score) => score.total_lines_owned as int,
        None => 0,
    }
}

/// The scores after `lines` more lines were counted for `person`: for the
/// person itself and for its team, or for those without a team if it has
/// none.
pub open spec fn credited(
    owners: CombinedView<OwnershipScore>,
    person: PersonView,
    lines: u32,
) -> CombinedView<OwnershipScore> {
    owners.stored(
        person,
        OwnershipScore {
            total_lines_owned: (lines_of(owners.person_score(person.name)) + lines) as u32,
        },
        OwnershipScore {
            total_lines_owned: (lines_of(owners.team_score(person.team_name)) + lines) as u32,
        },
    )
}

/// The scores after each of `hunks`, from the first to the last, was counted
/// for the one among `people` who has its address.
pub open spec fn credited_all(
    owners: CombinedView<OwnershipScore>,
    people: Seq<PersonView>,
    hunks: Seq<HunkView>,
) -> CombinedView<OwnershipScore>
    decreases hunks.len(),
{
    if hunks.len() == 0 {
        owners
    } else {
        credited(
            credited_all(owners, people, hunks.drop_last()),
            people[owner_index(people, hunks.last().email)],
            hunks.last().lines,
        )
    }
}

/// `hunks[k]` is the first of `hunks` whose address none of `people` has.
pub open spec fn first_unknown(people: Seq<PersonView>, hunks: Seq<HunkView>, k: int) -> bool {
    &&& 0 <= k < hunks.len()
    &&& !holds_email(people, hunks[k].email)
    &&& forall|j: int| 0 <= j < k ==> holds_email(people, (#[trigger] hunks[j]).email)
}

/// Each of `hunks` has the address of one of `people`.
pub open spec fn all_known(people: Seq<PersonView>, hunks: Seq<HunkView>) -> bool {
    forall|j: int| 0 <= j < hunks.len() ==> holds_email(people, (#[trigger] hunks[j]).email)
}

/// The lines of the people and the lines of the team rows both come to
/// `total`: whatever was counted for a person was counted once for a team
/// row as well.
pub open spec fn balanced(owners: CombinedView<OwnershipScore>, total: int) -> bool {
    &&& owners.distinct()
    &&& lines_tracked(owners.people) == total
    &&& lines_tracked(owners.teams) + owners.no_team.total_lines_owned == total
}

/// Counting lines for a person adds them to the lines of the people and to
/// the lines of the team rows.
pub proof fn lemma_credited_balanced(
    owners: CombinedView<OwnershipScore>,
    person: PersonView,
    lines: u32,
    total: int,
)
    requires
        balanced(owners, total),
        total + lines <= u32::MAX,
    ensures
        balanced(credited(owners, person, lines), total + lines),
        lines_of(owners.person_score(person.name)) + lines <= u32::MAX,
        lines_of(owners.team_score(person.team_name)) + lines <= u32::MAX,
{
    let after = credited(owners, person, lines);
    let people_measure = |row: (PersonView, OwnershipScore)| row.1.total_lines_owned as int;
    let team_measure = |row: (Seq<char>, OwnershipScore)| row.1.total_lines_owned as int;
    let person_value = OwnershipScore {
        total_lines_owned: (lines_of(owners.person_score(person.name)) + lines) as u32,
    };
    let team_value = OwnershipScore {
        total_lines_owned: (lines_of(owners.team_score(person.team_name)) + lines) as u32,
    };
    lemma_person_stored_names(owners.people, person, person_value);
    match position(person_names(owners.people), person.name) {
        Some(i) => {
            lemma_sum_by_bounds(owners.people, i, people_measure);
            lemma_sum_by_update(owners.people, i, (owners.people[i].0, person_value), people_measure);
        },
        None => {
            lemma_sum_by_push(owners.people, (person, person_value), people_measure);
        },
    }
    match person.team_name {
        Some(team) => {
            lemma_team_stored_names(owners.teams, team, team_value);
            lemma_sum_by_nonnegative(owners.teams, team_measure);
            match position(team_names(owners.teams), team) {
                Some(i) => {
                    lemma_sum_by_bounds(owners.teams, i, team_measure);
                    lemma_sum_by_update(owners.teams, i, (team, team_value), team_measure);
                },
                None => {
                    lemma_sum_by_push(owners.teams, (team, team_value), team_measure);
                },
            }
        },
        None => {
            lemma_sum_by_nonnegative(owners.teams, team_measure);
        },
    }
}

/// Counting lines for a person changes the score of that person by these
/// lines, and the score of its team, or of those without a team if it has
/// none; every other score stays as it is.
pub proof fn lemma_credited_scores(
    owners: CombinedView<OwnershipScore>,
    person: PersonView,
    lines: u32,
    name: Seq<char>,
    team: Option<Seq<char>>,
)
    requires
        owners.distinct(),
        lines_of(owners.person_score(person.name)) + lines <= u32::MAX,
        lines_of(owners.team_score(person.team_name)) + lines <= u32::MAX,
    ensures
        lines_of(credited(owners, person, lines).person_score(name)) == lines_of(
            owners.person_score(name),
        ) + if name == person.name {
            lines as int
        } else {
            0
        },
        lines_of(credited(owners, person, lines).team_score(team)) == lines_of(
            owners.team_score(team),
        ) + if team == person.team_name {
            lines as int
        } else {
            0
        },
        credited(owners, person, lines).person_score(person.name) is Some,
        credited(owners, person, lines).team_score(person.team_name) is Some,
{
    let after = credited(owners, person, lines);
    let names = person_names(owners.people);
    match position(names, person.name) {
        Some(i) => {
            assert(person_names(after.people) =~= names);
        },
        None => {
            assert(person_names(after.people) =~= names.push(person.name));
            lemma_pushed_key(names, person.name);
            lemma_position(person_names(after.people), person.name, names.len() as int);
            match position(names, name) {
                Some(j) => {
                    lemma_position(person_names(after.people), name, j);
                },
                None => {
                    if name != person.name {
                        assert(position(person_names(after.people), name) is None) by {
                            if position(person_names(after.people), name) is Some {
                                let j = position(person_names(after.people), name)->0;
                                assert(person_names(after.people)[j] == name);
                                assert(names[j] == name);
                            }
                        }
                    }
                },
            }
        },
    }
    match person.team_name {
        Some(own) => {
            let teams = team_names(owners.teams);
            match position(teams, own) {
                Some(i) => {
                    assert(team_names(after.teams) =~= teams);
                },
                None => {
                    assert(team_names(after.teams) =~= teams.push(own));
                    lemma_pushed_key(teams, own);
                    lemma_position(team_names(after.teams), own, teams.len() as int);
                    match team {
                        Some(other) => {
                            match position(teams, other) {
                                Some(j) => {
                                    lemma_position(team_names(after.teams), other, j);
                                },
                                None => {
                                    if other != own {
                                        assert(position(team_names(after.teams), other) is None) by {
                                            if position(team_names(after.teams), other) is Some {
                                                let j = position(
                                                    team_names(after.teams),
                                                    other,
                                                )->0;
                                                assert(team_names(after.teams)[j] == other);
                                                assert(teams[j] == other);
                                            }
                                        }
                                    }
                                },
                            }
                        },
                        None => {},
                    }
                },
            }
        },
        None => {},
    }
}

/// Counting hunks adds the lines of all of them to the lines of the people
/// and to the lines of the team rows: none is left out and none is counted
/// twice.
pub proof fn lemma_credited_all_balanced(
    owners: CombinedView<OwnershipScore>,
    people: Seq<PersonView>,
    hunks: Seq<HunkView>,
    total: int,
)
    requires
        balanced(owners, total),
        total + hunk_lines(hunks) <= u32::MAX,
    ensures
        balanced(credited_all(owners, people, hunks), total + hunk_lines(hunks)),
    decreases hunks.len(),
{
    if hunks.len() > 0 {
        let measure = |hunk: HunkView| hunk.lines as int;
        lemma_sum_by_nonnegative(hunks.drop_last(), measure);
        lemma_credited_all_balanced(owners, people, hunks.drop_last(), total);
        lemma_credited_balanced(
            credited_all(owners, people, hunks.drop_last()),
            people[owner_index(people, hunks.last().email)],
            hunks.last().lines,
            total + hunk_lines(hunks.drop_last()),
        );
    }
}

/// Counts `lines` more lines for `person` and for its team.
fn credit<'context>(
    owners: &mut CombinedTracking<'context, OwnershipScore>,
    person: &'context Person,
    lines: u32,
    Ghost(total): Ghost<int>,
)
    requires
        old(owners).wf(),
        balanced(old(owners)@, total),
        total + lines <= u32::MAX,
    ensures
        final(owners).wf(),
        final(owners)@ == credited(old(owners)@, person@, lines),
        balanced(final(owners)@, total + lines),
{
    proof {
        lemma_credited_balanced(owners@, person@, lines, total);
    }
    let ghost step = |before: OwnershipScore, after: OwnershipScore|
        after.total_lines_owned == before.total_lines_owned + lines;
    let add = |score: &mut OwnershipScore|
        requires
            old(score).total_lines_owned + lines <= u32::MAX,
        ensures
            final(score).total_lines_owned == old(score).total_lines_owned + lines,
        {
            score.add_lines(lines);
        };
    owners.track_person(person, add);
    proof {
        assert(old(owners)@.tracked_by(owners@, person@, step));
    }
}

/// What a count asks its caller to find out.
#[derive(Debug)]
pub enum Action {
    /// What this directory holds.
    List(Entry),
    /// Whether the content of this file is binary.
    Inspect(Entry),
    /// Who last changed each line of this file.
    Blame(Entry),
    /// Nothing more.
    Finish,
}

/// What an [`Action`] stands for.
pub enum ActionView {
    List(EntryView),
    Inspect(EntryView),
    Blame(EntryView),
    Finish,
}

impl View for Action {
    type V = ActionView;

    open spec fn view(&self) -> ActionView {
        match self {
            Action::List(entry) => ActionView::List(entry@),
            Action::Inspect(entry) => ActionView::Inspect(entry@),
            Action::Blame(entry) => ActionView::Blame(entry@),
            Action::Finish => ActionView::Finish,
        }
    }
}

/// What the caller of a count has found out.
#[derive(Debug)]
pub enum Event {
    /// What the directory asked about holds.
    Listed(Tree),
    /// The file asked about is binary, or is not.
    Binary(bool),
    /// The hunks of the file asked about, from its first line to its last.
    Blamed(Vec<Hunk>),
}

/// What an [`Event`] stands for.
pub enum EventView {
    Listed(Seq<NodeView>),
    Binary(bool),
    Blamed(Seq<HunkView>),
}

impl View for Event {
    type V = EventView;

    open spec fn view(&self) -> EventView {
        match self {
            Event::Listed(tree) => EventView::Listed(tree@),
            Event::Binary(binary) => EventView::Binary(*binary),
            Event::Blamed(hunks) => EventView::Blamed(hunk_views(hunks@)),
        }
    }
}

/// What a count waits for.
pub enum Waiting {
    /// To be told what this directory holds.
    List(EntryView),
    /// To be told whether this file is binary.
    Binary(EntryView),
    /// To be told the hunks of this file.
    Blame(EntryView),
    /// For nothing: every entry was seen.
    Done,
    /// For nothing: the count met this address, which nobody has, and was
    /// given up.
    Failed(Seq<char>),
}

/// What a [`Calculation`] stands for.
pub struct CalculationView {
    /// The people that addresses lead to.
    pub people: Seq<PersonView>,
    /// What the count waits for.
    pub waiting: Waiting,
    /// The walk over the tree.
    pub walk: WalkView,
    /// The scores so far.
    pub owners: CombinedView<OwnershipScore>,
    /// The lines counted so far.
    pub total_lines: int,
}

/// A count that has gone on to the next entry of `walk`: it waits to be
/// told what the entry holds if it is a directory, or whether it is binary
/// if it is a file; or there is no entry left and the count is done.
pub open spec fn at_next_entry(walk: WalkView, waiting: Waiting, after: WalkView) -> bool {
    &&& after == walk.after_next()
    &&& waiting == match walk.next_entry() {
        Some(entry) => if entry.kind == EntryKind::Directory {
            Waiting::List(entry)
        } else {
            Waiting::Binary(entry)
        },
        None => Waiting::Done,
    }
}

impl CalculationView {
    /// With the lines of the hunks that the count waits for, the lines in
    /// all still fit in 32 bits. Every other event fits.
    pub open spec fn fits(self, event: EventView) -> bool {
        match (self.waiting, event) {
            (Waiting::Blame(_), EventView::Blamed(hunks)) => self.total_lines + hunk_lines(hunks)
                <= u32::MAX,
            _ => true,
        }
    }

    /// What the count asks for: an answer about the file that it waits
    /// for, or nothing more.
    pub open spec fn action(self) -> ActionView {
        match self.waiting {
            Waiting::List(entry) => ActionView::List(entry),
            Waiting::Binary(entry) => ActionView::Inspect(entry),
            Waiting::Blame(entry) => ActionView::Blame(entry),
            Waiting::Done => ActionView::Finish,
            Waiting::Failed(_) => ActionView::Finish,
        }
    }

    /// What an event makes of the count: `after` is the count after the
    /// event, and `outcome` the action that it asks for then, or the address
    /// that nobody has.
    ///
    /// Handed what a directory holds, the count goes into it. Told that a
    /// file is binary, the count goes on to the next entry. Told that it is
    /// not, the count asks for its hunks. Given the hunks, the count counts
    /// each for the person who has its address, and goes on to the next
    /// entry; but where nobody has the address of a hunk, the count is given
    /// up for good. Any other event changes nothing, and the count asks
    /// again for what it waits for.
    pub open spec fn steps_to(
        self,
        event: EventView,
        after: CalculationView,
        outcome: Result<ActionView, Seq<char>>,
    ) -> bool {
        &&& after.people == self.people
        &&& match (self.waiting, event) {
            (Waiting::List(_), EventView::Listed(entries)) => {
                &&& outcome == Ok::<ActionView, Seq<char>>(after.action())
                &&& at_next_entry(self.walk.descended(entries), after.waiting, after.walk)
                &&& after.owners == self.owners
                &&& after.total_lines == self.total_lines
            },
            (Waiting::Binary(entry), EventView::Binary(false)) => {
                &&& outcome == Ok::<ActionView, Seq<char>>(ActionView::Blame(entry))
                &&& after.waiting == Waiting::Blame(entry)
                &&& after.walk == self.walk
                &&& after.owners == self.owners
                &&& after.total_lines == self.total_lines
            },
            (Waiting::Binary(_), EventView::Binary(true)) => {
                &&& outcome == Ok::<ActionView, Seq<char>>(after.action())
                &&& at_next_entry(self.walk, after.waiting, after.walk)
                &&& after.owners == self.owners
                &&& after.total_lines == self.total_lines
            },
            (Waiting::Blame(_), EventView::Blamed(hunks)) => {
                if all_known(self.people, hunks) {
                    &&& outcome == Ok::<ActionView, Seq<char>>(after.action())
                    &&& at_next_entry(self.walk, after.waiting, after.walk)
                    &&& after.owners == credited_all(self.owners, self.people, hunks)
                    &&& after.total_lines == self.total_lines + hunk_lines(hunks)
                } else {
                    exists|k: int|
                        {
                            &&& #[trigger] first_unknown(self.people, hunks, k)
                            &&& outcome == Err::<ActionView, Seq<char>>(hunks[k].email)
                            &&& after.waiting == Waiting::Failed(hunks[k].email)
                        }
                }
            },
            (Waiting::Failed(email), _) => {
                &&& outcome == Err::<ActionView, Seq<char>>(email)
                &&& after == self
            },
            _ => {
                &&& outcome == Ok::<ActionView, Seq<char>>(self.action())
                &&& after == self
            },
        }
    }
}

/// What a step came to, as [`CalculationView::steps_to`] takes it.
pub open spec fn outcome_of(result: Result<Action, Error>) -> Result<ActionView, Seq<char>> {
    match result {
        Ok(action) => Ok(action@),
        Err(Error::UnknownEmail(email)) => Err(email@),
        Err(_) => Err(Seq::empty()),
    }
}

/// Where the count stands.
enum Phase {
    Listing(Entry),
    Inspecting(Entry),
    Blaming(Entry),
    Done,
    Failed(Email),
}

/// A count of the lines of a tree by owner, taken one step at a time: the
/// count asks for something, and each [`Calculation::step`] takes what the
/// caller found out and says what to find out next.
pub struct Calculation<'context> {
    people_db: &'context PeopleDatabase,
    walker: TreeWalker,
    owners: CombinedTracking<'context, OwnershipScore>,
    total_lines: u32,
    phase: Phase,
}

impl<'context> View for Calculation<'context> {
    type V = CalculationView;

    closed spec fn view(&self) -> CalculationView {
        CalculationView {
            people: self.people_db@,
            waiting: match self.phase {
                Phase::Listing(entry) => Waiting::List(entry@),
                Phase::Inspecting(entry) => Waiting::Binary(entry@),
                Phase::Blaming(entry) => Waiting::Blame(entry@),
                Phase::Done => Waiting::Done,
                Phase::Failed(email) => Waiting::Failed(email@),
            },
            walk: self.walker@,
            owners: self.owners@,
            total_lines: self.total_lines as int,
        }
    }
}

impl<'context> Calculation<'context> {
    /// The parts of the count are well formed.
    pub closed spec fn parts_wf(&self) -> bool {
        &&& self.people_db.wf()
        &&& self.walker.wf()
        &&& self.owners.wf()
    }

    /// The count is well formed, and the lines in all are those of the
    /// people together and those of the team rows together.
    pub open spec fn wf(&self) -> bool {
        &&& self.parts_wf()
        &&& 0 <= self@.total_lines <= u32::MAX
        &&& balanced(self@.owners, self@.total_lines)
    }

    /// A count of the files of the tree whose root holds `tree`, with
    /// addresses resolved by `people_db`. It has counted nothing yet and
    /// asks about the first entry of the root, if there is one.
    pub fn new(people_db: &'context PeopleDatabase, tree: Tree) -> (calculation: Calculation<
        'context,
    >)
        requires
            people_db.wf(),
        ensures
            calculation.wf(),
            calculation@.people == people_db@,
            at_next_entry(WalkView::begin(tree@), calculation@.waiting, calculation@.walk),
            calculation@.owners.fresh(),
            calculation@.total_lines == 0,
    {
        let mut calculation = Calculation {
            people_db,
            walker: TreeWalker::new(tree),
            owners: CombinedTracking::new(),
            total_lines: 0,
            phase: Phase::Done,
        };
        assert(calculation@.owners.people =~= Seq::empty());
        assert(calculation@.owners.teams =~= Seq::empty());
        proof {
            lemma_sum_by_nonnegative(
                calculation@.owners.people,
                |row: (PersonView, OwnershipScore)| row.1.total_lines_owned as int,
            );
        }
        calculation.advance();
        calculation
    }

    /// What the count asks for now.
    pub fn action(&self) -> (action: Action)
        ensures
            action@ == self@.action(),
    {
        match &self.phase {
            Phase::Listing(entry) => Action::List(entry.clone()),
            Phase::Inspecting(entry) => Action::Inspect(entry.clone()),
            Phase::Blaming(entry) => Action::Blame(entry.clone()),
            Phase::Done => Action::Finish,
            Phase::Failed(_) => Action::Finish,
        }
    }

    /// The lines counted so far.
    pub fn total_lines(&self) -> (lines: u32)
        requires
            self.wf(),
        ensures
            lines == self@.total_lines,
    {
        self.total_lines
    }

    /// Whether the count can take `event` without running out of numbers for
    /// the lines in all.
    pub fn fits(&self, event: &Event) -> (fitting: bool)
        requires
            self.wf(),
        ensures
            fitting == self@.fits(event@),
    {
        match (&self.phase, event) {
            (Phase::Blaming(_), Event::Blamed(hunks)) => {
                let ghost measure = |hunk: HunkView| hunk.lines as int;
                let ghost views = hunk_views(hunks@);
                let mut sum: u64 = self.total_lines as u64;
                let mut i: usize = 0;
                while i < hunks.len()
                    invariant
                        i <= hunks.len(),
                        views == hunk_views(hunks@),
                        event@ == EventView::Blamed(views),
                        self@.waiting is Blame,
                        measure == |hunk: HunkView| hunk.lines as int,
                        sum == self.total_lines + sum_by(views.take(i as int), measure),
                        sum <= u32::MAX,
                    decreases hunks.len() - i,
                {
                    proof {
                        lemma_sum_by_take(views, i as int, measure);
                        assert(views[i as int] == hunks@[i as int]@);
                    }
                    sum = sum + hunks[i].lines as u64;
                    if sum > u32::MAX as u64 {
                        proof {
                            lemma_sum_by_take(views, i as int + 1, measure);
                        }
                        return false;
                    }
                    i += 1;
                }
                assert(views.take(i as int) =~= views);
                true
            },
            _ => true,
        }
    }

    /// Goes on to the next entry of the walk.
    fn advance(&mut self)
        requires
            old(self).wf(),
        ensures
            final(self).wf(),
            final(self)@.people == old(self)@.people,
            final(self)@.owners == old(self)@.owners,
            final(self)@.total_lines == old(self)@.total_lines,
            at_next_entry(old(self)@.walk, final(self)@.waiting, final(self)@.walk),
    {
        match self.walker.next() {
            Some(entry) => {
                if entry.is_dir() {
                    self.phase = Phase::Listing(entry);
                } else {
                    self.phase = Phase::Inspecting(entry);
                }
            },
            None => {
                self.phase = Phase::Done;
            },
        }
    }

    /// Takes what the caller found out and says what to find out next:
    /// see [`CalculationView::steps_to`].
    ///
    /// A count goes through the tree in pre-order. Of a directory it asks
    /// what it holds, and goes into it. Of a file that is binary it wants
    /// nothing more and goes on to the next entry. Of any other file it
    /// asks for the hunks, and counts the lines of each for the person who
    /// has its address, and for that person's team. A hunk whose address
    /// nobody has ends the count with an error; there is no going on after
    /// it.
    pub fn step(&mut self, event: Event) -> (result: Result<Action, Error>)
        requires
            old(self).wf(),
            old(self)@.fits(event@),
        ensures
            final(self).wf(),
            result is Err ==> result->Err_0 is UnknownEmail,
            old(self)@.steps_to(event@, final(self)@, outcome_of(result)),
    {
        if let Phase::Failed(email) = &self.phase {
            return Err(Error::UnknownEmail(email.clone()));
        }
        match event {
            Event::Listed(tree) => {
                let waits = match &self.phase {
                    Phase::Listing(_) => true,
                    _ => false,
                };
                if waits {
                    self.walker.descend(tree);
                    self.advance();
                }
                Ok(self.action())
            },
            Event::Binary(binary) => {
                let asked = match &self.phase {
                    Phase::Inspecting(entry) => Some(entry.clone()),
                    _ => None,
                };
                match asked {
                    Some(entry) => {
                        if binary {
                            self.advance();
                        } else {
                            self.phase = Phase::Blaming(entry);
                        }
                    },
                    None => {},
                }
                Ok(self.action())
            },
            Event::Blamed(hunks) => {
                let waits = match &self.phase {
                    Phase::Blaming(_) => true,
                    _ => false,
                };
                if !waits {
                    return Ok(self.action());
                }
                let people_db: &'context PeopleDatabase = self.people_db;
                let ghost views = hunk_views(hunks@);
                let ghost measure = |hunk: HunkView| hunk.lines as int;
                let mut i: usize = 0;
                while i < hunks.len()
                    invariant
                        i <= hunks.len(),
                        self.parts_wf(),
                        people_db == self.people_db,
                        people_db == old(self).people_db,
                        self.walker == old(self).walker,
                        self.phase == old(self).phase,
                        views == hunk_views(hunks@),
                        event@ == EventView::Blamed(views),
                        old(self)@.waiting is Blame,
                        measure == |hunk: HunkView| hunk.lines as int,
                        balanced(self.owners@, self.total_lines as int),
                        self.total_lines == old(self).total_lines + sum_by(
                            views.take(i as int),
                            measure,
                        ),
                        old(self).total_lines + sum_by(views, measure) <= u32::MAX,
                        self.owners@ == credited_all(
                            old(self).owners@,
                            people_db@,
                            views.take(i as int),
                        ),
                        forall|j: int|
                            0 <= j < i ==> holds_email(people_db@, (#[trigger] views[j]).email),
                    decreases hunks.len() - i,
                {
                    proof {
                        lemma_sum_by_take(views, i as int, measure);
                        lemma_sum_by_take(views, i as int + 1, measure);
                        assert(views.take(i as int + 1).drop_last() =~= views.take(i as int));
                        assert(views[i as int] == hunks@[i as int]@);
                    }
                    match people_db.find_by_email(&hunks[i].email) {
                        Ok(person) => {
                            credit(
                                &mut self.owners,
                                person,
                                hunks[i].lines,
                                Ghost(self.total_lines as int),
                            );
                            self.total_lines = self.total_lines + hunks[i].lines;
                        },
                        Err(error) => {
                            self.phase = Phase::Failed(hunks[i].email.clone());
                            proof {
                                assert(first_unknown(people_db@, views, i as int));
                                assert(!all_known(people_db@, views));
                            }
                            return Err(error);
                        },
                    }
                    i += 1;
                }
                proof {
                    assert(views.take(i as int) =~= views);
                    assert(all_known(people_db@, views));
                }
                self.advance();
                Ok(self.action())
            },
        }
    }

    /// Whether every entry was seen, so that the count can be summed up.
    pub fn is_done(&self) -> (done: bool)
        ensures
            done == (self@.waiting == Waiting::Done),
    {
        match self.phase {
            Phase::Done => true,
            _ => false,
        }
    }

    /// The outcome of a count that is done.
    pub fn finish(self) -> (statistics: OwnershipStatistics<'context>)
        requires
            self.wf(),
            self@.waiting == Waiting::Done,
        ensures
            statistics.wf(),
            statistics@ == self@.owners,
            statistics.spec_total_lines() == self@.total_lines,
    {
        OwnershipStatistics::from_tracking(self.owners)
    }
}

} // verus!
