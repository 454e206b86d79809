//! The configuration of a repository: its people, and the commit up to
//! which they were gathered.

use vstd::prelude::*;
use vstd::hash_set::StringHashSet;
use git2::Signature;
use crate::errors::Error;
use crate::git::{signature_email, signature_name, signed_email, signed_name};
use crate::person::{
    email_texts, emails_distinct, first_conflict, holds_email, no_conflict, owner_index, Email,
    PeopleDatabase, Person, PersonView,
};
use crate::ranking::{in_rank_order, sort_ranked, Ranked};
use crate::text::{
    lemma_position, lemma_pushed_key, lemma_text_before_irreflexive, lemma_text_before_total,
    lemma_text_before_transitive, position, str_before, str_eq, text_before,
};

verus! {

/// What a sequence of people stands for.
pub open spec fn person_views(people: Seq<Person>) -> Seq<PersonView> {
    Seq::new(people.len(), |i: int| people[i]@)
}

/// The display names of `people`, in order.
pub open spec fn names_of(people: Seq<PersonView>) -> Seq<Seq<char>> {
    Seq::new(people.len(), |i: int| people[i].name)
}

/// Each of `people` holds each of its addresses once.
pub open spec fn each_wf(people: Seq<PersonView>) -> bool {
    forall|i: int| 0 <= i < people.len() ==> (#[trigger] people[i]).emails.no_duplicates()
}

/// `people[i]` is the first of `people` who has an address that one before
/// it has.
pub open spec fn first_conflicting(people: Seq<PersonView>, i: int) -> bool {
    &&& 0 <= i < people.len()
    &&& !no_conflict(people.take(i), people[i].emails)
    &&& forall|j: int| 0 <= j < i ==> no_conflict(people.take(j), (#[trigger] people[j]).emails)
}

/// None of `people` has an address that one before it has.
pub open spec fn none_conflicting(people: Seq<PersonView>) -> bool {
    forall|j: int|
        0 <= j < people.len() ==> no_conflict(people.take(j), (#[trigger] people[j]).emails)
}

/// Where no address belongs to two of the people, none of them has an
/// address that one before it has: there is a database of them.
pub proof fn lemma_distinct_none_conflicting(people: Seq<PersonView>)
    requires
        emails_distinct(people),
    ensures
        none_conflicting(people),
{
    assert forall|j: int| 0 <= j < people.len() implies no_conflict(
        people.take(j),
        (#[trigger] people[j]).emails,
    ) by {
        assert forall|k: int| 0 <= k < people[j].emails.len() implies !holds_email(
            people.take(j),
            #[trigger] people[j].emails[k],
        ) by {
            let email = people[j].emails[k];
            if holds_email(people.take(j), email) {
                let i = owner_index(people.take(j), email);
                assert(people.take(j)[i].emails.contains(email));
                assert(people[i].emails.contains(email));
                assert(people[j].emails.contains(email));
            }
        }
    }
}

/// `second` is the name of the first of `people` who has an address that one
/// before it has, `email` the first such address of it, and `first` the name
/// of the one who has it before.
pub open spec fn conflict_named(
    people: Seq<PersonView>,
    first: Seq<char>,
    second: Seq<char>,
    email: Seq<char>,
) -> bool {
    exists|i: int, k: int|
        #![trigger first_conflicting(people, i), people[i].emails[k]]
        {
            &&& first_conflicting(people, i)
            &&& first_conflict(people.take(i), people[i].emails, k)
            &&& email == people[i].emails[k]
            &&& first == people[owner_index(people.take(i), email)].name
            &&& second == people[i].name
        }
}

/// The people of a repository, and the commit up to which its history was
/// read for them.
#[derive(Debug)]
pub struct Configuration {
    pub generated_at_sha: String,
    pub people: Vec<Person>,
}

impl Configuration {
    /// Every person holds each of its addresses once.
    pub open spec fn wf(&self) -> bool {
        each_wf(person_views(self.people@))
    }

    /// A database of the people, in their order. Where a person has an
    /// address that one before it has, there is no database, and the error
    /// names the first such person, the first such address of it, and the
    /// one who had it before.
    pub fn people_db(&self) -> (result: Result<PeopleDatabase, Error>)
        requires
            self.wf(),
        ensures
            result is Ok <==> none_conflicting(person_views(self.people@)),
            match result {
                Ok(db) => db.wf() && db@ == person_views(self.people@),
                Err(Error::ConflictingEmail(first, second, email)) => conflict_named(
                    person_views(self.people@),
                    first@,
                    second@,
                    email@,
                ),
                Err(_) => false,
            },
    {
        let ghost people = person_views(self.people@);
        let mut db = PeopleDatabase::new();
        let mut i: usize = 0;
        while i < self.people.len()
            invariant
                i <= self.people.len(),
                self.wf(),
                people == person_views(self.people@),
                db.wf(),
                db@ == people.take(i as int),
                forall|j: int|
                    0 <= j < i ==> no_conflict(people.take(j), (#[trigger] people[j]).emails),
            decreases self.people.len() - i,
        {
            let person = self.people[i].clone();
            assert(person@ == people[i as int]);
            match db.add_person(person) {
                Ok(()) => {
                    assert(db@ =~= people.take(i as int + 1));
                },
                Err(error) => {
                    proof {
                        assert(first_conflicting(people, i as int));
                        let k = choose|k: int| #[trigger]
                            first_conflict(people.take(i as int), people[i as int].emails, k);
                        assert(first_conflict(people.take(i as int), people[i as int].emails, k));
                        let owner = owner_index(
                            people.take(i as int),
                            people[i as int].emails[k],
                        );
                        assert(holds_email(people.take(i as int), people[i as int].emails[k]));
                        assert(people.take(i as int)[owner] == people[owner]);
                        assert(!none_conflicting(people));
                        assert(first_conflicting(people, i as int) && people[i as int].emails[k]
                            == people[i as int].emails[k]);
                    }
                    return Err(error);
                },
            }
            i += 1;
        }
        assert(people.take(i as int) =~= people);
        Ok(db)
    }
}

/// People are ranked by display name, in the order of [`text_before`].
impl Ranked for Person {
    open spec fn ranks_before(&self, other: &Self) -> bool {
        text_before(self@.name, other@.name)
    }

    fn is_before(&self, other: &Self) -> (before: bool) {
        str_before(self.name(), other.name())
    }

    proof fn lemma_ranks_irreflexive(a: &Self) {
        lemma_text_before_irreflexive(a@.name);
    }

    proof fn lemma_ranks_transitive(a: &Self, b: &Self, c: &Self) {
        lemma_text_before_transitive(a@.name, b@.name, c@.name);
    }
}

/// The people after the person called `name` was given the address `email`:
/// the person of that name has it now, behind its other addresses, and where
/// there was no such person there is a new last one, on no team, with this
/// one address.
pub open spec fn with_email(people: Seq<PersonView>, name: Seq<char>, email: Seq<char>) -> Seq<
    PersonView,
> {
    match position(names_of(people), name) {
        Some(i) => people.update(
            i,
            PersonView {
                name: people[i].name,
                emails: if people[i].emails.contains(email) {
                    people[i].emails
                } else {
                    people[i].emails.push(email)
                },
                team_name: people[i].team_name,
            },
        ),
        None => people.push(PersonView { name, emails: seq![email], team_name: None }),
    }
}

/// The people after `person` was taken over as it is: in the place of the
/// one of the same name, or behind the others where there was none.
pub open spec fn with_person(people: Seq<PersonView>, person: PersonView) -> Seq<PersonView> {
    match position(names_of(people), person.name) {
        Some(i) => people.update(i, person),
        None => people.push(person),
    }
}

/// The names of the people are in order, each strictly before the next.
pub open spec fn sorted_by_name(people: Seq<PersonView>) -> bool {
    forall|i: int, j: int|
        #![trigger people[i], people[j]]
        0 <= i < j < people.len() ==> text_before(people[i].name, people[j].name)
}

/// `a` and `b` hold the same people, each once.
pub open spec fn same_people(a: Seq<PersonView>, b: Seq<PersonView>) -> bool {
    &&& a.len() == b.len()
    &&& forall|i: int| 0 <= i < a.len() ==> b.contains(#[trigger] a[i])
    &&& forall|j: int| 0 <= j < b.len() ==> a.contains(#[trigger] b[j])
}

/// What a [`ConfigurationBuilder`] stands for.
pub struct BuilderView {
    /// The latest commit, once it was set.
    pub generated_at_sha: Option<Seq<char>>,
    /// The addresses that have a person.
    pub seen: Set<Seq<char>>,
    /// The people so far, in the order in which their names first came up.
    pub people: Seq<PersonView>,
    /// The addresses that came without a name, in the order in which they
    /// came.
    pub unnamed: Seq<Seq<char>>,
}

impl BuilderView {
    /// No two people have the same name, each person holds each of its
    /// addresses once, and every address of a person counts as seen.
    pub open spec fn wf(self) -> bool {
        &&& names_of(self.people).no_duplicates()
        &&& each_wf(self.people)
        &&& forall|i: int, k: int|
            0 <= i < self.people.len() && 0 <= k < self.people[i].emails.len()
                ==> self.seen.contains(#[trigger] self.people[i].emails[k])
    }

    /// The builder after an author was added. An author without an
    /// address, or with an address that was seen before, changes nothing. A
    /// new address with a name goes to the person of that name. A new
    /// address without a name is kept for later.
    pub open spec fn recorded(self, name: Option<Seq<char>>, email: Option<Seq<char>>) -> BuilderView {
        match email {
            None => self,
            Some(email) => if self.seen.contains(email) {
                self
            } else {
                match name {
                    Some(name) => BuilderView {
                        generated_at_sha: self.generated_at_sha,
                        seen: self.seen.insert(email),
                        people: with_email(self.people, name, email),
                        unnamed: self.unnamed,
                    },
                    None => BuilderView {
                        generated_at_sha: self.generated_at_sha,
                        seen: self.seen,
                        people: self.people,
                        unnamed: self.unnamed.push(email),
                    },
                }
            },
        }
    }

    /// The builder after the first `n` of the addresses that came without a
    /// name were looked at again, one after the other: one that has a person
    /// by then is dropped, and any other gets a person whose name is the
    /// address itself.
    pub open spec fn resolved(self, n: nat) -> BuilderView
        decreases n,
    {
        if n == 0 {
            self
        } else {
            self.resolved((n - 1) as nat).recorded(
                Some(self.unnamed[n - 1]),
                Some(self.unnamed[n - 1]),
            )
        }
    }

    /// The builder after a person of an earlier configuration was read: all
    /// its addresses count as seen, and it stands for its name.
    pub open spec fn read(self, person: PersonView) -> BuilderView {
        BuilderView {
            generated_at_sha: self.generated_at_sha,
            seen: self.seen.union(person.emails.to_set()),
            people: with_person(self.people, person),
            unnamed: self.unnamed,
        }
    }

    /// The builder after `people` were read, from the first to the last.
    pub open spec fn read_all(self, people: Seq<PersonView>) -> BuilderView
        decreases people.len(),
    {
        if people.len() == 0 {
            self
        } else {
            self.read_all(people.drop_last()).read(people.last())
        }
    }
}

/// What an optional string stands for.
pub open spec fn optional_text(text: Option<&str>) -> Option<Seq<char>> {
    match text {
        Some(text) => Some(text@),
        None => None,
    }
}

/// Giving an address that nobody has to the person of a name keeps a
/// builder well formed, and keeps the addresses of different people apart
/// where they were apart.
pub proof fn lemma_recorded_wf(before: BuilderView, name: Seq<char>, email: Seq<char>)
    requires
        before.wf(),
        !before.seen.contains(email),
    ensures
        before.recorded(Some(name), Some(email)).wf(),
        emails_distinct(before.people) ==> emails_distinct(
            before.recorded(Some(name), Some(email)).people,
        ),
{
    let after = before.recorded(Some(name), Some(email));
    let people = before.people;
    match position(names_of(people), name) {
        Some(i) => {
            assert(names_of(after.people) =~= names_of(people));
            assert(!people[i].emails.contains(email)) by {
                if people[i].emails.contains(email) {
                    let k = choose|k: int|
                        0 <= k < people[i].emails.len() && people[i].emails[k] == email;
                    assert(before.seen.contains(people[i].emails[k]));
                }
            }
            assert forall|j: int| 0 <= j < after.people.len() implies (#[trigger] after.people[j]).emails.no_duplicates() by {
                if j != i {
                    assert(after.people[j] == people[j]);
                } else {
                    assert(people[i].emails.no_duplicates());
                }
            }
            assert forall|j: int, k: int|
                0 <= j < after.people.len() && 0 <= k < after.people[j].emails.len()
                    implies after.seen.contains(#[trigger] after.people[j].emails[k]) by {
                if j != i {
                    assert(after.people[j] == people[j]);
                    assert(before.seen.contains(people[j].emails[k]));
                } else if k < people[i].emails.len() {
                    assert(before.seen.contains(people[i].emails[k]));
                }
            }
            if emails_distinct(people) {
                assert forall|a: int, b: int, e: Seq<char>|
                    0 <= a < after.people.len() && 0 <= b < after.people.len()
                        && #[trigger] after.people[a].emails.contains(e)
                        && #[trigger] after.people[b].emails.contains(e) implies a == b by {
                    lemma_held_before(before, after.people, a, e, i, email);
                    lemma_held_before(before, after.people, b, e, i, email);
                    if e != email {
                        assert(people[a].emails.contains(e));
                        assert(people[b].emails.contains(e));
                    }
                }
            }
        },
        None => {
            lemma_pushed_key(names_of(people), name);
            assert(names_of(after.people) =~= names_of(people).push(name));
            let added = PersonView { name, emails: seq![email], team_name: None };
            assert forall|j: int| 0 <= j < after.people.len() implies (#[trigger] after.people[j]).emails.no_duplicates() by {
                if j < people.len() {
                    assert(after.people[j] == people[j]);
                }
            }
            assert forall|j: int, k: int|
                0 <= j < after.people.len() && 0 <= k < after.people[j].emails.len()
                    implies after.seen.contains(#[trigger] after.people[j].emails[k]) by {
                if j < people.len() {
                    assert(after.people[j] == people[j]);
                    assert(before.seen.contains(people[j].emails[k]));
                }
            }
            if emails_distinct(people) {
                assert forall|a: int, b: int, e: Seq<char>|
                    0 <= a < after.people.len() && 0 <= b < after.people.len()
                        && #[trigger] after.people[a].emails.contains(e)
                        && #[trigger] after.people[b].emails.contains(e) implies a == b by {
                    lemma_held_before(before, after.people, a, e, people.len() as int, email);
                    lemma_held_before(before, after.people, b, e, people.len() as int, email);
                    if e != email {
                        assert(people[a].emails.contains(e));
                        assert(people[b].emails.contains(e));
                    }
                }
            }
        },
    }
}

/// Where the people after a change differ from those before only in that
/// the one at `changed` may have the new address `email`, whoever has an
/// address after the change is that one with that address, or had the
/// address before.
proof fn lemma_held_before(
    before: BuilderView,
    after: Seq<PersonView>,
    a: int,
    e: Seq<char>,
    changed: int,
    email: Seq<char>,
)
    requires
        before.wf(),
        !before.seen.contains(email),
        0 <= a < after.len(),
        0 <= changed < after.len(),
        after.len() == before.people.len() || (after.len() == before.people.len() + 1 && changed
            == before.people.len()),
        forall|j: int|
            0 <= j < after.len() && j != changed ==> #[trigger] after[j] == before.people[j],
        changed < before.people.len() ==> after[changed].emails == before.people[changed].emails
            || after[changed].emails == before.people[changed].emails.push(email),
        changed == before.people.len() ==> after[changed].emails == seq![email],
        after[a].emails.contains(e),
    ensures
        e == email ==> a == changed,
        e != email ==> a < before.people.len() && before.people[a].emails.contains(e),
{
    let k = choose|k: int| 0 <= k < after[a].emails.len() && after[a].emails[k] == e;
    if a != changed {
        assert(after[a] == before.people[a]);
        assert(before.seen.contains(before.people[a].emails[k]));
    } else if changed < before.people.len() {
        if k < before.people[changed].emails.len() {
            assert(before.people[changed].emails[k] == e);
            assert(before.seen.contains(before.people[changed].emails[k]));
        }
    }
}

/// Looking again at the addresses that came without a name keeps a builder
/// well formed, and keeps the addresses of different people apart where
/// they were apart.
pub proof fn lemma_resolved_wf(before: BuilderView, n: nat)
    requires
        before.wf(),
        n <= before.unnamed.len(),
    ensures
        before.resolved(n).wf(),
        before.resolved(n).unnamed == before.unnamed,
        before.resolved(n).generated_at_sha == before.generated_at_sha,
        emails_distinct(before.people) ==> emails_distinct(before.resolved(n).people),
    decreases n,
{
    if n > 0 {
        lemma_resolved_wf(before, (n - 1) as nat);
        let earlier = before.resolved((n - 1) as nat);
        let email = before.unnamed[n - 1];
        if !earlier.seen.contains(email) {
            lemma_recorded_wf(earlier, email, email);
        }
    }
}

/// Gathers the people of a repository from the authors of its commits.
pub struct ConfigurationBuilder {
    generated_at_sha: Option<String>,
    seen_emails: StringHashSet,
    people: Vec<Person>,
    unnamed_emails: Vec<Email>,
}

impl View for ConfigurationBuilder {
    type V = BuilderView;

    closed spec fn view(&self) -> BuilderView {
        BuilderView {
            generated_at_sha: match self.generated_at_sha {
                Some(sha) => Some(sha@),
                None => None,
            },
            seen: self.seen_emails@,
            people: person_views(self.people@),
            unnamed: email_texts(self.unnamed_emails@),
        }
    }
}

/// The place of the person called `name` among `people`.
fn find_name(people: &Vec<Person>, name: &str) -> (found: Option<usize>)
    requires
        names_of(person_views(people@)).no_duplicates(),
    ensures
        match found {
            Some(i) => position(names_of(person_views(people@)), name@) == Some(i as int) && i
                < people@.len(),
            None => position(names_of(person_views(people@)), name@) is None,
        },
{
    let mut i: usize = 0;
    while i < people.len()
        invariant
            i <= people.len(),
            names_of(person_views(people@)).no_duplicates(),
            forall|k: int| 0 <= k < i ==> names_of(person_views(people@))[k] != name@,
        decreases people.len() - i,
    {
        if str_eq(people[i].name(), name) {
            proof {
                lemma_position(names_of(person_views(people@)), name@, i as int);
            }
            return Some(i);
        }
        i += 1;
    }
    None
}

/// Gives the person called `name` the address `email`, making the person
/// where there is none of that name.
fn add_to_person(people: &mut Vec<Person>, name: &str, email: Email)
    requires
        names_of(person_views(old(people)@)).no_duplicates(),
        each_wf(person_views(old(people)@)),
    ensures
        person_views(final(people)@) == with_email(person_views(old(people)@), name@, email@),
{
    match find_name(people, name) {
        Some(i) => {
            assert(person_views(people@)[i as int].emails.no_duplicates());
            people[i].add_email(email);
            assert(person_views(people@) =~= with_email(
                person_views(old(people)@),
                name@,
                email@,
            ));
        },
        None => {
            let mut person = Person::new(name);
            person.add_email(email);
            assert(person@.emails =~= seq![email@]);
            people.push(person);
            assert(person_views(people@) =~= with_email(
                person_views(old(people)@),
                name@,
                email@,
            ));
        },
    }
}

impl ConfigurationBuilder {
    /// The builder is well formed.
    pub open spec fn wf(&self) -> bool {
        self@.wf()
    }

    /// A builder that has seen nothing.
    pub fn new() -> (builder: ConfigurationBuilder)
        ensures
            builder.wf(),
            builder@.generated_at_sha is None,
            builder@.seen == Set::<Seq<char>>::empty(),
            builder@.people == Seq::<PersonView>::empty(),
            builder@.unnamed == Seq::<Seq<char>>::empty(),
    {
        let builder = ConfigurationBuilder {
            generated_at_sha: None,
            seen_emails: StringHashSet::new(),
            people: Vec::new(),
            unnamed_emails: Vec::new(),
        };
        assert(builder@.people =~= Seq::<PersonView>::empty());
        assert(builder@.unnamed =~= Seq::<Seq<char>>::empty());
        builder
    }

    /// A builder that goes on from an earlier configuration: it knows its
    /// commit, its people and all their addresses. Of two people of the same
    /// name the later stands.
    pub fn from_existing(config: Configuration) -> (builder: ConfigurationBuilder)
        requires
            config.wf(),
        ensures
            builder.wf(),
            builder@ == (BuilderView {
                generated_at_sha: Some(config.generated_at_sha@),
                seen: Set::empty(),
                people: Seq::empty(),
                unnamed: Seq::empty(),
            }).read_all(person_views(config.people@)),
    {
        let mut builder = ConfigurationBuilder::new();
        builder.read_existing(config);
        builder
    }

    /// Tells the builder the commit up to which authors are added.
    pub fn set_latest_commit_sha(&mut self, commit_sha: String)
        ensures
            final(self)@ == (BuilderView {
                generated_at_sha: Some(commit_sha@),
                seen: old(self)@.seen,
                people: old(self)@.people,
                unnamed: old(self)@.unnamed,
            }),
    {
        self.generated_at_sha = Some(commit_sha);
    }

    /// Adds the author of a commit, by the name and the address that the
    /// signature holds: see [`ConfigurationBuilder::add_authorship`].
    pub fn add_author<'a>(&mut self, author: Signature<'a>)
        requires
            old(self).wf(),
        ensures
            final(self).wf(),
            final(self)@ == old(self)@.recorded(signed_name(author), signed_email(author)),
            emails_distinct(old(self)@.people) ==> emails_distinct(final(self)@.people),
    {
        let name = signature_name(&author);
        let email = signature_email(&author);
        assert(optional_text(name) == signed_name(author));
        assert(optional_text(email) == signed_email(author));
        self.add_authorship(name, email);
    }

    /// Adds an author by name and address. Without an address, or with one
    /// that was seen before, nothing changes. A new address with a name goes
    /// to the person of that name, who is made if need be. A new address
    /// without a name is kept until the configuration is asked for.
    pub fn add_authorship(&mut self, name: Option<&str>, email: Option<&str>)
        requires
            old(self).wf(),
        ensures
            final(self).wf(),
            final(self)@ == old(self)@.recorded(optional_text(name), optional_text(email)),
            emails_distinct(old(self)@.people) ==> emails_distinct(final(self)@.people),
    {
        if let Some(email) = email {
            if !self.seen_emails.contains(email) {
                match name {
                    Some(name) => {
                        proof {
                            lemma_recorded_wf(self@, name@, email@);
                        }
                        self.seen_emails.insert(email.to_owned());
                        add_to_person(&mut self.people, name, Email::from(email));
                    },
                    None => {
                        self.unnamed_emails.push(Email::from(email));
                        assert(self@.unnamed =~= old(self)@.unnamed.push(email@));
                    },
                }
            }
        }
    }

    /// The configuration of all that was added: the people in the order of
    /// their names, after each address that came without a name and has no
    /// person by now was given a person of its own, whose name is the
    /// address. Without a latest commit there is no configuration.
    pub fn into_configuration(self) -> (result: Result<Configuration, Error>)
        requires
            self.wf(),
        ensures
            match result {
                Ok(config) => {
                    &&& self@.generated_at_sha == Some(config.generated_at_sha@)
                    &&& config.wf()
                    &&& sorted_by_name(person_views(config.people@))
                    &&& same_people(
                        person_views(config.people@),
                        self@.resolved(self@.unnamed.len()).people,
                    )
                    &&& emails_distinct(self@.people) ==> emails_distinct(
                        person_views(config.people@),
                    )
                },
                Err(Error::NoCommits) => self@.generated_at_sha is None,
                Err(_) => false,
            },
    {
        let ghost start = self@;
        let ConfigurationBuilder { generated_at_sha, seen_emails, people, unnamed_emails } = self;
        let mut seen_emails = seen_emails;
        let mut people = people;
        let generated_at_sha = match generated_at_sha {
            Some(sha) => sha,
            None => {
                return Err(Error::NoCommits);
            },
        };
        let mut i: usize = 0;
        while i < unnamed_emails.len()
            invariant
                i <= unnamed_emails.len(),
                start.wf(),
                start.unnamed == email_texts(unnamed_emails@),
                start.resolved(i as nat).seen == seen_emails@,
                start.resolved(i as nat).people == person_views(people@),
                start.resolved(i as nat).wf(),
            decreases unnamed_emails.len() - i,
        {
            let email = unnamed_emails[i].clone();
            proof {
                assert(email@ == start.unnamed[i as int]);
                lemma_resolved_wf(start, (i + 1) as nat);
            }
            if !seen_emails.contains(email.as_str()) {
                seen_emails.insert(email.to_string());
                let name = email.to_string();
                add_to_person(&mut people, name.as_str(), email);
            }
            i += 1;
        }
        let ghost resolved = person_views(people@);
        proof {
            lemma_resolved_wf(start, start.unnamed.len());
            lemma_views_distinct(people@);
        }
        let sorted = sort_ranked(people);
        proof {
            lemma_sorted_people(people@, sorted@);
        }
        Ok(Configuration { generated_at_sha, people: sorted })
    }

    /// Takes over the commit, the people and the addresses of an earlier
    /// configuration.
    fn read_existing(&mut self, config: Configuration)
        requires
            old(self).wf(),
            config.wf(),
        ensures
            final(self).wf(),
            final(self)@ == (BuilderView {
                generated_at_sha: Some(config.generated_at_sha@),
                seen: old(self)@.seen,
                people: old(self)@.people,
                unnamed: old(self)@.unnamed,
            }).read_all(person_views(config.people@)),
    {
        let Configuration { generated_at_sha, people } = config;
        let ghost views = person_views(people@);
        self.generated_at_sha = Some(generated_at_sha);
        let ghost start = self@;
        let mut i: usize = 0;
        while i < people.len()
            invariant
                i <= people.len(),
                views == person_views(people@),
                each_wf(views),
                self.wf(),
                self@ == start.read_all(views.take(i as int)),
            decreases people.len() - i,
        {
            let person = people[i].clone();
            let ghost before = self@;
            proof {
                assert(views.take(i as int + 1).drop_last() =~= views.take(i as int));
                assert(person@ == views[i as int]);
                assert(person@.emails.no_duplicates());
            }
            let emails = person.emails();
            let mut k: usize = 0;
            while k < emails.len()
                invariant
                    k <= emails.len(),
                    email_texts(emails@) == person@.emails,
                    self@.generated_at_sha == before.generated_at_sha,
                    self@.people == before.people,
                    self@.unnamed == before.unnamed,
                    self@.seen == before.seen.union(person@.emails.take(k as int).to_set()),
                decreases emails.len() - k,
            {
                let email = &emails[k];
                proof {
                    assert(email@ == person@.emails[k as int]);
                    assert(person@.emails.take(k as int + 1) =~= person@.emails.take(k as int).push(
                        email@,
                    ));
                    assert(before.seen.union(person@.emails.take(k as int + 1).to_set())
                        =~= before.seen.union(person@.emails.take(k as int).to_set()).insert(
                        email@,
                    )) by {
                        lemma_to_set_push(person@.emails.take(k as int), email@);
                    }
                }
                self.seen_emails.insert(email.to_string());
                k += 1;
            }
            proof {
                assert(person@.emails.take(k as int) =~= person@.emails);
                lemma_read_wf(before, person@);
            }
            match find_name(&self.people, person.name()) {
                Some(at) => {
                    self.people[at] = person;
                },
                None => {
                    self.people.push(person);
                },
            }
            assert(self@.people =~= with_person(before.people, views[i as int]));
            i += 1;
        }
        assert(views.take(i as int) =~= views);
    }
}

impl Default for ConfigurationBuilder {
    /// A builder that has seen nothing.
    fn default() -> (builder: ConfigurationBuilder)
        ensures
            builder.wf(),
            builder@.generated_at_sha is None,
            builder@.seen == Set::<Seq<char>>::empty(),
            builder@.people == Seq::<PersonView>::empty(),
            builder@.unnamed == Seq::<Seq<char>>::empty(),
    {
        ConfigurationBuilder::new()
    }
}

/// The set of a sequence with one more element is the set of the sequence
/// with that element put in.
proof fn lemma_to_set_push(items: Seq<Seq<char>>, item: Seq<char>)
    ensures
        items.push(item).to_set() == items.to_set().insert(item),
{
    let after = items.push(item);
    assert forall|x: Seq<char>| after.to_set().contains(x) <==> items.to_set().insert(
        item,
    ).contains(x) by {
        if after.contains(x) {
            let k = choose|k: int| 0 <= k < after.len() && after[k] == x;
            if k < items.len() {
                assert(items[k] == x);
            }
        }
        if items.contains(x) {
            let k = choose|k: int| 0 <= k < items.len() && items[k] == x;
            assert(after[k] == x);
        }
        if x == item {
            assert(after[items.len() as int] == x);
        }
    }
    assert(after.to_set() =~= items.to_set().insert(item));
}

/// Reading a well-formed person keeps a builder well formed.
proof fn lemma_read_wf(before: BuilderView, person: PersonView)
    requires
        before.wf(),
        person.emails.no_duplicates(),
    ensures
        before.read(person).wf(),
{
    let after = before.read(person);
    match position(names_of(before.people), person.name) {
        Some(i) => {
            assert(names_of(after.people) =~= names_of(before.people));
        },
        None => {
            lemma_pushed_key(names_of(before.people), person.name);
            assert(names_of(after.people) =~= names_of(before.people).push(person.name));
        },
    }
    assert forall|j: int| 0 <= j < after.people.len() implies (#[trigger] after.people[j]).emails.no_duplicates() by {
        if after.people[j] != person {
            assert(after.people[j] == before.people[j]);
        }
    }
    assert forall|j: int, k: int|
        0 <= j < after.people.len() && 0 <= k < after.people[j].emails.len()
            implies after.seen.contains(#[trigger] after.people[j].emails[k]) by {
        if after.people[j] != person {
            assert(after.people[j] == before.people[j]);
            assert(before.seen.contains(before.people[j].emails[k]));
        } else {
            assert(person.emails.contains(person.emails[k]));
        }
    }
}

/// People with different names are different people.
proof fn lemma_views_distinct(people: Seq<Person>)
    requires
        names_of(person_views(people)).no_duplicates(),
    ensures
        people.no_duplicates(),
{
    assert forall|i: int, j: int|
        0 <= i < people.len() && 0 <= j < people.len() && i != j implies people[i]
        != people[j] by {
        assert(names_of(person_views(people))[i] != names_of(person_views(people))[j]);
    }
}

/// People with different names that were put in order of rank are in the
/// strict order of their names, and are the same people as before.
proof fn lemma_sorted_people(people: Seq<Person>, sorted: Seq<Person>)
    requires
        names_of(person_views(people)).no_duplicates(),
        in_rank_order(sorted),
        sorted.len() == people.len(),
        sorted.no_duplicates(),
        forall|i: int| 0 <= i < people.len() ==> sorted.contains(#[trigger] people[i]),
        forall|j: int| 0 <= j < sorted.len() ==> people.contains(#[trigger] sorted[j]),
    ensures
        sorted_by_name(person_views(sorted)),
        same_people(person_views(sorted), person_views(people)),
        each_wf(person_views(people)) ==> each_wf(person_views(sorted)),
        emails_distinct(person_views(people)) ==> emails_distinct(person_views(sorted)),
{
    let before = person_views(people);
    let after = person_views(sorted);
    assert forall|i: int, j: int|
        #![trigger after[i], after[j]]
        0 <= i < j < after.len() implies text_before(after[i].name, after[j].name) by {
        assert(people.contains(sorted[i]));
        assert(people.contains(sorted[j]));
        let a = choose|a: int| 0 <= a < people.len() && people[a] == sorted[i];
        let b = choose|b: int| 0 <= b < people.len() && people[b] == sorted[j];
        assert(sorted[i] != sorted[j]);
        assert(names_of(before)[a] != names_of(before)[b]);
        assert(!sorted[j].ranks_before(&sorted[i]));
        lemma_text_before_total(after[i].name, after[j].name);
    }
    assert forall|i: int| 0 <= i < after.len() implies before.contains(#[trigger] after[i]) by {
        assert(people.contains(sorted[i]));
        let a = choose|a: int| 0 <= a < people.len() && people[a] == sorted[i];
        assert(before[a] == after[i]);
    }
    assert forall|j: int| 0 <= j < before.len() implies after.contains(#[trigger] before[j]) by {
        assert(sorted.contains(people[j]));
        let a = choose|a: int| 0 <= a < sorted.len() && sorted[a] == people[j];
        assert(after[a] == before[j]);
    }
    if each_wf(before) {
        assert forall|i: int| 0 <= i < after.len() implies (#[trigger] after[i]).emails.no_duplicates() by {
            assert(before.contains(after[i]));
            let a = choose|a: int| 0 <= a < before.len() && before[a] == after[i];
            assert(before[a].emails.no_duplicates());
        }
    }
    if emails_distinct(before) {
        assert forall|i: int, j: int, e: Seq<char>|
            0 <= i < after.len() && 0 <= j < after.len() && #[trigger] after[i].emails.contains(e)
                && #[trigger] after[j].emails.contains(e) implies i == j by {
            assert(people.contains(sorted[i]));
            assert(people.contains(sorted[j]));
            let a = choose|a: int| 0 <= a < people.len() && people[a] == sorted[i];
            let b = choose|b: int| 0 <= b < people.len() && people[b] == sorted[j];
            assert(before[a].emails.contains(e));
            assert(before[b].emails.contains(e));
            assert(a == b);
        }
    }
}

} // verus!
