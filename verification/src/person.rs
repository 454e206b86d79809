//! Contributors and the e-mail addresses they commit under.

use vstd::prelude::*;
use vstd::hash_map::StringHashMap;
use core::cmp::Ordering;
use vstd::std_specs::cmp::{PartialEqSpecImpl, PartialOrdSpecImpl};
use vstd::std_specs::convert::FromSpecImpl;
use git2::Signature;
use crate::errors::Error;
use crate::git::{address_on, signature_email};
use crate::text::{str_before, text_before};

verus! {

/// An e-mail address as it appears on a commit. Two addresses are the same
/// when their text is the same, character for character.
#[derive(Debug, Hash)]
pub struct Email(String);

impl View for Email {
    type V = Seq<char>;

    closed spec fn view(&self) -> Seq<char> {
        self.0@
    }
}

impl Email {
    /// The address as text.
    pub fn as_str(&self) -> (text: &str)
        ensures
            text@ == self@,
    {
        self.0.as_str()
    }

    /// The address as an owned string.
    pub fn to_string(&self) -> (text: String)
        ensures
            text@ == self@,
    {
        self.0.clone()
    }
}

impl<'a> From<&'a str> for Email {
    fn from(string: &'a str) -> (email: Email)
        ensures
            email@ == string@,
    {
        Email(string.to_owned())
    }
}

impl<'a> FromSpecImpl<&'a str> for Email {
    /// Ghost code cannot make an owned string of a string slice, so the
    /// conversion is described by the `ensures` of `from` alone.
    open spec fn obeys_from_spec() -> bool {
        false
    }

    open spec fn from_spec(v: &'a str) -> Email {
        arbitrary()
    }
}

impl From<String> for Email {
    fn from(string: String) -> (email: Email)
        ensures
            email@ == string@,
    {
        Email(string)
    }
}

impl FromSpecImpl<String> for Email {
    closed spec fn obeys_from_spec() -> bool {
        true
    }

    closed spec fn from_spec(v: String) -> Email {
        Email(v)
    }
}

impl<'a> From<&'a String> for Email {
    fn from(string: &'a String) -> (email: Email)
        ensures
            email@ == string@,
    {
        Email(string.clone())
    }
}

impl<'a> FromSpecImpl<&'a String> for Email {
    closed spec fn obeys_from_spec() -> bool {
        true
    }

    closed spec fn from_spec(v: &'a String) -> Email {
        Email(*v)
    }
}

impl Clone for Email {
    fn clone(&self) -> (copy: Email)
        ensures
            copy@ == self@,
    {
        Email(self.0.clone())
    }
}

impl PartialEq for Email {
    fn eq(&self, other: &Email) -> (same: bool) {
        self.0 == other.0
    }
}

impl PartialEqSpecImpl for Email {
    open spec fn obeys_eq_spec() -> bool {
        true
    }

    open spec fn eq_spec(&self, other: &Email) -> bool {
        self@ == other@
    }
}

impl Eq for Email {

}

/// The texts of a sequence of addresses, in the same order.
pub open spec fn email_texts(emails: Seq<Email>) -> Seq<Seq<char>> {
    Seq::new(emails.len(), |i: int| emails[i]@)
}

/// What a [`Person`] stands for: a display name, the addresses in the order
/// they were added, and the team, if any.
pub struct PersonView {
    pub name: Seq<char>,
    pub emails: Seq<Seq<char>>,
    pub team_name: Option<Seq<char>>,
}

/// A contributor: one display name, any number of e-mail addresses, and
/// optionally a team. No address is held twice.
#[derive(Debug)]
pub struct Person {
    name: String,
    emails: Vec<Email>,
    team_name: Option<String>,
}

impl View for Person {
    type V = PersonView;

    closed spec fn view(&self) -> PersonView {
        PersonView {
            name: self.name@,
            emails: email_texts(self.emails@),
            team_name: match self.team_name {
                Some(team) => Some(team@),
                None => None,
            },
        }
    }
}

impl Person {
    /// A person holds each of its addresses once.
    pub open spec fn wf(&self) -> bool {
        self@.emails.no_duplicates()
    }

    /// A person of the given name, with no address and no team.
    pub fn new(name: &str) -> (person: Person)
        ensures
            person@.name == name@,
            person@.emails == Seq::<Seq<char>>::empty(),
            person@.team_name is None,
            person.wf(),
    {
        Person { name: name.to_owned(), emails: Vec::new(), team_name: None }
    }

    /// Puts the person on a team, or takes it off any team with `None`.
    pub fn set_team_name(&mut self, name: Option<String>)
        ensures
            final(self)@.name == old(self)@.name,
            final(self)@.emails == old(self)@.emails,
            final(self)@.team_name == match name {
                Some(team) => Some(team@),
                None => None,
            },
    {
        self.team_name = name;
    }

    /// Adds an address unless the person has it already; says whether it
    /// was added. A new address goes behind those already there.
    pub fn add_email(&mut self, email: Email) -> (added: bool)
        requires
            old(self).wf(),
        ensures
            final(self).wf(),
            added == !old(self)@.emails.contains(email@),
            final(self)@.emails == if added {
                old(self)@.emails.push(email@)
            } else {
                old(self)@.emails
            },
            final(self)@.name == old(self)@.name,
            final(self)@.team_name == old(self)@.team_name,
    {
        if self.has_email(&email) {
            false
        } else {
            self.emails.push(email);
            assert(self@.emails =~= old(self)@.emails.push(email@));
            true
        }
    }

    /// The display name.
    pub fn name(&self) -> (name: &str)
        ensures
            name@ == self@.name,
    {
        self.name.as_str()
    }

    /// The team, if the person is on one.
    pub fn team_name(&self) -> (team: Option<&str>)
        ensures
            team is Some == self@.team_name is Some,
            team is Some ==> team->0@ == self@.team_name->0,
    {
        match &self.team_name {
            Some(team) => Some(team.as_str()),
            None => None,
        }
    }

    /// The addresses, in the order they were added.
    pub fn emails(&self) -> (emails: &Vec<Email>)
        ensures
            email_texts(emails@) == self@.emails,
    {
        &self.emails
    }

    /// Whether the person has this address.
    pub fn has_email(&self, email: &Email) -> (found: bool)
        ensures
            found == self@.emails.contains(email@),
    {
        let mut i: usize = 0;
        while i < self.emails.len()
            invariant
                i <= self.emails.len(),
                forall|k: int| 0 <= k < i ==> self@.emails[k] != email@,
            decreases self.emails.len() - i,
        {
            if self.emails[i] == *email {
                assert(self@.emails[i as int] == email@);
                return true;
            }
            i += 1;
        }
        false
    }
}

impl Clone for Person {
    fn clone(&self) -> (copy: Person)
        ensures
            copy@ == self@,
    {
        let mut emails: Vec<Email> = Vec::new();
        let mut i: usize = 0;
        while i < self.emails.len()
            invariant
                i <= self.emails.len(),
                emails.len() == i,
                forall|k: int| 0 <= k < i ==> emails@[k]@ == self.emails@[k]@,
            decreases self.emails.len() - i,
        {
            emails.push(self.emails[i].clone());
            i += 1;
        }
        let copy = Person {
            name: self.name.clone(),
            emails,
            team_name: match &self.team_name {
                Some(team) => Some(team.clone()),
                None => None,
            },
        };
        assert(copy@.emails =~= self@.emails);
        copy
    }
}

/// Two persons are the same person when they have the same display name.
impl PartialEq for Person {
    fn eq(&self, other: &Person) -> (same: bool) {
        self.name == other.name
    }
}

impl PartialEqSpecImpl for Person {
    open spec fn obeys_eq_spec() -> bool {
        true
    }

    open spec fn eq_spec(&self, other: &Person) -> bool {
        self@.name == other@.name
    }
}

impl Eq for Person {

}

/// People are ordered by display name, in the order of [`text_before`].
impl PartialOrd for Person {
    fn partial_cmp(&self, other: &Person) -> (order: Option<Ordering>) {
        if str_before(self.name(), other.name()) {
            Some(Ordering::Less)
        } else if str_before(other.name(), self.name()) {
            Some(Ordering::Greater)
        } else {
            Some(Ordering::Equal)
        }
    }
}

impl PartialOrdSpecImpl for Person {
    open spec fn obeys_partial_cmp_spec() -> bool {
        true
    }

    open spec fn partial_cmp_spec(&self, other: &Person) -> Option<Ordering> {
        if text_before(self@.name, other@.name) {
            Some(Ordering::Less)
        } else if text_before(other@.name, self@.name) {
            Some(Ordering::Greater)
        } else {
            Some(Ordering::Equal)
        }
    }
}

/// A person equals an address when the address is one of its own.
impl PartialEq<Email> for Person {
    fn eq(&self, other: &Email) -> (same: bool) {
        self.has_email(other)
    }
}

impl PartialEqSpecImpl<Email> for Person {
    open spec fn obeys_eq_spec() -> bool {
        true
    }

    open spec fn eq_spec(&self, other: &Email) -> bool {
        self@.emails.contains(other@)
    }
}

/// Some person among `people` has the address `email`.
pub open spec fn holds_email(people: Seq<PersonView>, email: Seq<char>) -> bool {
    exists|i: int| 0 <= i < people.len() && #[trigger] people[i].emails.contains(email)
}

/// The place among `people` of a person who has the address `email`.
pub open spec fn owner_index(people: Seq<PersonView>, email: Seq<char>) -> int {
    choose|i: int| 0 <= i < people.len() && #[trigger] people[i].emails.contains(email)
}

/// No address belongs to two of the `people`.
pub open spec fn emails_distinct(people: Seq<PersonView>) -> bool {
    forall|i: int, j: int, email: Seq<char>|
        0 <= i < people.len() && 0 <= j < people.len() && #[trigger] people[i].emails.contains(
            email,
        ) && #[trigger] people[j].emails.contains(email) ==> i == j
}

/// `emails[k]` is the first of `emails` that some person among `people` has.
pub open spec fn first_conflict(people: Seq<PersonView>, emails: Seq<Seq<char>>, k: int) -> bool {
    &&& 0 <= k < emails.len()
    &&& holds_email(people, emails[k])
    &&& forall|j: int| 0 <= j < k ==> !holds_email(people, #[trigger] emails[j])
}

/// None of `emails` belongs to any of the `people`.
pub open spec fn no_conflict(people: Seq<PersonView>, emails: Seq<Seq<char>>) -> bool {
    forall|j: int| 0 <= j < emails.len() ==> !holds_email(people, #[trigger] emails[j])
}

/// The people of a configuration, found by any of their addresses. An
/// address leads to one person at most.
pub struct PeopleDatabase {
    people: Vec<Person>,
    lookup: StringHashMap<usize>,
}

impl View for PeopleDatabase {
    type V = Seq<PersonView>;

    closed spec fn view(&self) -> Seq<PersonView> {
        Seq::new(self.people@.len(), |i: int| self.people@[i]@)
    }
}

impl PeopleDatabase {
    /// The index leads from exactly the addresses that the people have to
    /// the place of the person who has them.
    pub closed spec fn indexed(&self) -> bool {
        &&& forall|email: Seq<char>| #[trigger]
            self.lookup@.contains_key(email) <==> holds_email(self@, email)
        &&& forall|email: Seq<char>| #[trigger]
            self.lookup@.contains_key(email) ==> 0 <= self.lookup@[email] < self@.len()
                && self@[self.lookup@[email] as int].emails.contains(email)
    }

    /// Every person is well formed, no address belongs to two of them, and
    /// the index agrees with the people.
    pub open spec fn wf(&self) -> bool {
        &&& forall|i: int| 0 <= i < self@.len() ==> (#[trigger] self@[i]).emails.no_duplicates()
        &&& emails_distinct(self@)
        &&& self.indexed()
    }

    /// A database without people.
    pub fn new() -> (db: PeopleDatabase)
        ensures
            db.wf(),
            db@ == Seq::<PersonView>::empty(),
    {
        let db = PeopleDatabase { people: Vec::new(), lookup: StringHashMap::new() };
        assert(db@ =~= Seq::<PersonView>::empty());
        db
    }

    /// How many people there are.
    pub fn len(&self) -> (count: usize)
        ensures
            count == self@.len(),
    {
        self.people.len()
    }

    /// Adds a person whose addresses are all new. If someone already has
    /// one of them, nothing is added and the error names the first such
    /// address, in the order the person holds them, with both owners.
    pub fn add_person(&mut self, person: Person) -> (result: Result<(), Error>)
        requires
            old(self).wf(),
            person.wf(),
        ensures
            final(self).wf(),
            result is Ok <==> no_conflict(old(self)@, person@.emails),
            match result {
                Ok(()) => {
                    &&& final(self)@ == old(self)@.push(person@)
                    &&& final(self)@.len() == old(self)@.len() + 1
                },
                Err(Error::ConflictingEmail(first, second, email)) => {
                    &&& final(self)@ == old(self)@
                    &&& exists|k: int| #[trigger]
                        first_conflict(old(self)@, person@.emails, k) && email@
                            == person@.emails[k]
                    &&& first@ == old(self)@[owner_index(old(self)@, email@)].name
                    &&& second@ == person@.name
                },
                Err(_) => false,
            },
    {
        let mut k: usize = 0;
        while k < person.emails.len()
            invariant
                k <= person.emails.len(),
                self.wf(),
                *self == *old(self),
                forall|j: int| 0 <= j < k ==> !holds_email(self@, #[trigger] person@.emails[j]),
            decreases person.emails.len() - k,
        {
            let email = &person.emails[k];
            assert(email@ == person@.emails[k as int]);
            match self.lookup.get(email.as_str()) {
                Some(index) => {
                    let existing = &self.people[*index];
                    proof {
                        self.lemma_owner(email@);
                        assert(first_conflict(self@, person@.emails, k as int));
                    }
                    return Err(
                        Error::ConflictingEmail(
                            existing.name.clone(),
                            person.name.clone(),
                            email.clone(),
                        ),
                    );
                },
                None => {},
            }
            k += 1;
        }
        self.insert_person(person);
        Ok(())
    }

    /// Whether some person has this address.
    pub fn has_email(&self, email: &Email) -> (found: bool)
        requires
            self.wf(),
        ensures
            found == holds_email(self@, email@),
    {
        self.lookup.contains_key(email.as_str())
    }

    /// The person who has this address.
    pub fn find_by_email(&self, email: &Email) -> (result: Result<&Person, Error>)
        requires
            self.wf(),
        ensures
            match result {
                Ok(person) => {
                    &&& holds_email(self@, email@)
                    &&& person@ == self@[owner_index(self@, email@)]
                    &&& person@.emails.contains(email@)
                    &&& person.wf()
                },
                Err(Error::UnknownEmail(unknown)) => {
                    &&& !holds_email(self@, email@)
                    &&& unknown@ == email@
                },
                Err(_) => false,
            },
    {
        match self.lookup.get(email.as_str()) {
            Some(index) => {
                proof {
                    self.lemma_owner(email@);
                }
                Ok(&self.people[*index])
            },
            None => Err(Error::UnknownEmail(email.clone())),
        }
    }

    /// The person who has the address on a signature. Only the address
    /// counts, never the name: a signature whose address is no text is
    /// looked up under the empty address.
    pub fn find_by_signature(&self, signature: Signature) -> (result: Result<&Person, Error>)
        requires
            self.wf(),
        ensures
            match result {
                Ok(person) => {
                    &&& holds_email(self@, address_on(signature))
                    &&& person@ == self@[owner_index(self@, address_on(signature))]
                    &&& person@.emails.contains(address_on(signature))
                    &&& person.wf()
                },
                Err(Error::UnknownEmail(unknown)) => {
                    &&& !holds_email(self@, address_on(signature))
                    &&& unknown@ == address_on(signature)
                },
                Err(_) => false,
            },
    {
        let email = match signature_email(&signature) {
            Some(email) => Email::from(email),
            None => {
                proof {
                    reveal_strlit("");
                }
                assert(""@ =~= Seq::<char>::empty());
                Email::from("")
            },
        };
        self.find_by_email(&email)
    }

    /// The index names the one owner of an address that it knows.
    proof fn lemma_owner(&self, email: Seq<char>)
        requires
            self.wf(),
            self.lookup@.contains_key(email),
        ensures
            holds_email(self@, email),
            owner_index(self@, email) == self.lookup@[email],
            0 <= self.lookup@[email] < self.people@.len(),
    {
        let i = self.lookup@[email] as int;
        assert(self@[i].emails.contains(email));
        let j = owner_index(self@, email);
        assert(self@[j].emails.contains(email));
    }

    /// Adds a person, none of whose addresses anyone has, behind the others.
    fn insert_person(&mut self, person: Person)
        requires
            old(self).wf(),
            person.wf(),
            no_conflict(old(self)@, person@.emails),
        ensures
            final(self).wf(),
            final(self)@ == old(self)@.push(person@),
    {
        let index = self.people.len();
        let ghost before = self.lookup@;
        let mut k: usize = 0;
        while k < person.emails.len()
            invariant
                k <= person.emails.len(),
                self.people == old(self).people,
                index == self.people.len(),
                before == old(self).lookup@,
                forall|email: Seq<char>| #[trigger]
                    self.lookup@.contains_key(email) <==> before.contains_key(email) || exists|
                        j: int,
                    |
                        0 <= j < k && #[trigger] person@.emails[j] == email,
                forall|email: Seq<char>| #[trigger]
                    before.contains_key(email) ==> self.lookup@[email] == before[email],
                forall|j: int|
                    0 <= j < k ==> self.lookup@[#[trigger] person@.emails[j]] == index,
                forall|j: int|
                    0 <= j < person@.emails.len() ==> !before.contains_key(
                        #[trigger] person@.emails[j],
                    ),
            decreases person.emails.len() - k,
        {
            let email = &person.emails[k];
            assert(email@ == person@.emails[k as int]);
            self.lookup.insert(email.to_string(), index);
            k += 1;
        }
        self.people.push(person);
        proof {
            let after = self@;
            assert(after =~= old(self)@.push(person@));
            assert forall|i: int| 0 <= i < after.len() implies (#[trigger] after[i]).emails.no_duplicates() by {
                if i < old(self)@.len() {
                    assert(after[i] == old(self)@[i]);
                }
            }
            assert forall|i: int, j: int, email: Seq<char>|
                0 <= i < after.len() && 0 <= j < after.len() && #[trigger] after[i].emails.contains(
                    email,
                ) && #[trigger] after[j].emails.contains(email) implies i == j by {
                lemma_push_distinct(old(self)@, person@, i, j, email);
            }
            assert forall|email: Seq<char>| #[trigger]
                self.lookup@.contains_key(email) <==> holds_email(after, email) by {
                if self.lookup@.contains_key(email) {
                    if before.contains_key(email) {
                        let i = owner_index(old(self)@, email);
                        assert(old(self)@[i].emails.contains(email));
                        assert(after[i].emails.contains(email));
                    } else {
                        assert(after[index as int].emails.contains(email));
                    }
                }
                if holds_email(after, email) {
                    let i = owner_index(after, email);
                    if i < index {
                        assert(old(self)@[i].emails.contains(email));
                    } else {
                        let j = choose|j: int|
                            0 <= j < person@.emails.len() && person@.emails[j] == email;
                        assert(person@.emails[j] == email);
                    }
                }
            }
            assert forall|email: Seq<char>| #[trigger]
                self.lookup@.contains_key(email) implies 0 <= self.lookup@[email] < after.len()
                && after[self.lookup@[email] as int].emails.contains(email) by {
                if before.contains_key(email) {
                    let i = before[email] as int;
                    assert(old(self)@[i].emails.contains(email));
                    assert(after[i] == old(self)@[i]);
                } else {
                    let j = choose|j: int| 0 <= j < k && #[trigger] person@.emails[j] == email;
                    assert(self.lookup@[person@.emails[j]] == index);
                    assert(after[index as int].emails.contains(email));
                }
            }
        }
    }
}

/// A person whose addresses are all new keeps the addresses distinct.
proof fn lemma_push_distinct(
    people: Seq<PersonView>,
    person: PersonView,
    i: int,
    j: int,
    email: Seq<char>,
)
    requires
        emails_distinct(people),
        no_conflict(people, person.emails),
        0 <= i <= people.len(),
        0 <= j <= people.len(),
        people.push(person)[i].emails.contains(email),
        people.push(person)[j].emails.contains(email),
    ensures
        i == j,
{
    let after = people.push(person);
    if i < people.len() && j < people.len() {
        assert(people[i].emails.contains(email));
        assert(people[j].emails.contains(email));
    } else if i < people.len() {
        assert(people[i].emails.contains(email));
        let k = choose|k: int| 0 <= k < person.emails.len() && person.emails[k] == email;
        assert(!holds_email(people, person.emails[k]));
    } else if j < people.len() {
        assert(people[j].emails.contains(email));
        let k = choose|k: int| 0 <= k < person.emails.len() && person.emails[k] == email;
        assert(!holds_email(people, person.emails[k]));
    }
}

impl Default for PeopleDatabase {
    /// A database without people.
    fn default() -> (db: PeopleDatabase)
        ensures
            db.wf(),
            db@ == Seq::<PersonView>::empty(),
    {
        PeopleDatabase::new()
    }
}

/// After a person was added, each of its addresses leads to it, each
/// address that led to someone before still leads to the same person, and
/// an address that neither had leads to nobody.
pub proof fn lemma_added_person_is_found(
    people: Seq<PersonView>,
    person: PersonView,
    email: Seq<char>,
)
    requires
        emails_distinct(people),
        no_conflict(people, person.emails),
    ensures
        person.emails.contains(email) ==> holds_email(people.push(person), email)
            && people.push(person)[owner_index(people.push(person), email)] == person,
        holds_email(people, email) ==> holds_email(people.push(person), email)
            && people.push(person)[owner_index(people.push(person), email)]
            == people[owner_index(people, email)],
        !person.emails.contains(email) && !holds_email(people, email) ==> !holds_email(
            people.push(person),
            email,
        ),
{
    let after = people.push(person);
    let last = people.len() as int;
    if person.emails.contains(email) {
        assert(after[last].emails.contains(email));
        let found = owner_index(after, email);
        lemma_push_distinct(people, person, found, last, email);
    }
    if holds_email(people, email) {
        let i = owner_index(people, email);
        assert(after[i].emails.contains(email));
        let found = owner_index(after, email);
        lemma_push_distinct(people, person, found, i, email);
    }
    if holds_email(after, email) {
        let found = owner_index(after, email);
        if found < last {
            assert(people[found].emails.contains(email));
        }
    }
}

/// In a database without people no address leads to anyone.
pub proof fn lemma_empty_holds_nothing(email: Seq<char>)
    ensures
        !holds_email(Seq::<PersonView>::empty(), email),
{
}

} // verus!
