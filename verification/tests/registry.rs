use git2::Signature;
use git_trivia::{
    Configuration, ConfigurationBuilder, Email, Error, PeopleDatabase, Person,
};

fn person(name: &str, emails: &[&str]) -> Person {
    let mut person = Person::new(name);
    for email in emails {
        person.add_email(Email::from(*email));
    }
    person
}

fn names(config: &Configuration) -> Vec<&str> {
    config.people.iter().map(|p| p.name()).collect()
}

fn emails(person: &Person) -> Vec<&str> {
    person.emails().iter().map(|e| e.as_str()).collect()
}

#[test]
fn it_grows_by_one_for_each_person_with_new_emails() {
    let mut db = PeopleDatabase::new();
    assert_eq!(db.len(), 0);
    db.add_person(person("A", &["a@x", "a2@x"])).unwrap();
    assert_eq!(db.len(), 1);
    db.add_person(person("B", &["b@x"])).unwrap();
    assert_eq!(db.len(), 2);
    db.add_person(person("Nobody", &[])).unwrap();
    assert_eq!(db.len(), 3);
}

#[test]
fn it_stays_as_it_was_when_an_email_conflicts() {
    let mut db = PeopleDatabase::new();
    db.add_person(person("A", &["a@x", "shared@x"])).unwrap();
    db.add_person(person("B", &["b@x", "again@x"])).unwrap();
    let error = db
        .add_person(person("C", &["c@x", "again@x", "shared@x"]))
        .unwrap_err();
    match error {
        Error::ConflictingEmail(first, second, email) => {
            assert_eq!(first, "B");
            assert_eq!(second, "C");
            assert_eq!(email.as_str(), "again@x");
        }
        other => panic!("{:?}", other),
    }
    assert_eq!(db.len(), 2);
    assert!(!db.has_email(&Email::from("c@x")));
    assert!(db.has_email(&Email::from("again@x")));
    assert_eq!(db.find_by_email(&Email::from("shared@x")).unwrap().name(), "A");
}

#[test]
fn it_finds_every_email_of_everyone_added() {
    let mut db = PeopleDatabase::new();
    db.add_person(person("A", &["a@x", "a2@x", "a3@x"])).unwrap();
    db.add_person(person("B", &["b@x"])).unwrap();
    for email in ["a@x", "a2@x", "a3@x"] {
        assert!(db.has_email(&Email::from(email)));
        assert_eq!(db.find_by_email(&Email::from(email)).unwrap().name(), "A");
    }
    assert_eq!(db.find_by_email(&Email::from("b@x")).unwrap().name(), "B");
    let error = db.find_by_email(&Email::from("A")).unwrap_err();
    assert!(matches!(error, Error::UnknownEmail(email) if email.as_str() == "A"));
    assert!(!db.has_email(&Email::from("")));
    let empty = PeopleDatabase::new();
    assert!(matches!(
        empty.find_by_email(&Email::from("a@x")),
        Err(Error::UnknownEmail(_))
    ));
}

#[test]
fn it_finds_by_the_email_of_a_signature_alone() {
    let mut db = PeopleDatabase::new();
    db.add_person(person("Jane Doe", &["jane@x.com"])).unwrap();
    let signature = Signature::now("Somebody Else", "jane@x.com").unwrap();
    assert_eq!(db.find_by_signature(signature).unwrap().name(), "Jane Doe");
    let signature = Signature::now("Jane Doe", "other@x.com").unwrap();
    let error = db.find_by_signature(signature).unwrap_err();
    assert!(matches!(error, Error::UnknownEmail(email) if email.as_str() == "other@x.com"));
}

#[test]
fn it_converts_emails_from_strings() {
    let a = Email::from("a@x");
    let b = Email::from(String::from("a@x"));
    let c = Email::from(&String::from("a@x"));
    assert_eq!(a, b);
    assert_eq!(b, c);
    assert_eq!(a.clone(), a);
    assert_ne!(a, Email::from("A@x"));
    assert_eq!(a.as_str(), "a@x");
    assert_eq!(a.to_string(), "a@x");
}

#[test]
fn it_tells_people_apart_by_name() {
    let mut a = person("Same", &["one@x"]);
    a.set_team_name(Some("T".to_string()));
    let b = person("Same", &["two@x"]);
    let c = person("Other", &["one@x"]);
    assert!(a == b);
    assert!(a != c);
    assert_eq!(a.team_name(), Some("T"));
    assert_eq!(b.team_name(), None);
    assert!(a.has_email(&Email::from("one@x")));
    assert!(!a.has_email(&Email::from("two@x")));
    let copy = a.clone();
    assert_eq!(copy.name(), "Same");
    assert_eq!(copy.team_name(), Some("T"));
    assert_eq!(emails(&copy), vec!["one@x"]);
}

#[test]
fn it_refuses_to_build_without_a_commit() {
    let mut builder = ConfigurationBuilder::new();
    builder.add_authorship(Some("A"), Some("a@x"));
    let error = builder.into_configuration().unwrap_err();
    assert!(matches!(error, Error::NoCommits));
    assert_eq!(error.to_string(), "Repository has no commit yet");
}

#[test]
fn it_merges_the_emails_seen_under_one_name() {
    let mut builder = ConfigurationBuilder::new();
    builder.set_latest_commit_sha("abc".to_string());
    builder.add_authorship(Some("Jane Doe"), Some("jane@x.com"));
    builder.add_authorship(Some("John Doe"), Some("john@x.com"));
    builder.add_authorship(Some("Jane Doe"), Some("jane2@x.com"));
    builder.add_authorship(Some("Jane Doe"), Some("jane@x.com"));
    builder.add_authorship(Some("Impostor"), Some("john@x.com"));
    builder.add_authorship(Some("No Mail"), None);
    builder.add_authorship(None, None);
    let config = builder.into_configuration().unwrap();
    assert_eq!(config.generated_at_sha, "abc");
    assert_eq!(names(&config), vec!["Jane Doe", "John Doe"]);
    assert_eq!(emails(&config.people[0]), vec!["jane@x.com", "jane2@x.com"]);
    assert_eq!(emails(&config.people[1]), vec!["john@x.com"]);
    assert_eq!(config.people[0].team_name(), None);
    let db = config.people_db().unwrap();
    assert_eq!(db.len(), 2);
}

#[test]
fn it_names_people_after_emails_that_came_without_a_name() {
    let mut builder = ConfigurationBuilder::new();
    builder.set_latest_commit_sha("abc".to_string());
    builder.add_authorship(None, Some("ghost@x.com"));
    builder.add_authorship(None, Some("later-named@x.com"));
    builder.add_authorship(Some("Named"), Some("later-named@x.com"));
    builder.add_authorship(None, Some("ghost@x.com"));
    builder.add_authorship(None, Some("named-first@x.com"));
    builder.add_authorship(Some("named-first@x.com"), Some("other@x.com"));
    let config = builder.into_configuration().unwrap();
    assert_eq!(
        names(&config),
        vec!["Named", "ghost@x.com", "named-first@x.com"]
    );
    assert_eq!(emails(&config.people[0]), vec!["later-named@x.com"]);
    assert_eq!(emails(&config.people[1]), vec!["ghost@x.com"]);
    assert_eq!(
        emails(&config.people[2]),
        vec!["other@x.com", "named-first@x.com"]
    );
    assert!(config.people_db().is_ok());
}

#[test]
fn it_goes_on_from_an_existing_configuration() {
    let mut jane = person("Jane", &["jane@x.com"]);
    jane.set_team_name(Some("Core".to_string()));
    let existing = Configuration {
        generated_at_sha: "old".to_string(),
        people: vec![jane, person("Bob", &["bob@x.com", "bob2@x.com"])],
    };
    let mut builder = ConfigurationBuilder::from_existing(existing);
    builder.add_authorship(Some("Renamed Bob"), Some("bob2@x.com"));
    builder.add_authorship(Some("Jane"), Some("jane-new@x.com"));
    builder.add_authorship(Some("Al"), Some("al@x.com"));
    let config = builder.into_configuration().unwrap();
    assert_eq!(config.generated_at_sha, "old");
    assert_eq!(names(&config), vec!["Al", "Bob", "Jane"]);
    assert_eq!(emails(&config.people[1]), vec!["bob@x.com", "bob2@x.com"]);
    assert_eq!(emails(&config.people[2]), vec!["jane@x.com", "jane-new@x.com"]);
    assert_eq!(config.people[2].team_name(), Some("Core"));
}

#[test]
fn it_takes_the_later_commit() {
    let existing = Configuration {
        generated_at_sha: "old".to_string(),
        people: vec![],
    };
    let mut builder = ConfigurationBuilder::from_existing(existing);
    builder.set_latest_commit_sha("new".to_string());
    let config = builder.into_configuration().unwrap();
    assert_eq!(config.generated_at_sha, "new");
    assert!(config.people.is_empty());
}

#[test]
fn it_lets_the_later_of_two_namesakes_stand() {
    let existing = Configuration {
        generated_at_sha: "old".to_string(),
        people: vec![
            person("Twin", &["first@x.com"]),
            person("Solo", &["solo@x.com"]),
            person("Twin", &["second@x.com"]),
        ],
    };
    let mut builder = ConfigurationBuilder::from_existing(existing);
    builder.add_authorship(Some("New"), Some("first@x.com"));
    let config = builder.into_configuration().unwrap();
    assert_eq!(names(&config), vec!["Solo", "Twin"]);
    assert_eq!(emails(&config.people[1]), vec!["second@x.com"]);
}

#[test]
fn it_reports_the_first_conflict_of_a_configuration() {
    let config = Configuration {
        generated_at_sha: "sha".to_string(),
        people: vec![
            person("A", &["a@x"]),
            person("B", &["b@x"]),
            person("C", &["c@x", "b@x", "a@x"]),
            person("D", &["a@x"]),
        ],
    };
    match config.people_db() {
        Err(Error::ConflictingEmail(first, second, email)) => {
            assert_eq!(first, "B");
            assert_eq!(second, "C");
            assert_eq!(email.as_str(), "b@x");
        }
        other => panic!("{:?}", other.map(|db| db.len())),
    }
}

#[test]
fn it_takes_name_and_email_from_a_signature() {
    let mut builder = ConfigurationBuilder::new();
    builder.set_latest_commit_sha("sha".to_string());
    builder.add_author(Signature::now("Åsa Öberg", "asa@example.com").unwrap());
    let config = builder.into_configuration().unwrap();
    assert_eq!(names(&config), vec!["Åsa Öberg"]);
    assert_eq!(emails(&config.people[0]), vec!["asa@example.com"]);
}

#[test]
fn it_orders_people_by_name() {
    let a = person("Alice", &["z@x"]);
    let b = person("Bob", &["a@x"]);
    assert!(a < b);
    assert!(!(b < a));
    assert!(b > a);
    assert!(a <= person("Alice", &[]));
    assert!(!(a < person("Alice", &[])));
    assert!(person("Zed", &[]) < person("adam", &[]));
}
