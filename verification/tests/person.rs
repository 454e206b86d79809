use git_trivia::{CombinedTracking, Email, PeopleDatabase, PeopleTracking, Person, TeamTracking};

#[test]
fn it_equals_string_equal_to_one_of_the_emails() {
    let mut person = Person::new("John Doe");
    person.add_email(Email::from("j.doe@example.com"));
    person.add_email(Email::from("doe@example.com"));
    let person = person;

    assert_eq!(person, Email::from("j.doe@example.com"));
    assert_eq!(person, Email::from("doe@example.com"));

    assert_ne!(person, Email::from("John Doe"));
    assert_ne!(person, Email::from("doe.does@example.com"));
}

#[test]
fn it_does_not_add_duplicted_emails() {
    let mut person = Person::new("Jane Doe");
    assert_eq!(person.add_email(Email::from("jane@example.com")), true);
    assert_eq!(person.add_email(Email::from("jane@example.com")), false);
    assert_eq!(person.add_email(Email::from("jane2@example.com")), true);
    assert_eq!(person.emails().len(), 2);
}

#[test]
fn it_finds_by_email_in_people_database() {
    let mut joe = Person::new("John Doe");
    let mut jane = Person::new("Jane Doe");

    joe.add_email(Email::from("john@example.com"));

    jane.add_email(Email::from("jane@example.com"));
    jane.add_email(Email::from("doe@example.com"));

    let mut db = PeopleDatabase::new();
    assert!(db.add_person(joe).is_ok());
    assert!(db.add_person(jane).is_ok());

    assert_eq!(
        db.find_by_email(&Email::from("john@example.com"))
            .map(|p| p.name())
            .unwrap(),
        "John Doe"
    );

    assert_eq!(
        db.find_by_email(&Email::from("jane@example.com"))
            .map(|p| p.name())
            .unwrap(),
        "Jane Doe"
    );

    assert_eq!(
        db.find_by_email(&Email::from("doe@example.com"))
            .map(|p| p.name())
            .unwrap(),
        "Jane Doe"
    );

    assert_eq!(
        db.find_by_email(&Email::from("unknown@example.com"))
            .unwrap_err()
            .to_string(),
        "Unknown email: \"unknown@example.com\"\nPlease add it to a person in the configuration file."
    );
}

#[test]
fn it_does_not_allow_conflicting_emails_in_people_database() {
    let mut joe = Person::new("John Doe");
    joe.add_email(Email::from("doe@example.com"));

    let mut jane = Person::new("Jane Doe");
    jane.add_email(Email::from("doe@example.com"));

    let mut db = PeopleDatabase::new();
    assert!(db.add_person(joe).is_ok());

    let err = db.add_person(jane).unwrap_err();

    assert_eq!(
        err.to_string(),
        "Multiple people with the same email: doe@example.com is used by John Doe and Jane Doe.\nPlease put this email under only a single person."
    );
}

#[test]
fn it_tracks_people() {
    #[derive(PartialEq, Eq, Debug, Default)]
    struct Stub {
        counter: i32,
    }

    impl Stub {
        fn incr(&mut self) {
            self.counter += 1;
        }

        fn current(&self) -> i32 {
            self.counter
        }
    }

    let joe = Person::new("John Doe");
    let jane = Person::new("Jane Doe");

    let mut people_tracking: PeopleTracking<Stub> = PeopleTracking::new();

    people_tracking.for_person(&joe).incr();
    assert_eq!(people_tracking.for_person(&joe).current(), 1);
    assert_eq!(people_tracking.for_person(&jane).current(), 0);
}

#[test]
fn it_tracks_teams() {
    #[derive(PartialEq, Eq, Debug, Default)]
    struct Stub {
        counter: i32,
    }

    impl Stub {
        fn incr(&mut self) {
            self.counter += 1;
        }

        fn current(&self) -> i32 {
            self.counter
        }
    }

    let mut joe = Person::new("John Doe");
    joe.set_team_name(Some(String::from("Team 1")));
    let joe = joe;

    let mut jane = Person::new("Jane Doe");
    jane.set_team_name(None);
    let jane = jane;

    let mut team_tracking: TeamTracking<Stub> = TeamTracking::new();

    team_tracking.for_person(&joe).incr();
    team_tracking.for_person(&jane).incr();

    assert_eq!(team_tracking.for_person(&joe).current(), 1);
    assert_eq!(team_tracking.for_person(&jane).current(), 1);
    assert_eq!(team_tracking.no_team_value().current(), 1);
}

#[test]
fn it_tracks_combined_teams_and_people() {
    #[derive(PartialEq, Eq, Debug, Default)]
    struct Stub {
        counter: i32,
    }

    impl Stub {
        fn incr(&mut self) {
            self.counter += 1;
        }
    }

    let mut joe = Person::new("John Doe");
    joe.set_team_name(Some(String::from("Team 1")));
    let joe = joe;

    let mut jane = Person::new("Jane Doe");
    jane.set_team_name(None);
    let jane = jane;

    let mut tracking: CombinedTracking<Stub> = CombinedTracking::new();

    tracking.track_person(&joe, |e| e.incr());
    tracking.track_person(&jane, |e| e.incr());
    tracking.track_person(&jane, |e| e.incr());

    assert_eq!(tracking.person_value(&joe), Some(&Stub { counter: 1 }));
    assert_eq!(tracking.person_value(&jane), Some(&Stub { counter: 2 }));
    assert_eq!(tracking.team_value("Team 1"), Some(&Stub { counter: 1 }));
    assert_eq!(tracking.no_team_value(), &Stub { counter: 2 });
}
