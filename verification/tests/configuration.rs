use git2::Signature;
use git_trivia::{ConfigurationBuilder, Email};

fn git_signature(name: &str, email: &str) -> Signature<'static> {
    Signature::now(name, email).unwrap()
}

fn email(email: &str) -> Email {
    Email::from(email)
}

#[test]
fn it_builds_config_of_people() {
    let mut builder = ConfigurationBuilder::new();

    builder.set_latest_commit_sha(String::from("deadbeef"));
    builder.add_author(git_signature("Jane Doe", "jane.doe@example.com"));
    builder.add_author(git_signature("John Doe", "john.doe@example.com"));
    builder.add_author(git_signature("Jane Doe", "janed@example.com"));

    let config = builder.into_configuration().unwrap();
    let people_db = config.people_db().unwrap();

    assert_eq!(people_db.len(), 2);

    let jane = people_db
        .find_by_email(&email("jane.doe@example.com"))
        .unwrap();
    assert_eq!(jane.name(), "Jane Doe");
    assert_eq!(jane.emails().len(), 2);
    assert!(jane.emails().contains(&email("jane.doe@example.com")));
    assert!(jane.emails().contains(&email("janed@example.com")));

    let john = people_db
        .find_by_email(&email("john.doe@example.com"))
        .unwrap();
    assert_eq!(john.name(), "John Doe");
    assert_eq!(john.emails().len(), 1);
    assert!(john.emails().contains(&email("john.doe@example.com")));
}

#[test]
fn it_sorts_people() {
    let mut builder = ConfigurationBuilder::new();

    builder.set_latest_commit_sha(String::from("deadbeef"));
    builder.add_author(git_signature("YYY", "yyy@example.com"));
    builder.add_author(git_signature("ZZZ", "zzz@example.com"));
    builder.add_author(git_signature("XXX", "xxx@example.com"));

    let config = builder.into_configuration().unwrap();

    let names: Vec<&str> = config.people.iter().map(|p| p.name()).collect();
    assert_eq!(names, vec!["XXX", "YYY", "ZZZ"]);
}
