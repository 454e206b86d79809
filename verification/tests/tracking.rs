use git_trivia::{CombinedTracking, PeopleTracking, Person, TeamTracking};

fn person(name: &str, team: Option<&str>) -> Person {
    let mut person = Person::new(name);
    person.set_team_name(team.map(|t| t.to_string()));
    person
}

#[test]
fn it_counts_each_tracking_once_for_person_and_team() {
    let member = person("Member", Some("Team"));
    let loner = person("Loner", None);
    let mut tracking: CombinedTracking<u32> = CombinedTracking::new();
    for _ in 0..7 {
        tracking.track_person(&member, |count| *count += 1);
    }
    for _ in 0..4 {
        tracking.track_person(&loner, |count| *count += 1);
    }
    assert_eq!(tracking.person_value(&member), Some(&7));
    assert_eq!(tracking.team_value("Team"), Some(&7));
    assert_eq!(tracking.person_value(&loner), Some(&4));
    assert_eq!(tracking.no_team_value(), &4);
    assert_eq!(tracking.team_value("Other"), None);
    assert_eq!(tracking.person_value(&person("Stranger", None)), None);
}

#[test]
fn it_always_walks_the_unaffiliated_row_first() {
    let fresh: TeamTracking<u32> = TeamTracking::new();
    let mut rows = fresh.iter();
    assert_eq!(rows.next(), Some((None, &0)));
    assert_eq!(rows.next(), None);
    assert_eq!(rows.next(), None);

    let a = person("A", Some("Blue"));
    let b = person("B", Some("Amber"));
    let c = person("C", Some("Blue"));
    let mut teams: TeamTracking<u32> = TeamTracking::new();
    *teams.for_person(&a) += 2;
    *teams.for_person(&b) += 3;
    *teams.for_person(&c) += 5;
    let mut rows = teams.iter();
    assert_eq!(rows.next(), Some((None, &0)));
    assert_eq!(rows.next(), Some((Some("Blue"), &7)));
    assert_eq!(rows.next(), Some((Some("Amber"), &3)));
    assert_eq!(rows.next(), None);
    assert_eq!(teams.team_value("Blue"), Some(&7));
    assert_eq!(teams.team_value("Green"), None);
}

#[test]
fn it_keeps_the_unaffiliated_row_in_a_fresh_combined_tracker() {
    let tracking: CombinedTracking<i64> = CombinedTracking::new();
    let mut rows = tracking.team_iter();
    assert_eq!(rows.next(), Some((None, &0)));
    assert_eq!(rows.next(), None);
    assert!(tracking.people_iter().is_empty());
}

#[test]
fn it_gives_team_slots_by_name() {
    let mut teams: TeamTracking<u32> = TeamTracking::new();
    *teams.for_team_name("X") += 1;
    *teams.for_team_name("Y") += 10;
    *teams.for_team_name("X") += 100;
    *teams.for_no_team() += 1000;
    assert_eq!(teams.team_value("X"), Some(&101));
    assert_eq!(teams.team_value("Y"), Some(&10));
    assert_eq!(teams.no_team_value(), &1000);
}

#[test]
fn it_keeps_people_in_the_order_they_were_first_seen() {
    let first = person("First", None);
    let second = person("Second", None);
    let namesake = person("First", Some("Elsewhere"));
    let mut people: PeopleTracking<u32> = PeopleTracking::new();
    *people.for_person(&first) += 1;
    *people.for_person(&second) += 2;
    *people.for_person(&namesake) += 4;
    let rows: Vec<(&str, u32)> = people.iter().iter().map(|(p, v)| (p.name(), **v)).collect();
    assert_eq!(rows, vec![("First", 5), ("Second", 2)]);
    assert_eq!(people.person_value(&namesake), Some(&5));
    assert_eq!(people.iter()[0].0.team_name(), None);
}

#[test]
fn it_lists_combined_people_rows() {
    let a = person("A", Some("T"));
    let b = person("B", None);
    let mut tracking: CombinedTracking<u32> = CombinedTracking::new();
    tracking.track_person(&a, |count| *count += 2);
    tracking.track_person(&b, |count| *count += 3);
    let rows: Vec<(&str, u32)> = tracking
        .people_iter()
        .iter()
        .map(|(p, v)| (p.name(), **v))
        .collect();
    assert_eq!(rows, vec![("A", 2), ("B", 3)]);
    let mut teams = tracking.team_iter();
    assert_eq!(teams.next(), Some((None, &3)));
    assert_eq!(teams.next(), Some((Some("T"), &2)));
    assert_eq!(teams.next(), None);
}

#[test]
fn it_starts_empty_by_default() {
    let people: PeopleTracking<u32> = PeopleTracking::default();
    assert!(people.iter().is_empty());
    let teams: TeamTracking<u32> = TeamTracking::default();
    assert_eq!(teams.no_team_value(), &0);
    let combined: CombinedTracking<u32> = CombinedTracking::default();
    assert!(combined.people_iter().is_empty());
    assert_eq!(combined.no_team_value(), &0);
    assert_eq!(git_trivia::PeopleDatabase::default().len(), 0);
    let builder = git_trivia::ConfigurationBuilder::default();
    assert!(builder.into_configuration().is_err());
}
