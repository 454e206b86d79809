use git_trivia::{
    CombinedTracking, ComputedOwnership, OwnershipScore, OwnershipStatistics, Person,
};

fn person(name: &str, team: Option<&str>) -> Person {
    let mut person = Person::new(name);
    person.set_team_name(team.map(|t| t.to_string()));
    person
}

#[test]
fn it_rounds_shares_to_the_nearest_hundredth_of_a_percent() {
    let share = |owned: u32, total: u32| {
        (ComputedOwnership {
            total_lines_owned: owned,
            total_lines: total,
        })
        .basis_points()
    };
    assert_eq!(share(13, 18), 7222);
    assert_eq!(share(5, 18), 2778);
    assert_eq!(share(1, 3), 3333);
    assert_eq!(share(2, 3), 6667);
    assert_eq!(share(1, 20000), 1);
    assert_eq!(share(1, 20001), 0);
    assert_eq!(share(18, 18), 10000);
    assert_eq!(share(0, 18), 0);
    assert_eq!(share(u32::MAX, u32::MAX), 10000);
    assert_eq!(share(u32::MAX, 1), 42949672950000);
}

#[test]
fn it_reports_no_share_of_no_lines() {
    let nothing = ComputedOwnership {
        total_lines_owned: 0,
        total_lines: 0,
    };
    assert_eq!(nothing.basis_points(), 0);
    let odd = ComputedOwnership {
        total_lines_owned: 7,
        total_lines: 0,
    };
    assert_eq!(odd.basis_points(), 0);
}

#[test]
fn it_compares_ownership_by_lines_owned() {
    let a = ComputedOwnership {
        total_lines_owned: 3,
        total_lines: 10,
    };
    let b = ComputedOwnership {
        total_lines_owned: 3,
        total_lines: 20,
    };
    let c = ComputedOwnership {
        total_lines_owned: 4,
        total_lines: 10,
    };
    assert!(a == b);
    assert!(a != c);
    assert!(a < c);
    assert!(c > b);
    assert!(a <= b);
    assert!(!(a < b));
}

#[test]
fn it_starts_scores_at_zero_and_adds_lines() {
    let mut score = OwnershipScore::default();
    assert_eq!(score.total_lines_owned, 0);
    score.add_lines(5);
    score.add_lines(0);
    score.add_lines(7);
    assert_eq!(score.total_lines_owned, 12);
}

#[test]
fn it_totals_the_people_only() {
    let ann = person("Ann", Some("Red"));
    let bob = person("Bob", Some("Red"));
    let cy = person("Cy", None);
    let mut owners: CombinedTracking<OwnershipScore> = CombinedTracking::new();
    owners.track_person(&ann, |s| s.add_lines(4));
    owners.track_person(&bob, |s| s.add_lines(6));
    owners.track_person(&cy, |s| s.add_lines(2));
    owners.track_person(&ann, |s| s.add_lines(1));
    let statistics = OwnershipStatistics::from_tracking(owners);
    assert_eq!(statistics.total_lines(), 13);

    let people: Vec<(&str, u32, u32)> = statistics
        .people_toplist()
        .iter()
        .map(|(p, o)| (p.name(), o.total_lines_owned, o.total_lines))
        .collect();
    assert_eq!(people, vec![("Bob", 6, 13), ("Ann", 5, 13), ("Cy", 2, 13)]);

    let teams: Vec<(Option<&str>, u32, u32)> = statistics
        .teams_toplist()
        .iter()
        .map(|(t, o)| (*t, o.total_lines_owned, o.total_lines))
        .collect();
    assert_eq!(teams, vec![(Some("Red"), 11, 13), (None, 2, 13)]);
}

#[test]
fn it_breaks_ties_by_name() {
    let zed = person("Zed", Some("B"));
    let amy = person("Amy", Some("A"));
    let moe = person("Moe", None);
    let top = person("Top", Some("C"));
    let mut owners: CombinedTracking<OwnershipScore> = CombinedTracking::new();
    owners.track_person(&zed, |s| s.add_lines(3));
    owners.track_person(&amy, |s| s.add_lines(3));
    owners.track_person(&moe, |s| s.add_lines(3));
    owners.track_person(&top, |s| s.add_lines(9));
    let statistics = OwnershipStatistics::from_tracking(owners);

    let people: Vec<&str> = statistics
        .people_toplist()
        .iter()
        .map(|(p, _)| p.name())
        .collect();
    assert_eq!(people, vec!["Top", "Amy", "Moe", "Zed"]);

    let teams: Vec<Option<&str>> = statistics
        .teams_toplist()
        .iter()
        .map(|(t, _)| *t)
        .collect();
    assert_eq!(teams, vec![Some("C"), None, Some("A"), Some("B")]);
}

#[test]
fn it_orders_names_by_their_bytes() {
    let lower = person("adam", None);
    let upper = person("Zoe", None);
    let accent = person("Émile", None);
    let prefix = person("Zo", None);
    let mut owners: CombinedTracking<OwnershipScore> = CombinedTracking::new();
    owners.track_person(&lower, |s| s.add_lines(1));
    owners.track_person(&accent, |s| s.add_lines(1));
    owners.track_person(&upper, |s| s.add_lines(1));
    owners.track_person(&prefix, |s| s.add_lines(1));
    let statistics = OwnershipStatistics::from_tracking(owners);
    let people: Vec<&str> = statistics
        .people_toplist()
        .iter()
        .map(|(p, _)| p.name())
        .collect();
    let mut expected = vec!["adam", "Zoe", "Émile", "Zo"];
    expected.sort();
    assert_eq!(expected, vec!["Zo", "Zoe", "adam", "Émile"]);
    assert_eq!(people, expected);
}

#[test]
fn it_lists_nothing_but_the_unaffiliated_for_a_fresh_tracker() {
    let owners: CombinedTracking<OwnershipScore> = CombinedTracking::new();
    let statistics = OwnershipStatistics::from_tracking(owners);
    assert_eq!(statistics.total_lines(), 0);
    assert!(statistics.people_toplist().is_empty());
    let teams = statistics.teams_toplist();
    assert_eq!(teams.len(), 1);
    assert_eq!(teams[0].0, None);
    assert_eq!(teams[0].1.total_lines_owned, 0);
    assert_eq!(teams[0].1.total_lines, 0);
}
