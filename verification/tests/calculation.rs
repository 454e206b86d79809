use git2::Oid;
use git_trivia::{
    Action, Calculation, Email, EntryKind, Error, Event, Hunk, OwnershipStatistics,
    PeopleDatabase, Person, Tree, TreeNode,
};

fn file(name: &str) -> TreeNode {
    TreeNode {
        name: name.to_string(),
        id: Oid::zero(),
        kind: EntryKind::File,
    }
}

fn directory(name: &str) -> TreeNode {
    TreeNode {
        name: name.to_string(),
        id: Oid::zero(),
        kind: EntryKind::Directory,
    }
}

fn hunk(email: &str, lines: u32) -> Hunk {
    Hunk {
        email: Email::from(email),
        lines,
    }
}

fn people() -> PeopleDatabase {
    let mut jane = Person::new("Jane");
    jane.add_email(Email::from("jane@x.com"));
    let mut john = Person::new("John");
    john.add_email(Email::from("john@x.com"));
    john.set_team_name(Some("Core".to_string()));
    let mut db = PeopleDatabase::new();
    db.add_person(jane).unwrap();
    db.add_person(john).unwrap();
    db
}

fn path_of(action: &Action) -> String {
    match action {
        Action::List(entry) => format!("list {}", entry.path().join("/")),
        Action::Inspect(entry) => format!("inspect {}", entry.path().join("/")),
        Action::Blame(entry) => format!("blame {}", entry.path().join("/")),
        Action::Finish => "finish".to_string(),
    }
}

fn lines_by_name(statistics: &OwnershipStatistics) -> Vec<(String, u32, u32)> {
    statistics
        .people_toplist()
        .iter()
        .map(|(person, owned)| {
            (
                person.name().to_string(),
                owned.total_lines_owned,
                owned.total_lines,
            )
        })
        .collect()
}

#[test]
fn it_counts_the_lines_of_two_files() {
    let db = people();
    let tree = Tree {
        entries: vec![file("file1"), file("file2")],
    };
    let mut calculation = Calculation::new(&db, tree);

    assert_eq!(path_of(&calculation.action()), "inspect file1");
    let action = calculation.step(Event::Binary(false)).unwrap();
    assert_eq!(path_of(&action), "blame file1");
    assert_eq!(path_of(&calculation.action()), "blame file1");
    let action = calculation
        .step(Event::Blamed(vec![hunk("jane@x.com", 10), hunk("john@x.com", 5)]))
        .unwrap();
    assert_eq!(path_of(&action), "inspect file2");
    assert_eq!(calculation.total_lines(), 15);
    let action = calculation.step(Event::Binary(false)).unwrap();
    assert_eq!(path_of(&action), "blame file2");
    let action = calculation
        .step(Event::Blamed(vec![hunk("jane@x.com", 3)]))
        .unwrap();
    assert_eq!(path_of(&action), "finish");
    assert!(calculation.is_done());

    let statistics = calculation.finish();
    assert_eq!(statistics.total_lines(), 18);
    assert_eq!(
        lines_by_name(&statistics),
        vec![("Jane".to_string(), 13, 18), ("John".to_string(), 5, 18)]
    );
    let toplist = statistics.people_toplist();
    assert_eq!(toplist[0].1.basis_points(), 7222);
    assert_eq!(toplist[1].1.basis_points(), 2778);

    let teams: Vec<(Option<&str>, u32)> = statistics
        .teams_toplist()
        .iter()
        .map(|(team, owned)| (*team, owned.total_lines_owned))
        .collect();
    assert_eq!(teams, vec![(None, 13), (Some("Core"), 5)]);
}

#[test]
fn it_has_fractions_that_sum_to_one() {
    let db = people();
    let tree = Tree {
        entries: vec![file("file1")],
    };
    let mut calculation = Calculation::new(&db, tree);
    calculation.step(Event::Binary(false)).unwrap();
    calculation
        .step(Event::Blamed(vec![
            hunk("jane@x.com", 7),
            hunk("john@x.com", 11),
            hunk("jane@x.com", 1),
        ]))
        .unwrap();
    let statistics = calculation.finish();
    assert!(statistics.total_lines() > 0);
    let toplist = statistics.people_toplist();
    let sum: f64 = toplist
        .iter()
        .map(|(_, owned)| owned.total_lines_owned as f64 / owned.total_lines as f64)
        .sum();
    assert!((sum - 1.0).abs() < 1e-9);
    let lines: u32 = toplist.iter().map(|(_, owned)| owned.total_lines_owned).sum();
    assert_eq!(lines, statistics.total_lines());
    assert_eq!(statistics.total_lines(), 19);
}

#[test]
fn it_goes_through_directories_and_past_binary_files() {
    let db = people();
    let tree = Tree {
        entries: vec![directory("empty"), directory("src"), directory("docs")],
    };
    let mut calculation = Calculation::new(&db, tree);
    assert_eq!(path_of(&calculation.action()), "list empty");
    let action = calculation
        .step(Event::Listed(Tree { entries: vec![] }))
        .unwrap();
    assert_eq!(path_of(&action), "list src");
    let action = calculation
        .step(Event::Listed(Tree {
            entries: vec![file("image.png"), directory("bin"), file("main.rs")],
        }))
        .unwrap();
    assert_eq!(path_of(&action), "inspect src/image.png");
    let action = calculation.step(Event::Binary(true)).unwrap();
    assert_eq!(path_of(&action), "list src/bin");
    let action = calculation
        .step(Event::Listed(Tree {
            entries: vec![file("tool.rs")],
        }))
        .unwrap();
    assert_eq!(path_of(&action), "inspect src/bin/tool.rs");
    let action = calculation.step(Event::Binary(false)).unwrap();
    assert_eq!(path_of(&action), "blame src/bin/tool.rs");
    let action = calculation
        .step(Event::Blamed(vec![hunk("jane@x.com", 6)]))
        .unwrap();
    assert_eq!(path_of(&action), "inspect src/main.rs");
    let action = calculation.step(Event::Binary(false)).unwrap();
    assert_eq!(path_of(&action), "blame src/main.rs");
    let action = calculation
        .step(Event::Blamed(vec![hunk("john@x.com", 4)]))
        .unwrap();
    assert_eq!(path_of(&action), "list docs");
    let action = calculation.step(Event::Binary(true)).unwrap();
    assert_eq!(path_of(&action), "list docs");
    let action = calculation
        .step(Event::Listed(Tree { entries: vec![] }))
        .unwrap();
    assert_eq!(path_of(&action), "finish");
    let statistics = calculation.finish();
    assert_eq!(statistics.total_lines(), 10);
    assert_eq!(
        lines_by_name(&statistics),
        vec![("Jane".to_string(), 6, 10), ("John".to_string(), 4, 10)]
    );
}

#[test]
fn it_gives_up_on_an_unknown_email() {
    let db = people();
    let tree = Tree {
        entries: vec![file("file1"), file("file2")],
    };
    let mut calculation = Calculation::new(&db, tree);
    calculation.step(Event::Binary(false)).unwrap();
    let error = calculation
        .step(Event::Blamed(vec![
            hunk("jane@x.com", 10),
            hunk("nobody@x.com", 2),
            hunk("also-nobody@x.com", 2),
        ]))
        .unwrap_err();
    assert!(matches!(&error, Error::UnknownEmail(email) if email.as_str() == "nobody@x.com"));
    assert_eq!(
        error.to_string(),
        "Unknown email: \"nobody@x.com\"\nPlease add it to a person in the configuration file."
    );
    assert!(!calculation.is_done());
    assert_eq!(path_of(&calculation.action()), "finish");
    for event in [
        Event::Binary(true),
        Event::Binary(false),
        Event::Blamed(vec![hunk("jane@x.com", 1)]),
        Event::Listed(Tree { entries: vec![] }),
    ] {
        let again = calculation.step(event).unwrap_err();
        assert!(matches!(&again, Error::UnknownEmail(email) if email.as_str() == "nobody@x.com"));
    }
    assert!(!calculation.is_done());
}

#[test]
fn it_finishes_an_empty_tree_with_no_lines() {
    let db = people();
    let tree = Tree { entries: vec![] };
    let calculation = Calculation::new(&db, tree);
    assert_eq!(path_of(&calculation.action()), "finish");
    assert!(calculation.is_done());
    let statistics = calculation.finish();
    assert_eq!(statistics.total_lines(), 0);
    assert!(statistics.people_toplist().is_empty());
    let teams = statistics.teams_toplist();
    assert_eq!(teams.len(), 1);
    assert_eq!(teams[0].0, None);
    assert_eq!(teams[0].1.total_lines_owned, 0);
    assert_eq!(teams[0].1.basis_points(), 0);
}

#[test]
fn it_asks_again_when_told_what_it_did_not_ask() {
    let db = people();
    let tree = Tree {
        entries: vec![file("file1")],
    };
    let mut calculation = Calculation::new(&db, tree);
    let action = calculation
        .step(Event::Blamed(vec![hunk("jane@x.com", 9)]))
        .unwrap();
    assert_eq!(path_of(&action), "inspect file1");
    let action = calculation
        .step(Event::Listed(Tree {
            entries: vec![file("stray")],
        }))
        .unwrap();
    assert_eq!(path_of(&action), "inspect file1");
    assert_eq!(calculation.total_lines(), 0);
    calculation.step(Event::Binary(false)).unwrap();
    let action = calculation.step(Event::Binary(true)).unwrap();
    assert_eq!(path_of(&action), "blame file1");
    let action = calculation.step(Event::Binary(false)).unwrap();
    assert_eq!(path_of(&action), "blame file1");
    let action = calculation
        .step(Event::Blamed(vec![hunk("jane@x.com", 9)]))
        .unwrap();
    assert_eq!(path_of(&action), "finish");
    let action = calculation.step(Event::Binary(true)).unwrap();
    assert_eq!(path_of(&action), "finish");
    let action = calculation
        .step(Event::Blamed(vec![hunk("nobody@x.com", 9)]))
        .unwrap();
    assert_eq!(path_of(&action), "finish");
    assert!(calculation.is_done());
    assert_eq!(calculation.finish().total_lines(), 9);
}

#[test]
fn it_tells_whether_the_lines_still_fit() {
    let db = people();
    let tree = Tree {
        entries: vec![file("file1"), file("file2")],
    };
    let mut calculation = Calculation::new(&db, tree);
    assert!(calculation.fits(&Event::Binary(false)));
    assert!(calculation.fits(&Event::Blamed(vec![
        hunk("jane@x.com", u32::MAX),
        hunk("jane@x.com", u32::MAX)
    ])));
    calculation.step(Event::Binary(false)).unwrap();
    assert!(calculation.fits(&Event::Binary(false)));
    assert!(calculation.fits(&Event::Blamed(vec![])));
    assert!(calculation.fits(&Event::Blamed(vec![hunk("jane@x.com", u32::MAX)])));
    assert!(!calculation.fits(&Event::Blamed(vec![
        hunk("jane@x.com", u32::MAX),
        hunk("jane@x.com", 1)
    ])));
    calculation
        .step(Event::Blamed(vec![hunk("jane@x.com", u32::MAX - 1)]))
        .unwrap();
    assert_eq!(calculation.total_lines(), u32::MAX - 1);
    calculation.step(Event::Binary(false)).unwrap();
    assert!(calculation.fits(&Event::Blamed(vec![hunk("john@x.com", 1)])));
    assert!(!calculation.fits(&Event::Blamed(vec![hunk("john@x.com", 2)])));
    calculation
        .step(Event::Blamed(vec![hunk("john@x.com", 1)]))
        .unwrap();
    assert_eq!(calculation.finish().total_lines(), u32::MAX);
}

#[test]
fn it_counts_no_hunks_as_no_lines() {
    let db = people();
    let tree = Tree {
        entries: vec![file("empty.txt")],
    };
    let mut calculation = Calculation::new(&db, tree);
    calculation.step(Event::Binary(false)).unwrap();
    let action = calculation.step(Event::Blamed(vec![])).unwrap();
    assert_eq!(path_of(&action), "finish");
    assert_eq!(calculation.finish().total_lines(), 0);
}

#[test]
fn it_makes_hunks_of_what_a_blame_gives() {
    let hunk = Hunk::new(Some("jane@x.com"), 12);
    assert_eq!(hunk.email.as_str(), "jane@x.com");
    assert_eq!(hunk.lines, 12);
    let nameless = Hunk::new(None, 0);
    assert_eq!(nameless.email.as_str(), "");
    assert_eq!(nameless.lines, 0);
    let huge = Hunk::new(Some("a"), u32::MAX as usize);
    assert_eq!(huge.lines, u32::MAX);
    let wrapped = Hunk::new(Some("a"), (1usize << 32) + 5);
    assert_eq!(wrapped.lines, 5);
}
