use git2::Oid;
use git_trivia::{Entry, EntryKind, Tree, TreeNode, TreeWalker};

enum Node {
    File(&'static str),
    Dir(&'static str, Vec<Node>),
}

fn listing(nodes: &[Node]) -> Tree {
    Tree {
        entries: nodes
            .iter()
            .map(|node| match node {
                Node::File(name) => TreeNode {
                    name: name.to_string(),
                    id: Oid::zero(),
                    kind: EntryKind::File,
                },
                Node::Dir(name, _) => TreeNode {
                    name: name.to_string(),
                    id: Oid::zero(),
                    kind: EntryKind::Directory,
                },
            })
            .collect(),
    }
}

fn below<'a>(root: &'a [Node], path: &[String]) -> &'a [Node] {
    let mut level = root;
    for name in path {
        level = level
            .iter()
            .find_map(|node| match node {
                Node::Dir(dir, inside) if dir == name => Some(inside.as_slice()),
                _ => None,
            })
            .unwrap();
    }
    level
}

fn walk(root: &[Node]) -> Vec<Entry> {
    let mut walker = TreeWalker::new(listing(root));
    let mut entries = Vec::new();
    while let Some(entry) = walker.next() {
        if entry.is_dir() {
            walker.descend(listing(below(root, entry.path())));
        }
        entries.push(entry);
    }
    assert!(walker.next().is_none());
    entries
}

fn paths(entries: &[Entry]) -> Vec<String> {
    entries.iter().map(|e| e.path().join("/")).collect()
}

fn sample_tree() -> Vec<Node> {
    vec![
        Node::File("a.txt"),
        Node::Dir(
            "dir",
            vec![
                Node::File("b.txt"),
                Node::Dir("subdir", vec![Node::File("c.txt")]),
            ],
        ),
    ]
}

#[test]
fn it_iterates_all_files() {
    let tree = sample_tree();
    let mut walker = TreeWalker::new(listing(&tree));

    while let Some(entry) = walker.next() {
        if entry.is_dir() {
            walker.descend(listing(below(&tree, entry.path())));
        }
        println!("{:?}", entry);
    }
}

#[test]
fn it_walks_in_pre_order() {
    let entries = walk(&sample_tree());
    assert_eq!(
        paths(&entries),
        vec!["a.txt", "dir", "dir/b.txt", "dir/subdir", "dir/subdir/c.txt"]
    );
    let kinds: Vec<EntryKind> = entries.iter().map(|e| e.kind()).collect();
    assert_eq!(
        kinds,
        vec![
            EntryKind::File,
            EntryKind::Directory,
            EntryKind::File,
            EntryKind::Directory,
            EntryKind::File
        ]
    );
}

#[test]
fn it_ends_at_once_on_an_empty_tree() {
    let mut walker = TreeWalker::new(Tree { entries: vec![] });
    assert!(walker.next().is_none());
    assert!(walker.next().is_none());
}

#[test]
fn it_comes_back_up_from_empty_and_nested_directories() {
    let tree = vec![
        Node::Dir("empty", vec![]),
        Node::Dir(
            "x",
            vec![Node::Dir("y", vec![Node::Dir("z", vec![Node::File("deep")])])],
        ),
        Node::File("last"),
    ];
    assert_eq!(
        paths(&walk(&tree)),
        vec!["empty", "x", "x/y", "x/y/z", "x/y/z/deep", "last"]
    );
}

#[test]
fn it_keeps_the_order_in_which_entries_are_stored() {
    let tree = vec![Node::File("zeta"), Node::File("alpha"), Node::File("mid")];
    assert_eq!(paths(&walk(&tree)), vec!["zeta", "alpha", "mid"]);
}

#[test]
fn it_passes_a_directory_that_is_not_handed_in() {
    let tree = sample_tree();
    let mut walker = TreeWalker::new(listing(&tree));
    let mut seen = Vec::new();
    while let Some(entry) = walker.next() {
        seen.push(entry);
    }
    assert_eq!(paths(&seen), vec!["a.txt", "dir"]);
}

#[test]
fn it_takes_entries_only_for_the_directory_it_gave_last() {
    let tree = sample_tree();
    let mut walker = TreeWalker::new(listing(&tree));
    walker.descend(listing(&[Node::File("stray")]));
    let first = walker.next().unwrap();
    assert_eq!(first.path().join("/"), "a.txt");
    walker.descend(listing(&[Node::File("stray")]));
    let second = walker.next().unwrap();
    assert_eq!(second.path().join("/"), "dir");
    walker.descend(listing(&[Node::File("inside")]));
    walker.descend(listing(&[Node::File("stray")]));
    let third = walker.next().unwrap();
    assert_eq!(third.path().join("/"), "dir/inside");
    assert!(walker.next().is_none());
}

#[test]
fn it_tells_files_from_directories_and_hands_the_object_on() {
    let id = Oid::from_str("0123456789abcdef0123456789abcdef01234567").unwrap();
    let mut walker = TreeWalker::new(Tree {
        entries: vec![
            TreeNode {
                name: "f".to_string(),
                id,
                kind: EntryKind::File,
            },
            TreeNode {
                name: "d".to_string(),
                id: Oid::zero(),
                kind: EntryKind::Directory,
            },
        ],
    });
    let file = walker.next().unwrap();
    let dir = walker.next().unwrap();
    assert!(file.is_file());
    assert!(!file.is_dir());
    assert_eq!(file.id(), id);
    assert!(dir.is_dir());
    assert!(!dir.is_file());
    assert_eq!(dir.id(), Oid::zero());
    assert_eq!(file.clone(), file);
}

#[test]
fn it_walks_a_deep_tree_one_level_at_a_time() {
    let depth = 3000;
    let mut walker = TreeWalker::new(listing(&[Node::Dir("d", vec![])]));
    let mut count = 0;
    let mut deepest = 0;
    while let Some(entry) = walker.next() {
        count += 1;
        deepest = entry.path().len();
        if entry.is_dir() {
            if entry.path().len() < depth {
                walker.descend(listing(&[Node::Dir("d", vec![]), Node::File("f")]));
            } else {
                walker.descend(listing(&[Node::File("bottom")]));
            }
        }
    }
    assert_eq!(count, depth + 1 + (depth - 1));
    assert_eq!(deepest, 2);
}
