//! A walk over the files and directories of a tree, parents first.
//!
//! The walk never holds more of the tree than the directories it is in:
//! it gives an entry, and where that is a directory the caller hands in
//! what the directory holds.

use vstd::prelude::*;
use git2::Oid;

verus! {

/// Whether an entry is a file or a directory.
#[derive(Debug, PartialEq, Eq, Clone, Copy, Structural)]
pub enum EntryKind {
    File,
    Directory,
}

/// One entry of a directory: its name, the object it names, and its kind.
#[derive(Debug)]
pub struct TreeNode {
    pub name: String,
    pub id: Oid,
    pub kind: EntryKind,
}

/// What a [`TreeNode`] stands for.
pub struct NodeView {
    pub name: Seq<char>,
    pub id: Oid,
    pub kind: EntryKind,
}

impl View for TreeNode {
    type V = NodeView;

    open spec fn view(&self) -> NodeView {
        NodeView { name: self.name@, id: self.id, kind: self.kind }
    }
}

/// What one directory holds: its entries, in the order in which they are
/// stored. What is below a directory among them is not part of it.
#[derive(Debug)]
pub struct Tree {
    pub entries: Vec<TreeNode>,
}

impl View for Tree {
    type V = Seq<NodeView>;

    open spec fn view(&self) -> Seq<NodeView> {
        Seq::new(self.entries@.len(), |i: int| self.entries@[i]@)
    }
}

/// What an [`Entry`] stands for: the object, the names that lead to it from
/// the root, its own name last, and its kind.
pub struct EntryView {
    pub id: Oid,
    pub path: Seq<Seq<char>>,
    pub kind: EntryKind,
}

/// What the walk gives for the entry `node` found below `prefix`.
pub open spec fn entry_of(prefix: Seq<Seq<char>>, node: NodeView) -> EntryView {
    EntryView { id: node.id, path: prefix.push(node.name), kind: node.kind }
}

/// The texts of a stack of names, bottom first.
pub open spec fn name_texts(names: Seq<String>) -> Seq<Seq<char>> {
    Seq::new(names.len(), |i: int| names[i]@)
}

/// An entry that the walk met: a file or a directory, and where it is.
#[derive(Debug, PartialEq)]
pub struct Entry {
    id: Oid,
    path: Vec<String>,
    kind: EntryKind,
}

impl View for Entry {
    type V = EntryView;

    closed spec fn view(&self) -> EntryView {
        EntryView { id: self.id, path: name_texts(self.path@), kind: self.kind }
    }
}

impl Entry {
    /// The entry for `node`, which was found below the directories named by
    /// `path`.
    fn new(path: &Vec<String>, node: &TreeNode) -> (entry: Entry)
        ensures
            entry@ == entry_of(name_texts(path@), node@),
    {
        let mut full = clone_names(path);
        full.push(node.name.clone());
        let entry = Entry { id: node.id, path: full, kind: node.kind };
        assert(entry@.path =~= name_texts(path@).push(node.name@));
        entry
    }

    /// File or directory.
    pub fn kind(&self) -> (kind: EntryKind)
        ensures
            kind == self@.kind,
    {
        self.kind
    }

    /// The names that lead to the entry from the root of the tree, its own
    /// name last.
    pub fn path(&self) -> (path: &Vec<String>)
        ensures
            name_texts(path@) == self@.path,
    {
        &self.path
    }

    /// The object that the entry names.
    pub fn id(&self) -> (id: Oid)
        ensures
            id == self@.id,
    {
        self.id
    }

    /// Whether the entry is a directory.
    pub fn is_dir(&self) -> (dir: bool)
        ensures
            dir == (self@.kind == EntryKind::Directory),
    {
        self.kind == EntryKind::Directory
    }

    /// Whether the entry is a file.
    pub fn is_file(&self) -> (file: bool)
        ensures
            file == (self@.kind == EntryKind::File),
    {
        self.kind == EntryKind::File
    }
}

/// A copy of a stack of names.
fn clone_names(names: &Vec<String>) -> (copy: Vec<String>)
    ensures
        name_texts(copy@) == name_texts(names@),
{
    let mut copy: Vec<String> = Vec::new();
    let mut i: usize = 0;
    while i < names.len()
        invariant
            i <= names.len(),
            copy@.len() == i,
            forall|k: int| 0 <= k < i ==> copy@[k]@ == names@[k]@,
        decreases names.len() - i,
    {
        copy.push(names[i].clone());
        i += 1;
    }
    assert(name_texts(copy@) =~= name_texts(names@));
    copy
}

impl Clone for Entry {
    fn clone(&self) -> (copy: Entry)
        ensures
            copy@ == self@,
    {
        Entry { id: self.id, path: clone_names(&self.path), kind: self.kind }
    }
}

/// What a [`TreeWalker`] stands for.
pub struct WalkView {
    /// What each directory holds that the walk is in, the root first.
    pub levels: Seq<Seq<NodeView>>,
    /// How many entries of each of them the walk has given.
    pub cursors: Seq<int>,
    /// The names of the directories below the root that the walk is in.
    pub names: Seq<Seq<char>>,
    /// The name of the directory that the walk gave last, while it waits
    /// to be handed what that directory holds.
    pub awaited: Option<Seq<char>>,
}

impl WalkView {
    /// The parts fit together: one place for each directory, one name for
    /// each directory but the root, and no place beyond the entries.
    pub open spec fn wf(self) -> bool {
        &&& self.levels.len() == self.cursors.len()
        &&& self.levels.len() == 0 ==> self.names.len() == 0 && self.awaited is None
        &&& self.levels.len() > 0 ==> self.names.len() == self.levels.len() - 1
        &&& forall|k: int|
            0 <= k < self.levels.len() ==> 0 <= #[trigger] self.cursors[k]
                <= self.levels[k].len()
    }

    /// A walk over a tree whose root holds `root`, before its first entry.
    pub open spec fn begin(root: Seq<NodeView>) -> WalkView {
        WalkView { levels: seq![root], cursors: seq![0int], names: Seq::empty(), awaited: None }
    }

    /// The walk after it left the innermost directory.
    pub open spec fn left(self) -> WalkView {
        WalkView {
            levels: self.levels.drop_last(),
            cursors: self.cursors.drop_last(),
            names: if self.names.len() > 0 {
                self.names.drop_last()
            } else {
                self.names
            },
            awaited: None,
        }
    }

    /// The walk after it left every directory of which it has given all
    /// entries, from the innermost outwards. It waits for no directory.
    pub open spec fn settled(self) -> WalkView
        decreases self.levels.len(),
    {
        if self.levels.len() > 0 && self.cursors.last() >= self.levels.last().len() {
            self.left().settled()
        } else {
            WalkView {
                levels: self.levels,
                cursors: self.cursors,
                names: self.names,
                awaited: None,
            }
        }
    }

    /// The entry that the walk gives next, if there is one: the next of the
    /// innermost directory that has entries left. A directory that the walk
    /// still waits for counts as empty.
    pub open spec fn next_entry(self) -> Option<EntryView> {
        let at = self.settled();
        if at.levels.len() == 0 {
            None
        } else {
            Some(entry_of(at.names, at.levels.last()[at.cursors.last()]))
        }
    }

    /// The walk after it gave its next entry. Where that is a directory the
    /// walk waits for what it holds.
    pub open spec fn after_next(self) -> WalkView {
        let at = self.settled();
        if at.levels.len() == 0 {
            at
        } else {
            let node = at.levels.last()[at.cursors.last()];
            WalkView {
                levels: at.levels,
                cursors: at.cursors.update(at.cursors.len() - 1, at.cursors.last() + 1),
                names: at.names,
                awaited: if node.kind == EntryKind::Directory {
                    Some(node.name)
                } else {
                    None
                },
            }
        }
    }

    /// The walk after it was handed what a directory holds. The walk goes
    /// into the directory that it waits for; where it waits for none,
    /// nothing changes.
    pub open spec fn descended(self, entries: Seq<NodeView>) -> WalkView {
        match self.awaited {
            Some(name) => WalkView {
                levels: self.levels.push(entries),
                cursors: self.cursors.push(0),
                names: self.names.push(name),
                awaited: None,
            },
            None => self,
        }
    }
}

/// A walk over a tree in pre-order. It keeps its place on stacks of its
/// own, so that the depth of the tree is no burden on the call stack, and
/// holds of the tree only the directories that it is in.
#[derive(Debug)]
pub struct TreeWalker {
    tree_stack: Vec<Tree>,
    cursor_stack: Vec<usize>,
    path_stack: Vec<String>,
    awaited: Option<String>,
}

impl View for TreeWalker {
    type V = WalkView;

    closed spec fn view(&self) -> WalkView {
        WalkView {
            levels: Seq::new(self.tree_stack@.len(), |k: int| self.tree_stack@[k]@),
            cursors: Seq::new(self.cursor_stack@.len(), |k: int| self.cursor_stack@[k] as int),
            names: name_texts(self.path_stack@),
            awaited: match self.awaited {
                Some(name) => Some(name@),
                None => None,
            },
        }
    }
}

impl TreeWalker {
    /// The walk is well formed.
    pub open spec fn wf(&self) -> bool {
        self@.wf()
    }

    /// A walk over the tree whose root holds `tree`.
    pub fn new(tree: Tree) -> (walker: TreeWalker)
        ensures
            walker.wf(),
            walker@ == WalkView::begin(tree@),
    {
        let mut tree_stack: Vec<Tree> = Vec::new();
        tree_stack.push(tree);
        let mut cursor_stack: Vec<usize> = Vec::new();
        cursor_stack.push(0);
        let walker = TreeWalker {
            tree_stack,
            cursor_stack,
            path_stack: Vec::new(),
            awaited: None,
        };
        proof {
            assert(walker@.levels =~= seq![tree@]);
            assert(walker@.cursors =~= seq![0int]);
            assert(walker@.names =~= Seq::empty());
        }
        walker
    }

    /// The next entry in pre-order, or `None` when the walk is over. After
    /// a directory the walk waits to be handed what it holds, by
    /// [`TreeWalker::descend`]; a directory that is not handed in before
    /// the next entry is asked for is passed as if it were empty.
    pub fn next(&mut self) -> (entry: Option<Entry>)
        requires
            old(self).wf(),
        ensures
            final(self).wf(),
            entry is Some == old(self)@.next_entry() is Some,
            entry is Some ==> entry->0@ == old(self)@.next_entry()->0,
            final(self)@ == old(self)@.after_next(),
    {
        self.awaited = None;
        while self.cursor_stack.len() > 0
            invariant
                self.wf(),
                self@.awaited is None,
                self@.settled() == old(self)@.settled(),
            decreases self.cursor_stack@.len(),
        {
            let depth = self.cursor_stack.len();
            let index = self.cursor_stack[depth - 1];
            let ghost before = self@;
            assert(before.cursors.last() == index);
            assert(before.levels.last() == self.tree_stack@[depth - 1]@);
            if index < self.tree_stack[depth - 1].entries.len() {
                let node = &self.tree_stack[depth - 1].entries[index];
                assert(node@ == before.levels.last()[index as int]);
                let entry = Entry::new(&self.path_stack, node);
                let awaited = match node.kind {
                    EntryKind::Directory => Some(node.name.clone()),
                    EntryKind::File => None,
                };
                self.cursor_stack.set(depth - 1, index + 1);
                self.awaited = awaited;
                proof {
                    assert(before.settled() == before);
                    assert(self@.levels =~= before.levels);
                    assert(self@.cursors =~= before.cursors.update(depth - 1, index + 1));
                    assert(self@ == old(self)@.after_next());
                }
                return Some(entry);
            } else {
                self.cursor_stack.pop();
                self.tree_stack.pop();
                self.path_stack.pop();
                proof {
                    assert(self@.levels =~= before.levels.drop_last());
                    assert(self@.cursors =~= before.cursors.drop_last());
                    assert(self@.names =~= before.left().names);
                    assert(self@ == before.left());
                }
            }
        }
        proof {
            assert(self@.levels =~= Seq::empty());
            assert(self@.settled() == self@);
        }
        None
    }

    /// Hands the walk what the directory holds that it gave last, so that
    /// the walk goes through these entries before it goes on. Where the
    /// walk waits for no directory, nothing changes.
    pub fn descend(&mut self, tree: Tree)
        requires
            old(self).wf(),
        ensures
            final(self).wf(),
            final(self)@ == old(self)@.descended(tree@),
    {
        let awaited = self.awaited.take();
        match awaited {
            Some(name) => {
                self.path_stack.push(name);
                self.tree_stack.push(tree);
                self.cursor_stack.push(0);
                proof {
                    let after = old(self)@.descended(tree@);
                    assert(self@.levels =~= after.levels);
                    assert(self@.cursors =~= after.cursors);
                    assert(self@.names =~= after.names);
                }
            },
            None => {},
        }
    }
}

/// A whole tree, with all that is below its directories. The walk never
/// holds one; it is what the walk is held against.
pub struct TreeModel {
    pub entries: Seq<NodeModel>,
}

/// One entry of a [`TreeModel`]: a file, or a directory with the tree below
/// it.
pub struct NodeModel {
    pub name: Seq<char>,
    pub id: Oid,
    pub below: Option<TreeModel>,
}

/// What the root of `tree` holds, as it is handed to a walk.
pub open spec fn held(tree: TreeModel) -> Seq<NodeView> {
    Seq::new(
        tree.entries.len(),
        |i: int|
            NodeView {
                name: tree.entries[i].name,
                id: tree.entries[i].id,
                kind: if tree.entries[i].below is Some {
                    EntryKind::Directory
                } else {
                    EntryKind::File
                },
            },
    )
}

/// The entries of `tree` from place `from` on, each directory followed by
/// all that is below it, where `prefix` leads to the tree.
pub open spec fn preorder_from(tree: TreeModel, from: int, prefix: Seq<Seq<char>>) -> Seq<
    EntryView,
>
    decreases tree, tree.entries.len() - from,
{
    if 0 <= from < tree.entries.len() {
        let node = tree.entries[from];
        let below = match node.below {
            Some(subtree) => preorder_from(subtree, 0, prefix.push(node.name)),
            None => Seq::empty(),
        };
        seq![entry_of(prefix, held(tree)[from])] + below + preorder_from(tree, from + 1, prefix)
    } else {
        Seq::empty()
    }
}

/// All entries of `tree` in pre-order: each directory before what is in
/// it, and the entries of one directory in the order in which they are
/// stored.
pub open spec fn preorder(tree: TreeModel) -> Seq<EntryView> {
    preorder_from(tree, 0, Seq::empty())
}

/// The tree below the directory that the walk gave last.
pub open spec fn awaited_tree(walk: WalkView, trees: Seq<TreeModel>) -> TreeModel {
    trees.last().entries[walk.cursors.last() - 1].below->0
}

/// The walk is in the directories `trees` of a whole tree, the root first,
/// and where it waits for a directory, that is the one it gave last.
pub open spec fn follows(walk: WalkView, trees: Seq<TreeModel>) -> bool {
    &&& walk.wf()
    &&& trees.len() == walk.levels.len()
    &&& forall|k: int| 0 <= k < trees.len() ==> walk.levels[k] == held(#[trigger] trees[k])
    &&& walk.awaited is Some ==> {
        &&& walk.cursors.last() > 0
        &&& trees.last().entries[walk.cursors.last() - 1].below is Some
        &&& walk.awaited == Some(trees.last().entries[walk.cursors.last() - 1].name)
    }
}

/// What the directories `0..depth` of a walk have still to give, the
/// innermost first. Directory `k` is at place `cursors[k]` of `trees[k]`, to
/// which the first `k` of `names` lead.
pub open spec fn levels_remaining(
    trees: Seq<TreeModel>,
    cursors: Seq<int>,
    names: Seq<Seq<char>>,
    depth: int,
) -> Seq<EntryView>
    decreases depth,
{
    if depth <= 0 {
        Seq::empty()
    } else {
        preorder_from(trees[depth - 1], cursors[depth - 1], names.take(depth - 1))
            + levels_remaining(trees, cursors, names, depth - 1)
    }
}

/// What a walk that follows a whole tree has still to give: all that is
/// below the directory it waits for, then the rest of the directories it
/// is in.
pub open spec fn remaining(walk: WalkView, trees: Seq<TreeModel>) -> Seq<EntryView> {
    let below = match walk.awaited {
        Some(name) => preorder_from(awaited_tree(walk, trees), 0, walk.names.push(name)),
        None => Seq::empty(),
    };
    below + levels_remaining(trees, walk.cursors, walk.names, trees.len() as int)
}

/// What the outer directories have still to give does not depend on the
/// directories inside them.
proof fn lemma_levels_below(
    trees: Seq<TreeModel>,
    cursors: Seq<int>,
    names: Seq<Seq<char>>,
    other_trees: Seq<TreeModel>,
    other_cursors: Seq<int>,
    other_names: Seq<Seq<char>>,
    depth: int,
)
    requires
        0 <= depth <= trees.len(),
        depth <= other_trees.len(),
        depth <= cursors.len(),
        depth <= other_cursors.len(),
        depth - 1 <= names.len(),
        depth - 1 <= other_names.len(),
        forall|k: int| 0 <= k < depth ==> trees[k] == other_trees[k],
        forall|k: int| 0 <= k < depth ==> cursors[k] == other_cursors[k],
        forall|k: int| 0 <= k < depth - 1 ==> names[k] == other_names[k],
    ensures
        levels_remaining(trees, cursors, names, depth) == levels_remaining(
            other_trees,
            other_cursors,
            other_names,
            depth,
        ),
    decreases depth,
{
    if depth > 0 {
        assert(names.take(depth - 1) =~= other_names.take(depth - 1));
        lemma_levels_below(
            trees,
            cursors,
            names,
            other_trees,
            other_cursors,
            other_names,
            depth - 1,
        );
    }
}

/// A walk that left directories is in no more directories than before.
proof fn lemma_settled_within(walk: WalkView)
    ensures
        walk.settled().levels.len() <= walk.levels.len(),
    decreases walk.levels.len(),
{
    if walk.levels.len() > 0 && walk.cursors.last() >= walk.levels.last().len() {
        lemma_settled_within(walk.left());
    }
}

/// A walk that begins at the root of a whole tree follows it, and has all
/// of the tree to give, in pre-order.
pub proof fn lemma_walk_begins(tree: TreeModel)
    ensures
        follows(WalkView::begin(held(tree)), seq![tree]),
        remaining(WalkView::begin(held(tree)), seq![tree]) == preorder(tree),
{
    let walk = WalkView::begin(held(tree));
    let trees = seq![tree];
    assert(walk.names.take(0) =~= Seq::empty());
    assert(levels_remaining(trees, walk.cursors, walk.names, 0) =~= Seq::empty());
    assert(remaining(walk, trees) =~= preorder(tree));
}

/// A walk that follows a whole tree, and is handed what the tree has in
/// the directory that the walk waits for, still follows the tree and has
/// the same entries to give.
pub proof fn lemma_walk_descends(walk: WalkView, trees: Seq<TreeModel>)
    requires
        follows(walk, trees),
        walk.awaited is Some,
    ensures
        follows(
            walk.descended(held(awaited_tree(walk, trees))),
            trees.push(awaited_tree(walk, trees)),
        ),
        remaining(
            walk.descended(held(awaited_tree(walk, trees))),
            trees.push(awaited_tree(walk, trees)),
        ) == remaining(walk, trees),
{
    let below = awaited_tree(walk, trees);
    let after = walk.descended(held(below));
    let after_trees = trees.push(below);
    let depth = trees.len() as int;
    assert forall|k: int| 0 <= k < after_trees.len() implies after.levels[k] == held(
        #[trigger] after_trees[k],
    ) by {
        if k < depth {
            assert(after_trees[k] == trees[k]);
        }
    }
    assert(after.names.take(depth) =~= walk.names.push(walk.awaited->0));
    lemma_levels_below(after_trees, after.cursors, after.names, trees, walk.cursors, walk.names, depth);
    assert(remaining(after, after_trees) =~= remaining(walk, trees));
}

/// A walk that follows a whole tree and waits for no directory gives the
/// first of the entries that it has still to give, and none where none is
/// left. After it, the walk follows the tree in the directories that it has
/// not left, and has the other entries still to give.
pub proof fn lemma_walk_next(walk: WalkView, trees: Seq<TreeModel>)
    requires
        follows(walk, trees),
        walk.awaited is None,
    ensures
        remaining(walk, trees).len() == 0 <==> walk.next_entry() is None,
        remaining(walk, trees).len() > 0 ==> {
            let inside = trees.take(walk.settled().levels.len() as int);
            &&& walk.next_entry() == Some(remaining(walk, trees)[0])
            &&& follows(walk.after_next(), inside)
            &&& remaining(walk.after_next(), inside) == remaining(walk, trees).drop_first()
        },
    decreases walk.levels.len(),
{
    let depth = trees.len() as int;
    let rest = remaining(walk, trees);
    if depth == 0 {
        assert(rest =~= Seq::empty());
    } else if walk.cursors.last() >= walk.levels.last().len() {
        let outer = walk.left();
        let outer_trees = trees.drop_last();
        assert forall|k: int| 0 <= k < outer_trees.len() implies outer.levels[k] == held(
            #[trigger] outer_trees[k],
        ) by {
            assert(outer_trees[k] == trees[k]);
        }
        lemma_levels_below(
            outer_trees,
            outer.cursors,
            outer.names,
            trees,
            walk.cursors,
            walk.names,
            depth - 1,
        );
        assert(preorder_from(trees[depth - 1], walk.cursors[depth - 1], walk.names.take(depth - 1))
            =~= Seq::empty());
        assert(remaining(outer, outer_trees) =~= rest);
        lemma_walk_next(outer, outer_trees);
        lemma_settled_within(outer);
        assert(walk.settled() == outer.settled());
        assert(outer_trees.take(outer.settled().levels.len() as int) =~= trees.take(
            walk.settled().levels.len() as int,
        ));
    } else {
        let at = walk.settled();
        assert(at == walk);
        let place = walk.cursors.last();
        let tree = trees[depth - 1];
        let node = tree.entries[place];
        let prefix = walk.names.take(depth - 1);
        assert(prefix =~= walk.names);
        assert(walk.levels.last() == held(tree));
        let after = walk.after_next();
        let inside = trees.take(depth);
        assert(inside =~= trees);
        let lower = levels_remaining(trees, walk.cursors, walk.names, depth - 1);
        lemma_levels_below(trees, after.cursors, after.names, trees, walk.cursors, walk.names, depth - 1);
        assert(levels_remaining(trees, after.cursors, after.names, depth) == preorder_from(
            tree,
            place + 1,
            prefix,
        ) + lower);
        let below = match node.below {
            Some(subtree) => preorder_from(subtree, 0, prefix.push(node.name)),
            None => Seq::empty(),
        };
        assert(preorder_from(tree, place, prefix) =~= seq![entry_of(prefix, held(tree)[place])]
            + below + preorder_from(tree, place + 1, prefix));
        assert(rest =~= seq![entry_of(prefix, held(tree)[place])] + below + preorder_from(
            tree,
            place + 1,
            prefix,
        ) + lower);
        assert(remaining(after, trees) =~= below + preorder_from(tree, place + 1, prefix) + lower);
        assert(remaining(after, inside) =~= rest.drop_first());
    }
}

} // verus!
