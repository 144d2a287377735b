use bullets::error::Error;
use bullets::tree::node::Node;
use bullets::tree::Dir::{Above, Below};
use bullets::tree::{IdGenerator, NodeIterator, Subtree, TraversalType, Tree};
use std::cell::Cell;

struct TestGen {
    current: Cell<i32>,
}

impl TestGen {
    fn new() -> TestGen {
        TestGen {
            current: Cell::new(1),
        }
    }
}

impl IdGenerator for TestGen {
    fn gen(&self) -> i32 {
        (self.current.get(), self.current.set(self.current.get() + 1)).0
    }
}

struct Repeating(i32);

impl IdGenerator for Repeating {
    fn gen(&self) -> i32 {
        self.0
    }
}

fn new_test_tree() -> Tree {
    Tree::new(Box::new(TestGen::new())).unwrap()
}

fn get_children_ids(tree: &Tree, id: i32) -> Vec<i32> {
    tree.get_node(id).unwrap().children.clone()
}

fn get_itr_id(itr: NodeIterator) -> i32 {
    itr.id()
}

fn get_tree_ids(tree: &Tree) -> Vec<i32> {
    tree.root_iter()
        .traverse(TraversalType::Level)
        .into_iter()
        .map(get_itr_id)
        .collect()
}

fn sibling(tree: &Tree, id: i32, dir: bullets::tree::Dir) -> Option<i32> {
    let node = tree.get_node(id).unwrap();
    let parent = node.parent.and_then(|p| tree.get_node(p));
    node.get_sibling(parent, dir)
}

#[test]
fn new_tree_has_active() {
    let tree = new_test_tree();
    assert_eq!(tree.get_active_id(), 1);
}

#[test]
fn make_unique_links_test() {
    let mut tree = Tree::with_first(Box::new(Repeating(0)), 7).unwrap();
    tree.insert_node(8, Below).unwrap();
    tree.indent(false).unwrap();
    tree.activate(7).unwrap();
    let init = tree.get_subtree().renumbered(&vec![1, 0]).unwrap();
    let final_copy = init.clone();
    let final_root = final_copy.root_itr();
    let final_first = final_root.children_iter()[0];
    // Init tree
    // 5.
    //   6.
    // Final tree
    // 0.
    //   1.
    let init = init.renumbered(&vec![5, 6]).unwrap();
    let init_root = init.root_itr();
    let init_first = init_root.children_iter()[0];
    tree.set_active_content(String::from("changed"));

    assert_eq!(init_root.children_iter()[0].id(), 5);
    assert_eq!(init_first.next_parent().unwrap().id(), 6);

    assert_eq!(final_root.children_iter()[0].id(), 1);
    assert_eq!(final_first.next_parent().unwrap().id(), 0);
    assert_eq!(final_root.content(), "");
    assert_eq!(final_copy.ids(), [0, 1]);
}

#[test]
fn subtree_make_unique_ids_test() {
    let test_gen = TestGen::new();
    let mut tree = Tree::with_first(Box::new(Repeating(0)), test_gen.gen()).unwrap();
    tree.insert_node(test_gen.gen(), Below).unwrap();
    tree.indent(false).unwrap();
    tree.activate(1).unwrap();
    // 1.
    //   2.
    let subtree = tree.get_subtree().make_unique(&test_gen).unwrap();

    assert!(subtree.ids().into_iter().all(|i| i != 0 && i != 1));
    assert_eq!(subtree.ids(), [4, 3]);
}

#[test]
fn tree_siblings_test() {
    let mut tree = new_test_tree();

    assert_eq!(tree.get_active_id(), 1);
    tree.create_sibling().unwrap();
    assert_eq!(tree.get_active_id(), 2);

    assert_eq!(tree.get_node(tree.get_active_id()).unwrap().parent, Some(0));
    assert_eq!(sibling(&tree, tree.get_active_id(), Above), Some(1));

    let root_node = tree.get_node(0).unwrap();
    assert!(root_node.children.iter().any(|n| *n == 1));
    assert!(root_node.children.iter().any(|n| *n == 2));
}

#[test]
fn create_sibling_in_middle_of_list() {
    // 2.
    //   3.
    //   4.
    //   6.
    //   5.
    let mut tree = new_test_tree();
    tree.create_sibling().unwrap(); // id = 2
    tree.create_sibling().unwrap();
    tree.indent(false).unwrap(); // id 3 under 2
    tree.create_sibling().unwrap(); // id 4 under 2
    tree.create_sibling().unwrap(); // id 5 under 2
    tree.activate(4).unwrap();
    tree.create_sibling().unwrap(); // id 6 under 2 (after 4, before 5)

    let children = &tree.get_node(2).unwrap().children;
    assert_eq!(*children.get(2).unwrap(), 6);
    assert_eq!(*children.get(3).unwrap(), 5);

    assert_eq!(sibling(&tree, 6, Below), Some(5));
}

#[test]
fn tree_indents_test() {
    let mut tree = new_test_tree();

    assert!(tree.indent(false).is_err());
    tree.create_sibling().unwrap();
    assert!(tree.indent(false).is_ok());

    let active_node = tree.get_node(tree.get_active_id()).unwrap();
    assert_eq!(active_node.parent, Some(1));
    assert_eq!(active_node.id, 2);

    let parent_node = tree.get_node(1).unwrap();
    assert!(parent_node.children.iter().any(|n| *n == 2));
}

#[test]
fn unindents_test() {
    // 1.
    let mut tree = new_test_tree();
    assert!(tree.unindent().is_err()); // 1 is already top
    tree.create_sibling().unwrap(); // id = 2
    assert!(tree.indent(false).is_ok()); // (2 under 1)
    assert!(tree.unindent().is_ok()); // (2 under root)
    let two = tree.get_node(2).unwrap();
    assert_eq!(two.parent, Some(0));

    assert!(tree.indent(false).is_ok());
    tree.create_sibling().unwrap(); // id = 3 (under 1)
    tree.create_sibling().unwrap(); // id = 4 (under 1)
    tree.create_sibling().unwrap(); // id = 5 (under 1)
    assert!(tree.unindent().is_ok()); // (5 under root)
    assert!(tree.indent(false).is_ok()); // (5 under 1)
    let five = tree.get_node(5).unwrap();
    assert_eq!(five.parent, Some(1));
}

#[test]
fn node_iterator() {
    let mut tree = new_test_tree();

    tree.create_sibling().unwrap(); // id = 2
    tree.create_sibling().unwrap(); // id = 3
    tree.create_sibling().unwrap(); // id = 4
    assert!(tree.indent(false).is_ok()); // (4 under 3)
    tree.create_sibling().unwrap(); // id = 5 (under 3)

    let root_exp_children = vec![1, 2, 3];
    let root_itr = tree.root_iter();
    let root_children: Vec<NodeIterator> = root_itr.children_iter();
    let mut three_itr = None;

    assert_eq!(root_exp_children.len(), root_children.len());
    for child in &root_children {
        assert!(root_exp_children.iter().any(|&x| x == child.id()));
        if child.id() == 3 {
            three_itr = Some(child);
        }
    }

    let three_exp_children = vec![4, 5];
    let three_children: Vec<NodeIterator> = three_itr.unwrap().children_iter();
    assert_eq!(three_children.len(), three_exp_children.len());
    for child in three_children {
        assert!(three_exp_children.iter().any(|&x| x == child.id()));
    }
}

#[test]
fn delete_simple() {
    let mut tree = new_test_tree();
    tree.create_sibling().unwrap(); // id = 2
    tree.create_sibling().unwrap(); // id = 3
    tree.delete().unwrap(); // id 3 deleted
    assert!(tree.get_node(3).is_none());
    assert!(tree.get_node(0).unwrap().children.iter().all(|n| *n != 3));
}

#[test]
fn activate_and_delete() {
    let mut tree = new_test_tree();
    tree.create_sibling().unwrap(); // id = 2
    tree.create_sibling().unwrap(); // id = 3
    tree.activate(2).unwrap();
    tree.delete().unwrap();
    assert!(tree.get_node(2).is_none());
    assert!(tree.get_node(0).unwrap().children.iter().all(|n| *n != 2));
}

#[test]
fn delete_deletes_children() {
    let mut tree = new_test_tree();
    tree.create_sibling().unwrap(); // id = 2
    tree.create_sibling().unwrap(); // id = 3
    tree.indent(false).unwrap(); // 3 under 2
    tree.create_sibling().unwrap(); // id = 4, under 2
    tree.create_sibling().unwrap(); // id = 5, under 2
    tree.create_sibling().unwrap(); // id = 6
    tree.indent(false).unwrap(); // 6 under 5
    tree.create_sibling().unwrap(); // id = 7
    tree.indent(false).unwrap(); // 7 under 6

    tree.activate(2).unwrap();
    tree.delete().unwrap();
    assert!(tree.get_node(2).is_none());
    assert!(tree.get_node(3).is_none());
    assert!(tree.get_node(4).is_none());
    assert!(tree.get_node(5).is_none());
    assert!(tree.get_node(6).is_none());
    assert!(tree.get_node(7).is_none());
    assert!(tree.get_node(0).unwrap().children.iter().all(|n| *n != 2));
}

#[test]
fn cannot_delete_last_node() {
    let mut tree = new_test_tree();
    assert!(tree.delete().is_err())
}

#[test]
fn delete_updates_active() {
    let mut tree = new_test_tree();

    // With own sibling
    // 1.
    //   2.
    //   3. <-- deleted
    tree.create_sibling().unwrap(); // id = 2
    tree.indent(false).unwrap(); // 2 under 1
    tree.create_sibling().unwrap(); // id = 3
    tree.delete().unwrap(); // delete 3
    assert_eq!(tree.get_active_id(), 2);

    // With no sibling
    tree.delete().unwrap(); // delete 2
    assert_eq!(tree.get_active_id(), 1);

    // 1.
    // 4. <-- deleted
    // 5.
    tree.create_sibling().unwrap(); // id = 4
    tree.create_sibling().unwrap(); // id = 5
    tree.activate(4).unwrap();
    tree.delete().unwrap();
    assert_eq!(tree.get_active_id(), 5);
}

#[test]
fn create_sibling_above_test() {
    let mut tree = new_test_tree();

    tree.create_sibling_above().unwrap(); // id = 2
    tree.create_sibling_above().unwrap(); // id = 3
    tree.create_sibling_above().unwrap(); // id = 4
    tree.activate(1).unwrap();
    tree.indent(false).unwrap(); // 1 under 2
    tree.create_sibling_above().unwrap(); // id = 5
    tree.create_sibling().unwrap(); // id = 6

    // 4. --
    // 3. --
    // 2. --
    //      5. --
    //      6. --
    //      1. --

    assert_eq!(get_children_ids(&tree, 0), [4, 3, 2]);
    assert_eq!(get_children_ids(&tree, 2), [5, 6, 1]);
}

#[test]
fn get_subtree_test() {
    let mut tree = new_test_tree();

    // 1.
    //   2.
    //     3.
    //   4.
    //   5.
    tree.create_sibling().unwrap(); // id = 2
    tree.indent(false).unwrap(); // 2 under 1
    tree.create_sibling().unwrap(); // id = 3 under 1
    tree.create_sibling().unwrap(); // id = 4 under 1
    tree.create_sibling().unwrap(); // id = 5 under 1
    tree.activate(3).unwrap();
    tree.indent(false).unwrap();

    tree.activate(1).unwrap();
    let subtree = tree.get_subtree();

    let level_ids: Vec<i32> = subtree
        .root_itr()
        .traverse(TraversalType::Level)
        .into_iter()
        .map(|n| n.id())
        .collect();
    assert_eq!(level_ids, [1, 2, 4, 5, 3]);
}

fn new_deep_tree() -> Tree {
    let mut tree = new_test_tree();
    // 1.
    // 2.
    //      3.
    //      4.
    //          5.
    //      6.
    // 7.
    // 8.
    //      9.
    //      10.
    tree.create_sibling().unwrap(); // id = 2
    tree.create_sibling().unwrap(); // id = 3
    tree.indent(false).unwrap();
    tree.create_sibling().unwrap(); // id = 4
    tree.create_sibling().unwrap(); // id = 5
    tree.indent(false).unwrap();
    tree.create_sibling().unwrap(); // id = 6
    tree.unindent().unwrap();
    tree.create_sibling().unwrap(); // id = 7
    tree.unindent().unwrap();
    tree.create_sibling().unwrap(); // id = 8
    tree.create_sibling().unwrap(); // id = 9
    tree.indent(false).unwrap();
    tree.create_sibling().unwrap(); // id = 10
    tree
}

#[test]
fn post_order_traversal() {
    let tree = new_deep_tree();
    let post_order_ids: Vec<i32> = tree
        .root_iter()
        .traverse(TraversalType::PostOrder)
        .into_iter()
        .map(|n| n.id())
        .collect();
    assert_eq!(post_order_ids, [1, 3, 5, 4, 6, 2, 7, 9, 10, 8, 0]);
}

#[test]
fn level_traversal() {
    let tree = new_deep_tree();
    let in_order_ids: Vec<i32> = tree
        .root_iter()
        .traverse(TraversalType::Level)
        .into_iter()
        .map(|n| n.id())
        .collect();
    assert_eq!(in_order_ids, [0, 1, 2, 7, 8, 3, 4, 6, 9, 10, 5]);
}

#[test]
fn insert_subtree_test() {
    let mut tree = new_deep_tree();

    // 1.
    //   2.
    //   3.
    //   4.
    //   5.
    let mut subtree_maker = new_test_tree();
    subtree_maker.create_sibling().unwrap();
    subtree_maker.indent(false).unwrap();
    subtree_maker.create_sibling().unwrap();
    subtree_maker.create_sibling().unwrap();
    subtree_maker.create_sibling().unwrap();

    subtree_maker.activate(1).unwrap();
    let subtree = subtree_maker.get_subtree();

    tree.activate(7).unwrap();
    tree.insert_subtree(subtree, Below).unwrap();
    assert_eq!(
        get_tree_ids(&tree),
        [
            0, //
            1, 2, 7, 15, 8, //
            3, 4, 6, 11, 12, 13, 14, 9, 10, //
            5
        ]
    );
}

#[test]
fn insert_subtree_simple_test() {
    let mut tree = new_test_tree();
    let subtree = tree.get_subtree();
    tree.insert_subtree(subtree, Below).unwrap();

    assert_eq!(
        get_tree_ids(&tree),
        [
            0, //
            1, 2 //
        ]
    );
}

fn two_node_setup() -> (Node, Node) {
    let mut node = Node::new(0, None);
    let first = Node::new(1, Some(0));
    node.insert_child_last(first.id);
    (node, first)
}

#[test]
fn get_sibling_test() {
    let mut node = Node::new(0, None);
    assert!(node.get_sibling(None, Above).is_none());
    assert!(node.get_sibling(None, Below).is_none());

    let first = Node::new(1, Some(0));
    node.insert_child_last(first.id);

    let second = Node::new(2, Some(0));
    node.insert_child_last(second.id);

    assert_eq!(first.get_sibling(Some(&node), Below), Some(2));
    assert_eq!(second.get_sibling(Some(&node), Above), Some(1));
}

#[test]
fn insert_child_relative_test() {
    let (mut node, _first) = two_node_setup();
    let child = Node::new(2, Some(0));
    node.insert_child_relative(1, Below, child.id).unwrap();
    assert_eq!(node.children, [1, 2]);

    let child = Node::new(3, Some(0));
    node.insert_child_relative(2, Above, child.id).unwrap();
    assert_eq!(node.children, [1, 3, 2]);

    let child = Node::new(4, Some(0));
    assert!(node.insert_child_relative(123123123, Above, child.id).is_err());
}

#[test]
fn remove_child_test() {
    let (mut node, _first) = two_node_setup();
    node.remove_child(1);
    assert_eq!(node.children, []);
}

#[test]
fn indent_then_unindent_restores_the_order() {
    // root -> [1, 2]
    let mut tree = new_test_tree();
    tree.create_sibling().unwrap();
    assert_eq!(get_children_ids(&tree, 0), [1, 2]);
    tree.indent(false).unwrap();
    assert_eq!(get_children_ids(&tree, 0), [1]);
    assert_eq!(get_children_ids(&tree, 1), [2]);
    assert_eq!(tree.get_node(2).unwrap().parent, Some(1));
    tree.unindent().unwrap();
    assert_eq!(get_children_ids(&tree, 0), [1, 2]);
    assert_eq!(get_children_ids(&tree, 1), Vec::<i32>::new());
    assert_eq!(tree.get_node(2).unwrap().parent, Some(0));
    assert_eq!(tree.get_active_id(), 2);
}

#[test]
fn indent_as_first_child() {
    let mut tree = new_test_tree();
    tree.create_sibling().unwrap(); // 2
    tree.indent(false).unwrap(); // 2 under 1
    tree.unindent().unwrap();
    tree.create_sibling().unwrap(); // 3
    tree.activate(2).unwrap();
    tree.indent(false).unwrap(); // 1 -> [2]
    tree.activate(3).unwrap();
    tree.indent(true).unwrap(); // 1 -> [3, 2]
    assert_eq!(get_children_ids(&tree, 1), [3, 2]);
}

#[test]
fn delete_successor_rule() {
    // root -> [1 -> [2, 3]]
    let mut tree = new_test_tree();
    tree.create_sibling().unwrap(); // 2
    tree.indent(false).unwrap();
    tree.create_sibling().unwrap(); // 3
    tree.activate(2).unwrap();
    tree.delete().unwrap();
    assert_eq!(tree.get_active_id(), 3);
    tree.delete().unwrap();
    assert_eq!(tree.get_active_id(), 1);
    assert_eq!(tree.delete(), Err(Error::StructuralLimit));
    assert_eq!(tree.get_active_id(), 1);
    assert_eq!(get_children_ids(&tree, 0), [1]);
}

#[test]
fn errors_leave_the_tree_unchanged() {
    let mut tree = new_test_tree();
    assert_eq!(tree.indent(false), Err(Error::StructuralLimit));
    assert_eq!(tree.unindent(), Err(Error::StructuralLimit));
    assert_eq!(tree.activate(42), Err(Error::UnknownIdentity));
    assert_eq!(tree.activate(0), Err(Error::UnknownIdentity));
    assert_eq!(tree.insert_node(1, Below), Err(Error::IdentityInUse));
    assert_eq!(tree.insert_node(0, Below), Err(Error::IdentityInUse));
    assert_eq!(get_tree_ids(&tree), [0, 1]);
    assert_eq!(tree.get_active_id(), 1);
}

#[test]
fn a_repeating_identity_source_is_turned_down() {
    assert!(Tree::new(Box::new(Repeating(0))).is_err());
    let mut tree = Tree::new(Box::new(Repeating(5))).unwrap();
    assert_eq!(tree.get_active_id(), 5);
    assert_eq!(tree.create_sibling(), Err(Error::IdentityInUse));
    assert_eq!(tree.create_sibling_above(), Err(Error::IdentityInUse));
    let copy = tree.get_subtree();
    assert_eq!(tree.insert_subtree(copy, Below), Err(Error::IdentityInUse));
    assert_eq!(get_tree_ids(&tree), [0, 5]);
}

#[test]
fn round_trip_copy_keeps_shape_and_content() {
    let mut tree = new_test_tree();
    tree.set_active_content(String::from("one"));
    tree.create_sibling().unwrap(); // 2
    tree.set_active_content(String::from("two"));
    tree.indent(false).unwrap(); // 1 -> [2]
    tree.create_sibling().unwrap(); // 3
    tree.set_active_content(String::from("three"));
    tree.activate(1).unwrap();
    let copy = tree.get_subtree();
    assert_eq!(copy.parent(), Some(0));
    assert_eq!(copy.above_sibling(), None);
    assert_eq!(copy.root_id(), 1);
    tree.insert_subtree(copy, Below).unwrap();
    // the copy: 6 -> [4, 5]
    assert_eq!(get_tree_ids(&tree), [0, 1, 6, 2, 3, 4, 5]);
    assert_eq!(tree.get_active_id(), 6);
    assert_eq!(tree.get_active_content(), "one");
    assert_eq!(tree.get_node(4).unwrap().content, "two");
    assert_eq!(tree.get_node(5).unwrap().content, "three");
    assert_eq!(tree.get_node(4).unwrap().parent, Some(6));
    // the bullets that were copied are untouched
    assert_eq!(tree.get_node(1).unwrap().content, "one");
    assert_eq!(get_children_ids(&tree, 1), [2, 3]);
    assert_eq!(tree.get_node(2).unwrap().content, "two");
    assert_eq!(tree.get_node(3).unwrap().content, "three");
}

#[test]
fn repeated_pastes_never_share_identities() {
    let mut tree = new_test_tree();
    tree.create_sibling().unwrap(); // 2
    tree.indent(false).unwrap();
    tree.activate(1).unwrap();
    let copy = tree.get_subtree();
    let before: Vec<i32> = copy.ids();
    tree.insert_subtree(copy.clone(), Below).unwrap();
    let first: Vec<i32> = tree.get_subtree().ids();
    tree.insert_subtree(copy, Above).unwrap();
    let second: Vec<i32> = tree.get_subtree().ids();
    assert_eq!(before, [1, 2]);
    assert_eq!(first, [4, 3]);
    assert_eq!(second, [6, 5]);
    assert_eq!(get_children_ids(&tree, 0), [1, 6, 4]);
}

#[test]
fn delete_then_reinsert_restores_the_order() {
    // root -> [1, 2 -> [3], 4]
    let mut tree = new_test_tree();
    tree.create_sibling().unwrap(); // 2
    tree.create_sibling().unwrap(); // 3
    tree.indent(false).unwrap();
    tree.unindent().unwrap();
    tree.activate(2).unwrap();
    tree.activate(3).unwrap();
    tree.indent(false).unwrap();
    tree.activate(2).unwrap();
    tree.create_sibling().unwrap(); // 4
    assert_eq!(get_children_ids(&tree, 0), [1, 2, 4]);
    assert_eq!(get_children_ids(&tree, 2), [3]);

    tree.activate(2).unwrap();
    let cut = tree.get_subtree();
    assert_eq!(cut.parent(), Some(0));
    assert_eq!(cut.above_sibling(), Some(1));
    tree.delete().unwrap();
    assert_eq!(get_children_ids(&tree, 0), [1, 4]);
    assert!(tree.get_node(3).is_none());

    tree.activate(cut.above_sibling().unwrap()).unwrap();
    tree.insert_subtree(cut, Below).unwrap();
    let root = tree.get_active_id();
    assert_eq!(get_children_ids(&tree, 0), [1, root, 4]);
    assert_eq!(get_children_ids(&tree, root).len(), 1);
}

#[test]
fn subtree_with_given_identities() {
    let mut tree = new_test_tree();
    tree.create_sibling().unwrap(); // 2
    tree.indent(false).unwrap();
    tree.activate(1).unwrap();
    let copy: Subtree = tree.get_subtree();
    assert!(copy.renumbered(&vec![7]).is_err());
    assert!(copy.renumbered(&vec![7, 7]).is_err());
    assert!(copy.renumbered(&vec![7, 1]).is_err());
    let other = copy.renumbered(&vec![7, 8]).unwrap();
    assert_eq!(other.ids(), [8, 7]);
    assert_eq!(tree.insert_unique(copy, Below), Err(Error::IdentityInUse));
    tree.insert_unique(other, Above).unwrap();
    assert_eq!(get_children_ids(&tree, 0), [8, 1]);
    assert_eq!(get_children_ids(&tree, 8), [7]);
    assert_eq!(tree.get_active_id(), 8);
}

#[test]
fn cursors_walk_the_links() {
    let tree = new_deep_tree();
    let four = tree
        .root_iter()
        .traverse(TraversalType::Level)
        .into_iter()
        .find(|n| n.id() == 4)
        .unwrap();
    assert_eq!(four.next_parent().map(|n| n.id()), Some(2));
    assert_eq!(four.next_sibling(Above).map(|n| n.id()), Some(3));
    assert_eq!(four.next_sibling(Below).map(|n| n.id()), Some(6));
    assert_eq!(four.content(), "");
    assert!(tree.root_iter().next_parent().is_none());
    assert!(tree.root_iter().next_sibling(Below).is_none());
    assert_eq!(tree.active_iter().id(), 10);
    assert!(tree.get_node(0).unwrap().is_root());
}
