use bullets::error::Error;
use bullets::tree_new::{IdGenerator, Node, Tree};

struct TestGen {
    current: i32,
}

impl TestGen {
    fn new() -> TestGen {
        TestGen { current: 1 }
    }
}

impl IdGenerator for TestGen {
    fn gen(&mut self) -> i32 {
        (self.current, self.current += 1).0
    }
}

struct Stuck(i32);

impl IdGenerator for Stuck {
    fn gen(&mut self) -> i32 {
        self.0
    }
}

#[test]
fn tree_new_siblings_test() {
    let mut gen = TestGen::new();
    let mut tree = Tree::new(&mut gen).unwrap();

    assert_eq!(tree.active(), 1);
    tree.create_sibling().unwrap();
    assert_eq!(tree.active(), 2);

    let active_node = tree.get_node(tree.active()).unwrap();
    assert_eq!(active_node.parent.unwrap(), 0);
    assert_eq!(active_node.sibling.unwrap(), 1);
}

#[test]
fn tree_new_indents_test() {
    let mut gen = TestGen::new();
    let mut tree = Tree::new(&mut gen).unwrap();

    assert!(tree.indent().is_err());
    tree.create_sibling().unwrap();
    assert!(tree.indent().is_ok());

    let active_node = tree.get_node(tree.active()).unwrap();
    assert_eq!(active_node.parent, Some(1));
    assert_eq!(active_node.sibling, None);
    assert_eq!(active_node.id, 2);
}

#[test]
fn tree_new_links_after_an_indent() {
    let mut gen = TestGen::new();
    let mut tree = Tree::new(&mut gen).unwrap();
    tree.create_sibling().unwrap();
    tree.indent().unwrap();
    assert_eq!(tree.get_node(1).unwrap().children, [2]);
    assert_eq!(tree.get_node(0).unwrap().children, [1]);
    assert_eq!(tree.indent(), Err(Error::StructuralLimit));
    tree.create_sibling().unwrap();
    assert_eq!(tree.get_node(3).unwrap().parent, Some(1));
    assert_eq!(tree.get_node(3).unwrap().sibling, Some(2));
    assert!(tree.get_node(9).is_none());
    let plain = Node::new(4, None);
    assert_eq!(plain.sibling, None);
    assert_eq!(plain.content, "");
}

#[test]
fn tree_new_turns_down_a_used_identity() {
    let mut zero = Stuck(0);
    assert!(Tree::new(&mut zero).is_err());
    let mut seven = Stuck(7);
    let mut tree = Tree::new(&mut seven).unwrap();
    assert_eq!(tree.create_sibling(), Err(Error::IdentityInUse));
    assert_eq!(tree.active(), 7);
}

#[test]
fn tree_new_with_given_identities() {
    let mut gen = TestGen::new();
    assert!(Tree::with_first(&mut gen, 0).is_err());
    let mut tree = Tree::with_first(&mut gen, 5).unwrap();
    assert_eq!(tree.active(), 5);
    assert_eq!(tree.get_node(0).unwrap().children, [5]);
    assert_eq!(tree.get_node(5).unwrap().parent, Some(0));
    assert_eq!(tree.get_node(5).unwrap().sibling, None);
    // an identity in use is turned down, and nothing changes
    assert_eq!(tree.insert_node(5), Err(Error::IdentityInUse));
    assert_eq!(tree.insert_node(0), Err(Error::IdentityInUse));
    assert_eq!(tree.active(), 5);
    assert!(tree.get_node(5).unwrap().children.is_empty());
    assert_eq!(tree.insert_node(-3), Ok(()));
    assert_eq!(tree.active(), -3);
    assert_eq!(tree.get_node(-3).unwrap().parent, Some(0));
    assert_eq!(tree.get_node(-3).unwrap().sibling, Some(5));
    assert_eq!(tree.get_node(-3).unwrap().id, -3);
    assert_eq!(tree.get_node(0).unwrap().children, [5]);
    // the source was not asked so far: the next bullet gets its first identity
    tree.create_sibling().unwrap();
    assert_eq!(tree.active(), 1);
    assert_eq!(tree.get_node(1).unwrap().sibling, Some(-3));
}
