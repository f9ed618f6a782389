use std::collections::BTreeMap;

use graph::{BTreeGraph, Generations, Graph, Ref};

#[derive(Debug)]
struct RingNode {
    prev: Ref<RingNode>,
    next: Ref<RingNode>,
}

#[test]
fn cycle() {
    let mut gens = Generations::new();
    let mut graph = Graph::new(&mut gens);
    let a = graph.promise();
    let b = graph.promise();
    let c = graph.promise();

    graph.create(
        &a,
        RingNode {
            prev: c.clone(),
            next: b.clone(),
        },
    );
    graph.create(
        &b,
        RingNode {
            prev: a.clone(),
            next: c.clone(),
        },
    );
    graph.create(
        &c,
        RingNode {
            prev: b.clone(),
            next: a.clone(),
        },
    );

    assert_eq!(graph.borrow(&a).next, b);
    assert_eq!(graph.borrow(&b).next, c);
    assert_eq!(graph.borrow(&c).next, a);

    assert_eq!(graph.borrow(&c).prev, b);
    assert_eq!(graph.borrow(&b).prev, a);
    assert_eq!(graph.borrow(&a).prev, c);
}

struct Tree(BTreeGraph<String, TreeNode>);

#[derive(Clone)]
struct NamedPtr(String, Ref<TreeNode>);

struct TreeNode {
    parent: Option<NamedPtr>,
    children: BTreeMap<String, Ref<TreeNode>>,
}

impl Tree {
    fn new(gens: &mut Generations) -> Self {
        Self(BTreeGraph::new(gens))
    }

    fn insert(&mut self, key: String, value: TreeNode) -> NamedPtr {
        NamedPtr(key.clone(), self.0.insert(key, value))
    }

    fn insert_child(&mut self, parent: NamedPtr, key: String, value: TreeNode) -> NamedPtr {
        let child = self.0.insert(key.clone(), value);
        self.0
            .borrow_mut(&parent.1)
            .children
            .insert(key.clone(), child.clone());
        self.0.borrow_mut(&child).parent = Some(parent);
        NamedPtr(key, child)
    }

    fn show(&self, root: NamedPtr) -> String {
        let mut out = String::new();
        self.show_node(&root.0, self.0.borrow(&root.1), &mut out, 0);
        out
    }

    fn show_node(&self, key: &str, node: &TreeNode, out: &mut String, indent: usize) {
        for _ in 0..indent {
            out.push_str("  ");
        }
        out.push_str(key);
        match &node.parent {
            Some(parent) => out.push_str(&format!(" (parent: {})\n", parent.0)),
            None => out.push('\n'),
        }
        for (name, child) in node.children.iter() {
            self.show_node(name, self.0.borrow(child), out, indent + 1);
        }
    }
}

impl TreeNode {
    fn new() -> Self {
        Self {
            parent: None,
            children: BTreeMap::new(),
        }
    }
}

#[test]
fn double_linked_tree() {
    let mut gens = Generations::new();
    let mut tree = Tree::new(&mut gens);
    let root = tree.insert("root".to_string(), TreeNode::new());
    let child1 = tree.insert_child(root.clone(), "child 1".to_string(), TreeNode::new());
    let _child2 = tree.insert_child(root.clone(), "child 2".to_string(), TreeNode::new());
    let child11 = tree.insert_child(child1.clone(), "child 1.1".to_string(), TreeNode::new());
    let _child12 = tree.insert_child(child1, "child 1.2".to_string(), TreeNode::new());
    let _child111 = tree.insert_child(child11, "child 1.1.1".to_string(), TreeNode::new());

    assert_eq!(
        &tree.show(root),
        r#"root
  child 1 (parent: root)
    child 1.1 (parent: child 1)
      child 1.1.1 (parent: child 1.1)
    child 1.2 (parent: child 1)
  child 2 (parent: root)
"#
    )
}
