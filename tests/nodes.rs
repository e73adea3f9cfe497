use forte_world::dimensions::{Dimensions, Vector3};
use forte_world::nodes::{ComponentsDef, DrawComponent, Node};
use forte_world::transforms::{Quaternion, Transform};

/// A component that records each callback in the application context.
#[derive(Debug)]
struct Tag(&'static str);

impl ComponentsDef<Vec<String>> for Tag {
    fn added(&mut self, app: &mut Vec<String>, _: &Transform, _: &Dimensions) {
        app.push(format!("added {}", self.0));
    }

    fn update(&mut self, app: &mut Vec<String>, _: &Transform, d: &Dimensions) {
        app.push(format!("update {} {:?}", self.0, (d.from.x, d.to.x)));
    }

    fn remove(&mut self, app: &mut Vec<String>, _: &Transform, _: &Dimensions) {
        app.push(format!("removed {}", self.0));
    }
}

impl DrawComponent<(), Vec<&'static str>> for Tag {
    fn render(&self, ctx: &mut Vec<&'static str>, _: &()) {
        ctx.push(self.0);
    }
}

fn at(x: i32, y: i32, z: i32) -> Transform {
    Transform::new(Vector3::new(x, y, z), Quaternion::identity(), Vector3::new(1, 1, 1))
}

fn unit_box() -> Dimensions {
    Dimensions::new(Vector3::new(-1, -1, -1), Vector3::new(1, 1, 1))
}

/// root -> [a -> [a1], b], built without callbacks.
fn sample_tree() -> Node<Tag> {
    let mut a1 = Node::with_component(Tag("a1"));
    a1.transform = at(0, 10, 0);
    a1.rel_min_dimensions = unit_box();
    let mut a = Node::with_component(Tag("a"));
    a.transform = at(5, 0, 0);
    a.rel_min_dimensions = unit_box();
    a.children.push(a1);
    let mut b = Node::with_component(Tag("b"));
    b.transform = at(-7, 0, 0);
    b.rel_min_dimensions = unit_box();
    let mut root = Node::with_component(Tag("root"));
    root.rel_min_dimensions = unit_box();
    root.children.push(a);
    root.children.push(b);
    root
}

#[test]
fn default_node_is_empty() {
    let n: Node<Tag> = Node::default();
    assert!(n.component.is_none());
    assert!(n.children().is_empty());
    assert_eq!(*n.global_transform(), Transform::identity());
    assert_eq!(*n.dimensions(), Dimensions::default());
    assert_eq!(*n.rel_min_dimensions(), Dimensions::default());
}

#[test]
fn render_visits_in_preorder() {
    let root = sample_tree();
    let mut ctx: Vec<&'static str> = Vec::new();
    root.draw_node(&mut ctx, &());
    assert_eq!(ctx, vec!["root", "a", "a1", "b"]);
}

#[test]
fn render_skips_empty_components() {
    let mut root: Node<Tag> = Node::new();
    root.children.push(Node::new());
    root.children.push(Node::with_component(Tag("x")));
    let mut ctx: Vec<&'static str> = Vec::new();
    root.draw_node(&mut ctx, &());
    assert_eq!(ctx, vec!["x"]);
}

#[test]
fn add_child_runs_added_once_per_node_in_preorder() {
    let mut root: Node<Tag> = Node::new();
    let mut log: Vec<String> = Vec::new();
    let mut sub = Node::with_component(Tag("s"));
    let mut s1 = Node::with_component(Tag("s1"));
    s1.children.push(Node::with_component(Tag("s11")));
    sub.children.push(s1);
    sub.children.push(Node::new());
    sub.children.push(Node::with_component(Tag("s2")));
    root.add_child(sub, &mut log);
    assert_eq!(log, vec!["added s", "added s1", "added s11", "added s2"]);
    assert_eq!(root.children().len(), 1);
    assert_eq!(root.children()[0].children().len(), 3);
}

#[test]
fn remove_child_runs_removed_before_detaching() {
    let mut root = sample_tree();
    let mut log: Vec<String> = Vec::new();
    root.remove_child(0, &mut log);
    assert_eq!(log, vec!["removed a", "removed a1"]);
    assert_eq!(root.children().len(), 1);
    assert!(matches!(root.children()[0].component, Some(Tag("b"))));
}

#[test]
fn update_propagates_transforms_and_boxes() {
    let mut root = sample_tree();
    let mut log: Vec<String> = Vec::new();
    let id = Transform::identity();
    assert!(root.update_fits(&id));
    root.update(&id, &mut log);
    let a = &root.children()[0];
    let a1 = &a.children()[0];
    let b = &root.children()[1];
    assert_eq!(a.global_transform().position, Vector3::new(5, 0, 0));
    assert_eq!(a1.global_transform().position, Vector3::new(5, 10, 0));
    assert_eq!(b.global_transform().position, Vector3::new(-7, 0, 0));
    assert_eq!(*a1.dimensions(), Dimensions::new(Vector3::new(4, 9, -1), Vector3::new(6, 11, 1)));
    assert_eq!(*a.dimensions(), Dimensions::new(Vector3::new(4, -1, -1), Vector3::new(6, 11, 1)));
    assert_eq!(*b.dimensions(), Dimensions::new(Vector3::new(-8, -1, -1), Vector3::new(-6, 1, 1)));
    assert_eq!(*root.dimensions(), Dimensions::new(Vector3::new(-8, -1, -1), Vector3::new(6, 11, 1)));
    // children's callbacks run before their parent's, each after its own box is final
    assert_eq!(log, vec!["update a1 (4, 6)", "update a (4, 6)", "update b (-8, -6)", "update root (-8, 6)"]);
}

#[test]
fn parent_box_covers_every_descendant() {
    let mut root = sample_tree();
    let mut log: Vec<String> = Vec::new();
    root.update(&Transform::identity(), &mut log);
    fn check(n: &Node<Tag>) {
        for c in n.children() {
            let (p, d) = (n.dimensions(), c.dimensions());
            assert!(p.from.x <= d.from.x && p.from.y <= d.from.y && p.from.z <= d.from.z);
            assert!(p.to.x >= d.to.x && p.to.y >= d.to.y && p.to.z >= d.to.z);
            check(c);
        }
    }
    check(&root);
}

#[test]
fn update_twice_gives_same_geometry() {
    let mut root = sample_tree();
    let mut log: Vec<String> = Vec::new();
    let parent = at(3, 4, 5);
    root.update(&parent, &mut log);
    let first: Vec<(Transform, Dimensions)> = collect(&root);
    root.update(&parent, &mut log);
    assert_eq!(first, collect(&root));
    fn collect(n: &Node<Tag>) -> Vec<(Transform, Dimensions)> {
        let mut v = vec![(*n.global_transform(), *n.dimensions())];
        for c in n.children() {
            v.extend(collect(c));
        }
        v
    }
}

#[test]
fn update_fits_detects_overflow_below_the_root() {
    let mut root: Node<Tag> = Node::new();
    let mut child = Node::new();
    child.transform = at(i32::MAX, 0, 0);
    root.children.push(child);
    assert!(root.update_fits(&Transform::identity()));
    assert!(!root.update_fits(&at(1, 0, 0)));
    let mut boxed: Node<Tag> = Node::new();
    boxed.transform = at(i32::MAX, 0, 0);
    boxed.rel_min_dimensions = unit_box();
    assert!(!boxed.update_fits(&Transform::identity()));
}
