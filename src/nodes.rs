use vstd::prelude::*;

use crate::dimensions::{contains, spec_hull, spec_offset, offset_fits, Dimensions};
use crate::transforms::{compose_fits, spec_compose, Transform};

verus! {

/// Lifecycle callbacks of an application's component set.
///
/// Each callback gets the node's payload, the application context, and the
/// node's global transform and bounding box as they stand when it is called.
/// What a callback does to the context is stated by the component set itself,
/// through `on_added`, `on_update` and `on_remove`: each call leads from the context before
/// to the context after in a way that relation allows. By default they allow
/// anything; a component set verified on its own narrows them.
pub trait ComponentsDef<A>: Sized {
    open spec fn on_added(
        self,
        global_transform: Transform,
        dimensions: Dimensions,
        before: A,
        after: A,
    ) -> bool {
        true
    }

    open spec fn on_update(
        self,
        global_transform: Transform,
        dimensions: Dimensions,
        before: A,
        after: A,
    ) -> bool {
        true
    }

    open spec fn on_remove(
        self,
        global_transform: Transform,
        dimensions: Dimensions,
        before: A,
        after: A,
    ) -> bool {
        true
    }

    fn added(&mut self, app: &mut A, global_transform: &Transform, dimensions: &Dimensions)
        ensures
            Self::on_added(*old(self), *global_transform, *dimensions, *old(app), *final(app)),
    ;

    fn update(&mut self, app: &mut A, global_transform: &Transform, dimensions: &Dimensions)
        ensures
            Self::on_update(*old(self), *global_transform, *dimensions, *old(app), *final(app)),
    ;

    fn remove(&mut self, app: &mut A, global_transform: &Transform, dimensions: &Dimensions)
        ensures
            Self::on_remove(*old(self), *global_transform, *dimensions, *old(app), *final(app)),
    ;
}

/// The render callback of an application's component set, for a draw context
/// `D`. `on_render` states what one call does to the draw context (by default,
/// anything).
pub trait DrawComponent<A, D>: Sized {
    open spec fn on_render(self, app: A, before: D, after: D) -> bool {
        true
    }

    fn render(&self, ctx: &mut D, app: &A)
        ensures
            Self::on_render(*self, *app, *old(ctx), *final(ctx)),
    ;
}

/// A node of the scene tree.
///
/// `transform` and `rel_min_dimensions` are set by the author; `global_transform`
/// and `dimensions` are derived by [`Node::update`]. A `component` of `None` is
/// the empty component, for which no callback runs.
#[derive(Debug)]
pub struct Node<C> {
    pub transform: Transform,
    pub component: Option<C>,
    pub rel_min_dimensions: Dimensions,
    pub global_transform: Transform,
    pub dimensions: Dimensions,
    pub children: Vec<Node<C>>,
}

impl<C> Default for Node<C> {
    /// The same node as [`Node::new`].
    fn default() -> (r: Node<C>)
        ensures
            r.transform == Transform::spec_identity(),
            r.global_transform == Transform::spec_identity(),
            r.rel_min_dimensions == Dimensions::spec_default(),
            r.dimensions == Dimensions::spec_default(),
            r.component is None,
            r.children@.len() == 0,
    {
        Node::new()
    }
}

/// The seed box of a node: its own local box moved to its global position.
pub open spec fn seed<C>(n: Node<C>, g: Transform) -> Dimensions {
    spec_offset(n.rel_min_dimensions, g.position)
}

/// `seed` grown to cover the boxes of the first `k` nodes of `kids`.
pub open spec fn hull_prefix<C>(seed: Dimensions, kids: Seq<Node<C>>, k: int) -> Dimensions
    decreases k,
{
    if k <= 0 {
        seed
    } else {
        spec_hull(hull_prefix(seed, kids, k - 1), kids[k - 1].dimensions)
    }
}

/// Every value that an update pass of `n` under parent transform `p` computes
/// fits in `i32`.
pub open spec fn update_fits<C>(n: Node<C>, p: Transform) -> bool
    decreases n, n.children.len() + 1,
{
    &&& compose_fits(p, n.transform)
    &&& offset_fits(n.rel_min_dimensions, spec_compose(p, n.transform).position)
    &&& children_fit(n, spec_compose(p, n.transform), n.children.len() as int)
}

/// `update_fits` holds of the first `k` children of `n` under transform `g`.
pub open spec fn children_fit<C>(n: Node<C>, g: Transform, k: int) -> bool
    decreases n, k,
{
    if k <= 0 || k > n.children.len() {
        true
    } else {
        children_fit(n, g, k - 1) && update_fits(n.children@[k - 1], g)
    }
}

/// `new` is `old` after an update pass under parent transform `p`: the same
/// tree with the same local data, each global transform composed from the
/// parent's, and each box the hull of the node's seed and its children's boxes,
/// taken in list order. Payloads are left free: callbacks may change them.
pub open spec fn updated<C>(new: Node<C>, old: Node<C>, p: Transform) -> bool
    decreases old, old.children.len() + 1,
{
    let g = spec_compose(p, old.transform);
    &&& new.transform == old.transform
    &&& new.rel_min_dimensions == old.rel_min_dimensions
    &&& (new.component is Some <==> old.component is Some)
    &&& new.global_transform == g
    &&& new.children.len() == old.children.len()
    &&& children_updated(new, old, g, old.children.len() as int)
    &&& new.dimensions == hull_prefix(seed(old, g), new.children@, new.children.len() as int)
}

/// `updated` holds of the first `k` children of `new` and `old` under `g`.
pub open spec fn children_updated<C>(new: Node<C>, old: Node<C>, g: Transform, k: int) -> bool
    decreases old, k,
{
    if k <= 0 || k > old.children.len() {
        true
    } else {
        children_updated(new, old, g, k - 1) && updated(
            new.children@[k - 1],
            old.children@[k - 1],
            g,
        )
    }
}

/// `a` and `b` have the same shape and the same transforms and boxes, node by
/// node; only payloads may differ.
pub open spec fn same_geometry<C>(a: Node<C>, b: Node<C>) -> bool
    decreases a, a.children.len() + 1,
{
    &&& a.transform == b.transform
    &&& a.rel_min_dimensions == b.rel_min_dimensions
    &&& a.global_transform == b.global_transform
    &&& a.dimensions == b.dimensions
    &&& a.children.len() == b.children.len()
    &&& children_same(a, b, a.children.len() as int)
}

pub open spec fn children_same<C>(a: Node<C>, b: Node<C>, k: int) -> bool
    decreases a, k,
{
    if k <= 0 || k > a.children.len() {
        true
    } else {
        children_same(a, b, k - 1) && same_geometry(a.children@[k - 1], b.children@[k - 1])
    }
}

/// Each node's box covers its own children's boxes, all the way down.
pub open spec fn covers_subtree<C>(n: Node<C>) -> bool
    decreases n, n.children.len() + 1,
{
    covers_children(n, n.children.len() as int)
}

pub open spec fn covers_children<C>(n: Node<C>, k: int) -> bool
    decreases n, k,
{
    if k <= 0 || k > n.children.len() {
        true
    } else {
        &&& covers_children(n, k - 1)
        &&& contains(n.dimensions, n.children@[k - 1].dimensions)
        &&& covers_subtree(n.children@[k - 1])
    }
}

/// The nodes of `n` that hold a component, each with its path (a list of child
/// indices) prefixed by `at`, in pre-order: a node before its children,
/// siblings in list order.
pub open spec fn active_preorder<C>(n: Node<C>, at: Seq<int>) -> Seq<(Seq<int>, Node<C>)>
    decreases n, n.children.len() + 1,
{
    own_entry(n, at) + children_preorder(n, at, n.children.len() as int)
}

/// The pre-order lists of the first `k` children of `n`, one subtree after another.
pub open spec fn children_preorder<C>(n: Node<C>, at: Seq<int>, k: int) -> Seq<
    (Seq<int>, Node<C>),
>
    decreases n, k,
{
    if k <= 0 || k > n.children.len() {
        Seq::empty()
    } else {
        children_preorder(n, at, k - 1) + active_preorder(n.children@[k - 1], at.push(k - 1))
    }
}

/// The entry for the node itself, if it holds a component.
pub open spec fn own_entry<C>(n: Node<C>, at: Seq<int>) -> Seq<(Seq<int>, Node<C>)> {
    if n.component is Some {
        seq![(at, n)]
    } else {
        Seq::empty()
    }
}

/// `apps` runs from the context before the first `added` call to the context
/// after the last: one call per entry of `visits`, in order, on that entry's
/// payload, transform and box.
pub open spec fn added_steps<A, C: ComponentsDef<A>>(
    visits: Seq<(Seq<int>, Node<C>)>,
    apps: Seq<A>,
) -> bool {
    &&& apps.len() == visits.len() + 1
    &&& forall|k: int|
        0 <= k < visits.len() ==> C::on_added(
            (#[trigger] visits[k]).1.component->0,
            visits[k].1.global_transform,
            visits[k].1.dimensions,
            apps[k],
            apps[k + 1],
        )
}

/// The `update` calls of an update pass that turned `old` into `new`, in
/// post-order (children's subtrees in list order, then the node): each with
/// the node's payload before its call and its final transform and box.
pub open spec fn update_postorder<C>(new: Node<C>, old: Node<C>) -> Seq<(C, Transform, Dimensions)>
    decreases old, old.children.len() + 1,
{
    children_update_postorder(new, old, old.children.len() as int) + (if old.component is Some {
        seq![(old.component->0, new.global_transform, new.dimensions)]
    } else {
        Seq::empty()
    })
}

pub open spec fn children_update_postorder<C>(new: Node<C>, old: Node<C>, k: int) -> Seq<
    (C, Transform, Dimensions),
>
    decreases old, k,
{
    if k <= 0 || k > old.children.len() {
        Seq::empty()
    } else {
        children_update_postorder(new, old, k - 1) + update_postorder(
            new.children@[k - 1],
            old.children@[k - 1],
        )
    }
}

/// `apps` runs from the context before the first `update` call to the one
/// after the last: one call per entry of `visits`, in order.
pub open spec fn updated_steps<A, C: ComponentsDef<A>>(
    visits: Seq<(C, Transform, Dimensions)>,
    apps: Seq<A>,
) -> bool {
    &&& apps.len() == visits.len() + 1
    &&& forall|k: int|
        0 <= k < visits.len() ==> C::on_update(
            (#[trigger] visits[k]).0,
            visits[k].1,
            visits[k].2,
            apps[k],
            apps[k + 1],
        )
}

/// As `added_steps`, for `remove` calls.
pub open spec fn removed_steps<A, C: ComponentsDef<A>>(
    visits: Seq<(Seq<int>, Node<C>)>,
    apps: Seq<A>,
) -> bool {
    &&& apps.len() == visits.len() + 1
    &&& forall|k: int|
        0 <= k < visits.len() ==> C::on_remove(
            (#[trigger] visits[k]).1.component->0,
            visits[k].1.global_transform,
            visits[k].1.dimensions,
            apps[k],
            apps[k + 1],
        )
}

/// `ctxs` runs from the draw context before the first `render` call to the
/// one after the last: one call per entry of `visits`, in order, on that
/// entry's payload.
pub open spec fn rendered_steps<A, D, C: DrawComponent<A, D>>(
    visits: Seq<(Seq<int>, Node<C>)>,
    app: A,
    ctxs: Seq<D>,
) -> bool {
    &&& ctxs.len() == visits.len() + 1
    &&& forall|k: int|
        0 <= k < visits.len() ==> C::on_render(
            (#[trigger] visits[k]).1.component->0,
            app,
            ctxs[k],
            ctxs[k + 1],
        )
}

/// The number of nodes of `n` that hold a component.
pub open spec fn active_count<C>(n: Node<C>) -> nat
    decreases n, n.children.len() + 1,
{
    (if n.component is Some {
        1nat
    } else {
        0nat
    }) + children_count(n, n.children.len() as int)
}

pub open spec fn children_count<C>(n: Node<C>, k: int) -> nat
    decreases n, k,
{
    if k <= 0 || k > n.children.len() {
        0
    } else {
        children_count(n, k - 1) + active_count(n.children@[k - 1])
    }
}

proof fn lemma_children_fit<C>(n: Node<C>, g: Transform, k: int)
    requires
        0 <= k <= n.children.len(),
    ensures
        children_fit(n, g, k) <==> forall|j: int|
            0 <= j < k ==> #[trigger] update_fits(n.children@[j], g),
    decreases k,
{
    if k > 0 {
        lemma_children_fit(n, g, k - 1);
        assert(children_fit(n, g, k) == (children_fit(n, g, k - 1) && update_fits(
            n.children@[k - 1],
            g,
        )));
    }
}

proof fn lemma_children_updated<C>(new: Node<C>, old: Node<C>, g: Transform, k: int)
    requires
        0 <= k <= old.children.len(),
    ensures
        children_updated(new, old, g, k) <==> forall|j: int|
            0 <= j < k ==> #[trigger] updated(new.children@[j], old.children@[j], g),
    decreases k,
{
    if k > 0 {
        lemma_children_updated(new, old, g, k - 1);
        assert(children_updated(new, old, g, k) == (children_updated(new, old, g, k - 1)
            && updated(new.children@[k - 1], old.children@[k - 1], g)));
    }
}

proof fn lemma_children_same<C>(a: Node<C>, b: Node<C>, k: int)
    requires
        0 <= k <= a.children.len(),
    ensures
        children_same(a, b, k) <==> forall|j: int|
            0 <= j < k ==> #[trigger] same_geometry(a.children@[j], b.children@[j]),
    decreases k,
{
    if k > 0 {
        lemma_children_same(a, b, k - 1);
        assert(children_same(a, b, k) == (children_same(a, b, k - 1) && same_geometry(
            a.children@[k - 1],
            b.children@[k - 1],
        )));
    }
}

proof fn lemma_covers_children<C>(n: Node<C>, k: int)
    requires
        0 <= k <= n.children.len(),
    ensures
        covers_children(n, k) <==> forall|j: int|
            #![trigger n.children@[j]]
            0 <= j < k ==> {
                &&& contains(n.dimensions, n.children@[j].dimensions)
                &&& covers_subtree(n.children@[j])
            },
    decreases k,
{
    if k > 0 {
        lemma_covers_children(n, k - 1);
        assert(covers_children(n, k) == (covers_children(n, k - 1) && contains(
            n.dimensions,
            n.children@[k - 1].dimensions,
        ) && covers_subtree(n.children@[k - 1])));
    }
}

proof fn lemma_added_steps_concat<A, C: ComponentsDef<A>>(
    a: Seq<(Seq<int>, Node<C>)>,
    sa: Seq<A>,
    b: Seq<(Seq<int>, Node<C>)>,
    sb: Seq<A>,
)
    requires
        added_steps(a, sa),
        added_steps(b, sb),
        sa.last() == sb[0],
    ensures
        added_steps(a + b, sa + sb.drop_first()),
{
    let v = a + b;
    let st = sa + sb.drop_first();
    assert forall|k: int| 0 <= k < v.len() implies C::on_added(
        (#[trigger] v[k]).1.component->0,
        v[k].1.global_transform,
        v[k].1.dimensions,
        st[k],
        st[k + 1],
    ) by {
        if k < a.len() {
            assert(v[k] == a[k]);
            assert(st[k] == sa[k]);
            assert(st[k + 1] == sa[k + 1]);
        } else {
            let m = k - a.len();
            assert(v[k] == b[m]);
            if m == 0 {
                assert(st[k] == sa[sa.len() - 1]);
            } else {
                assert(st[k] == sb[m]);
            }
            assert(st[k + 1] == sb[m + 1]);
        }
    }
}

proof fn lemma_removed_steps_concat<A, C: ComponentsDef<A>>(
    a: Seq<(Seq<int>, Node<C>)>,
    sa: Seq<A>,
    b: Seq<(Seq<int>, Node<C>)>,
    sb: Seq<A>,
)
    requires
        removed_steps(a, sa),
        removed_steps(b, sb),
        sa.last() == sb[0],
    ensures
        removed_steps(a + b, sa + sb.drop_first()),
{
    let v = a + b;
    let st = sa + sb.drop_first();
    assert forall|k: int| 0 <= k < v.len() implies C::on_remove(
        (#[trigger] v[k]).1.component->0,
        v[k].1.global_transform,
        v[k].1.dimensions,
        st[k],
        st[k + 1],
    ) by {
        if k < a.len() {
            assert(v[k] == a[k]);
            assert(st[k] == sa[k]);
            assert(st[k + 1] == sa[k + 1]);
        } else {
            let m = k - a.len();
            assert(v[k] == b[m]);
            if m == 0 {
                assert(st[k] == sa[sa.len() - 1]);
            } else {
                assert(st[k] == sb[m]);
            }
            assert(st[k + 1] == sb[m + 1]);
        }
    }
}

proof fn lemma_rendered_steps_concat<A, D, C: DrawComponent<A, D>>(
    a: Seq<(Seq<int>, Node<C>)>,
    app: A,
    sa: Seq<D>,
    b: Seq<(Seq<int>, Node<C>)>,
    sb: Seq<D>,
)
    requires
        rendered_steps(a, app, sa),
        rendered_steps(b, app, sb),
        sa.last() == sb[0],
    ensures
        rendered_steps(a + b, app, sa + sb.drop_first()),
{
    let v = a + b;
    let st = sa + sb.drop_first();
    assert forall|k: int| 0 <= k < v.len() implies C::on_render(
        (#[trigger] v[k]).1.component->0,
        app,
        st[k],
        st[k + 1],
    ) by {
        if k < a.len() {
            assert(v[k] == a[k]);
            assert(st[k] == sa[k]);
            assert(st[k + 1] == sa[k + 1]);
        } else {
            let m = k - a.len();
            assert(v[k] == b[m]);
            if m == 0 {
                assert(st[k] == sa[sa.len() - 1]);
            } else {
                assert(st[k] == sb[m]);
            }
            assert(st[k + 1] == sb[m + 1]);
        }
    }
}

proof fn lemma_updated_steps_concat<A, C: ComponentsDef<A>>(
    a: Seq<(C, Transform, Dimensions)>,
    sa: Seq<A>,
    b: Seq<(C, Transform, Dimensions)>,
    sb: Seq<A>,
)
    requires
        updated_steps(a, sa),
        updated_steps(b, sb),
        sa.last() == sb[0],
    ensures
        updated_steps(a + b, sa + sb.drop_first()),
{
    let v = a + b;
    let st = sa + sb.drop_first();
    assert forall|k: int| 0 <= k < v.len() implies C::on_update(
        (#[trigger] v[k]).0,
        v[k].1,
        v[k].2,
        st[k],
        st[k + 1],
    ) by {
        if k < a.len() {
            assert(v[k] == a[k]);
            assert(st[k] == sa[k]);
            assert(st[k + 1] == sa[k + 1]);
        } else {
            let m = k - a.len();
            assert(v[k] == b[m]);
            if m == 0 {
                assert(st[k] == sa[sa.len() - 1]);
            } else {
                assert(st[k] == sb[m]);
            }
            assert(st[k + 1] == sb[m + 1]);
        }
    }
}

/// The post-order list over the first `k` children depends on those children only.
proof fn lemma_children_update_postorder_agree<C>(x: Node<C>, y: Node<C>, old: Node<C>, k: int)
    requires
        0 <= k <= old.children.len(),
        k <= x.children.len(),
        k <= y.children.len(),
        forall|j: int| 0 <= j < k ==> x.children@[j] == y.children@[j],
    ensures
        children_update_postorder(x, old, k) == children_update_postorder(y, old, k),
    decreases k,
{
    if k > 0 {
        lemma_children_update_postorder_agree(x, y, old, k - 1);
    }
}

/// The hull over a prefix depends on that prefix only.
proof fn lemma_hull_prefix_agree<C>(seed: Dimensions, a: Seq<Node<C>>, b: Seq<Node<C>>, k: int)
    requires
        0 <= k <= a.len(),
        k <= b.len(),
        forall|j: int| 0 <= j < k ==> a[j].dimensions == b[j].dimensions,
    ensures
        hull_prefix(seed, a, k) == hull_prefix(seed, b, k),
    decreases k,
{
    if k > 0 {
        lemma_hull_prefix_agree(seed, a, b, k - 1);
    }
}

impl<C> Node<C> {
    /// A node with the empty component, identity transforms, degenerate boxes at
    /// the origin and no children.
    pub fn new() -> (r: Node<C>)
        ensures
            r.transform == Transform::spec_identity(),
            r.global_transform == Transform::spec_identity(),
            r.rel_min_dimensions == Dimensions::spec_default(),
            r.dimensions == Dimensions::spec_default(),
            r.component is None,
            r.children@.len() == 0,
    {
        Node {
            transform: Transform::identity(),
            component: None,
            rel_min_dimensions: Dimensions::default(),
            global_transform: Transform::identity(),
            dimensions: Dimensions::default(),
            children: Vec::new(),
        }
    }

    /// A default node that holds `component`.
    pub fn with_component(component: C) -> (r: Node<C>)
        ensures
            r.transform == Transform::spec_identity(),
            r.global_transform == Transform::spec_identity(),
            r.rel_min_dimensions == Dimensions::spec_default(),
            r.dimensions == Dimensions::spec_default(),
            r.component == Some(component),
            r.children@.len() == 0,
    {
        let mut n = Node::new();
        n.component = Some(component);
        n
    }

    pub fn global_transform(&self) -> (r: &Transform)
        ensures
            *r == self.global_transform,
    {
        &self.global_transform
    }

    pub fn rel_min_dimensions(&self) -> (r: &Dimensions)
        ensures
            *r == self.rel_min_dimensions,
    {
        &self.rel_min_dimensions
    }

    pub fn dimensions(&self) -> (r: &Dimensions)
        ensures
            *r == self.dimensions,
    {
        &self.dimensions
    }

    pub fn children(&self) -> (r: &Vec<Node<C>>)
        ensures
            *r == self.children,
    {
        &self.children
    }

    /// Whether an update pass of this node under `parent` stays within `i32`.
    pub fn update_fits(&self, parent: &Transform) -> (r: bool)
        ensures
            r == update_fits(*self, *parent),
        decreases self,
    {
        if !parent.compose_fits(&self.transform) {
            return false;
        }
        let g = parent.compose(&self.transform);
        let d = &self.rel_min_dimensions;
        let lo = i32::MIN as i64;
        let hi = i32::MAX as i64;
        let fx = g.position.x as i64 + d.from.x as i64;
        let fy = g.position.y as i64 + d.from.y as i64;
        let fz = g.position.z as i64 + d.from.z as i64;
        let tx = g.position.x as i64 + d.to.x as i64;
        let ty = g.position.y as i64 + d.to.y as i64;
        let tz = g.position.z as i64 + d.to.z as i64;
        if !(lo <= fx && fx <= hi && lo <= fy && fy <= hi && lo <= fz && fz <= hi && lo <= tx
            && tx <= hi && lo <= ty && ty <= hi && lo <= tz && tz <= hi) {
            return false;
        }
        let n = self.children.len();
        let mut i: usize = 0;
        while i < n
            invariant
                n == self.children.len(),
                g == spec_compose(*parent, self.transform),
                forall|j: int| 0 <= j < i ==> #[trigger] update_fits(self.children[j], g),
            decreases n - i,
        {
            if !self.children[i].update_fits(&g) {
                proof {
                    lemma_children_fit(*self, g, n as int);
                }
                return false;
            }
            i += 1;
        }
        proof {
            lemma_children_fit(*self, g, n as int);
        }
        true
    }

    /// The update pass: computes the global transform of this node and of
    /// every node below it from `parent`, the global transform of this node's
    /// parent (the identity for the root), grows each node's box over its
    /// children's, and runs each node's `update` callback once its own
    /// transform and box are final (children before their parent). Returns the
    /// application contexts that the calls passed through: one `update` step
    /// per node that holds a component, in post-order, from the context before
    /// to the one after.
    pub fn update<A>(&mut self, parent: &Transform, app: &mut A) -> (apps: Ghost<Seq<A>>)
        where C: ComponentsDef<A>,
        requires
            update_fits(*old(self), *parent),
        ensures
            updated(*final(self), *old(self), *parent),
            updated_steps(update_postorder(*final(self), *old(self)), apps@),
            apps@[0] == *old(app),
            apps@.last() == *final(app),
        decreases *old(self),
    {
        let ghost mut apps: Seq<A> = seq![*app];
        let g = parent.compose(&self.transform);
        let mut dims = self.rel_min_dimensions.offset(&g.position);
        let n = self.children.len();
        let mut i: usize = 0;
        while i < n
            invariant
                n == self.children.len(),
                n == old(self).children.len(),
                g == spec_compose(*parent, old(self).transform),
                self.transform == old(self).transform,
                self.rel_min_dimensions == old(self).rel_min_dimensions,
                self.component == old(self).component,
                update_fits(*old(self), *parent),
                0 <= i <= n,
                forall|j: int|
                    0 <= j < i ==> #[trigger] updated(
                        self.children[j],
                        old(self).children[j],
                        g,
                    ),
                forall|j: int| i <= j < n ==> self.children[j] == old(self).children[j],
                dims == hull_prefix(seed(*old(self), g), self.children@, i as int),
                updated_steps(children_update_postorder(*self, *old(self), i as int), apps),
                apps[0] == *old(app),
                apps.last() == *app,
            decreases n - i,
        {
            proof {
                lemma_children_fit(*old(self), g, n as int);
                assert(update_fits(old(self).children@[i as int], g));
            }
            let ghost before = self.children@;
            let ghost self_before = *self;
            let Ghost(sub) = self.children[i].update(&g, app);
            proof {
                lemma_hull_prefix_agree(seed(*old(self), g), before, self.children@, i as int);
                lemma_children_update_postorder_agree(self_before, *self, *old(self), i as int);
                let prev = children_update_postorder(*self, *old(self), i as int);
                let next = update_postorder(self.children@[i as int], old(self).children@[i as int]);
                lemma_updated_steps_concat(prev, apps, next, sub);
                assert(children_update_postorder(*self, *old(self), i + 1) == prev + next);
                apps = apps + sub.drop_first();
            }
            dims = dims.hull(&self.children[i].dimensions);
            i += 1;
        }
        let ghost looped = *self;
        self.global_transform = g;
        self.dimensions = dims;
        let gt = self.global_transform;
        let d = self.dimensions;
        let ghost apps_children = apps;
        if let Some(c) = &mut self.component {
            c.update(app, &gt, &d);
            proof {
                apps = apps.push(*app);
            }
        }
        proof {
            lemma_children_updated(*self, *old(self), g, n as int);
            lemma_children_update_postorder_agree(looped, *self, *old(self), n as int);
            let kids = children_update_postorder(*self, *old(self), n as int);
            let own = if old(self).component is Some {
                seq![(old(self).component->0, self.global_transform, self.dimensions)]
            } else {
                Seq::<(C, Transform, Dimensions)>::empty()
            };
            assert(update_postorder(*self, *old(self)) == kids + own);
            if old(self).component is Some {
                assert(updated_steps(own, seq![apps_children.last(), *app]));
                lemma_updated_steps_concat(kids, apps_children, own, seq![apps_children.last(), *app]);
                assert(apps_children + seq![apps_children.last(), *app].drop_first() =~= apps);
            } else {
                assert(kids + own =~= kids);
            }
        }
        Ghost(apps)
    }

    /// Runs `added` on this node, then on each of its subtrees in list order.
    /// Returns the contexts that the calls passed through, the first being the
    /// context before any call.
    fn call_add_recr<A>(&mut self, app: &mut A, Ghost(at): Ghost<Seq<int>>) -> (apps: Ghost<
        Seq<A>,
    >)
        where C: ComponentsDef<A>,
        ensures
            added_steps(active_preorder(*old(self), at), apps@),
            apps@[0] == *old(app),
            apps@.last() == *final(app),
            same_geometry(*final(self), *old(self)),
            final(self).component is Some <==> old(self).component is Some,
        decreases *old(self),
    {
        let ghost mut apps: Seq<A> = seq![*app];
        let gt = self.global_transform;
        let d = self.dimensions;
        if let Some(c) = &mut self.component {
            c.added(app, &gt, &d);
            proof {
                apps = apps.push(*app);
            }
        }
        proof {
            assert(added_steps(own_entry(*old(self), at), apps));
            assert(own_entry(*old(self), at) + children_preorder(*old(self), at, 0) =~= own_entry(
                *old(self),
                at,
            ));
        }
        let n = self.children.len();
        let mut i: usize = 0;
        while i < n
            invariant
                n == self.children.len(),
                n == old(self).children.len(),
                0 <= i <= n,
                self.transform == old(self).transform,
                self.rel_min_dimensions == old(self).rel_min_dimensions,
                self.global_transform == old(self).global_transform,
                self.dimensions == old(self).dimensions,
                self.component is Some <==> old(self).component is Some,
                forall|j: int|
                    0 <= j < i ==> #[trigger] same_geometry(
                        self.children@[j],
                        old(self).children@[j],
                    ),
                forall|j: int| i <= j < n ==> self.children@[j] == old(self).children@[j],
                added_steps(own_entry(*old(self), at) + children_preorder(*old(self), at, i as int), apps),
                apps[0] == *old(app),
                apps.last() == *app,
            decreases n - i,
        {
            let ghost prev = own_entry(*old(self), at) + children_preorder(*old(self), at, i as int);
            let Ghost(sub) = self.children[i].call_add_recr(app, Ghost(at.push(i as int)));
            proof {
                let next = active_preorder(old(self).children@[i as int], at.push(i as int));
                lemma_added_steps_concat(prev, apps, next, sub);
                assert(children_preorder(*old(self), at, i + 1) == children_preorder(
                    *old(self),
                    at,
                    i as int,
                ) + next);
                assert(prev + next =~= own_entry(*old(self), at) + children_preorder(
                    *old(self),
                    at,
                    i + 1,
                ));
                apps = apps + sub.drop_first();
            }
            i += 1;
        }
        proof {
            lemma_children_same(*self, *old(self), n as int);
        }
        Ghost(apps)
    }

    /// Runs `remove` on this node, then on each of its subtrees in list order.
    /// Returns the contexts that the calls passed through, the first being the
    /// context before any call.
    fn call_remove_recr<A>(&mut self, app: &mut A, Ghost(at): Ghost<Seq<int>>) -> (apps: Ghost<
        Seq<A>,
    >)
        where C: ComponentsDef<A>,
        ensures
            removed_steps(active_preorder(*old(self), at), apps@),
            apps@[0] == *old(app),
            apps@.last() == *final(app),
            same_geometry(*final(self), *old(self)),
            final(self).component is Some <==> old(self).component is Some,
        decreases *old(self),
    {
        let ghost mut apps: Seq<A> = seq![*app];
        let gt = self.global_transform;
        let d = self.dimensions;
        if let Some(c) = &mut self.component {
            c.remove(app, &gt, &d);
            proof {
                apps = apps.push(*app);
            }
        }
        proof {
            assert(removed_steps(own_entry(*old(self), at), apps));
            assert(own_entry(*old(self), at) + children_preorder(*old(self), at, 0) =~= own_entry(
                *old(self),
                at,
            ));
        }
        let n = self.children.len();
        let mut i: usize = 0;
        while i < n
            invariant
                n == self.children.len(),
                n == old(self).children.len(),
                0 <= i <= n,
                self.transform == old(self).transform,
                self.rel_min_dimensions == old(self).rel_min_dimensions,
                self.global_transform == old(self).global_transform,
                self.dimensions == old(self).dimensions,
                self.component is Some <==> old(self).component is Some,
                forall|j: int|
                    0 <= j < i ==> #[trigger] same_geometry(
                        self.children@[j],
                        old(self).children@[j],
                    ),
                forall|j: int| i <= j < n ==> self.children@[j] == old(self).children@[j],
                removed_steps(own_entry(*old(self), at) + children_preorder(*old(self), at, i as int), apps),
                apps[0] == *old(app),
                apps.last() == *app,
            decreases n - i,
        {
            let ghost prev = own_entry(*old(self), at) + children_preorder(*old(self), at, i as int);
            let Ghost(sub) = self.children[i].call_remove_recr(app, Ghost(at.push(i as int)));
            proof {
                let next = active_preorder(old(self).children@[i as int], at.push(i as int));
                lemma_removed_steps_concat(prev, apps, next, sub);
                assert(children_preorder(*old(self), at, i + 1) == children_preorder(
                    *old(self),
                    at,
                    i as int,
                ) + next);
                assert(prev + next =~= own_entry(*old(self), at) + children_preorder(
                    *old(self),
                    at,
                    i + 1,
                ));
                apps = apps + sub.drop_first();
            }
            i += 1;
        }
        proof {
            lemma_children_same(*self, *old(self), n as int);
        }
        Ghost(apps)
    }

    /// Appends `child` to this node's children, then runs `added` on the new
    /// subtree in pre-order. Returns the application contexts that the calls
    /// passed through: one `added` step per node of `child` that holds a
    /// component, taken in pre-order, from the context before to the one after.
    pub fn add_child<A>(&mut self, child: Node<C>, app: &mut A) -> (apps: Ghost<Seq<A>>)
        where C: ComponentsDef<A>,
        requires
            old(self).children@.len() < usize::MAX,
        ensures
            added_steps(active_preorder(child, seq![old(self).children@.len() as int]), apps@),
            apps@[0] == *old(app),
            apps@.last() == *final(app),
            final(self).children@.len() == old(self).children@.len() + 1,
            forall|j: int|
                0 <= j < old(self).children@.len() ==> final(self).children@[j] == old(
                    self,
                ).children@[j],
            same_geometry(final(self).children@.last(), child),
            final(self).children@.last().component is Some <==> child.component is Some,
            final(self).transform == old(self).transform,
            final(self).rel_min_dimensions == old(self).rel_min_dimensions,
            final(self).global_transform == old(self).global_transform,
            final(self).dimensions == old(self).dimensions,
            final(self).component == old(self).component,
    {
        let idx = self.children.len();
        self.children.push(child);
        let ghost at = seq![idx as int];
        self.children[idx].call_add_recr(app, Ghost(at))
    }

    /// Runs `remove` on the subtree at `idx` in pre-order while it is still
    /// attached, then detaches and drops it. Returns the application contexts
    /// that the calls passed through, as [`Node::add_child`] does.
    pub fn remove_child<A>(&mut self, idx: usize, app: &mut A) -> (apps: Ghost<Seq<A>>)
        where C: ComponentsDef<A>,
        requires
            idx < old(self).children@.len(),
        ensures
            removed_steps(active_preorder(old(self).children@[idx as int], seq![idx as int]), apps@),
            apps@[0] == *old(app),
            apps@.last() == *final(app),
            final(self).children@ == old(self).children@.remove(idx as int),
            final(self).transform == old(self).transform,
            final(self).rel_min_dimensions == old(self).rel_min_dimensions,
            final(self).global_transform == old(self).global_transform,
            final(self).dimensions == old(self).dimensions,
            final(self).component == old(self).component,
    {
        let ghost at = seq![idx as int];
        let apps = self.children[idx].call_remove_recr(app, Ghost(at));
        let _removed = self.children.remove(idx);
        proof {
            assert(self.children@ =~= old(self).children@.remove(idx as int));
        }
        apps
    }

    /// The render pass: runs `render` on this node, then on each subtree in
    /// list order. Returns the draw contexts that the calls passed through:
    /// one `render` step per node that holds a component, in pre-order, from
    /// the context before to the one after.
    pub fn draw_node<A, D>(&self, ctx: &mut D, app: &A) -> (ctxs: Ghost<Seq<D>>)
        where C: DrawComponent<A, D>,
        ensures
            rendered_steps(active_preorder(*self, Seq::empty()), *app, ctxs@),
            ctxs@[0] == *old(ctx),
            ctxs@.last() == *final(ctx),
    {
        self.draw_at(ctx, app, Ghost(Seq::empty()))
    }

    fn draw_at<A, D>(&self, ctx: &mut D, app: &A, Ghost(at): Ghost<Seq<int>>) -> (ctxs: Ghost<
        Seq<D>,
    >)
        where C: DrawComponent<A, D>,
        ensures
            rendered_steps(active_preorder(*self, at), *app, ctxs@),
            ctxs@[0] == *old(ctx),
            ctxs@.last() == *final(ctx),
        decreases *self,
    {
        let ghost mut ctxs: Seq<D> = seq![*ctx];
        if let Some(c) = &self.component {
            c.render(ctx, app);
            proof {
                ctxs = ctxs.push(*ctx);
            }
        }
        proof {
            assert(rendered_steps(own_entry(*self, at), *app, ctxs));
            assert(own_entry(*self, at) + children_preorder(*self, at, 0) =~= own_entry(*self, at));
        }
        let n = self.children.len();
        let mut i: usize = 0;
        while i < n
            invariant
                n == self.children.len(),
                0 <= i <= n,
                rendered_steps(own_entry(*self, at) + children_preorder(*self, at, i as int), *app, ctxs),
                ctxs[0] == *old(ctx),
                ctxs.last() == *ctx,
            decreases n - i,
        {
            let ghost prev = own_entry(*self, at) + children_preorder(*self, at, i as int);
            let Ghost(sub) = self.children[i].draw_at(ctx, app, Ghost(at.push(i as int)));
            proof {
                let next = active_preorder(self.children@[i as int], at.push(i as int));
                lemma_rendered_steps_concat(prev, *app, ctxs, next, sub);
                assert(children_preorder(*self, at, i + 1) == children_preorder(
                    *self,
                    at,
                    i as int,
                ) + next);
                assert(prev + next =~= own_entry(*self, at) + children_preorder(*self, at, i + 1));
                ctxs = ctxs + sub.drop_first();
            }
            i += 1;
        }
        Ghost(ctxs)
    }
}


proof fn lemma_hull_prefix_covers<C>(seed: Dimensions, kids: Seq<Node<C>>, k: int)
    requires
        0 <= k <= kids.len(),
    ensures
        contains(hull_prefix(seed, kids, k), seed),
        forall|j: int| 0 <= j < k ==> contains(hull_prefix(seed, kids, k), #[trigger] kids[j].dimensions),
    decreases k,
{
    if k > 0 {
        lemma_hull_prefix_covers(seed, kids, k - 1);
        let h = hull_prefix(seed, kids, k - 1);
        assert(hull_prefix(seed, kids, k) == spec_hull(h, kids[k - 1].dimensions));
    }
}

/// After an update pass every node's box covers its own local box at its
/// global position and the box of each child; since covering is transitive,
/// it covers the box of every node below it.
pub proof fn lemma_update_covers<C>(new: Node<C>, old: Node<C>, p: Transform)
    requires
        updated(new, old, p),
    ensures
        covers_subtree(new),
        contains(new.dimensions, seed(old, spec_compose(p, old.transform))),
    decreases old,
{
    let g = spec_compose(p, old.transform);
    let len = old.children.len() as int;
    lemma_children_updated(new, old, g, len);
    lemma_hull_prefix_covers(seed(old, g), new.children@, len);
    assert forall|j: int| 0 <= j < len implies {
        &&& contains(new.dimensions, #[trigger] new.children@[j].dimensions)
        &&& covers_subtree(new.children@[j])
    } by {
        assert(updated(new.children@[j], old.children@[j], g));
        lemma_update_covers(new.children@[j], old.children@[j], g);
    }
    lemma_covers_children(new, len);
}

/// A second update pass under the same parent transform, with no change to
/// the tree in between, yields the same global transforms and boxes on every
/// node as the first.
pub proof fn lemma_update_idempotent<C>(old: Node<C>, p: Transform, first: Node<C>, second: Node<C>)
    requires
        updated(first, old, p),
        updated(second, first, p),
    ensures
        same_geometry(first, second),
    decreases old,
{
    let g = spec_compose(p, old.transform);
    let len = old.children.len() as int;
    lemma_children_updated(first, old, g, len);
    lemma_children_updated(second, first, g, len);
    assert forall|j: int| 0 <= j < len implies #[trigger] same_geometry(
        first.children@[j],
        second.children@[j],
    ) by {
        assert(updated(first.children@[j], old.children@[j], g));
        assert(updated(second.children@[j], first.children@[j], g));
        lemma_update_idempotent(old.children@[j], g, first.children@[j], second.children@[j]);
    }
    assert forall|j: int| 0 <= j < len implies first.children@[j].dimensions
        == second.children@[j].dimensions by {
        assert(same_geometry(first.children@[j], second.children@[j]));
    }
    lemma_hull_prefix_agree(seed(old, g), first.children@, second.children@, len);
    lemma_children_same(first, second, len);
}

/// A lifecycle or render pass over `n` runs exactly one callback per node that
/// holds a component: the list of visited paths is as long as that count. A
/// node that holds one comes first, before any node below it.
pub proof fn lemma_preorder_count<C>(n: Node<C>, at: Seq<int>)
    ensures
        active_preorder(n, at).len() == active_count(n),
        n.component is Some ==> active_preorder(n, at)[0] == (at, n),
    decreases n, n.children.len() + 1,
{
    lemma_children_preorder_count(n, at, n.children.len() as int);
}

proof fn lemma_children_preorder_count<C>(n: Node<C>, at: Seq<int>, k: int)
    ensures
        children_preorder(n, at, k).len() == children_count(n, k),
    decreases n, k,
{
    if 0 < k <= n.children.len() {
        lemma_children_preorder_count(n, at, k - 1);
        lemma_preorder_count(n.children@[k - 1], at.push(k - 1));
    }
}


/// `p` lies below `at`: it starts with the indices of `at`.
pub open spec fn extends(p: Seq<int>, at: Seq<int>) -> bool {
    p.len() >= at.len() && p.subrange(0, at.len() as int) == at
}

/// The paths of `visits` are pairwise distinct.
pub open spec fn distinct_paths<C>(visits: Seq<(Seq<int>, Node<C>)>) -> bool {
    forall|i: int, j: int| 0 <= i < j < visits.len() ==> visits[i].0 != visits[j].0
}

/// A lifecycle or render pass over `n` visits each node that holds a component
/// exactly once: the visited paths are distinct, each lies below `at`, and only
/// the node itself, visited first, sits at `at`.
pub proof fn lemma_preorder_paths<C>(n: Node<C>, at: Seq<int>)
    ensures
        distinct_paths(active_preorder(n, at)),
        forall|k: int|
            0 <= k < active_preorder(n, at).len() ==> extends(
                (#[trigger] active_preorder(n, at)[k]).0,
                at,
            ),
        forall|k: int|
            0 <= k < active_preorder(n, at).len() && (k > 0 || n.component is None) ==> (
            #[trigger] active_preorder(n, at)[k]).0.len() > at.len(),
    decreases n, n.children.len() + 1,
{
    let len = n.children.len() as int;
    lemma_children_paths(n, at, len);
    let own = own_entry(n, at);
    let kids = children_preorder(n, at, len);
    assert(at.subrange(0, at.len() as int) =~= at);
    let r = own + kids;
    assert(active_preorder(n, at) == r);
    assert forall|k: int| 0 <= k < r.len() implies extends((#[trigger] r[k]).0, at) by {
        if k >= own.len() {
            assert(r[k] == kids[k - own.len()]);
        }
    }
    assert forall|k: int| 0 <= k < r.len() && (k > 0 || n.component is None) implies (
    #[trigger] r[k]).0.len() > at.len() by {
        assert(r[k] == kids[k - own.len()]);
    }
    assert forall|i: int, j: int| 0 <= i < j < r.len() implies r[i].0 != r[j].0 by {
        assert(r[j] == kids[j - own.len()]);
        if i >= own.len() {
            assert(r[i] == kids[i - own.len()]);
        }
    }
}

proof fn lemma_children_paths<C>(n: Node<C>, at: Seq<int>, k: int)
    requires
        0 <= k <= n.children.len(),
    ensures
        distinct_paths(children_preorder(n, at, k)),
        forall|q: int|
            0 <= q < children_preorder(n, at, k).len() ==> {
                let p = (#[trigger] children_preorder(n, at, k)[q]).0;
                &&& p.len() > at.len()
                &&& extends(p, at)
                &&& 0 <= p[at.len() as int] < k
            },
    decreases n, k,
{
    if k > 0 {
        lemma_children_paths(n, at, k - 1);
        let sub = at.push(k - 1);
        lemma_preorder_paths(n.children@[k - 1], sub);
        let a = children_preorder(n, at, k - 1);
        let b = active_preorder(n.children@[k - 1], sub);
        assert forall|q: int| 0 <= q < b.len() implies {
            let p = (#[trigger] b[q]).0;
            &&& p.len() > at.len()
            &&& extends(p, at)
            &&& p[at.len() as int] == k - 1
        } by {
            let p = b[q].0;
            assert(extends(p, sub));
            assert(p.subrange(0, sub.len() as int)[at.len() as int] == p[at.len() as int]);
            assert(p.subrange(0, at.len() as int) =~= sub.subrange(0, at.len() as int));
            assert(sub.subrange(0, at.len() as int) =~= at);
        }
        let r = a + b;
        assert(children_preorder(n, at, k) == r);
        assert forall|q: int| 0 <= q < r.len() implies {
            let p = (#[trigger] r[q]).0;
            &&& p.len() > at.len()
            &&& extends(p, at)
            &&& 0 <= p[at.len() as int] < k
        } by {
            if q < a.len() {
                assert(r[q] == a[q]);
            } else {
                assert(r[q] == b[q - a.len()]);
            }
        }
        assert forall|i: int, j: int| 0 <= i < j < r.len() implies r[i].0 != r[j].0 by {
            if j < a.len() {
                assert(r[i] == a[i] && r[j] == a[j]);
            } else if i >= a.len() {
                assert(r[i] == b[i - a.len()] && r[j] == b[j - a.len()]);
            } else {
                assert(r[i] == a[i] && r[j] == b[j - a.len()]);
                assert(a[i].0[at.len() as int] < k - 1);
                assert(b[j - a.len()].0[at.len() as int] == k - 1);
            }
        }
    }
}

} // verus!
