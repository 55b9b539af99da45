use vstd::prelude::*;
use vstd::seq_lib::*;

verus! {

broadcast use {group_to_multiset_ensures, lemma_multiset_commutative, group_filter_ensures};

/// Leaf occupancy above which a node splits, unless it is at its maximum depth.
pub const DEFAULT_CAPACITY: usize = 4;

/// Depth at which nodes no longer split.
pub const DEFAULT_MAX_DEPTH: usize = 10;

/// An axis-aligned rectangle on the integer grid: origin `(x, y)`, extent `width` by `height`.
#[derive(PartialEq, Eq, Structural, Clone, Copy, Debug)]
pub struct Bounds {
    pub x: i32,
    pub y: i32,
    pub width: u32,
    pub height: u32,
}

/// The four equal sub-regions of a node, in traversal order.
#[derive(PartialEq, Eq, Structural, Clone, Copy, Debug)]
pub enum Quadrant {
    TL,
    TR,
    BR,
    BL,
}

impl Quadrant {
    /// Position of the quadrant in a node's children.
    pub open spec fn index(self) -> int {
        match self {
            Quadrant::TL => 0,
            Quadrant::TR => 1,
            Quadrant::BR => 2,
            Quadrant::BL => 3,
        }
    }

    /// Position of the quadrant in a node's array of children.
    pub fn to_usize(&self) -> (r: usize)
        ensures
            r == self.index(),
            r < 4,
    {
        match self {
            Quadrant::TL => 0,
            Quadrant::TR => 1,
            Quadrant::BR => 2,
            Quadrant::BL => 3,
        }
    }
}

/// The quadrant stored at position `i` of a node's children.
pub open spec fn quadrant_at(i: int) -> Quadrant {
    if i == 0 {
        Quadrant::TL
    } else if i == 1 {
        Quadrant::TR
    } else if i == 2 {
        Quadrant::BR
    } else {
        Quadrant::BL
    }
}

impl Bounds {
    pub open spec fn right(self) -> int {
        self.x + self.width
    }

    pub open spec fn bottom(self) -> int {
        self.y + self.height
    }

    /// The far edges fit the coordinate type, so every quadrant is a `Bounds` too.
    pub open spec fn representable(self) -> bool {
        self.right() <= i32::MAX && self.bottom() <= i32::MAX
    }

    /// `inner` lies in the interior of `self`, touching none of its edges.
    pub open spec fn strictly_contains(self, inner: Bounds) -> bool {
        &&& self.x < inner.x
        &&& inner.right() < self.right()
        &&& self.y < inner.y
        &&& inner.bottom() < self.bottom()
    }

    /// The region of quadrant `q`; on an odd extent the right and bottom halves take the extra unit.
    pub open spec fn quadrant_bounds(self, q: Quadrant) -> Bounds {
        let hw = self.width / 2;
        let hh = self.height / 2;
        let mx = (self.x + hw) as i32;
        let my = (self.y + hh) as i32;
        let rw = (self.width - hw) as u32;
        let bh = (self.height - hh) as u32;
        match q {
            Quadrant::TL => Bounds { x: self.x, y: self.y, width: hw, height: hh },
            Quadrant::TR => Bounds { x: mx, y: self.y, width: rw, height: hh },
            Quadrant::BR => Bounds { x: mx, y: my, width: rw, height: bh },
            Quadrant::BL => Bounds { x: self.x, y: my, width: hw, height: bh },
        }
    }

    /// The quadrant of `self` that strictly contains `inner`, if there is one.
    pub open spec fn quadrant_of(self, inner: Bounds) -> Option<Quadrant> {
        if self.quadrant_bounds(Quadrant::TL).strictly_contains(inner) {
            Some(Quadrant::TL)
        } else if self.quadrant_bounds(Quadrant::TR).strictly_contains(inner) {
            Some(Quadrant::TR)
        } else if self.quadrant_bounds(Quadrant::BR).strictly_contains(inner) {
            Some(Quadrant::BR)
        } else if self.quadrant_bounds(Quadrant::BL).strictly_contains(inner) {
            Some(Quadrant::BL)
        } else {
            None
        }
    }

    /// The region of quadrant `q` of `self`.
    pub fn quadrant_region(&self, q: Quadrant) -> (r: Bounds)
        requires
            self.representable(),
        ensures
            r == self.quadrant_bounds(q),
            r.representable(),
    {
        let hw = self.width / 2;
        let hh = self.height / 2;
        let mx = (self.x as i64 + hw as i64) as i32;
        let my = (self.y as i64 + hh as i64) as i32;
        let rw = self.width - hw;
        let bh = self.height - hh;
        match q {
            Quadrant::TL => Bounds { x: self.x, y: self.y, width: hw, height: hh },
            Quadrant::TR => Bounds { x: mx, y: self.y, width: rw, height: hh },
            Quadrant::BR => Bounds { x: mx, y: my, width: rw, height: bh },
            Quadrant::BL => Bounds { x: self.x, y: my, width: hw, height: bh },
        }
    }

    /// The quadrant of `self` that strictly contains `inner` on both axes, if any.
    pub fn quadrant(&self, inner: &Bounds) -> (r: Option<Quadrant>)
        requires
            self.representable(),
        ensures
            r == self.quadrant_of(*inner),
    {
        let left = self.x as i64;
        let top = self.y as i64;
        let mid_x = left + (self.width / 2) as i64;
        let mid_y = top + (self.height / 2) as i64;
        let right = left + self.width as i64;
        let bottom = top + self.height as i64;
        let ix = inner.x as i64;
        let iy = inner.y as i64;
        let ir = ix + inner.width as i64;
        let ib = iy + inner.height as i64;
        let fits_left = ix > left && ir < mid_x;
        let fits_right = ix > mid_x && ir < right;
        let fits_top = iy > top && ib < mid_y;
        let fits_bottom = iy > mid_y && ib < bottom;
        if fits_top && fits_left {
            Some(Quadrant::TL)
        } else if fits_top && fits_right {
            Some(Quadrant::TR)
        } else if fits_bottom && fits_right {
            Some(Quadrant::BR)
        } else if fits_bottom && fits_left {
            Some(Quadrant::BL)
        } else {
            None
        }
    }
}

/// Elements of the tree expose the rectangle they occupy.
pub trait Bounded {
    spec fn extent(&self) -> Bounds;

    fn bounds(&self) -> (r: Bounds)
        ensures
            r == self.extent(),
    ;
}

impl Bounded for Bounds {
    open spec fn extent(&self) -> Bounds {
        *self
    }

    fn bounds(&self) -> (r: Bounds) {
        *self
    }
}


/// Keeps the elements of `s` whose quadrant within `b` is `q`, in order.
pub open spec fn headed<T: Bounded>(b: Bounds, s: Seq<T>, q: Option<Quadrant>) -> Seq<T> {
    s.filter(lands_in(b, q))
}

/// Holds of the elements whose quadrant within `b` is `q`.
pub open spec fn lands_in<T: Bounded>(b: Bounds, q: Option<Quadrant>) -> spec_fn(T) -> bool {
    |x: T| b.quadrant_of(x.extent()) == q
}

/// A region-subdividing index over bounded elements.
///
/// Each node holds the elements that fit none of its quadrants strictly; a leaf
/// holds at most `capacity` of them unless it is at `max_depth`.
pub struct QuadTree<T> {
    capacity: usize,
    depth: usize,
    max_depth: usize,
    bounds: Bounds,
    elements: Vec<T>,
    children: Option<Vec<QuadTree<T>>>,
}

impl<T: Bounded + Copy> QuadTree<T> {
    pub closed spec fn region(self) -> Bounds {
        self.bounds
    }

    pub closed spec fn level(self) -> nat {
        self.depth as nat
    }

    pub closed spec fn limit(self) -> nat {
        self.capacity as nat
    }

    pub closed spec fn depth_limit(self) -> nat {
        self.max_depth as nat
    }

    /// The elements held at this node itself.
    pub closed spec fn local(self) -> Seq<T> {
        self.elements@
    }

    pub closed spec fn is_leaf(self) -> bool {
        self.children is None
    }

    /// The child covering quadrant `q` of a node that has been split.
    pub closed spec fn child(self, q: Quadrant) -> QuadTree<T> {
        self.children.unwrap()[q.index()]
    }

    /// Every element of the tree, depth first: a node's own elements, then its
    /// children in the order TL, TR, BR, BL.
    pub closed spec fn contents(self) -> Seq<T>
        decreases self,
    {
        match self.children {
            Some(cs) => {
                if cs.len() == 4 {
                    self.elements@ + cs[0].contents() + cs[1].contents() + cs[2].contents()
                        + cs[3].contents()
                } else {
                    self.elements@
                }
            },
            None => self.elements@,
        }
    }

    /// Number of nodes in the tree.
    pub closed spec fn size(self) -> nat
        decreases self,
    {
        match self.children {
            Some(cs) => {
                if cs.len() == 4 {
                    1 + cs[0].size() + cs[1].size() + cs[2].size() + cs[3].size()
                } else {
                    1
                }
            },
            None => 1,
        }
    }

    /// Same region and configuration as `other`.
    pub closed spec fn same_frame(self, other: QuadTree<T>) -> bool {
        &&& self.capacity == other.capacity
        &&& self.depth == other.depth
        &&& self.max_depth == other.max_depth
        &&& self.bounds == other.bounds
    }

    closed spec fn frame_ok(self) -> bool {
        &&& self.depth <= self.max_depth
        &&& self.bounds.representable()
    }

    /// `c` is a proper child of this node for quadrant `q`.
    closed spec fn child_ok(self, c: QuadTree<T>, q: Quadrant) -> bool {
        &&& c.capacity == self.capacity
        &&& c.depth == self.depth + 1
        &&& c.max_depth == self.max_depth
        &&& c.bounds == self.bounds.quadrant_bounds(q)
        &&& forall|x: T| #[trigger] c.contents().contains(x) ==> self.bounds.quadrant_of(x.extent()) == Some(q)
    }

    /// The tree's invariant: quadrant geometry, inherited configuration, leaf
    /// occupancy, and every element stored as deep as it strictly fits.
    pub closed spec fn wf(self) -> bool
        decreases self,
    {
        &&& self.frame_ok()
        &&& match self.children {
            None => self.elements.len() <= self.capacity || self.depth == self.max_depth,
            Some(cs) => {
                &&& cs.len() == 4
                &&& self.child_ok(cs[0], Quadrant::TL)
                &&& self.child_ok(cs[1], Quadrant::TR)
                &&& self.child_ok(cs[2], Quadrant::BR)
                &&& self.child_ok(cs[3], Quadrant::BL)
                &&& cs[0].wf()
                &&& cs[1].wf()
                &&& cs[2].wf()
                &&& cs[3].wf()
                &&& forall|j: int|
                    0 <= j < self.elements.len() ==> self.bounds.quadrant_of(
                        #[trigger] self.elements@[j].extent(),
                    ) is None
            },
        }
    }

    /// After a split of a leaf whose elements were `s`: the node keeps those of
    /// `s` that fit no quadrant, each child holds those that fit its quadrant,
    /// and a child that received at most `capacity` of them is a leaf holding
    /// them in their order in `s`.
    pub closed spec fn split_from(self, s: Seq<T>) -> bool {
        &&& self.children is Some
        &&& self.elements@ == headed(self.bounds, s, None)
        &&& forall|q: Quadrant| #[trigger] self.child_from(s, q)
    }

    /// Child `q` holds the elements of `s` that fit quadrant `q`; in their order
    /// in `s`, and as a leaf, when there are at most `capacity` of them.
    pub closed spec fn child_from(self, s: Seq<T>, q: Quadrant) -> bool {
        let c = self.child(q);
        let h = headed(self.bounds, s, Some(q));
        &&& c.contents().to_multiset() == h.to_multiset()
        &&& h.len() <= self.capacity ==> c.is_leaf() && c.local() == h
    }

    fn leaf(bounds: Bounds, capacity: usize, depth: usize, max_depth: usize) -> (r: Self)
        requires
            bounds.representable(),
            depth <= max_depth,
        ensures
            r.wf(),
            r.is_leaf(),
            r.local() == Seq::<T>::empty(),
            r.contents() == Seq::<T>::empty(),
            r.bounds == bounds,
            r.capacity == capacity,
            r.depth == depth,
            r.max_depth == max_depth,
    {
        QuadTree { capacity, depth, max_depth, bounds, elements: Vec::new(), children: None }
    }

    /// An empty tree over `bounds`, with the default capacity and maximum depth.
    pub fn new(bounds: Bounds) -> (r: Self)
        requires
            bounds.representable(),
        ensures
            r.wf(),
            r.is_leaf(),
            r.local() == Seq::<T>::empty(),
            r.contents() == Seq::<T>::empty(),
            r.region() == bounds,
            r.level() == 0,
            r.limit() == DEFAULT_CAPACITY,
            r.depth_limit() == DEFAULT_MAX_DEPTH,
    {
        Self::leaf(bounds, DEFAULT_CAPACITY, 0, DEFAULT_MAX_DEPTH)
    }

    /// An empty tree over `bounds` with the given leaf capacity and maximum depth.
    pub fn with_limits(bounds: Bounds, capacity: usize, max_depth: usize) -> (r: Self)
        requires
            bounds.representable(),
        ensures
            r.wf(),
            r.is_leaf(),
            r.local() == Seq::<T>::empty(),
            r.contents() == Seq::<T>::empty(),
            r.region() == bounds,
            r.level() == 0,
            r.limit() == capacity,
            r.depth_limit() == max_depth,
    {
        Self::leaf(bounds, capacity, 0, max_depth)
    }
}


impl<T: Bounded + Copy> QuadTree<T> {
    /// `after` is what inserting `e` into `self` leaves: `e` joins the
    /// contents; a leaf keeps it locally, and splits when it then holds more
    /// than `capacity` elements below the maximum depth; a split node passes
    /// it to the child whose quadrant strictly contains it, or keeps it.
    pub open spec fn insertion(self, after: QuadTree<T>, e: T) -> bool {
        &&& after.wf()
        &&& after.same_frame(self)
        &&& after.contents().to_multiset() == self.contents().to_multiset().insert(e)
        &&& self.is_leaf() && (self.local().len() < self.limit() || self.level()
            >= self.depth_limit()) ==> after.is_leaf() && after.local() == self.local().push(e)
        &&& self.is_leaf() && self.local().len() >= self.limit() && self.level()
            < self.depth_limit() ==> after.split_from(self.local().push(e))
        &&& !self.is_leaf() ==> after.passed_down(self, e)
    }

    /// Insertion into a node that was already split.
    pub open spec fn passed_down(self, before: QuadTree<T>, e: T) -> bool {
        &&& !self.is_leaf()
        &&& match before.region().quadrant_of(e.extent()) {
            Some(q) => {
                &&& self.local() == before.local()
                &&& self.child(q).contents().to_multiset() == before.child(
                    q,
                ).contents().to_multiset().insert(e)
                &&& forall|r: Quadrant| r != q ==> #[trigger] self.child(r) == before.child(r)
            },
            None => {
                &&& self.local() == before.local().push(e)
                &&& forall|r: Quadrant| #[trigger] self.child(r) == before.child(r)
            },
        }
    }

    /// A leaf's contents are its own elements; a split node's are its own
    /// elements followed by its children's, in the order TL, TR, BR, BL.
    pub proof fn lemma_node_contents(self)
        requires
            self.wf(),
        ensures
            self.is_leaf() ==> self.contents() == self.local(),
            !self.is_leaf() ==> self.contents() == self.local() + self.child(Quadrant::TL).contents()
                + self.child(Quadrant::TR).contents() + self.child(Quadrant::BR).contents()
                + self.child(Quadrant::BL).contents(),
    {
    }

    proof fn lemma_split_contents(self)
        requires
            self.children is Some,
            self.children.unwrap().len() == 4,
        ensures
            self.contents().to_multiset() == self.local().to_multiset().add(
                self.child(Quadrant::TL).contents().to_multiset(),
            ).add(self.child(Quadrant::TR).contents().to_multiset()).add(
                self.child(Quadrant::BR).contents().to_multiset(),
            ).add(self.child(Quadrant::BL).contents().to_multiset()),
    {
        let cs = self.children.unwrap();
        assert(self.contents() == self.elements@ + cs[0].contents() + cs[1].contents()
            + cs[2].contents() + cs[3].contents());
    }

    /// Divides a leaf into four children, one per quadrant, and moves into each
    /// the elements that its quadrant strictly contains; the others stay here.
    /// A leaf at the maximum depth is left as it is. A node that is already
    /// split cannot be split again.
    pub fn split(&mut self)
        requires
            old(self).wf(),
            old(self).is_leaf(),
        ensures
            final(self).wf(),
            final(self).same_frame(*old(self)),
            final(self).contents().to_multiset() == old(self).contents().to_multiset(),
            old(self).level() >= old(self).depth_limit() ==> *final(self) == *old(self),
            old(self).level() < old(self).depth_limit() ==> final(self).split_from(
                old(self).local(),
            ),
    {
        self.split_leaf();
    }

    /// As `split`, on a leaf that may hold more than `capacity` elements.
    fn split_leaf(&mut self)
        requires
            old(self).is_leaf(),
            old(self).frame_ok(),
        ensures
            final(self).wf(),
            final(self).same_frame(*old(self)),
            final(self).contents().to_multiset() == old(self).contents().to_multiset(),
            old(self).level() >= old(self).depth_limit() ==> *final(self) == *old(self),
            old(self).level() < old(self).depth_limit() ==> final(self).split_from(
                old(self).local(),
            ),
        decreases old(self).depth_limit() - old(self).level(), 0nat,
    {
        if self.depth >= self.max_depth {
            return ;
        }
        let capacity = self.capacity;
        let depth = self.depth + 1;
        let max_depth = self.max_depth;
        let mut children: Vec<QuadTree<T>> = Vec::new();
        children.push(Self::leaf(self.bounds.quadrant_region(Quadrant::TL), capacity, depth, max_depth));
        children.push(Self::leaf(self.bounds.quadrant_region(Quadrant::TR), capacity, depth, max_depth));
        children.push(Self::leaf(self.bounds.quadrant_region(Quadrant::BR), capacity, depth, max_depth));
        children.push(Self::leaf(self.bounds.quadrant_region(Quadrant::BL), capacity, depth, max_depth));
        let ghost s = self.elements@;
        let ghost b = self.bounds;
        let mut kept: Vec<T> = Vec::new();
        let mut k: usize = 0;
        assert(s.take(0) =~= Seq::<T>::empty());
        proof {
            reveal(Seq::filter);
        }
        while k < self.elements.len()
            invariant
                *self == *old(self),
                s == self.elements@,
                b == self.bounds,
                self.frame_ok(),
                self.depth < self.max_depth,
                capacity == self.capacity,
                depth == self.depth + 1,
                max_depth == self.max_depth,
                0 <= k <= s.len(),
                children.len() == 4,
                forall|i: int|
                    0 <= i < 4 ==> {
                        &&& (#[trigger] children@[i]).wf()
                        &&& children@[i].capacity == capacity
                        &&& children@[i].depth == depth
                        &&& children@[i].max_depth == max_depth
                        &&& children@[i].bounds == b.quadrant_bounds(quadrant_at(i))
                        &&& children@[i].contents().to_multiset() == headed(
                            b,
                            s.take(k as int),
                            Some(quadrant_at(i)),
                        ).to_multiset()
                        &&& headed(b, s.take(k as int), Some(quadrant_at(i))).len() <= capacity
                            ==> children@[i].is_leaf() && children@[i].local() == headed(
                            b,
                            s.take(k as int),
                            Some(quadrant_at(i)),
                        )
                    },
                kept@ == headed(b, s.take(k as int), None),
                kept@.to_multiset().add(children@[0].contents().to_multiset()).add(
                    children@[1].contents().to_multiset(),
                ).add(children@[2].contents().to_multiset()).add(
                    children@[3].contents().to_multiset(),
                ) == s.take(k as int).to_multiset(),
            decreases s.len() - k,
        {
            let e = self.elements[k];
            let eb = e.bounds();
            let ghost before = children@;
            let ghost pre = s.take(k as int);
            assert(s.take(k + 1) == pre.push(e));
            proof {
                pre.lemma_filter_push(e, lands_in(b, None));
                pre.lemma_filter_push(e, lands_in(b, Some(Quadrant::TL)));
                pre.lemma_filter_push(e, lands_in(b, Some(Quadrant::TR)));
                pre.lemma_filter_push(e, lands_in(b, Some(Quadrant::BR)));
                pre.lemma_filter_push(e, lands_in(b, Some(Quadrant::BL)));
            }
            match self.bounds.quadrant(&eb) {
                Some(q) => {
                    let i = q.to_usize();
                    assert(quadrant_at(i as int) == q);
                    children[i].insert(e);
                    assert(forall|j: int| 0 <= j < 4 && j != i ==> children@[j] == before[j]);
                },
                None => {
                    kept.push(e);
                },
            }
            k += 1;
        }
        assert(s.take(k as int) == s);
        let ghost cs = children@;
        self.children = Some(children);
        self.elements = kept;
        proof {
            self.lemma_split_contents();
            assert(quadrant_at(0) == Quadrant::TL);
            assert(quadrant_at(1) == Quadrant::TR);
            assert(quadrant_at(2) == Quadrant::BR);
            assert(quadrant_at(3) == Quadrant::BL);
            assert forall|i: int, x: T|
                0 <= i < 4 && #[trigger] cs[i].contents().contains(x) implies b.quadrant_of(
                x.extent(),
            ) == Some(quadrant_at(i)) by {
                let h = headed(b, s, Some(quadrant_at(i)));
                assert(cs[i].contents().to_multiset().count(x) > 0);
                assert(h.to_multiset().count(x) > 0);
                assert(h.contains(x));
                let j = choose|j: int| 0 <= j < h.len() && h[j] == x;
                s.lemma_filter_pred(lands_in(b, Some(quadrant_at(i))), j);
            }
            assert(self.child_ok(cs[0], Quadrant::TL));
            assert(self.child_ok(cs[1], Quadrant::TR));
            assert(self.child_ok(cs[2], Quadrant::BR));
            assert(self.child_ok(cs[3], Quadrant::BL));
            assert forall|j: int| 0 <= j < self.elements.len() implies self.bounds.quadrant_of(
                #[trigger] self.elements@[j].extent(),
            ) is None by {
                s.lemma_filter_pred(lands_in(b, None), j);
            }
            assert forall|q: Quadrant| #[trigger] self.child_from(s, q) by {
                assert(quadrant_at(q.index()) == q);
            }
        }
    }

    /// Adds `element` to the tree, at the deepest node whose quadrant strictly
    /// contains its bounds.
    pub fn insert(&mut self, element: T)
        requires
            old(self).wf(),
        ensures
            old(self).insertion(*final(self), element),
        decreases old(self).depth_limit() - old(self).level(), 1nat,
    {
        let eb = element.bounds();
        let quadrant = self.bounds.quadrant(&eb);
        let ghost before = *self;
        if self.children.is_some() {
            proof {
                before.lemma_split_contents();
            }
            match quadrant {
                Some(q) => {
                    let i = q.to_usize();
                    proof {
                        before.lemma_child_facts(q);
                    }
                    match &mut self.children {
                        Some(cs) => {
                            cs[i].insert(element);
                        },
                        None => {},
                    }
                    proof {
                        before.lemma_child_replaced(*self, q, element);
                    }
                },
                None => {
                    self.elements.push(element);
                    proof {
                        self.lemma_split_contents();
                        let cs = self.children.unwrap();
                        assert(cs@.len() == 4);
                        assert(self.child_ok(cs[0], Quadrant::TL));
                        assert(self.child_ok(cs[1], Quadrant::TR));
                        assert(self.child_ok(cs[2], Quadrant::BR));
                        assert(self.child_ok(cs[3], Quadrant::BL));
                        assert(self.wf());
                        assert(self.contents().to_multiset() =~= before.contents().to_multiset().insert(element));
                    }
                },
            }
        } else {
            self.elements.push(element);
            if self.elements.len() > self.capacity {
                self.split_leaf();
            }
        }
    }

    proof fn lemma_child_facts(self, q: Quadrant)
        requires
            self.wf(),
            self.children is Some,
        ensures
            self.children.unwrap().len() == 4,
            self.child(q).wf(),
            self.child(q).level() == self.level() + 1,
            self.child(q).depth_limit() == self.depth_limit(),
            self.child_ok(self.child(q), q),
    {
        match q {
            Quadrant::TL => {},
            Quadrant::TR => {},
            Quadrant::BR => {},
            Quadrant::BL => {},
        }
    }

    proof fn lemma_child_replaced(self, after: Self, q: Quadrant, e: T)
        requires
            self.wf(),
            self.children is Some,
            self.region().quadrant_of(e.extent()) == Some(q),
            after.same_frame(self),
            after.elements == self.elements,
            after.children is Some,
            after.children.unwrap()@ == self.children.unwrap()@.update(
                q.index(),
                after.child(q),
            ),
            self.child(q).insertion(after.child(q), e),
        ensures
            self.insertion(after, e),
    {
        let cs = self.children.unwrap();
        let ns = after.children.unwrap();
        self.lemma_child_facts(q);
        assert(ns@.len() == 4);
        self.lemma_split_contents();
        after.lemma_split_contents();
        assert forall|x: T| #[trigger] after.child(q).contents().contains(x) implies self.bounds.quadrant_of(
            x.extent(),
        ) == Some(q) by {
            assert(after.child(q).contents().to_multiset().count(x) > 0);
            if x != e {
                assert(self.child(q).contents().to_multiset().count(x) > 0);
                assert(self.child(q).contents().contains(x));
            }
        }
        assert(after.child_ok(after.child(q), q));
        assert forall|r: Quadrant| r != q implies #[trigger] after.child(r) == self.child(r) by {
            assert(r.index() != q.index());
        }
        assert(after.child_ok(ns[0], Quadrant::TL));
        assert(after.child_ok(ns[1], Quadrant::TR));
        assert(after.child_ok(ns[2], Quadrant::BR));
        assert(after.child_ok(ns[3], Quadrant::BL));
        assert(ns[0].wf() && ns[1].wf() && ns[2].wf() && ns[3].wf());
        assert(after.wf());
        assert(after.contents().to_multiset() == self.contents().to_multiset().insert(e));
        assert(after.passed_down(self, e));
    }
}


impl Bounds {
    /// The closed rectangles `self` and `other` share at least one point.
    pub open spec fn overlaps(self, other: Bounds) -> bool {
        &&& self.x <= other.right()
        &&& other.x <= self.right()
        &&& self.y <= other.bottom()
        &&& other.y <= self.bottom()
    }

    /// Whether the closed rectangles `self` and `other` share a point.
    pub fn touches(&self, other: &Bounds) -> (r: bool)
        ensures
            r == self.overlaps(*other),
    {
        let sr = self.x as i64 + self.width as i64;
        let sb = self.y as i64 + self.height as i64;
        let orr = other.x as i64 + other.width as i64;
        let ob = other.y as i64 + other.height as i64;
        self.x as i64 <= orr && other.x as i64 <= sr && self.y as i64 <= ob && other.y as i64 <= sb
    }
}

/// A lazy traversal of a tree: the nodes still to visit, the next on top,
/// and how many of the top node's own elements were already handed out.
pub struct Items<'a, T> {
    pending: Vec<&'a QuadTree<T>>,
    element_index: usize,
}

/// The elements near a query element, handed out one at a time.
pub struct QueryItems<T> {
    elements: Vec<T>,
    index: usize,
}

/// The contents of the nodes of `s`, the last node first.
pub open spec fn pending_contents<T: Bounded + Copy>(s: Seq<&QuadTree<T>>) -> Seq<T>
    decreases s.len(),
{
    if s.len() == 0 {
        Seq::empty()
    } else {
        s.last().contents() + pending_contents(s.drop_last())
    }
}

/// Number of nodes in the nodes of `s` and below them.
pub open spec fn pending_size<T: Bounded + Copy>(s: Seq<&QuadTree<T>>) -> nat
    decreases s.len(),
{
    if s.len() == 0 {
        0
    } else {
        s.last().size() + pending_size(s.drop_last())
    }
}

impl<'a, T: Bounded + Copy> Items<'a, T> {
    /// What is still to come.
    pub closed spec fn remaining(self) -> Seq<T> {
        pending_contents(self.pending@).skip(self.element_index as int)
    }

    pub closed spec fn valid(self) -> bool {
        &&& forall|i: int| 0 <= i < self.pending@.len() ==> (#[trigger] self.pending@[i]).wf()
        &&& self.pending@.len() == 0 ==> self.element_index == 0
        &&& self.pending@.len() > 0 ==> self.element_index <= self.pending@.last().local().len()
    }

    /// The next element, if any is left.
    pub fn next(&mut self) -> (r: Option<T>)
        requires
            old(self).valid(),
        ensures
            final(self).valid(),
            old(self).remaining().len() == 0 ==> r is None && final(self).remaining()
                == old(self).remaining(),
            old(self).remaining().len() > 0 ==> r == Some(old(self).remaining()[0])
                && final(self).remaining() == old(self).remaining().drop_first(),
    {
        let ghost start = self.remaining();
        loop
            invariant
                self.valid(),
                self.remaining() == start,
                start == old(self).remaining(),
            decreases pending_size(self.pending@),
        {
            let n = self.pending.len();
            if n == 0 {
                assert(start =~= Seq::<T>::empty());
                return None;
            }
            let top: &'a QuadTree<T> = self.pending[n - 1];
            let ghost all = pending_contents(self.pending@);
            proof {
                top.lemma_node_contents();
                assert(self.pending@.last() == top);
                assert(all == top.contents() + pending_contents(self.pending@.drop_last()));
                assert(top.contents().len() >= top.local().len());
            }
            if self.element_index < top.elements.len() {
                let e = top.elements[self.element_index];
                proof {
                    let i = self.element_index as int;
                    assert(top.contents()[i] == top.local()[i]);
                    assert(all[i] == e);
                    assert(start == all.skip(i));
                    assert(start.len() > 0);
                    assert(start[0] == e);
                }
                self.element_index = self.element_index + 1;
                assert(self.remaining() =~= start.drop_first());
                return Some(e);
            }
            let ghost rest = self.pending@.drop_last();
            assert(self.pending@ == rest.push(top));
            self.pending.pop();
            assert(self.pending@ == rest);
            match &top.children {
                Some(cs) => {
                    self.pending.push(&cs[3]);
                    self.pending.push(&cs[2]);
                    self.pending.push(&cs[1]);
                    self.pending.push(&cs[0]);
                    assert(self.pending@ == rest.push(&cs[3]).push(&cs[2]).push(&cs[1]).push(&cs[0]));
                    proof {
                        assert(cs@.len() == 4);
                        assert(top.child(Quadrant::TL) == cs[0]);
                        assert(top.child(Quadrant::TR) == cs[1]);
                        assert(top.child(Quadrant::BR) == cs[2]);
                        assert(top.child(Quadrant::BL) == cs[3]);
                        lemma_wf_child(*top, Quadrant::TL);
                        lemma_wf_child(*top, Quadrant::TR);
                        lemma_wf_child(*top, Quadrant::BR);
                        lemma_wf_child(*top, Quadrant::BL);
                    }
                },
                None => {},
            }
            self.element_index = 0;
            proof {
                lemma_pending_expand(rest, top);
                assert(self.remaining() =~= start);
            }
        }
    }
}

proof fn lemma_wf_child<T: Bounded + Copy>(t: QuadTree<T>, q: Quadrant)
    requires
        t.wf(),
        !t.is_leaf(),
    ensures
        t.child(q).wf(),
{
    t.lemma_child_facts(q);
}

proof fn lemma_pending_expand<T: Bounded + Copy>(rest: Seq<&QuadTree<T>>, top: &QuadTree<T>)
    requires
        top.wf(),
    ensures
        ({
            let below = match top.children {
                Some(cs) => rest.push(&cs[3]).push(&cs[2]).push(&cs[1]).push(&cs[0]),
                None => rest,
            };
            &&& pending_contents(below) == pending_contents(rest.push(top)).skip(top.local().len() as int)
            &&& pending_size(below) < pending_size(rest.push(top))
        }),
{
    top.lemma_node_contents();
    let s = rest.push(top);
    assert(s.drop_last() == rest);
    assert(pending_contents(s) == top.contents() + pending_contents(rest));
    assert(pending_size(s) == top.size() + pending_size(rest));
    match top.children {
        Some(cs) => {
            assert(cs@.len() == 4);
            let s3 = rest.push(&cs[3]);
            let s2 = s3.push(&cs[2]);
            let s1 = s2.push(&cs[1]);
            let s0 = s1.push(&cs[0]);
            assert(s0.drop_last() == s1);
            assert(s1.drop_last() == s2);
            assert(s2.drop_last() == s3);
            assert(s3.drop_last() == rest);
            assert(top.child(Quadrant::TL) == cs[0]);
            assert(top.child(Quadrant::TR) == cs[1]);
            assert(top.child(Quadrant::BR) == cs[2]);
            assert(top.child(Quadrant::BL) == cs[3]);
            assert(pending_contents(s3) == cs[3].contents() + pending_contents(rest));
            assert(pending_contents(s2) == cs[2].contents() + pending_contents(s3));
            assert(pending_contents(s1) == cs[1].contents() + pending_contents(s2));
            assert(pending_contents(s0) == cs[0].contents() + pending_contents(s1));
            assert(pending_size(s3) == cs[3].size() + pending_size(rest));
            assert(pending_size(s2) == cs[2].size() + pending_size(s3));
            assert(pending_size(s1) == cs[1].size() + pending_size(s2));
            assert(pending_size(s0) == cs[0].size() + pending_size(s1));
            assert(top.size() == 1 + cs[0].size() + cs[1].size() + cs[2].size() + cs[3].size());
            assert(pending_contents(s0) =~= pending_contents(s).skip(top.local().len() as int));
        },
        None => {
            assert(pending_contents(rest) =~= pending_contents(s).skip(top.local().len() as int));
        },
    }
}

impl<T: Copy> QueryItems<T> {
    /// What is still to come.
    pub closed spec fn remaining(self) -> Seq<T> {
        self.elements@.subrange(self.index as int, self.elements@.len() as int)
    }

    pub closed spec fn valid(self) -> bool {
        self.index <= self.elements.len()
    }

    /// The next element, if any is left.
    pub fn next(&mut self) -> (r: Option<T>)
        requires
            old(self).valid(),
        ensures
            final(self).valid(),
            old(self).remaining().len() == 0 ==> r is None && final(self).remaining()
                == old(self).remaining(),
            old(self).remaining().len() > 0 ==> r == Some(old(self).remaining()[0])
                && final(self).remaining() == old(self).remaining().drop_first(),
    {
        if self.index < self.elements.len() {
            let e = self.elements[self.index];
            self.index = self.index + 1;
            assert(self.remaining() =~= old(self).remaining().drop_first());
            Some(e)
        } else {
            None
        }
    }
}

impl<T: Bounded + Copy> QuadTree<T> {
    /// The contents of the children of a split node whose regions overlap `b`,
    /// in the order TL, TR, BR, BL.
    pub closed spec fn overlapping(self, b: Bounds) -> Seq<T> {
        let cs = self.children.unwrap();
        (if cs[0].bounds.overlaps(b) { cs[0].contents() } else { Seq::empty() }) + (if cs[1].bounds.overlaps(b) {
            cs[1].contents()
        } else {
            Seq::empty()
        }) + (if cs[2].bounds.overlaps(b) { cs[2].contents() } else { Seq::empty() }) + (
        if cs[3].bounds.overlaps(b) {
            cs[3].contents()
        } else {
            Seq::empty()
        })
    }

    /// The elements near an element with bounds `b`: those held at each node on
    /// the path that inserting it would take, and, where that path ends at a
    /// split node, everything below the children whose regions overlap `b`.
    pub closed spec fn near(self, b: Bounds) -> Seq<T>
        decreases self,
    {
        match self.children {
            Some(cs) => {
                if cs.len() == 4 {
                    match self.bounds.quadrant_of(b) {
                        Some(q) => self.elements@ + cs[q.index()].near(b),
                        None => self.elements@ + self.overlapping(b),
                    }
                } else {
                    self.elements@
                }
            },
            None => self.elements@,
        }
    }

    fn push_local(&self, out: &mut Vec<T>)
        ensures
            final(out)@ == old(out)@ + self.elements@,
    {
        let mut j: usize = 0;
        while j < self.elements.len()
            invariant
                0 <= j <= self.elements.len(),
                out@ == old(out)@ + self.elements@.take(j as int),
            decreases self.elements.len() - j,
        {
            assert(self.elements@.take(j + 1) == self.elements@.take(j as int).push(self.elements@[j as int]));
            out.push(self.elements[j]);
            j += 1;
        }
        assert(self.elements@.take(j as int) == self.elements@);
    }

    fn collect_into(&self, out: &mut Vec<T>)
        ensures
            final(out)@ == old(out)@ + self.contents(),
        decreases self,
    {
        self.push_local(out);
        match &self.children {
            Some(cs) => {
                if cs.len() == 4 {
                    cs[0].collect_into(out);
                    cs[1].collect_into(out);
                    cs[2].collect_into(out);
                    cs[3].collect_into(out);
                    assert(out@ =~= old(out)@ + self.contents());
                }
            },
            None => {},
        }
    }

    /// Whether this node has been divided into four children.
    pub fn is_split(&self) -> (r: bool)
        ensures
            r == !self.is_leaf(),
    {
        self.children.is_some()
    }

    /// The child covering quadrant `q`, once this node is split.
    pub fn child_node(&self, q: Quadrant) -> (r: Option<&QuadTree<T>>)
        requires
            self.wf(),
        ensures
            self.is_leaf() ==> r is None,
            !self.is_leaf() ==> r == Some(&self.child(q)),
    {
        match &self.children {
            Some(cs) => {
                proof {
                    self.lemma_child_facts(q);
                }
                Some(&cs[q.to_usize()])
            },
            None => None,
        }
    }

    /// A lazy traversal of every element: each node's own elements, then its
    /// children in the order TL, TR, BR, BL.
    pub fn iter(&self) -> (r: Items<'_, T>)
        requires
            self.wf(),
        ensures
            r.valid(),
            r.remaining() == self.contents(),
    {
        let mut pending: Vec<&QuadTree<T>> = Vec::new();
        pending.push(self);
        let r = Items { pending, element_index: 0 };
        assert(r.pending@.drop_last() =~= Seq::<&QuadTree<T>>::empty());
        assert(pending_contents(r.pending@) == self.contents() + pending_contents(
            Seq::<&QuadTree<T>>::empty(),
        ));
        assert(r.remaining() =~= self.contents());
        r
    }

    fn near_into(&self, b: &Bounds, out: &mut Vec<T>)
        requires
            self.wf(),
        ensures
            final(out)@ == old(out)@ + self.near(*b),
        decreases self,
    {
        self.push_local(out);
        match &self.children {
            Some(cs) => {
                match self.bounds.quadrant(b) {
                    Some(q) => {
                        let i = q.to_usize();
                        proof {
                            self.lemma_child_facts(q);
                        }
                        cs[i].near_into(b, out);
                    },
                    None => {
                        let ghost start = out@;
                        if cs[0].bounds.touches(b) {
                            cs[0].collect_into(out);
                        }
                        if cs[1].bounds.touches(b) {
                            cs[1].collect_into(out);
                        }
                        if cs[2].bounds.touches(b) {
                            cs[2].collect_into(out);
                        }
                        if cs[3].bounds.touches(b) {
                            cs[3].collect_into(out);
                        }
                        assert(out@ =~= start + self.overlapping(*b));
                    },
                }
            },
            None => {},
        }
    }

    /// The elements near `element`, which need not be in the tree.
    pub fn query(&self, element: &T) -> (r: QueryItems<T>)
        requires
            self.wf(),
        ensures
            r.valid(),
            r.remaining() == self.near(element.extent()),
    {
        let b = element.bounds();
        let mut out: Vec<T> = Vec::new();
        self.near_into(&b, &mut out);
        let r = QueryItems { elements: out, index: 0 };
        assert(r.remaining() =~= self.near(element.extent()));
        r
    }
}


/// `trees` are the states of one tree as `es` are inserted into it one by one.
pub open spec fn insertions<T: Bounded + Copy>(trees: Seq<QuadTree<T>>, es: Seq<T>) -> bool {
    &&& trees.len() == es.len() + 1
    &&& trees[0].wf()
    &&& forall|i: int| 0 <= i < es.len() ==> #[trigger] trees[i].insertion(trees[i + 1], es[i])
}

/// An empty tree that has not been split.
pub open spec fn fresh<T: Bounded + Copy>(t: QuadTree<T>) -> bool {
    &&& t.wf()
    &&& t.is_leaf()
    &&& t.contents() == Seq::<T>::empty()
}

/// Inserting at most `capacity` elements into a fresh tree never splits it:
/// after each insertion it is a leaf holding exactly the elements so far, in
/// the order they came.
pub proof fn lemma_no_split_within_capacity<T: Bounded + Copy>(
    trees: Seq<QuadTree<T>>,
    es: Seq<T>,
)
    requires
        insertions(trees, es),
        fresh(trees[0]),
        es.len() <= trees[0].limit(),
    ensures
        forall|i: int|
            0 <= i < trees.len() ==> {
                &&& (#[trigger] trees[i]).is_leaf()
                &&& trees[i].local() == es.take(i)
                &&& trees[i].contents() == es.take(i)
                &&& trees[i].same_frame(trees[0])
            },
        trees.last().contents() == es,
{
    assert forall|i: int| 0 <= i < trees.len() implies {
        &&& (#[trigger] trees[i]).is_leaf()
        &&& trees[i].local() == es.take(i)
        &&& trees[i].contents() == es.take(i)
        &&& trees[i].same_frame(trees[0])
    } by {
        lemma_leaf_prefix(trees, es, i);
    }
    assert(es.take(es.len() as int) == es);
}

proof fn lemma_leaf_prefix<T: Bounded + Copy>(trees: Seq<QuadTree<T>>, es: Seq<T>, k: int)
    requires
        insertions(trees, es),
        fresh(trees[0]),
        es.len() <= trees[0].limit(),
        0 <= k < trees.len(),
    ensures
        trees[k].is_leaf(),
        trees[k].local() == es.take(k),
        trees[k].contents() == es.take(k),
        trees[k].same_frame(trees[0]),
    decreases k,
{
    if k == 0 {
        assert(es.take(0) == Seq::<T>::empty());
    } else {
        lemma_leaf_prefix(trees, es, k - 1);
        assert(trees[k - 1].insertion(trees[(k - 1) + 1], es[k - 1]));
        assert(es.take(k) == es.take(k - 1).push(es[k - 1]));
    }
}

/// Inserting `capacity + 1` elements into a fresh tree below its maximum
/// depth, each strictly inside some quadrant and at most `capacity` of them in
/// any one quadrant, splits the tree exactly once: the root keeps no element,
/// each of its four children is a leaf holding the elements of its quadrant in
/// the order they came, and every inserted element is still in the tree.
pub proof fn lemma_one_split_past_capacity<T: Bounded + Copy>(
    trees: Seq<QuadTree<T>>,
    es: Seq<T>,
)
    requires
        insertions(trees, es),
        fresh(trees[0]),
        trees[0].level() < trees[0].depth_limit(),
        es.len() == trees[0].limit() + 1,
        forall|i: int| 0 <= i < es.len() ==> (#[trigger] trees[0].region().quadrant_of(es[i].extent())) is Some,
        forall|q: Quadrant| #[trigger] headed(trees[0].region(), es, Some(q)).len() <= trees[0].limit(),
    ensures
        !trees.last().is_leaf(),
        trees.last().local() == Seq::<T>::empty(),
        forall|q: Quadrant|
            (#[trigger] trees.last().child(q)).is_leaf() && trees.last().child(q).local() == headed(
                trees[0].region(),
                es,
                Some(q),
            ),
        trees.last().contents().to_multiset() == es.to_multiset(),
{
    let n = trees[0].limit() as int;
    let b = trees[0].region();
    let prefix = trees.take(n + 1);
    assert(insertions(prefix, es.take(n))) by {
        assert forall|i: int| 0 <= i < es.take(n).len() implies #[trigger] prefix[i].insertion(
            prefix[i + 1],
            es.take(n)[i],
        ) by {
            assert(trees[i].insertion(trees[i + 1], es[i]));
        }
    }
    lemma_no_split_within_capacity(prefix, es.take(n));
    let before = trees[n];
    assert(before == prefix[n]);
    assert(trees[n].insertion(trees[n + 1], es[n]));
    assert(es.take(n).push(es[n]) == es);
    assert(trees.last() == trees[n + 1]);
    let none = headed(b, es, None);
    if none.len() > 0 {
        es.lemma_filter_pred(lands_in(b, None), 0);
        es.lemma_filter_contains_rev(lands_in(b, None), none[0]);
        let j = choose|j: int| 0 <= j < es.len() && es[j] == none[0];
        assert(trees[0].region().quadrant_of(es[j].extent()) is Some);
    }
    assert(none =~= Seq::<T>::empty());
    assert forall|q: Quadrant|
        (#[trigger] trees.last().child(q)).is_leaf() && trees.last().child(q).local() == headed(
            b,
            es,
            Some(q),
        ) by {
        assert(trees.last().child_from(es, q));
    }
}

/// An element that strictly fits none of a node's quadrants stays at that
/// node: inserting it leaves it there, and any later insertion, splits
/// included, keeps it there.
pub proof fn lemma_straddler_stays<T: Bounded + Copy>(
    before: QuadTree<T>,
    after: QuadTree<T>,
    e: T,
    x: T,
)
    requires
        before.wf(),
        before.insertion(after, e),
        before.region().quadrant_of(x.extent()) is None,
        x == e || before.local().contains(x),
    ensures
        after.local().contains(x),
{
    let s = before.local().push(e);
    if x == e {
        assert(s[s.len() - 1] == x);
    } else {
        let i = choose|i: int| 0 <= i < before.local().len() && before.local()[i] == x;
        assert(s[i] == x);
    }
    let j = choose|j: int| 0 <= j < s.len() && s[j] == x;
    if before.is_leaf() {
        if before.local().len() >= before.limit() && before.level() < before.depth_limit() {
            s.lemma_filter_contains(lands_in(before.region(), None), j);
        }
    }
}

} // verus!
