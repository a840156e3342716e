use std::cmp::Ordering;
use vstd::prelude::*;

verus! {

/// A 2D vector.
#[derive(Clone, Copy, Debug, Default, PartialEq, Eq, Structural, Hash, PartialOrd, Ord)]
pub struct Vector2D {
    pub x: i64,
    pub y: i64,
}

/// A 3D vector.
#[derive(Clone, Copy, Debug, Default, PartialEq, Eq, Structural, Hash, PartialOrd, Ord)]
pub struct Vector3D {
    pub x: i64,
    pub y: i64,
    pub z: i64,
}

/// An ordered sequence of 2D points.
#[derive(Clone, Debug, Default, PartialEq, Eq, Hash, PartialOrd, Ord)]
pub struct Points2D(pub Vec<Vector2D>);

/// A 2D polygon. Its points should be listed in clockwise order; that is the
/// caller's responsibility and is not checked.
#[derive(Clone, Debug, Default, PartialEq, Eq, Hash, PartialOrd, Ord)]
pub struct Polygon2D {
    pub points: Points2D,
}

/// A polygon base at z = 0 and a height, making a right prism.
#[derive(Clone, Debug, Default, PartialEq, Eq, Hash, PartialOrd, Ord)]
pub struct BaseHeight {
    pub base: Polygon2D,
    pub height: u64,
}

/// A 3D shape. New representations are added as new variants.
#[derive(Clone, Debug, PartialEq, Eq, Hash, PartialOrd, Ord)]
pub enum Shape3D {
    BaseHeight(BaseHeight),
}

/// A 3D shape as handed to callers of the library's bindings.
#[derive(Clone, Debug, PartialEq, Eq, Hash, PartialOrd, Ord)]
pub struct PyShape3D(pub Shape3D);

/// The mathematical value of a prism: its base's points and its height.
pub struct PrismModel {
    pub base: Seq<Vector2D>,
    pub height: u64,
}

/// The mathematical value of a 3D shape.
pub enum SolidModel {
    BaseHeight(PrismModel),
}

impl View for Vector2D {
    type V = Vector2D;

    open spec fn view(&self) -> Vector2D {
        *self
    }
}

impl View for Vector3D {
    type V = Vector3D;

    open spec fn view(&self) -> Vector3D {
        *self
    }
}

impl View for Points2D {
    type V = Seq<Vector2D>;

    open spec fn view(&self) -> Seq<Vector2D> {
        self.0@
    }
}

impl View for Polygon2D {
    type V = Seq<Vector2D>;

    open spec fn view(&self) -> Seq<Vector2D> {
        self.points@
    }
}

impl View for BaseHeight {
    type V = PrismModel;

    open spec fn view(&self) -> PrismModel {
        PrismModel { base: self.base@, height: self.height }
    }
}

impl View for Shape3D {
    type V = SolidModel;

    open spec fn view(&self) -> SolidModel {
        match self {
            Shape3D::BaseHeight(bh) => SolidModel::BaseHeight(bh@),
        }
    }
}

impl View for PyShape3D {
    type V = SolidModel;

    open spec fn view(&self) -> SolidModel {
        self.0@
    }
}

// ---- total order ----

pub open spec fn int_order(a: int, b: int) -> Ordering {
    if a < b {
        Ordering::Less
    } else if a > b {
        Ordering::Greater
    } else {
        Ordering::Equal
    }
}

/// Compares by the first component, and by the second where the first is equal.
pub open spec fn then_order(first: Ordering, second: Ordering) -> Ordering {
    match first {
        Ordering::Equal => second,
        _ => first,
    }
}

pub open spec fn vector2d_order(a: Vector2D, b: Vector2D) -> Ordering {
    then_order(int_order(a.x as int, b.x as int), int_order(a.y as int, b.y as int))
}

pub open spec fn vector3d_order(a: Vector3D, b: Vector3D) -> Ordering {
    then_order(
        int_order(a.x as int, b.x as int),
        then_order(int_order(a.y as int, b.y as int), int_order(a.z as int, b.z as int)),
    )
}

/// Lexicographic order of point sequences: a proper prefix comes first.
pub open spec fn points_order(a: Seq<Vector2D>, b: Seq<Vector2D>) -> Ordering
    decreases a.len(),
{
    if a.len() == 0 {
        if b.len() == 0 {
            Ordering::Equal
        } else {
            Ordering::Less
        }
    } else if b.len() == 0 {
        Ordering::Greater
    } else {
        then_order(vector2d_order(a[0], b[0]), points_order(a.drop_first(), b.drop_first()))
    }
}

pub open spec fn prism_order(a: PrismModel, b: PrismModel) -> Ordering {
    then_order(points_order(a.base, b.base), int_order(a.height as int, b.height as int))
}

/// Shapes compare by variant first, then by payload.
pub open spec fn solid_order(a: SolidModel, b: SolidModel) -> Ordering {
    match (a, b) {
        (SolidModel::BaseHeight(p), SolidModel::BaseHeight(q)) => prism_order(p, q),
    }
}

pub proof fn lemma_points_order_equal(a: Seq<Vector2D>, b: Seq<Vector2D>)
    ensures
        points_order(a, b) == Ordering::Equal <==> a == b,
    decreases a.len(),
{
    if a.len() == 0 && b.len() == 0 {
        assert(a =~= b);
    }
    if a.len() > 0 && b.len() > 0 {
        lemma_points_order_equal(a.drop_first(), b.drop_first());
        if a[0] == b[0] && a.drop_first() == b.drop_first() {
            assert(a =~= seq![a[0]] + a.drop_first());
            assert(b =~= seq![b[0]] + b.drop_first());
        }
        if a == b {
            assert(a.drop_first() == b.drop_first());
        }
    }
}

fn cmp_i64(a: i64, b: i64) -> (r: Ordering)
    ensures
        r == int_order(a as int, b as int),
{
    if a < b {
        Ordering::Less
    } else if a > b {
        Ordering::Greater
    } else {
        Ordering::Equal
    }
}

fn cmp_u64(a: u64, b: u64) -> (r: Ordering)
    ensures
        r == int_order(a as int, b as int),
{
    if a < b {
        Ordering::Less
    } else if a > b {
        Ordering::Greater
    } else {
        Ordering::Equal
    }
}

fn is_equal(o: Ordering) -> (r: bool)
    ensures
        r == (o == Ordering::Equal),
{
    match o {
        Ordering::Equal => true,
        _ => false,
    }
}

impl Vector2D {
    pub fn new(x: i64, y: i64) -> (r: Vector2D)
        ensures
            r.x == x && r.y == y,
    {
        Vector2D { x, y }
    }

    pub fn compare(&self, other: &Vector2D) -> (r: Ordering)
        ensures
            r == vector2d_order(*self, *other),
    {
        let cx = cmp_i64(self.x, other.x);
        if is_equal(cx) {
            cmp_i64(self.y, other.y)
        } else {
            cx
        }
    }

    pub fn equals(&self, other: &Vector2D) -> (r: bool)
        ensures
            r == (*self == *other),
            r == (vector2d_order(*self, *other) == Ordering::Equal),
    {
        is_equal(self.compare(other))
    }
}

impl Vector3D {
    pub fn new(x: i64, y: i64, z: i64) -> (r: Vector3D)
        ensures
            r.x == x && r.y == y && r.z == z,
    {
        Vector3D { x, y, z }
    }

    pub fn compare(&self, other: &Vector3D) -> (r: Ordering)
        ensures
            r == vector3d_order(*self, *other),
    {
        let cx = cmp_i64(self.x, other.x);
        if !is_equal(cx) {
            return cx;
        }
        let cy = cmp_i64(self.y, other.y);
        if !is_equal(cy) {
            return cy;
        }
        cmp_i64(self.z, other.z)
    }

    pub fn equals(&self, other: &Vector3D) -> (r: bool)
        ensures
            r == (*self == *other),
            r == (vector3d_order(*self, *other) == Ordering::Equal),
    {
        is_equal(self.compare(other))
    }
}

impl Points2D {
    pub fn new(points: Vec<Vector2D>) -> (r: Points2D)
        ensures
            r@ == points@,
    {
        Points2D(points)
    }

    pub fn len(&self) -> (r: usize)
        ensures
            r == self@.len(),
    {
        self.0.len()
    }

    pub fn get(&self, i: usize) -> (r: Vector2D)
        requires
            i < self@.len(),
        ensures
            r == self@[i as int],
    {
        self.0[i]
    }

    pub fn compare(&self, other: &Points2D) -> (r: Ordering)
        ensures
            r == points_order(self@, other@),
    {
        let a = &self.0;
        let b = &other.0;
        let mut i: usize = 0;
        proof {
            assert(a@.subrange(0, a@.len() as int) =~= a@);
            assert(b@.subrange(0, b@.len() as int) =~= b@);
        }
        while i < a.len() && i < b.len()
            invariant
                a@ == self@,
                b@ == other@,
                i <= a@.len(),
                i <= b@.len(),
                points_order(a@, b@) == points_order(
                    a@.subrange(i as int, a@.len() as int),
                    b@.subrange(i as int, b@.len() as int),
                ),
            decreases a@.len() - i,
        {
            let c = a[i].compare(&b[i]);
            proof {
                let sa = a@.subrange(i as int, a@.len() as int);
                let sb = b@.subrange(i as int, b@.len() as int);
                assert(sa.drop_first() =~= a@.subrange(i + 1, a@.len() as int));
                assert(sb.drop_first() =~= b@.subrange(i + 1, b@.len() as int));
                assert(sa[0] == a@[i as int]);
                assert(sb[0] == b@[i as int]);
                assert(sa.len() > 0 && sb.len() > 0);
                assert(points_order(sa, sb) == then_order(
                    vector2d_order(sa[0], sb[0]),
                    points_order(sa.drop_first(), sb.drop_first()),
                ));
            }
            if !is_equal(c) {
                return c;
            }
            i = i + 1;
        }
        if i < a.len() {
            Ordering::Greater
        } else if i < b.len() {
            Ordering::Less
        } else {
            Ordering::Equal
        }
    }

    pub fn equals(&self, other: &Points2D) -> (r: bool)
        ensures
            r == (self@ == other@),
            r == (points_order(self@, other@) == Ordering::Equal),
    {
        proof {
            lemma_points_order_equal(self@, other@);
        }
        is_equal(self.compare(other))
    }
}

impl Polygon2D {
    pub fn new(points: Points2D) -> (r: Polygon2D)
        ensures
            r@ == points@,
    {
        Polygon2D { points }
    }

    pub fn compare(&self, other: &Polygon2D) -> (r: Ordering)
        ensures
            r == points_order(self@, other@),
    {
        self.points.compare(&other.points)
    }

    pub fn equals(&self, other: &Polygon2D) -> (r: bool)
        ensures
            r == (self@ == other@),
            r == (points_order(self@, other@) == Ordering::Equal),
    {
        self.points.equals(&other.points)
    }
}

impl BaseHeight {
    pub fn new(base: Polygon2D, height: u64) -> (r: BaseHeight)
        ensures
            r@ == (PrismModel { base: base@, height }),
    {
        BaseHeight { base, height }
    }

    pub fn compare(&self, other: &BaseHeight) -> (r: Ordering)
        ensures
            r == prism_order(self@, other@),
    {
        let c = self.base.compare(&other.base);
        if is_equal(c) {
            cmp_u64(self.height, other.height)
        } else {
            c
        }
    }

    pub fn equals(&self, other: &BaseHeight) -> (r: bool)
        ensures
            r == (self@ == other@),
            r == (prism_order(self@, other@) == Ordering::Equal),
    {
        proof {
            lemma_points_order_equal(self@.base, other@.base);
        }
        is_equal(self.compare(other))
    }
}

impl Shape3D {
    pub fn compare(&self, other: &Shape3D) -> (r: Ordering)
        ensures
            r == solid_order(self@, other@),
    {
        match (self, other) {
            (Shape3D::BaseHeight(p), Shape3D::BaseHeight(q)) => p.compare(q),
        }
    }

    pub fn equals(&self, other: &Shape3D) -> (r: bool)
        ensures
            r == (self@ == other@),
            r == (solid_order(self@, other@) == Ordering::Equal),
    {
        match (self, other) {
            (Shape3D::BaseHeight(p), Shape3D::BaseHeight(q)) => p.equals(q),
        }
    }
}

impl PyShape3D {
    pub fn new(shape: Shape3D) -> (r: PyShape3D)
        ensures
            r@ == shape@,
    {
        PyShape3D(shape)
    }

    pub fn compare(&self, other: &PyShape3D) -> (r: Ordering)
        ensures
            r == solid_order(self@, other@),
    {
        self.0.compare(&other.0)
    }

    pub fn equals(&self, other: &PyShape3D) -> (r: bool)
        ensures
            r == (self@ == other@),
            r == (solid_order(self@, other@) == Ordering::Equal),
    {
        self.0.equals(&other.0)
    }
}

} // verus!
