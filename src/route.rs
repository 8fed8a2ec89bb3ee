use vstd::prelude::*;

use vstd::std_specs::iter::IteratorSpec;

use crate::point::Point;

verus! {

/// A candidate capture chain: the starting square followed by the landing
/// square of each successive jump.
#[derive(Debug)]
pub struct Route {
    pub points: Vec<Point>,
}

impl View for Route {
    type V = Seq<Point>;

    open spec fn view(&self) -> Seq<Point> {
        self.points@
    }
}

/// A copy of the points.
pub(crate) fn copy_points(points: &Vec<Point>) -> (r: Vec<Point>)
    ensures
        r@ == points@,
{
    let mut r: Vec<Point> = Vec::new();
    let mut i: usize = 0;
    while i < points.len()
        invariant
            i <= points@.len(),
            r@ == points@.subrange(0, i as int),
        decreases points@.len() - i,
    {
        r.push(points[i]);
        i += 1;
    }
    assert(r@ =~= points@);
    r
}

impl Route {
    pub fn new() -> (r: Route)
        ensures
            r@ == Seq::<Point>::empty(),
    {
        Route { points: Vec::new() }
    }

    /// A copy of the route with `point` appended.
    pub fn add_point(&self, point: Point) -> (r: Route)
        ensures
            r@ == self@.push(point),
    {
        let mut points = copy_points(&self.points);
        points.push(point);
        Route { points }
    }

    pub fn first(&self) -> (r: Option<&Point>)
        ensures
            r is None <==> self@.len() == 0,
            r matches Some(p) ==> *p == self@[0],
    {
        if self.points.len() == 0 {
            None
        } else {
            Some(&self.points[0])
        }
    }

    /// The route without its starting square.
    pub fn get_after_last(&self) -> (r: Route)
        ensures
            r@ == (if self@.len() == 0 {
                self@
            } else {
                self@.drop_first()
            }),
    {
        if self.points.len() == 0 {
            return Route { points: Vec::new() };
        }
        let mut points: Vec<Point> = Vec::new();
        let mut i: usize = 1;
        assert(points@ =~= self@.subrange(1, 1));
        while i < self.points.len()
            invariant
                1 <= i <= self@.len(),
                points@ == self@.subrange(1, i as int),
            decreases self@.len() - i,
        {
            points.push(self.points[i]);
            assert(points@ =~= self@.subrange(1, i + 1));
            i += 1;
        }
        let r = Route { points };
        assert(r@ =~= self@.drop_first());
        r
    }

    pub fn last(&self) -> (r: Option<&Point>)
        ensures
            r is None <==> self@.len() == 0,
            r matches Some(p) ==> *p == self@.last(),
    {
        if self.points.len() == 0 {
            None
        } else {
            Some(&self.points[self.points.len() - 1])
        }
    }

    pub fn contains(&self, point: &Point) -> (r: bool)
        ensures
            r == self@.contains(*point),
    {
        let mut i: usize = 0;
        while i < self.points.len()
            invariant
                i <= self@.len(),
                forall|j: int| 0 <= j < i ==> self@[j] != *point,
            decreases self@.len() - i,
        {
            if self.points[i] == *point {
                return true;
            }
            i += 1;
        }
        false
    }

    pub fn is_empty(&self) -> (r: bool)
        ensures
            r == (self@.len() == 0),
    {
        self.points.len() == 0
    }

    /// The points in order.
    pub fn iter(&self) -> (r: std::slice::Iter<'_, Point>)
        ensures
            r.remaining().len() == self@.len(),
            forall|i: int| 0 <= i < self@.len() ==> *#[trigger] r.remaining()[i] == self@[i],
    {
        self.points.as_slice().iter()
    }
}

} // verus!
