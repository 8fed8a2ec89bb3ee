use vstd::prelude::*;

verus! {

/// A square of the grid: `x` is the column, `y` the row.
#[derive(Debug, Clone, Copy, PartialEq, Eq, Structural)]
pub struct Point {
    pub x: i8,
    pub y: i8,
}

/// The sign of an integer: -1, 0 or 1.
pub open spec fn sign(v: int) -> int {
    if v > 0 {
        1
    } else if v < 0 {
        -1
    } else {
        0
    }
}

/// Integer division rounded toward zero, as Rust's `/` on signed integers.
pub open spec fn div_toward_zero(a: int, b: int) -> int {
    let q = abs(a) / abs(b);
    if (a >= 0) == (b >= 0) {
        q
    } else {
        -q
    }
}

/// The absolute value of an integer.
pub open spec fn abs(v: int) -> int {
    if v >= 0 {
        v
    } else {
        -v
    }
}

impl Point {
    pub fn new(x: i8, y: i8) -> (r: Point)
        ensures
            r.x == x,
            r.y == y,
    {
        Point { x, y }
    }

    pub fn subtract(&self, other: &Point) -> (r: Point)
        requires
            i8::MIN <= self.x - other.x <= i8::MAX,
            i8::MIN <= self.y - other.y <= i8::MAX,
        ensures
            r.x == self.x - other.x,
            r.y == self.y - other.y,
    {
        Point::new(self.x - other.x, self.y - other.y)
    }

    pub fn add(&self, other: &Point) -> (r: Point)
        requires
            i8::MIN <= self.x + other.x <= i8::MAX,
            i8::MIN <= self.y + other.y <= i8::MAX,
        ensures
            r.x == self.x + other.x,
            r.y == self.y + other.y,
    {
        Point::new(self.x + other.x, self.y + other.y)
    }

    pub fn divide(&self, divider: i8) -> (r: Point)
        requires
            divider != 0,
            divider == -1 ==> self.x != i8::MIN && self.y != i8::MIN,
        ensures
            r.x == div_toward_zero(self.x as int, divider as int),
            r.y == div_toward_zero(self.y as int, divider as int),
    {
        Point::new(div_i8(self.x, divider), div_i8(self.y, divider))
    }

    /// Whether the point lies on the standard eight by eight grid.
    pub fn valid(&self) -> (r: bool)
        ensures
            r == (0 <= self.x < 8 && 0 <= self.y < 8),
    {
        self.x >= 0 && self.y >= 0 && self.x < 8 && self.y < 8
    }

    pub fn signum(&self) -> (r: Point)
        ensures
            r.x == sign(self.x as int),
            r.y == sign(self.y as int),
    {
        Point::new(signum_i8(self.x), signum_i8(self.y))
    }
}

fn abs_i8(v: i8) -> (r: u8)
    ensures
        r == abs(v as int),
{
    if v >= 0 {
        v as u8
    } else {
        (-(v as i16)) as u8
    }
}

fn div_i8(a: i8, b: i8) -> (r: i8)
    requires
        b != 0,
        b == -1 ==> a != i8::MIN,
    ensures
        r == div_toward_zero(a as int, b as int),
{
    let q: u8 = abs_i8(a) / abs_i8(b);
    proof {
        assert(q <= abs(a as int)) by (nonlinear_arith)
            requires
                q == abs(a as int) / abs(b as int),
                abs(b as int) >= 1,
                abs(a as int) >= 0,
        ;
        if abs(b as int) >= 2 {
            assert(q <= abs(a as int) / 2) by (nonlinear_arith)
                requires
                    q == abs(a as int) / abs(b as int),
                    abs(b as int) >= 2,
                    abs(a as int) >= 0,
            ;
        }
    }
    if (a >= 0) == (b >= 0) {
        q as i8
    } else {
        -(q as i16) as i8
    }
}

fn signum_i8(v: i8) -> (r: i8)
    ensures
        r == sign(v as int),
{
    if v > 0 {
        1
    } else if v < 0 {
        -1
    } else {
        0
    }
}

} // verus!
