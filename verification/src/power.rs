use vstd::prelude::*;
use crate::point::Point;
use crate::triangle::{
    collinear, determinant, lemma_circumcenter_bounded, weighted_x, weighted_y, Triangle,
};

verus! {

/// The function `a * (x * x + y * y) + b * x + c * y + d` of the plane. With
/// `a` not zero its zeros are a circle, with `a` zero a line.
pub struct Form {
    pub a: int,
    pub b: int,
    pub c: int,
    pub d: int,
}

impl Form {
    /// The value at the point `(x, y)`, whose squared norm is `n`.
    pub open spec fn value(self, x: int, y: int, n: int) -> int {
        self.a * n + self.b * x + self.c * y + self.d
    }

    /// The value at `q`.
    pub open spec fn at(self, q: Point) -> int {
        self.value(q.x as int, q.y as int, q.squared_norm())
    }

    /// The form multiplied by `k`.
    pub open spec fn times(self, k: int) -> Form {
        Form { a: k * self.a, b: k * self.b, c: k * self.c, d: k * self.d }
    }

    /// The sum of two forms.
    pub open spec fn plus(self, other: Form) -> Form {
        Form {
            a: self.a + other.a,
            b: self.b + other.b,
            c: self.c + other.c,
            d: self.d + other.d,
        }
    }
}

/// A multiple of a form takes the multiples of its values.
pub proof fn lemma_times(f: Form, k: int, x: int, y: int, n: int)
    ensures
        f.times(k).value(x, y, n) == k * f.value(x, y, n),
{
    assert((k * f.a) * n == k * (f.a * n)) by (nonlinear_arith);
    assert((k * f.b) * x == k * (f.b * x)) by (nonlinear_arith);
    assert((k * f.c) * y == k * (f.c * y)) by (nonlinear_arith);
    assert(k * (f.a * n + f.b * x + f.c * y + f.d) == k * (f.a * n) + k * (f.b * x) + k * (f.c
        * y) + k * f.d) by (nonlinear_arith);
}

/// A sum of forms takes the sums of their values.
pub proof fn lemma_plus(f: Form, g: Form, x: int, y: int, n: int)
    ensures
        f.plus(g).value(x, y, n) == f.value(x, y, n) + g.value(x, y, n),
{
    assert((f.a + g.a) * n == f.a * n + g.a * n) by (nonlinear_arith);
    assert((f.b + g.b) * x == f.b * x + g.b * x) by (nonlinear_arith);
    assert((f.c + g.c) * y == f.c * y + g.c * y) by (nonlinear_arith);
}

/// A form without a quadratic part that vanishes at three points not on one
/// line vanishes everywhere.
pub proof fn lemma_line_through_three(
    f: Form,
    ax: int,
    ay: int,
    bx: int,
    by: int,
    px: int,
    py: int,
    x: int,
    y: int,
)
    requires
        f.a == 0,
        f.b * ax + f.c * ay + f.d == 0,
        f.b * bx + f.c * by + f.d == 0,
        f.b * px + f.c * py + f.d == 0,
        (bx - ax) * (py - ay) - (px - ax) * (by - ay) != 0,
    ensures
        f.b * x + f.c * y + f.d == 0,
{
    let det = (bx - ax) * (py - ay) - (px - ax) * (by - ay);
    let u1 = bx - ax;
    let v1 = by - ay;
    let u2 = px - ax;
    let v2 = py - ay;
    assert(f.b * u1 + f.c * v1 == 0) by (nonlinear_arith)
        requires
            f.b * ax + f.c * ay + f.d == 0,
            f.b * bx + f.c * by + f.d == 0,
            u1 == bx - ax,
            v1 == by - ay,
    ;
    assert(f.b * u2 + f.c * v2 == 0) by (nonlinear_arith)
        requires
            f.b * ax + f.c * ay + f.d == 0,
            f.b * px + f.c * py + f.d == 0,
            u2 == px - ax,
            v2 == py - ay,
    ;
    assert(f.b * (u1 * v2 - u2 * v1) == 0) by (nonlinear_arith)
        requires
            f.b * u1 + f.c * v1 == 0,
            f.b * u2 + f.c * v2 == 0,
    ;
    assert(f.c * (u1 * v2 - u2 * v1) == 0) by (nonlinear_arith)
        requires
            f.b * u1 + f.c * v1 == 0,
            f.b * u2 + f.c * v2 == 0,
    ;
    assert(f.b == 0) by (nonlinear_arith)
        requires
            f.b * det == 0,
            det != 0,
    ;
    assert(f.c == 0) by (nonlinear_arith)
        requires
            f.c * det == 0,
            det != 0,
    ;
    assert(f.b * ax == 0 && f.c * ay == 0 && f.b * x == 0 && f.c * y == 0) by (nonlinear_arith)
        requires
            f.b == 0,
            f.c == 0,
    ;
}

/// The values of `k1 * f + k2 * g`.
proof fn lemma_combination(f: Form, k1: int, g: Form, k2: int, q: Point)
    ensures
        f.times(k1).plus(g.times(k2)).at(q) == k1 * f.at(q) + k2 * g.at(q),
{
    lemma_plus(f.times(k1), g.times(k2), q.x as int, q.y as int, q.squared_norm());
    lemma_times(f, k1, q.x as int, q.y as int, q.squared_norm());
    lemma_times(g, k2, q.x as int, q.y as int, q.squared_norm());
}

/// Circles through two points: let the circles of `h1`, `h2` and `hn` all pass
/// through `a` and `b`, and let the circle of `hn` pass through `p` as well,
/// which lies inside the first circle or on it and outside the second. Then
/// the circle of `hn` lies within the union of the other two: a point `q`
/// that is outside both, or on them, is outside the circle of `hn`, or on it.
/// The second circle may be a line, with `p` and `q` on the same side.
pub proof fn lemma_pencil(h1: Form, h2: Form, hn: Form, a: Point, b: Point, p: Point, q: Point)
    requires
        h1.at(a) == 0,
        h1.at(b) == 0,
        h2.at(a) == 0,
        h2.at(b) == 0,
        hn.at(a) == 0,
        hn.at(b) == 0,
        hn.at(p) == 0,
        h1.a > 0,
        h2.a >= 0,
        hn.a > 0,
        h1.at(p) <= 0,
        h2.at(p) > 0,
        !collinear(a, b, p),
        h1.at(q) >= 0,
        h2.at(q) >= 0,
    ensures
        hn.at(q) >= 0,
{
    let l1 = h2.at(p);
    let l2 = -h1.at(p);
    let g = h1.times(l1).plus(h2.times(l2));
    lemma_combination(h1, l1, h2, l2, a);
    lemma_combination(h1, l1, h2, l2, b);
    lemma_combination(h1, l1, h2, l2, p);
    lemma_combination(h1, l1, h2, l2, q);
    assert(g.at(a) == 0) by (nonlinear_arith)
        requires
            g.at(a) == l1 * h1.at(a) + l2 * h2.at(a),
            h1.at(a) == 0,
            h2.at(a) == 0,
    ;
    assert(g.at(b) == 0) by (nonlinear_arith)
        requires
            g.at(b) == l1 * h1.at(b) + l2 * h2.at(b),
            h1.at(b) == 0,
            h2.at(b) == 0,
    ;
    assert(g.at(p) == 0) by (nonlinear_arith)
        requires
            g.at(p) == l1 * h1.at(p) + l2 * h2.at(p),
            l1 == h2.at(p),
            l2 == -h1.at(p),
    ;
    assert(g.at(q) >= 0) by (nonlinear_arith)
        requires
            g.at(q) == l1 * h1.at(q) + l2 * h2.at(q),
            l1 > 0,
            l2 >= 0,
            h1.at(q) >= 0,
            h2.at(q) >= 0,
    ;
    assert(g.a > 0) by (nonlinear_arith)
        requires
            g.a == l1 * h1.a + l2 * h2.a,
            l1 > 0,
            l2 >= 0,
            h1.a > 0,
            h2.a >= 0,
    ;
    let dform = hn.times(g.a).plus(g.times(-hn.a));
    lemma_combination(hn, g.a, g, -hn.a, a);
    lemma_combination(hn, g.a, g, -hn.a, b);
    lemma_combination(hn, g.a, g, -hn.a, p);
    lemma_combination(hn, g.a, g, -hn.a, q);
    assert(dform.a == 0) by (nonlinear_arith)
        requires
            dform.a == g.a * hn.a + (-hn.a) * g.a,
    ;
    assert(dform.at(a) == 0) by (nonlinear_arith)
        requires
            dform.at(a) == g.a * hn.at(a) + (-hn.a) * g.at(a),
            hn.at(a) == 0,
            g.at(a) == 0,
    ;
    assert(dform.at(b) == 0) by (nonlinear_arith)
        requires
            dform.at(b) == g.a * hn.at(b) + (-hn.a) * g.at(b),
            hn.at(b) == 0,
            g.at(b) == 0,
    ;
    assert(dform.at(p) == 0) by (nonlinear_arith)
        requires
            dform.at(p) == g.a * hn.at(p) + (-hn.a) * g.at(p),
            hn.at(p) == 0,
            g.at(p) == 0,
    ;
    assert(dform.a * a.squared_norm() == 0 && dform.a * b.squared_norm() == 0 && dform.a
        * p.squared_norm() == 0 && dform.a * q.squared_norm() == 0) by (nonlinear_arith)
        requires
            dform.a == 0,
    ;
    assert((b.x - a.x) * (p.y - a.y) - (p.x - a.x) * (b.y - a.y) == -determinant(a, b, p))
        by (nonlinear_arith)
        requires
            determinant(a, b, p) == a.x * (p.y - b.y) + b.x * (a.y - p.y) + p.x * (b.y - a.y),
    ;
    lemma_line_through_three(
        dform,
        a.x as int,
        a.y as int,
        b.x as int,
        b.y as int,
        p.x as int,
        p.y as int,
        q.x as int,
        q.y as int,
    );
    assert(dform.at(q) == 0);
    assert(hn.at(q) >= 0) by (nonlinear_arith)
        requires
            g.a * hn.at(q) + (-hn.a) * g.at(q) == 0,
            g.a > 0,
            hn.a > 0,
            g.at(q) >= 0,
    ;
}

/// The form whose zeros are the circle about the rational point `(cx / w,
/// cy / w)` through `p1`, with `w` as its leading coefficient.
pub open spec fn form_about(cx: int, cy: int, w: int, p1: Point) -> Form {
    Form {
        a: w,
        b: -2 * cx,
        c: -2 * cy,
        d: -(w * p1.squared_norm() - 2 * cx * p1.x - 2 * cy * p1.y),
    }
}

/// The form of the circumcircle of `t`, with a positive leading coefficient.
/// Its value at a point has the sign of the point's power: negative inside the
/// circle, zero on it, positive outside.
pub open spec fn circle_of(t: Triangle) -> Form {
    let c = t.circumcenter;
    if c.w > 0 {
        form_about(c.x as int, c.y as int, c.w as int, t.p1)
    } else {
        form_about(c.x as int, c.y as int, c.w as int, t.p1).times(-1)
    }
}

/// The difference of two squared distances along one axis.
proof fn lemma_square_difference(w: int, q: int, x: int, c: int)
    ensures
        (w * q - c) * (w * q - c) - (w * x - c) * (w * x - c) == w * (w * (q * q - x * x) - 2 * c
            * (q - x)),
{
    let u = w * q;
    let v = w * x;
    assert((u - c) * (u - c) - (v - c) * (v - c) == (u - v) * (u + v - 2 * c))
        by (nonlinear_arith);
    assert(u - v == w * (q - x)) by (nonlinear_arith)
        requires
            u == w * q,
            v == w * x,
    ;
    assert(u + v == w * (q + x)) by (nonlinear_arith)
        requires
            u == w * q,
            v == w * x,
    ;
    let s = q - x;
    let t = w * (q + x) - 2 * c;
    assert((w * s) * t == w * (s * t)) by (nonlinear_arith);
    assert(s * t == w * (q * q - x * x) - 2 * c * (q - x)) by (nonlinear_arith)
        requires
            s == q - x,
            t == w * (q + x) - 2 * c,
    ;
}

/// The scaled power of `q` with respect to the circle about `(cx / w, cy / w)`
/// through `p1` is `w` times the value of the circle's form.
proof fn lemma_power_of_form(cx: int, cy: int, w: int, p1: Point, q: Point)
    ensures
        ((w * q.x - cx) * (w * q.x - cx) + (w * q.y - cy) * (w * q.y - cy)) - ((w * p1.x - cx) * (w
            * p1.x - cx) + (w * p1.y - cy) * (w * p1.y - cy)) == w * form_about(cx, cy, w, p1).at(
            q,
        ),
{
    lemma_square_difference(w, q.x as int, p1.x as int, cx);
    lemma_square_difference(w, q.y as int, p1.y as int, cy);
    let ex = w * (q.x * q.x - p1.x * p1.x) - 2 * cx * (q.x - p1.x);
    let ey = w * (q.y * q.y - p1.y * p1.y) - 2 * cy * (q.y - p1.y);
    assert(w * ex + w * ey == w * (ex + ey)) by (nonlinear_arith);
    let f = form_about(cx, cy, w, p1);
    assert(w * (q.x * q.x - p1.x * p1.x) + w * (q.y * q.y - p1.y * p1.y) == w * q.squared_norm()
        - w * p1.squared_norm()) by (nonlinear_arith)
        requires
            q.squared_norm() == q.x * q.x + q.y * q.y,
            p1.squared_norm() == p1.x * p1.x + p1.y * p1.y,
    ;
    assert(2 * cx * (q.x - p1.x) == 2 * cx * q.x - 2 * cx * p1.x) by (nonlinear_arith);
    assert(2 * cy * (q.y - p1.y) == 2 * cy * q.y - 2 * cy * p1.y) by (nonlinear_arith);
    assert((-2 * cx) * q.x == -(2 * cx * q.x)) by (nonlinear_arith);
    assert((-2 * cy) * q.y == -(2 * cy * q.y)) by (nonlinear_arith);
    assert(f.at(q) == ex + ey);
}

/// The power of `q` with respect to the circumcircle of `t`, in the units of
/// `circumradius`: negative inside the circle, zero on it, positive outside.
pub open spec fn power(t: Triangle, q: Point) -> int {
    t.circumcenter.scaled_squared_dist(q) - t.circumradius
}

/// The value of the form of a circumcircle has the sign of the power.
pub proof fn lemma_circle_sign(t: Triangle, q: Point)
    requires
        t.wf(),
    ensures
        circle_of(t).a > 0,
        power(t, q) < 0 <==> circle_of(t).at(q) < 0,
        power(t, q) == 0 <==> circle_of(t).at(q) == 0,
        power(t, q) > 0 <==> circle_of(t).at(q) > 0,
        t.encircles(q) <==> circle_of(t).at(q) <= 0,
{
    let c = t.circumcenter;
    lemma_circumcenter_bounded(t.p1, t.p2, t.p3);
    let f = form_about(c.x as int, c.y as int, c.w as int, t.p1);
    lemma_power_of_form(c.x as int, c.y as int, c.w as int, t.p1, q);
    assert(power(t, q) == c.w * f.at(q));
    assert(c.w != 0);
    if c.w > 0 {
        assert((power(t, q) < 0 <==> f.at(q) < 0) && (power(t, q) == 0 <==> f.at(q) == 0) && (
        power(t, q) > 0 <==> f.at(q) > 0)) by (nonlinear_arith)
            requires
                power(t, q) == c.w * f.at(q),
                c.w > 0,
        ;
    } else {
        let g = f.times(-1);
        lemma_times(f, -1, q.x as int, q.y as int, q.squared_norm());
        assert(g.at(q) == -f.at(q));
        assert((power(t, q) < 0 <==> g.at(q) < 0) && (power(t, q) == 0 <==> g.at(q) == 0) && (
        power(t, q) > 0 <==> g.at(q) > 0)) by (nonlinear_arith)
            requires
                power(t, q) == c.w * f.at(q),
                g.at(q) == -f.at(q),
                c.w < 0,
        ;
    }
}

/// Two sums of three products, multiplied and subtracted, sorted by their
/// first factors.
proof fn lemma_sort_products(
    n1: int,
    n2: int,
    n3: int,
    a1: int,
    a2: int,
    a3: int,
    b1: int,
    b2: int,
    b3: int,
    s: int,
    t: int,
)
    ensures
        (n1 * a1 + n2 * a2 + n3 * a3) * s - (n1 * b1 + n2 * b2 + n3 * b3) * t == n1 * (a1 * s - b1
            * t) + n2 * (a2 * s - b2 * t) + n3 * (a3 * s - b3 * t),
{
    assert((n1 * a1 + n2 * a2 + n3 * a3) * s == (n1 * a1) * s + (n2 * a2) * s + (n3 * a3) * s)
        by (nonlinear_arith);
    assert((n1 * b1 + n2 * b2 + n3 * b3) * t == (n1 * b1) * t + (n2 * b2) * t + (n3 * b3) * t)
        by (nonlinear_arith);
    assert(n1 * (a1 * s - b1 * t) == (n1 * a1) * s - (n1 * b1) * t) by (nonlinear_arith);
    assert(n2 * (a2 * s - b2 * t) == (n2 * a2) * s - (n2 * b2) * t) by (nonlinear_arith);
    assert(n3 * (a3 * s - b3 * t) == (n3 * a3) * s - (n3 * b3) * t) by (nonlinear_arith);
}

/// The identity behind the circumcenter formula: the circle about the
/// circumcenter through the first vertex passes through the second and the
/// third. The squared norms enter as numbers of their own.
proof fn lemma_circumcenter_identity(
    x1: int,
    y1: int,
    n1: int,
    x2: int,
    y2: int,
    n2: int,
    x3: int,
    y3: int,
    n3: int,
)
    ensures
        ({
            let d = x1 * (y3 - y2) + x2 * (y1 - y3) + x3 * (y2 - y1);
            let wx = n1 * (y3 - y2) + n2 * (y1 - y3) + n3 * (y2 - y1);
            let wy = n1 * (x3 - x2) + n2 * (x1 - x3) + n3 * (x2 - x1);
            &&& d * (n2 - n1) == wx * (x2 - x1) - wy * (y2 - y1)
            &&& d * (n3 - n1) == wx * (x3 - x1) - wy * (y3 - y1)
        }),
{
    let a1 = y3 - y2;
    let a2 = y1 - y3;
    let a3 = y2 - y1;
    let b1 = x3 - x2;
    let b2 = x1 - x3;
    let b3 = x2 - x1;
    let d = x1 * a1 + x2 * a2 + x3 * a3;
    lemma_sort_products(n1, n2, n3, a1, a2, a3, b1, b2, b3, b3, a3);
    assert(a1 * b3 - b1 * a3 == -d) by (nonlinear_arith)
        requires
            a1 == y3 - y2,
            a3 == y2 - y1,
            b1 == x3 - x2,
            b3 == x2 - x1,
            d == x1 * (y3 - y2) + x2 * (y1 - y3) + x3 * (y2 - y1),
    ;
    assert(a2 * b3 - b2 * a3 == d) by (nonlinear_arith)
        requires
            a2 == y1 - y3,
            a3 == y2 - y1,
            b2 == x1 - x3,
            b3 == x2 - x1,
            d == x1 * (y3 - y2) + x2 * (y1 - y3) + x3 * (y2 - y1),
    ;
    assert(a3 * b3 - b3 * a3 == 0) by (nonlinear_arith);
    assert(n1 * (-d) + n2 * d + n3 * 0 == d * (n2 - n1)) by (nonlinear_arith);
    lemma_sort_products(n1, n2, n3, a1, a2, a3, b1, b2, b3, -b2, -a2);
    assert(a1 * (-b2) - b1 * (-a2) == -d) by (nonlinear_arith)
        requires
            a1 == y3 - y2,
            a2 == y1 - y3,
            b1 == x3 - x2,
            b2 == x1 - x3,
            d == x1 * (y3 - y2) + x2 * (y1 - y3) + x3 * (y2 - y1),
    ;
    assert(a2 * (-b2) - b2 * (-a2) == 0) by (nonlinear_arith);
    assert(a3 * (-b2) - b3 * (-a2) == d) by (nonlinear_arith)
        requires
            a2 == y1 - y3,
            a3 == y2 - y1,
            b2 == x1 - x3,
            b3 == x2 - x1,
            d == x1 * (y3 - y2) + x2 * (y1 - y3) + x3 * (y2 - y1),
    ;
    assert(n1 * (-d) + n2 * 0 + n3 * d == d * (n3 - n1)) by (nonlinear_arith);
}

/// The value at `q` of the form of the circle about `(cx / w, cy / w)`
/// through `p1`, written with differences.
proof fn lemma_form_by_differences(cx: int, cy: int, w: int, p1: Point, q: Point)
    ensures
        form_about(cx, cy, w, p1).at(q) == w * (q.squared_norm() - p1.squared_norm()) - 2 * (cx * (
        q.x - p1.x) + cy * (q.y - p1.y)),
{
    assert(w * (q.squared_norm() - p1.squared_norm()) == w * q.squared_norm() - w
        * p1.squared_norm()) by (nonlinear_arith);
    assert(cx * (q.x - p1.x) == cx * q.x - cx * p1.x) by (nonlinear_arith);
    assert(cy * (q.y - p1.y) == cy * q.y - cy * p1.y) by (nonlinear_arith);
    assert((-2 * cx) * q.x == -2 * (cx * q.x)) by (nonlinear_arith);
    assert((-2 * cy) * q.y == -2 * (cy * q.y)) by (nonlinear_arith);
    assert(2 * cx * p1.x == 2 * (cx * p1.x)) by (nonlinear_arith);
    assert(2 * cy * p1.y == 2 * (cy * p1.y)) by (nonlinear_arith);
}

/// The circumcircle of a triangle passes through its three vertices.
pub proof fn lemma_circle_through_vertices(t: Triangle)
    requires
        t.wf(),
    ensures
        circle_of(t).at(t.p1) == 0,
        circle_of(t).at(t.p2) == 0,
        circle_of(t).at(t.p3) == 0,
{
    let c = t.circumcenter;
    let (p1, p2, p3) = (t.p1, t.p2, t.p3);
    lemma_circumcenter_bounded(p1, p2, p3);
    let d = determinant(p1, p2, p3);
    let wx = weighted_x(p1, p2, p3);
    let wy = weighted_y(p1, p2, p3);
    let f = form_about(c.x as int, c.y as int, c.w as int, p1);
    lemma_circumcenter_identity(
        p1.x as int,
        p1.y as int,
        p1.squared_norm(),
        p2.x as int,
        p2.y as int,
        p2.squared_norm(),
        p3.x as int,
        p3.y as int,
        p3.squared_norm(),
    );
    lemma_form_by_differences(c.x as int, c.y as int, c.w as int, p1, p1);
    lemma_form_by_differences(c.x as int, c.y as int, c.w as int, p1, p2);
    lemma_form_by_differences(c.x as int, c.y as int, c.w as int, p1, p3);
    assert(f.at(p1) == 0) by (nonlinear_arith)
        requires
            f.at(p1) == c.w * (p1.squared_norm() - p1.squared_norm()) - 2 * (c.x * (p1.x - p1.x)
                + c.y * (p1.y - p1.y)),
    ;
    assert(f.at(p2) == 0) by (nonlinear_arith)
        requires
            f.at(p2) == c.w * (p2.squared_norm() - p1.squared_norm()) - 2 * (c.x * (p2.x - p1.x)
                + c.y * (p2.y - p1.y)),
            c.w == 2 * d,
            c.x == wx,
            c.y == -wy,
            d * (p2.squared_norm() - p1.squared_norm()) == wx * (p2.x - p1.x) - wy * (p2.y
                - p1.y),
    ;
    assert(f.at(p3) == 0) by (nonlinear_arith)
        requires
            f.at(p3) == c.w * (p3.squared_norm() - p1.squared_norm()) - 2 * (c.x * (p3.x - p1.x)
                + c.y * (p3.y - p1.y)),
            c.w == 2 * d,
            c.x == wx,
            c.y == -wy,
            d * (p3.squared_norm() - p1.squared_norm()) == wx * (p3.x - p1.x) - wy * (p3.y
                - p1.y),
    ;
    if c.w <= 0 {
        lemma_times(f, -1, p1.x as int, p1.y as int, p1.squared_norm());
        lemma_times(f, -1, p2.x as int, p2.y as int, p2.squared_norm());
        lemma_times(f, -1, p3.x as int, p3.y as int, p3.squared_norm());
    }
}

/// The circumcenter is equally far from the three vertices: each of them
/// lies on the circumcircle.
pub proof fn lemma_vertices_on_circumcircle(t: Triangle)
    requires
        t.wf(),
    ensures
        power(t, t.p1) == 0,
        power(t, t.p2) == 0,
        power(t, t.p3) == 0,
        t.encircles(t.p1),
        t.encircles(t.p2),
        t.encircles(t.p3),
{
    lemma_circle_through_vertices(t);
    lemma_circle_sign(t, t.p1);
    lemma_circle_sign(t, t.p2);
    lemma_circle_sign(t, t.p3);
}

/// A form without a quadratic part that vanishes at two different points
/// vanishes on the whole line through them.
pub proof fn lemma_line_through_two(f: Form, a: Point, b: Point, p: Point)
    requires
        f.a == 0,
        f.at(a) == 0,
        f.at(b) == 0,
        a != b,
        collinear(a, b, p),
    ensures
        f.at(p) == 0,
{
    let ux = b.x - a.x;
    let uy = b.y - a.y;
    let vx = p.x - a.x;
    let vy = p.y - a.y;
    assert(f.a * a.squared_norm() == 0 && f.a * b.squared_norm() == 0 && f.a * p.squared_norm()
        == 0) by (nonlinear_arith)
        requires
            f.a == 0,
    ;
    assert(f.b * ux + f.c * uy == 0) by (nonlinear_arith)
        requires
            f.b * a.x + f.c * a.y + f.d == 0,
            f.b * b.x + f.c * b.y + f.d == 0,
            ux == b.x - a.x,
            uy == b.y - a.y,
    ;
    assert(ux * vy == uy * vx) by (nonlinear_arith)
        requires
            a.x * (p.y - b.y) + b.x * (a.y - p.y) + p.x * (b.y - a.y) == 0,
            ux == b.x - a.x,
            uy == b.y - a.y,
            vx == p.x - a.x,
            vy == p.y - a.y,
    ;
    let s = f.b * vx + f.c * vy;
    assert(s * ux == 0) by (nonlinear_arith)
        requires
            s == f.b * vx + f.c * vy,
            f.b * ux + f.c * uy == 0,
            ux * vy == uy * vx,
    ;
    assert(s * uy == 0) by (nonlinear_arith)
        requires
            s == f.b * vx + f.c * vy,
            f.b * ux + f.c * uy == 0,
            ux * vy == uy * vx,
    ;
    assert(s == 0) by (nonlinear_arith)
        requires
            s * ux == 0,
            s * uy == 0,
            ux != 0 || uy != 0,
    ;
    assert(f.b * p.x + f.c * p.y + f.d == 0) by (nonlinear_arith)
        requires
            f.b * vx + f.c * vy == 0,
            f.b * a.x + f.c * a.y + f.d == 0,
            vx == p.x - a.x,
            vy == p.y - a.y,
    ;
}

/// Two circles through `a` and `b` have the line through `a` and `b` as
/// their common chord: a point of that line is inside both, on both, or
/// outside both.
pub proof fn lemma_common_chord(h1: Form, h2: Form, a: Point, b: Point, p: Point)
    requires
        h1.at(a) == 0,
        h1.at(b) == 0,
        h2.at(a) == 0,
        h2.at(b) == 0,
        a != b,
        collinear(a, b, p),
    ensures
        h2.a * h1.at(p) == h1.a * h2.at(p),
{
    let f = h1.times(h2.a).plus(h2.times(-h1.a));
    lemma_combination(h1, h2.a, h2, -h1.a, a);
    lemma_combination(h1, h2.a, h2, -h1.a, b);
    lemma_combination(h1, h2.a, h2, -h1.a, p);
    assert(f.a == 0) by (nonlinear_arith)
        requires
            f.a == h2.a * h1.a + (-h1.a) * h2.a,
    ;
    assert(f.at(a) == 0) by (nonlinear_arith)
        requires
            f.at(a) == h2.a * h1.at(a) + (-h1.a) * h2.at(a),
            h1.at(a) == 0,
            h2.at(a) == 0,
    ;
    assert(f.at(b) == 0) by (nonlinear_arith)
        requires
            f.at(b) == h2.a * h1.at(b) + (-h1.a) * h2.at(b),
            h1.at(b) == 0,
            h2.at(b) == 0,
    ;
    lemma_line_through_two(f, a, b, p);
    assert(h2.a * h1.at(p) == h1.a * h2.at(p)) by (nonlinear_arith)
        requires
            h2.a * h1.at(p) + (-h1.a) * h2.at(p) == 0,
    ;
}

} // verus!
