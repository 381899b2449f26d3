use vstd::prelude::*;
use crate::vec::Vec3;

verus! {

/// `v - 2 (v . n) n`: `v` mirrored in the plane whose normal is `n`.
pub open spec fn reflected(v: Vec3, n: Vec3) -> (int, int, int) {
    let k = 2 * v.dot_spec(n);
    (v.0 - k * n.0, v.1 - k * n.1, v.2 - k * n.2)
}

/// `n` has unit length.
pub open spec fn is_unit(n: Vec3) -> bool {
    n.dot_spec(n) == 1
}

proof fn lemma_unit_components(n: Vec3)
    requires
        is_unit(n),
    ensures
        -1 <= n.0 <= 1,
        -1 <= n.1 <= 1,
        -1 <= n.2 <= 1,
        (n.0 != 0) as int + (n.1 != 0) as int + (n.2 != 0) as int == 1,
{
    let (a, b, c) = (n.0 as int, n.1 as int, n.2 as int);
    assert(-1 <= a <= 1 && -1 <= b <= 1 && -1 <= c <= 1) by (nonlinear_arith)
        requires
            a * a + b * b + c * c == 1,
    {
        assert(a * a >= 0 && b * b >= 0 && c * c >= 0);
        if a > 1 || a < -1 {
            assert(a * a > 1);
        }
        if b > 1 || b < -1 {
            assert(b * b > 1);
        }
        if c > 1 || c < -1 {
            assert(c * c > 1);
        }
    }
    assert(a * a == (a != 0) as int) by (nonlinear_arith)
        requires
            -1 <= a <= 1,
    ;
    assert(b * b == (b != 0) as int) by (nonlinear_arith)
        requires
            -1 <= b <= 1,
    ;
    assert(c * c == (c != 0) as int) by (nonlinear_arith)
        requires
            -1 <= c <= 1,
    ;
}

/// Mirrors `v` about the unit normal `n`. The component along `n` changes sign and
/// the length is kept.
pub fn reflect(v: Vec3, n: Vec3) -> (r: Vec3)
    requires
        is_unit(n),
        v.0 > i32::MIN && v.1 > i32::MIN && v.2 > i32::MIN,
    ensures
        (r.0 as int, r.1 as int, r.2 as int) == reflected(v, n),
        r.dot_spec(n) == -v.dot_spec(n),
        r.dot_spec(r) == v.dot_spec(v),
{
    proof {
        lemma_unit_components(n);
    }
    // Along the normal's axis the component flips; the others are unchanged.
    let r = if n.0 != 0 {
        Vec3(-v.0, v.1, v.2)
    } else if n.1 != 0 {
        Vec3(v.0, -v.1, v.2)
    } else {
        Vec3(v.0, v.1, -v.2)
    };
    proof {
        let (a, b, c) = (n.0 as int, n.1 as int, n.2 as int);
        let (x, y, z) = (v.0 as int, v.1 as int, v.2 as int);
        assert(a * a == 1 || b * b == 1 || c * c == 1) by (nonlinear_arith)
            requires
                -1 <= a <= 1 && -1 <= b <= 1 && -1 <= c <= 1,
                a != 0 || b != 0 || c != 0,
        ;
        assert(a != 0 ==> a * a == 1) by (nonlinear_arith)
            requires
                -1 <= a <= 1,
        ;
        assert(b != 0 ==> b * b == 1) by (nonlinear_arith)
            requires
                -1 <= b <= 1,
        ;
        assert(c != 0 ==> c * c == 1) by (nonlinear_arith)
            requires
                -1 <= c <= 1,
        ;
        if a != 0 {
            assert(v.dot_spec(n) == x * a);
            assert(x - 2 * (x * a) * a == -x) by (nonlinear_arith)
                requires
                    a * a == 1,
            ;
        } else if b != 0 {
            assert(v.dot_spec(n) == y * b);
            assert(y - 2 * (y * b) * b == -y) by (nonlinear_arith)
                requires
                    b * b == 1,
            ;
        } else {
            assert(v.dot_spec(n) == z * c);
            assert(z - 2 * (z * c) * c == -z) by (nonlinear_arith)
                requires
                    c * c == 1,
            ;
        }
        assert((-x) * (-x) == x * x && (-y) * (-y) == y * y && (-z) * (-z) == z * z) by (nonlinear_arith);
        assert((-x) * a == -(x * a) && (-y) * b == -(y * b) && (-z) * c == -(z * c)) by (nonlinear_arith);
    }
    r
}

} // verus!
