use vstd::prelude::*;

verus! {

/// A coordinate axis, used to index the components of a `Vec3`.
#[derive(Copy, Clone, Debug, PartialEq, Eq, Structural)]
pub enum Axis {
    X,
    Y,
    Z,
}

/// A colour channel, used to index the components of a `Vec3` holding a colour.
#[derive(Copy, Clone, Debug, PartialEq, Eq, Structural)]
pub enum Channel {
    R,
    G,
    B,
}

/// A point or direction on the integer grid.
#[derive(Copy, Clone, Debug, PartialEq, Eq, Structural)]
pub struct Vec3(pub i32, pub i32, pub i32);

impl Vec3 {
    /// The component of the vector along `a`.
    pub open spec fn at(self, a: Axis) -> int {
        match a {
            Axis::X => self.0 as int,
            Axis::Y => self.1 as int,
            Axis::Z => self.2 as int,
        }
    }

    /// The component of the vector in channel `c`.
    pub open spec fn channel(self, c: Channel) -> int {
        match c {
            Channel::R => self.0 as int,
            Channel::G => self.1 as int,
            Channel::B => self.2 as int,
        }
    }

    pub open spec fn dot_spec(self, o: Vec3) -> int {
        self.0 * o.0 + self.1 * o.1 + self.2 * o.2
    }

    /// The component along an axis.
    pub fn index(&self, a: Axis) -> (r: i32)
        ensures
            r == self.at(a),
    {
        match a {
            Axis::X => self.0,
            Axis::Y => self.1,
            Axis::Z => self.2,
        }
    }

    /// The component in a colour channel.
    pub fn index_channel(&self, c: Channel) -> (r: i32)
        ensures
            r == self.channel(c),
    {
        match c {
            Channel::R => self.0,
            Channel::G => self.1,
            Channel::B => self.2,
        }
    }

    /// The dot product, exact.
    pub fn dot(&self, o: Vec3) -> (r: i128)
        ensures
            r == self.dot_spec(o),
    {
        assert((self.0 as int) * (o.0 as int) <= 0x4000_0000_0000_0000) by (nonlinear_arith);
        assert((self.0 as int) * (o.0 as int) >= -0x4000_0000_0000_0000) by (nonlinear_arith);
        assert((self.1 as int) * (o.1 as int) <= 0x4000_0000_0000_0000) by (nonlinear_arith);
        assert((self.1 as int) * (o.1 as int) >= -0x4000_0000_0000_0000) by (nonlinear_arith);
        assert((self.2 as int) * (o.2 as int) <= 0x4000_0000_0000_0000) by (nonlinear_arith);
        assert((self.2 as int) * (o.2 as int) >= -0x4000_0000_0000_0000) by (nonlinear_arith);
        (self.0 as i128) * (o.0 as i128) + (self.1 as i128) * (o.1 as i128) + (self.2 as i128) * (
        o.2 as i128)
    }

    /// The squared length, exact.
    pub fn mag_sqr(&self) -> (r: i128)
        ensures
            r == self.dot_spec(*self),
            r >= 0,
    {
        assert((self.0 as int) * (self.0 as int) >= 0) by (nonlinear_arith);
        assert((self.1 as int) * (self.1 as int) >= 0) by (nonlinear_arith);
        assert((self.2 as int) * (self.2 as int) >= 0) by (nonlinear_arith);
        self.dot(*self)
    }
}

} // verus!
