//! Positions in the voxel world.
//!
//! Up is +y and down is -y, east is +x and west is -x, south is +z and
//! north is -z.

use vstd::prelude::*;
use vstd::string::StringExecFns;

verus! {

#[derive(Debug, Clone, Copy, PartialEq, Eq, Structural, Hash)]
pub struct Vec3(pub i32, pub i32, pub i32);

/// The character of a decimal digit.
pub open spec fn digit_char(d: nat) -> char {
    if d == 0 {
        '0'
    } else if d == 1 {
        '1'
    } else if d == 2 {
        '2'
    } else if d == 3 {
        '3'
    } else if d == 4 {
        '4'
    } else if d == 5 {
        '5'
    } else if d == 6 {
        '6'
    } else if d == 7 {
        '7'
    } else if d == 8 {
        '8'
    } else {
        '9'
    }
}

/// The decimal digits of a natural number, without leading zeros.
pub open spec fn digits(n: nat) -> Seq<char>
    decreases n,
{
    if n < 10 {
        seq![digit_char(n)]
    } else {
        digits(n / 10).push(digit_char(n % 10))
    }
}

/// An integer in decimal, with a minus sign before a negative one.
pub open spec fn decimal(v: int) -> Seq<char> {
    if v < 0 {
        seq!['-'] + digits((-v) as nat)
    } else {
        digits(v as nat)
    }
}

/// A position as text: its coordinates in decimal, separated by a comma
/// and a blank, in round brackets.
pub open spec fn vec3_text(v: Vec3) -> Seq<char> {
    seq!['('] + decimal(v.0 as int) + seq![',', ' '] + decimal(v.1 as int) + seq![',', ' ']
        + decimal(v.2 as int) + seq![')']
}

fn digit_str(d: u64) -> (s: &'static str)
    requires
        d < 10,
    ensures
        s@ == seq![digit_char(d as nat)],
{
    proof {
        reveal_strlit("0");
        reveal_strlit("1");
        reveal_strlit("2");
        reveal_strlit("3");
        reveal_strlit("4");
        reveal_strlit("5");
        reveal_strlit("6");
        reveal_strlit("7");
        reveal_strlit("8");
        reveal_strlit("9");
    }
    let s = if d == 0 {
        "0"
    } else if d == 1 {
        "1"
    } else if d == 2 {
        "2"
    } else if d == 3 {
        "3"
    } else if d == 4 {
        "4"
    } else if d == 5 {
        "5"
    } else if d == 6 {
        "6"
    } else if d == 7 {
        "7"
    } else if d == 8 {
        "8"
    } else {
        "9"
    };
    assert(s@ =~= seq![digit_char(d as nat)]);
    s
}

/// Appends the decimal digits of `n` to `out`.
pub fn push_digits(out: &mut String, n: u64)
    ensures
        final(out)@ == old(out)@ + digits(n as nat),
    decreases n,
{
    if n >= 10 {
        push_digits(out, n / 10);
    }
    out.append(digit_str(n % 10));
    assert(out@ =~= old(out)@ + digits(n as nat));
}

/// Appends `v` in decimal to `out`.
pub fn push_decimal(out: &mut String, v: i32)
    ensures
        final(out)@ == old(out)@ + decimal(v as int),
{
    if v < 0 {
        proof {
            reveal_strlit("-");
        }
        out.append("-");
        push_digits(out, (-(v as i64)) as u64);
    } else {
        push_digits(out, v as u64);
    }
    assert(out@ =~= old(out)@ + decimal(v as int));
}

impl Vec3 {
    pub fn x(self) -> (x: i32)
        ensures
            x == self.0,
    {
        self.0
    }

    pub fn y(self) -> (y: i32)
        ensures
            y == self.1,
    {
        self.1
    }

    pub fn z(self) -> (z: i32)
        ensures
            z == self.2,
    {
        self.2
    }

    /// The sum of two positions, coordinate by coordinate.
    pub open spec fn plus(self, rhs: Vec3) -> Vec3 {
        Vec3((self.0 + rhs.0) as i32, (self.1 + rhs.1) as i32, (self.2 + rhs.2) as i32)
    }

    /// The difference of two positions, coordinate by coordinate.
    pub open spec fn minus(self, rhs: Vec3) -> Vec3 {
        Vec3((self.0 - rhs.0) as i32, (self.1 - rhs.1) as i32, (self.2 - rhs.2) as i32)
    }

    /// Whether the sum of the two positions has coordinates that exist.
    pub open spec fn can_plus(self, rhs: Vec3) -> bool {
        &&& i32::MIN <= self.0 + rhs.0 <= i32::MAX
        &&& i32::MIN <= self.1 + rhs.1 <= i32::MAX
        &&& i32::MIN <= self.2 + rhs.2 <= i32::MAX
    }

    /// Whether the difference of the two positions has coordinates that exist.
    pub open spec fn can_minus(self, rhs: Vec3) -> bool {
        &&& i32::MIN <= self.0 - rhs.0 <= i32::MAX
        &&& i32::MIN <= self.1 - rhs.1 <= i32::MAX
        &&& i32::MIN <= self.2 - rhs.2 <= i32::MAX
    }

    /// The position with the absolute value of each coordinate.
    pub fn abs(self) -> (v: Vec3)
        requires
            self.0 > i32::MIN,
            self.1 > i32::MIN,
            self.2 > i32::MIN,
        ensures
            v.0 == (if self.0 < 0 { -self.0 } else { self.0 as int }),
            v.1 == (if self.1 < 0 { -self.1 } else { self.1 as int }),
            v.2 == (if self.2 < 0 { -self.2 } else { self.2 as int }),
    {
        Vec3(
            if self.0 < 0 { -self.0 } else { self.0 },
            if self.1 < 0 { -self.1 } else { self.1 },
            if self.2 < 0 { -self.2 } else { self.2 },
        )
    }

    pub fn up(self) -> (v: Vec3)
        requires
            self.1 < i32::MAX,
        ensures
            v == Vec3(self.0, (self.1 + 1) as i32, self.2),
    {
        self + Vec3(0, 1, 0)
    }

    pub fn down(self) -> (v: Vec3)
        requires
            self.1 > i32::MIN,
        ensures
            v == Vec3(self.0, (self.1 - 1) as i32, self.2),
    {
        self - Vec3(0, 1, 0)
    }

    pub fn west(self) -> (v: Vec3)
        requires
            self.0 > i32::MIN,
        ensures
            v == Vec3((self.0 - 1) as i32, self.1, self.2),
    {
        self - Vec3(1, 0, 0)
    }

    pub fn east(self) -> (v: Vec3)
        requires
            self.0 < i32::MAX,
        ensures
            v == Vec3((self.0 + 1) as i32, self.1, self.2),
    {
        self + Vec3(1, 0, 0)
    }

    pub fn north(self) -> (v: Vec3)
        requires
            self.2 > i32::MIN,
        ensures
            v == Vec3(self.0, self.1, (self.2 - 1) as i32),
    {
        self - Vec3(0, 0, 1)
    }

    pub fn south(self) -> (v: Vec3)
        requires
            self.2 < i32::MAX,
        ensures
            v == Vec3(self.0, self.1, (self.2 + 1) as i32),
    {
        self + Vec3(0, 0, 1)
    }

    /// The position as text, such as `(5, -7, 1)`.
    pub fn to_string(&self) -> (text: String)
        ensures
            text@ == vec3_text(*self),
    {
        proof {
            reveal_strlit("(");
            reveal_strlit(", ");
            reveal_strlit(")");
        }
        let mut text = String::new();
        text.append("(");
        push_decimal(&mut text, self.0);
        text.append(", ");
        push_decimal(&mut text, self.1);
        text.append(", ");
        push_decimal(&mut text, self.2);
        text.append(")");
        assert(text@ =~= vec3_text(*self));
        text
    }
}

impl Default for Vec3 {
    fn default() -> (v: Vec3)
        ensures
            v == Vec3(0, 0, 0),
    {
        Vec3(0, 0, 0)
    }
}

impl From<(i32, i32, i32)> for Vec3 {
    fn from(v: (i32, i32, i32)) -> (r: Vec3) {
        Vec3(v.0, v.1, v.2)
    }
}

impl vstd::std_specs::convert::FromSpecImpl<(i32, i32, i32)> for Vec3 {
    open spec fn obeys_from_spec() -> bool {
        true
    }

    open spec fn from_spec(v: (i32, i32, i32)) -> Vec3 {
        Vec3(v.0, v.1, v.2)
    }
}

impl std::ops::Add for Vec3 {
    type Output = Vec3;

    fn add(self, rhs: Vec3) -> (r: Vec3) {
        Vec3(self.0 + rhs.0, self.1 + rhs.1, self.2 + rhs.2)
    }
}

impl vstd::std_specs::ops::AddSpecImpl for Vec3 {
    open spec fn obeys_add_spec() -> bool {
        true
    }

    open spec fn add_req(self, rhs: Vec3) -> bool {
        self.can_plus(rhs)
    }

    open spec fn add_spec(self, rhs: Vec3) -> Vec3 {
        self.plus(rhs)
    }
}

impl std::ops::Sub for Vec3 {
    type Output = Vec3;

    fn sub(self, rhs: Vec3) -> (r: Vec3) {
        Vec3(self.0 - rhs.0, self.1 - rhs.1, self.2 - rhs.2)
    }
}

impl vstd::std_specs::ops::SubSpecImpl for Vec3 {
    open spec fn obeys_sub_spec() -> bool {
        true
    }

    open spec fn sub_req(self, rhs: Vec3) -> bool {
        self.can_minus(rhs)
    }

    open spec fn sub_spec(self, rhs: Vec3) -> Vec3 {
        self.minus(rhs)
    }
}

} // verus!
