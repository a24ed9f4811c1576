//! Areas of contours, exact, and what becomes of them where a coordinate is
//! infinite or no number of any size.

use vstd::prelude::*;

use crate::decimal::{Spot, INFINITE, NAN};
use crate::wide::Wide;

verus! {

/// A sum of products.
pub enum Amount {
    /// No amount of any size.
    Nan,
    /// Infinite, above or below nought.
    Infinite(bool),
    Finite(int),
}

/// Whether a number is infinite.
pub open spec fn is_infinite(v: int) -> bool {
    v == INFINITE || v == -INFINITE
}

/// The product of two numbers. Nought times infinity has no size.
pub open spec fn product(a: int, b: int) -> Amount {
    if a == NAN || b == NAN {
        Amount::Nan
    } else if is_infinite(a) || is_infinite(b) {
        if a == 0 || b == 0 {
            Amount::Nan
        } else {
            Amount::Infinite((a > 0) == (b > 0))
        }
    } else {
        Amount::Finite(a * b)
    }
}

/// The opposite of an amount.
pub open spec fn negated(a: Amount) -> Amount {
    match a {
        Amount::Nan => a,
        Amount::Infinite(above) => Amount::Infinite(!above),
        Amount::Finite(n) => Amount::Finite(-n),
    }
}

/// The sum of two amounts. Opposite infinities have none of any size.
pub open spec fn added(a: Amount, b: Amount) -> Amount {
    match (a, b) {
        (Amount::Nan, _) => a,
        (_, Amount::Nan) => b,
        (Amount::Infinite(x), Amount::Infinite(y)) => if x == y {
            a
        } else {
            Amount::Nan
        },
        (Amount::Infinite(_), _) => a,
        (_, Amount::Infinite(_)) => b,
        (Amount::Finite(x), Amount::Finite(y)) => Amount::Finite(x + y),
    }
}

/// How large a number is, whatever its sign.
pub open spec fn size(n: int) -> int {
    if n >= 0 {
        n
    } else {
        -n
    }
}

/// Whether one amount is larger than another, whatever their signs; what has
/// no size is never compared.
pub open spec fn exceeds(a: Amount, b: Amount) -> bool {
    match (a, b) {
        (Amount::Infinite(_), Amount::Finite(_)) => true,
        (Amount::Finite(x), Amount::Finite(y)) => size(x) > size(y),
        _ => false,
    }
}

/// The place after place `i` round a contour.
pub open spec fn next_place(places: Seq<Spot>, i: int) -> Spot {
    if i + 1 == places.len() {
        places[0]
    } else {
        places[i + 1]
    }
}

/// The sum of the first `n` cross products round a contour; all of them
/// together are twice its signed area.
pub open spec fn shoelace(places: Seq<Spot>, n: int) -> Amount
    decreases n,
{
    if n <= 0 {
        Amount::Finite(0)
    } else {
        let a = places[n - 1];
        let b = next_place(places, n - 1);
        added(
            added(shoelace(places, n - 1), product(a.x as int, b.y as int)),
            negated(product(b.x as int, a.y as int)),
        )
    }
}

/// Twice the signed area of a contour.
pub open spec fn contour_area(places: Seq<Spot>) -> Amount {
    shoelace(places, places.len() as int)
}

#[derive(Clone, Copy, PartialEq, Eq, Structural)]
enum Kind {
    Nan,
    Above,
    Below,
    Finite,
}

/// A running sum of products.
pub struct Tally {
    kind: Kind,
    plus: Wide,
    minus: Wide,
}

impl Tally {
    /// The sum so far.
    pub closed spec fn amount(self) -> Amount {
        match self.kind {
            Kind::Nan => Amount::Nan,
            Kind::Above => Amount::Infinite(true),
            Kind::Below => Amount::Infinite(false),
            Kind::Finite => Amount::Finite(self.plus.value() - self.minus.value()),
        }
    }

    /// Nothing summed yet.
    pub fn new() -> (r: Tally)
        ensures
            r.amount() == Amount::Finite(0),
    {
        Tally { kind: Kind::Finite, plus: Wide::new(), minus: Wide::new() }
    }

    /// Adds a product, or takes it off.
    pub fn tally(&mut self, x: i128, y: i128, negate: bool)
        ensures
            final(self).amount() == added(
                old(self).amount(),
                if negate {
                    negated(product(x as int, y as int))
                } else {
                    product(x as int, y as int)
                },
            ),
    {
        if x == NAN || y == NAN {
            self.kind = Kind::Nan;
            return ;
        }
        let same: bool = ((x >= 0) == (y >= 0)) != negate;
        if x == INFINITE || x == -INFINITE || y == INFINITE || y == -INFINITE {
            let above: bool = ((x > 0) == (y > 0)) != negate;
            self.kind = if x == 0 || y == 0 {
                Kind::Nan
            } else {
                match self.kind {
                    Kind::Nan => Kind::Nan,
                    Kind::Above => if above {
                        Kind::Above
                    } else {
                        Kind::Nan
                    },
                    Kind::Below => if above {
                        Kind::Nan
                    } else {
                        Kind::Below
                    },
                    Kind::Finite => if above {
                        Kind::Above
                    } else {
                        Kind::Below
                    },
                }
            };
            return ;
        }
        let ax: u128 = if x >= 0 {
            x as u128
        } else {
            (-x) as u128
        };
        let ay: u128 = if y >= 0 {
            y as u128
        } else {
            (-y) as u128
        };
        proof {
            let xi = x as int;
            let yi = y as int;
            assert((-xi) * yi == -(xi * yi) && xi * (-yi) == -(xi * yi) && (-xi) * (-yi) == xi * yi)
                by (nonlinear_arith);
        }
        if same {
            self.plus.add_product(ax, ay);
        } else {
            self.minus.add_product(ax, ay);
        }
    }

    /// Whether this sum is larger than another, whatever their signs.
    pub fn exceeds(self, other: Tally) -> (r: bool)
        ensures
            r == exceeds(self.amount(), other.amount()),
    {
        match (self.kind, other.kind) {
            (Kind::Above, Kind::Finite) => true,
            (Kind::Below, Kind::Finite) => true,
            (Kind::Finite, Kind::Finite) => {
                let (mut high, low) = sides(self.plus, self.minus);
                let (mut other_high, other_low) = sides(other.plus, other.minus);
                high.add_wide(&other_low);
                other_high.add_wide(&low);
                other_high.is_less(&high)
            },
            _ => false,
        }
    }

    /// Whether this sum, if it is finite, is at least `n`, whatever its sign.
    pub fn reaches(self, n: u128) -> (r: bool)
        ensures
            self.amount() matches Amount::Finite(v) ==> r == (size(v) >= n),
    {
        let (high, mut low) = sides(self.plus, self.minus);
        low.add_product(n, 1);
        !high.is_less(&low)
    }
}

/// The larger and the smaller of two numbers.
fn sides(a: Wide, b: Wide) -> (r: (Wide, Wide))
    ensures
        r.0.value() >= r.1.value(),
        r.0.value() - r.1.value() == size(a.value() - b.value()),
{
    if a.is_less(&b) {
        (b, a)
    } else {
        (a, b)
    }
}

/// Twice the area of a contour.
pub fn measure_contour(places: &[Spot]) -> (r: Tally)
    ensures
        r.amount() == contour_area(places@),
{
    let mut r = Tally::new();
    let mut i: usize = 0;
    while i < places.len()
        invariant
            i <= places@.len(),
            r.amount() == shoelace(places@, i as int),
        decreases places@.len() - i,
    {
        let a = places[i];
        let b = if i + 1 == places.len() {
            places[0]
        } else {
            places[i + 1]
        };
        r.tally(a.x, b.y, false);
        r.tally(b.x, a.y, true);
        i += 1;
    }
    r
}

} // verus!
