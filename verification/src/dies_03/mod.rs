//! The instruction-stream puzzle: a noisy text holds `mul(a,b)` products
//! and `do()` / `don't()` switches; part one sums every product, part two
//! sums only the products read while enabled.

pub mod parser;

use vstd::prelude::*;
use vstd::string::StringSliceAdditionalSpecFns;

verus! {

/// One recognised instruction.
#[derive(Debug, PartialEq, Eq, Structural)]
pub enum Ix {
    Do,
    Dont,
    Mul(i32, i32),
}

/// The parsed instruction stream.
pub struct Data {
    pub ixs: Vec<Ix>,
}


/// Arithmetic in the solvers stays within `i32`; this is the one failure.
#[derive(Debug, PartialEq, Eq, Structural)]
pub enum IxError {
    Overflow,
}

impl From<Vec<Ix>> for Data {
    /// Wrap an already-parsed instruction stream.
    fn from(ixs: Vec<Ix>) -> (d: Data) {
        Data { ixs }
    }
}

impl vstd::std_specs::convert::FromSpecImpl<Vec<Ix>> for Data {
    open spec fn obeys_from_spec() -> bool {
        true
    }

    open spec fn from_spec(ixs: Vec<Ix>) -> Data {
        Data { ixs }
    }
}

/// The product an instruction contributes: `a * b` for a product, zero
/// for a switch.
pub open spec fn mul_val(ix: Ix) -> int {
    match ix {
        Ix::Mul(a, b) => a * b,
        _ => 0,
    }
}

/// The sum of the products among the first `i` instructions.
pub open spec fn run1(s: Seq<Ix>, i: int) -> int
    decreases i,
{
    if i <= 0 {
        0
    } else {
        run1(s, i - 1) + mul_val(s[i - 1])
    }
}

/// The value lies within `i32`.
pub open spec fn in32(x: int) -> bool {
    i32::MIN <= x <= i32::MAX
}

/// The first-part sum stays within `i32` at every step.
pub open spec fn ok1(s: Seq<Ix>) -> bool {
    forall|j: int|
        0 <= j < s.len() && (#[trigger] s[j]) is Mul ==> in32(mul_val(s[j])) && in32(run1(s, j + 1))
}

/// The sum and the switch state after the first `i` instructions, with
/// products counted only while enabled.  Scanning starts enabled.
pub open spec fn run2(s: Seq<Ix>, i: int) -> (int, bool)
    decreases i,
{
    if i <= 0 {
        (0, true)
    } else {
        let (t, en) = run2(s, i - 1);
        match s[i - 1] {
            Ix::Do => (t, true),
            Ix::Dont => (t, false),
            Ix::Mul(a, b) => if en {
                (t + a * b, en)
            } else {
                (t, en)
            },
        }
    }
}

/// The second-part sum stays within `i32` at every step.
pub open spec fn ok2(s: Seq<Ix>) -> bool {
    forall|j: int|
        0 <= j < s.len() && (#[trigger] s[j]) is Mul && run2(s, j).1 ==> in32(mul_val(s[j]))
            && in32(run2(s, j + 1).0)
}

impl Data {
    /// Parse the instruction stream out of the noisy text.  Parsing
    /// itself never fails: unusable text is skipped.
    pub fn parse(input: &str) -> (res: Result<Data, IxError>)
        ensures
            res matches Ok(d) && d.ixs@ == parser::spec_scan(input.spec_bytes(), 0),
    {
        let ixs = parser::parse(input);
        Ok(Self::from(ixs))
    }

    /// Sum every product instruction.  Fails with `Overflow` exactly
    /// when some step of that sum leaves `i32`.
    #[verifier::loop_isolation(false)]
    pub fn solve1(&self) -> (res: Result<i32, IxError>)
        ensures
            ok1(self.ixs@) ==> res == Ok::<i32, IxError>(run1(self.ixs@, self.ixs@.len() as int) as i32),
            !ok1(self.ixs@) ==> res == Err::<i32, IxError>(IxError::Overflow),
    {
        let s = &self.ixs;
        let mut total: i32 = 0;
        let mut i: usize = 0;
        while i < s.len()
            invariant
                i <= s@.len(),
                total == run1(s@, i as int),
                forall|j: int|
                    0 <= j < i && (#[trigger] s@[j]) is Mul ==> in32(mul_val(s@[j])) && in32(
                        run1(s@, j + 1),
                    ),
            decreases s@.len() - i,
        {
            match s[i] {
                Ix::Do => {},
                Ix::Dont => {},
                Ix::Mul(left, right) => {
                    let prod = match left.checked_mul(right) {
                        Some(p) => p,
                        None => {
                            proof {
                                assert(s@[i as int] is Mul);
                                assert(mul_val(s@[i as int]) == left * right);
                                assert(!in32(mul_val(s@[i as int])));
                                assert(!ok1(self.ixs@));
                            }
                            return Err(IxError::Overflow);
                        },
                    };
                    total = match total.checked_add(prod) {
                        Some(t) => t,
                        None => {
                            proof {
                                assert(s@[i as int] is Mul);
                                assert(run1(s@, i + 1) == total + prod);
                                assert(!in32(run1(s@, i + 1)));
                                assert(!ok1(self.ixs@));
                            }
                            return Err(IxError::Overflow);
                        },
                    };
                },
            }
            i = i + 1;
        }
        Ok(total)
    }

    /// Sum the products read while enabled: `do()` enables, `don't()`
    /// disables, and scanning starts enabled.  Fails with `Overflow`
    /// exactly when some step of that sum leaves `i32`.
    #[verifier::loop_isolation(false)]
    pub fn solve2(&self) -> (res: Result<i32, IxError>)
        ensures
            ok2(self.ixs@) ==> res == Ok::<i32, IxError>(run2(self.ixs@, self.ixs@.len() as int).0 as i32),
            !ok2(self.ixs@) ==> res == Err::<i32, IxError>(IxError::Overflow),
    {
        let s = &self.ixs;
        let mut total: i32 = 0;
        let mut enabled: bool = true;
        let mut i: usize = 0;
        while i < s.len()
            invariant
                i <= s@.len(),
                total == run2(s@, i as int).0,
                enabled == run2(s@, i as int).1,
                forall|j: int|
                    0 <= j < i && (#[trigger] s@[j]) is Mul && run2(s@, j).1 ==> in32(
                        mul_val(s@[j]),
                    ) && in32(run2(s@, j + 1).0),
            decreases s@.len() - i,
        {
            match s[i] {
                Ix::Do => {
                    enabled = true;
                },
                Ix::Dont => {
                    enabled = false;
                },
                Ix::Mul(left, right) => {
                    if enabled {
                        let prod = match left.checked_mul(right) {
                            Some(p) => p,
                            None => {
                                proof {
                                    assert(s@[i as int] is Mul);
                                    assert(run2(s@, i as int).1);
                                    assert(mul_val(s@[i as int]) == left * right);
                                    assert(!in32(mul_val(s@[i as int])));
                                    assert(!ok2(self.ixs@));
                                }
                                return Err(IxError::Overflow);
                            },
                        };
                        total = match total.checked_add(prod) {
                            Some(t) => t,
                            None => {
                                proof {
                                    assert(s@[i as int] is Mul);
                                    assert(run2(s@, i as int).1);
                                    assert(run2(s@, i + 1).0 == total + prod);
                                    assert(!in32(run2(s@, i + 1).0));
                                    assert(!ok2(self.ixs@));
                                }
                                return Err(IxError::Overflow);
                            },
                        };
                    }
                },
            }
            i = i + 1;
        }
        Ok(total)
    }
}

} // verus!
