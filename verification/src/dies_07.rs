//! The bridge-calibration puzzle: each line holds a target value and
//! operands; an equation could be true when some left-to-right chain of
//! the allowed operators reaches the target.  Part one allows addition
//! and multiplication, part two also digit concatenation.

use vstd::prelude::*;
use vstd::string::StringSliceAdditionalSpecFns;

use crate::text::int_token_val;
use crate::text::is_int_token;
use crate::text::lines_model;
use crate::text::parse_i64;
use crate::text::spec_lines;
use crate::text::spec_tokens;
use crate::text::split_lines;
use crate::text::split_tokens;

verus! {

/// One of the operators an equation may chain.
#[derive(Clone, Copy, PartialEq, Eq, Structural, Debug)]
pub enum Fun {
    Add,
    Mul,
    Concat,
}

/// The value lies within `i64`.
pub open spec fn in64(x: int) -> bool {
    i64::MIN <= x <= i64::MAX
}

/// How many decimal digits a non-negative value prints as.
pub open spec fn ndigits(r: int) -> nat
    decreases r,
{
    if r < 10 {
        1
    } else {
        1 + ndigits(r / 10)
    }
}

/// Ten to the power `d`.
pub open spec fn pow10(d: nat) -> int
    decreases d,
{
    if d == 0 {
        1
    } else {
        10 * pow10((d - 1) as nat)
    }
}

/// What applying the operator to a running total and the next operand
/// yields.  Addition and multiplication yield a value only when it fits
/// `i64`; concatenation appends the right operand's digits (so only for
/// a non-negative right operand) and likewise only when the result fits.
pub open spec fn app_val(f: Fun, l: int, r: int) -> Option<int> {
    match f {
        Fun::Add => if in64(l + r) {
            Some(l + r)
        } else {
            None
        },
        Fun::Mul => if in64(l * r) {
            Some(l * r)
        } else {
            None
        },
        Fun::Concat => if r < 0 {
            None
        } else {
            let v = if l >= 0 {
                l * pow10(ndigits(r)) + r
            } else {
                l * pow10(ndigits(r)) - r
            };
            if in64(v) {
                Some(v)
            } else {
                None
            }
        },
    }
}

/// The totals reachable after chaining the first `i` operands with the
/// allowed operators (`i` of at least one; the first operand starts the
/// chain).
pub open spec fn reach_set(ops: Seq<int>, i: int, fs: Seq<Fun>) -> Set<int>
    decreases i,
{
    if i <= 1 {
        Set::empty().insert(ops[0])
    } else {
        Set::new(
            |v: int|
                exists|t: int, fi: int|
                    #![trigger app_val(fs[fi], t, ops[i - 1])]
                    reach_set(ops, i - 1, fs).contains(t) && 0 <= fi < fs.len() && app_val(
                        fs[fi],
                        t,
                        ops[i - 1],
                    ) == Some(v),
        )
    }
}

/// Whether some chain of the allowed operators over all operands hits
/// the calibration value.  An equation with fewer than two operands
/// never could be true.
pub open spec fn spec_could_be_true(calib: int, ops: Seq<int>, fs: Seq<Fun>) -> bool {
    ops.len() >= 2 && reach_set(ops, ops.len() as int, fs).contains(calib)
}

/// Why an equation line was rejected.
#[derive(Debug, PartialEq, Eq, Structural)]
pub enum EqError {
    /// An empty line: no calibration value at all.
    MissingCalibration,
    /// The first token lacks its colon, or its value does not read.
    InvalidCalibration,
    /// A later token does not read as a value.
    InvalidOperand,
}

/// Whether a token reads as an `i64`.
pub open spec fn is_i64_token(t: Seq<u8>) -> bool {
    is_int_token(t) && in64(int_token_val(t))
}

/// Whether a token is a calibration value: an `i64` closed by a colon.
pub open spec fn is_calib_token(t: Seq<u8>) -> bool {
    t.len() > 0 && t.last() == 58u8 && is_i64_token(t.drop_last())
}

/// What one line yields: its calibration value and operands, or the
/// error that rejects it.
pub open spec fn eq_line_result(line: Seq<u8>) -> Result<(int, Seq<int>), EqError> {
    let toks = spec_tokens(line);
    if toks.len() == 0 {
        Err(EqError::MissingCalibration)
    } else if !is_calib_token(toks[0]) {
        Err(EqError::InvalidCalibration)
    } else if exists|j: int| 1 <= j < toks.len() && !is_i64_token(#[trigger] toks[j]) {
        Err(EqError::InvalidOperand)
    } else {
        Ok(
            (
                int_token_val(toks[0].drop_last()),
                Seq::new((toks.len() - 1) as nat, |j: int| int_token_val(toks[j + 1])),
            ),
        )
    }
}

/// What the first `i` lines yield: their equations, or the error of the
/// first rejected line.
pub open spec fn eqs_result(lines: Seq<Seq<u8>>, i: int) -> Result<
    Seq<(int, Seq<int>)>,
    EqError,
>
    decreases i,
{
    if i <= 0 {
        Ok(Seq::empty())
    } else {
        match eqs_result(lines, i - 1) {
            Err(e) => Err(e),
            Ok(s) => match eq_line_result(lines[i - 1]) {
                Err(e) => Err(e),
                Ok(eq) => Ok(s.push(eq)),
            },
        }
    }
}


/// Once one line is rejected, the whole text is rejected with that
/// line's error.
proof fn lemma_eqs_error(lines: Seq<Seq<u8>>, i: int, n: int)
    requires
        0 <= i < n,
        eqs_result(lines, i) is Ok,
        eq_line_result(lines[i]) is Err,
    ensures
        eqs_result(lines, n) == Err::<Seq<(int, Seq<int>)>, EqError>(
            eq_line_result(lines[i])->Err_0,
        ),
    decreases n,
{
    if n > i + 1 {
        lemma_eqs_error(lines, i, n - 1);
    }
}

/// One calibration equation.
pub struct Equation {
    pub calib: i64,
    pub operands: Vec<i64>,
}

/// The model of one equation.
pub open spec fn eq_model(e: &Equation) -> (int, Seq<int>) {
    (e.calib as int, e.operands@.map(|i: int, v: i64| v as int))
}

/// The parsed equations.
pub struct Data {
    pub equations: Vec<Equation>,
}

/// The model of the parsed equations.
pub open spec fn eqs_model(v: &Vec<Equation>) -> Seq<(int, Seq<int>)> {
    Seq::new(v@.len(), |i: int| eq_model(&v@[i]))
}

impl Data {
    /// Parse one equation per line: the calibration value closed by a
    /// colon, then the operands.  The first unreadable line decides the
    /// error.
    #[verifier::loop_isolation(false)]
    pub fn parse(input: &str) -> (res: Result<Data, EqError>)
        ensures
            ({
                let lines = spec_lines(input.spec_bytes());
                match eqs_result(lines, lines.len() as int) {
                    Ok(s) => res matches Ok(d) && eqs_model(&d.equations) == s,
                    Err(e) => res == Err::<Data, EqError>(e),
                }
            }),
    {
        let bytes = input.as_bytes();
        let rows = split_lines(bytes);
        let ghost lines = spec_lines(input.spec_bytes());
        let mut equations: Vec<Equation> = Vec::new();
        let mut li: usize = 0;
        while li < rows.len()
            invariant
                li <= rows@.len(),
                lines == lines_model(&rows),
                equations@.len() == li as int,
                eqs_result(lines, li as int) matches Ok(s) && s == eqs_model(&equations),
            decreases rows@.len() - li,
        {
            proof {
                assert(lines[li as int] == rows@[li as int]@);
            }
            let toks = split_tokens(rows[li].as_slice());
            let ghost tm = spec_tokens(rows@[li as int]@);
            if toks.len() == 0 {
                proof {
                    assert(eq_line_result(lines[li as int]) == Err::<(int, Seq<int>), EqError>(
                        EqError::MissingCalibration,
                    ));
                    lemma_eqs_error(lines, li as int, lines.len() as int);
                }
                return Err(EqError::MissingCalibration);
            }
            let head = &toks[0];
            if head.len() == 0 || head[head.len() - 1] != 58 {
                proof {
                    assert(tm[0] == head@);
                    assert(!is_calib_token(tm[0]));
                    lemma_eqs_error(lines, li as int, lines.len() as int);
                }
                return Err(EqError::InvalidCalibration);
            }
            let mut inner: Vec<u8> = Vec::new();
            let mut ci: usize = 0;
            while ci < head.len() - 1
                invariant
                    head@.len() > 0,
                    ci <= head@.len() - 1,
                    inner@ == head@.drop_last().take(ci as int),
                decreases head@.len() - ci,
            {
                inner.push(head[ci]);
                proof {
                    assert(inner@ =~= head@.drop_last().take(ci + 1));
                }
                ci = ci + 1;
            }
            proof {
                assert(inner@ =~= head@.drop_last());
            }
            let calib = match parse_i64(inner.as_slice()) {
                Some(c) => c,
                None => {
                    proof {
                        assert(tm[0] == head@);
                        assert(!is_calib_token(tm[0]));
                        lemma_eqs_error(lines, li as int, lines.len() as int);
                    }
                    return Err(EqError::InvalidCalibration);
                },
            };
            let mut operands: Vec<i64> = Vec::new();
            let mut ti: usize = 1;
            while ti < toks.len()
                invariant
                    1 <= ti <= toks@.len(),
                    tm == lines_model(&toks),
                    forall|j: int| 1 <= j < ti ==> is_i64_token(#[trigger] tm[j]),
                    operands@.len() == ti - 1,
                    forall|j: int|
                        0 <= j < ti - 1 ==> operands@[j] as int == int_token_val(
                            #[trigger] tm[j + 1],
                        ),
                decreases toks@.len() - ti,
            {
                match parse_i64(toks[ti].as_slice()) {
                    Some(v) => {
                        operands.push(v);
                    },
                    None => {
                        proof {
                            assert(!is_i64_token(tm[ti as int]));
                            assert(eq_line_result(lines[li as int]) == Err::<
                                (int, Seq<int>),
                                EqError,
                            >(EqError::InvalidOperand));
                            lemma_eqs_error(lines, li as int, lines.len() as int);
                        }
                        return Err(EqError::InvalidOperand);
                    },
                }
                ti = ti + 1;
            }
            let ghost eqs0 = eqs_model(&equations);
            equations.push(Equation { calib, operands });
            proof {
                let eq = eq_line_result(lines[li as int])->Ok_0;
                assert(eq_model(&equations@[li as int]).1 =~= eq.1);
                assert(eqs_model(&equations) =~= eqs0.push(eq));
            }
            li = li + 1;
        }
        Ok(Data { equations })
    }
}

impl Fun {
    /// Apply the operator to a running total and the next operand,
    /// exactly as the chain semantics define it: no result when it
    /// leaves `i64`.
    #[verifier::loop_isolation(false)]
    pub fn apply(&self, left: i64, right: i64) -> (res: Option<i64>)
        ensures
            ({
                match app_val(*self, left as int, right as int) {
                    Some(v) => res matches Some(r) && r as int == v,
                    None => res is None,
                }
            }),
    {
        match self {
            Fun::Add => left.checked_add(right),
            Fun::Mul => left.checked_mul(right),
            Fun::Concat => {
                if right < 0 {
                    return None;
                }
                if left == 0 {
                    proof {
                        assert(app_val(Fun::Concat, left as int, right as int) == Some(
                            right as int,
                        ));
                    }
                    return Some(right);
                }
                let mut v: i64 = left;
                let mut shift: i64 = right;
                let ghost d: nat = 0;
                proof {
                    assert(pow10(0) == 1);
                }
                loop
                    invariant
                        left != 0,
                        right >= 0,
                        shift >= 0,
                        shift > 0 || d == 0,
                        v == left * pow10(d),
                        shift == pow_shift(right as int, d),
                        in64(left * pow10(d)),
                    decreases shift,
                {
                    v = match v.checked_mul(10) {
                        Some(m) => m,
                        None => {
                            proof {
                                if shift > 0 {
                                    lemma_shift_pos(right as int, d);
                                }
                                lemma_concat_overflow(left as int, right as int, d);
                            }
                            return None;
                        },
                    };
                    proof {
                        lemma_pow_shift_step(right as int, d);
                    }
                    let next_shift = shift / 10;
                    let ghost d2 = d + 1;
                    proof {
                        assert(pow10(d2) == 10 * pow10(d));
                        assert(left * pow10(d2) == (left * pow10(d)) * 10) by (nonlinear_arith)
                            requires
                                pow10(d2) == 10 * pow10(d),
                        ;
                        d = d2;
                    }
                    shift = next_shift;
                    if shift == 0 {
                        proof {
                            lemma_shift_zero(right as int, d);
                        }
                        if left > 0 {
                            return v.checked_add(right);
                        } else {
                            return v.checked_sub(right);
                        }
                    }
                }
            },
            }
        }
    }

/// The right operand with its low `d` digits shifted away.
pub open spec fn pow_shift(r: int, d: nat) -> int
    decreases d,
{
    if d == 0 {
        r
    } else {
        pow_shift(r, (d - 1) as nat) / 10
    }
}

/// Shifting once more divides once more.
proof fn lemma_pow_shift_step(r: int, d: nat)
    ensures
        pow_shift(r, d + 1) == pow_shift(r, d) / 10,
    decreases d,
{
    if d > 0 {
        lemma_pow_shift_step(r, (d - 1) as nat);
    }
}

/// When the shifted operand reaches zero, exactly its digit count was
/// shifted away.
proof fn lemma_shift_zero(r: int, d: nat)
    requires
        r >= 0,
        d >= 1,
        pow_shift(r, d) == 0,
        pow_shift(r, (d - 1) as nat) > 0 || d == 1,
    ensures
        d == ndigits(r),
    decreases d,
{
    if d == 1 {
        assert(r / 10 == 0);
        assert(r < 10);
    } else {
        lemma_shift_d_digits(r, d);
    }
}

/// Relates the shift count to the digit count, for any positive rest.
proof fn lemma_shift_d_digits(r: int, d: nat)
    requires
        r >= 0,
        d >= 1,
        pow_shift(r, d) == 0,
        pow_shift(r, (d - 1) as nat) > 0,
    ensures
        d == ndigits(r),
    decreases d,
{
    if d == 1 {
        assert(r / 10 == 0);
    } else {
        assert(pow_shift(r, (d - 1) as nat) == pow_shift(r / 10, (d - 2) as nat)) by {
            lemma_pow_shift_front(r, (d - 1) as nat);
        }
        assert(pow_shift(r, d) == pow_shift(r / 10, (d - 1) as nat)) by {
            lemma_pow_shift_front(r, d);
        }
        lemma_shift_d_digits(r / 10, (d - 1) as nat);
        assert(r >= 10) by {
            if r < 10 {
                lemma_pow_shift_front(r, 1nat);
                assert(pow_shift(r, 1nat) == 0);
                lemma_pow_shift_zero_stays(r, 1nat, (d - 1) as nat);
            }
        }
    }
}

/// Dividing first and shifting after is shifting one more time.
proof fn lemma_pow_shift_front(r: int, d: nat)
    requires
        d >= 1,
    ensures
        pow_shift(r, d) == pow_shift(r / 10, (d - 1) as nat),
    decreases d,
{
    if d > 1 {
        lemma_pow_shift_front(r, (d - 1) as nat);
        assert(pow_shift(r, d) == pow_shift(r, (d - 1) as nat) / 10);
        assert(pow_shift(r / 10, (d - 1) as nat) == pow_shift(r / 10, (d - 2) as nat) / 10);
        assert(pow_shift(r, (d - 1) as nat) == pow_shift(r / 10, (d - 2) as nat));
    } else {
        assert(pow_shift(r, d) == pow_shift(r, (d - 1) as nat) / 10);
        assert(pow_shift(r, (d - 1) as nat) == r);
        assert(pow_shift(r / 10, (d - 1) as nat) == r / 10);
    }
}


/// A positive shifted rest means more digits remain.
proof fn lemma_shift_pos(r: int, d: nat)
    requires
        r >= 0,
        pow_shift(r, d) > 0,
    ensures
        d < ndigits(r),
    decreases d,
{
    if d > 0 {
        lemma_pow_shift_front(r, d);
        lemma_shift_pos(r / 10, (d - 1) as nat);
        assert(pow_shift(r / 10, (d - 1) as nat) > 0);
        assert(r / 10 > 0) by {
            if r / 10 <= 0 {
                lemma_pow_shift_zero_stays(r / 10, 0nat, (d - 1) as nat);
            }
        }
        assert(ndigits(r) == 1 + ndigits(r / 10));
    }
}

/// Once the shift reaches zero it stays zero.
proof fn lemma_pow_shift_zero_stays(r: int, d1: nat, d2: nat)
    requires
        r >= 0,
        d1 <= d2,
        pow_shift(r, d1) == 0,
    ensures
        pow_shift(r, d2) == 0,
    decreases d2,
{
    if d1 < d2 {
        lemma_pow_shift_zero_stays(r, d1, (d2 - 1) as nat);
    }
}

/// If an intermediate product already leaves `i64`, the final
/// concatenation leaves it too.
proof fn lemma_concat_overflow(l: int, r: int, d: nat)
    requires
        l != 0,
        r >= 0,
        in64(l * pow10(d)),
        !in64(l * pow10(d) * 10),
        d < ndigits(r),
    ensures
        app_val(Fun::Concat, l, r) is None,
{
    lemma_pow10_pos(ndigits(r));
    lemma_pow10_pos(d);
    lemma_pow10_mono(d + 1, ndigits(r));
    assert(pow10(d + 1) == pow10(d) * 10);
    if l > 0 {
        assert(l * pow10(ndigits(r)) >= l * pow10(d + 1)) by (nonlinear_arith)
            requires
                l > 0,
                pow10(ndigits(r)) >= pow10(d + 1),
        ;
        assert(l * pow10(d + 1) == l * pow10(d) * 10) by (nonlinear_arith)
            requires
                pow10(d + 1) == pow10(d) * 10,
        ;
        assert(l * pow10(ndigits(r)) + r > i64::MAX);
    } else {
        assert(l * pow10(ndigits(r)) <= l * pow10(d + 1)) by (nonlinear_arith)
            requires
                l < 0,
                pow10(ndigits(r)) >= pow10(d + 1),
        ;
        assert(l * pow10(d + 1) == l * pow10(d) * 10) by (nonlinear_arith)
            requires
                pow10(d + 1) == pow10(d) * 10,
        ;
        assert(l * pow10(d) * 10 < 0) by (nonlinear_arith)
            requires
                l < 0,
                pow10(d) >= 1,
        ;
        assert(l * pow10(ndigits(r)) - r < i64::MIN);
    }
}

/// Ten to any power is positive.
proof fn lemma_pow10_pos(d: nat)
    ensures
        pow10(d) >= 1,
    decreases d,
{
    if d > 0 {
        lemma_pow10_pos((d - 1) as nat);
    }
}

/// Ten to a higher power is no smaller.
proof fn lemma_pow10_mono(d1: nat, d2: nat)
    requires
        d1 <= d2,
    ensures
        pow10(d1) <= pow10(d2),
    decreases d2,
{
    if d1 < d2 {
        lemma_pow10_mono(d1, (d2 - 1) as nat);
        lemma_pow10_pos(d1);
        assert(pow10(d2) == 10 * pow10((d2 - 1) as nat));
        lemma_pow10_pos((d2 - 1) as nat);
    }
}


/// Whether the value stands in the list.
pub open spec fn has_val(s: Seq<i64>, v: int) -> bool {
    exists|j: int| 0 <= j < s.len() && #[trigger] s[j] == v
}

/// Whether the value stands in the list.
fn contains_i64(s: &Vec<i64>, x: i64) -> (b: bool)
    ensures
        b == has_val(s@, x as int),
{
    let mut i: usize = 0;
    while i < s.len()
        invariant
            i <= s@.len(),
            forall|j: int| 0 <= j < i ==> #[trigger] s@[j] != x,
        decreases s@.len() - i,
    {
        if s[i] == x {
            return true;
        }
        i = i + 1;
    }
    false
}

impl Equation {
    /// Whether some left-to-right chain of the allowed operators over
    /// the operands reaches the calibration value.
    #[verifier::loop_isolation(false)]
    pub fn could_be_true(&self, fs: &[Fun]) -> (b: bool)
        ensures
            b == spec_could_be_true(self.calib as int, eq_model(self).1, fs@),
    {
        let ghost ops = eq_model(self).1;
        if self.operands.len() < 2 {
            return false;
        }
        let mut totals: Vec<i64> = Vec::new();
        totals.push(self.operands[0]);
        proof {
            assert(ops[0] == self.operands@[0] as int);
            assert forall|v: int| has_val(totals@, v) <==> reach_set(ops, 1, fs@).contains(v) by {
                if has_val(totals@, v) {
                    assert(totals@[0] == v);
                }
                if reach_set(ops, 1, fs@).contains(v) {
                    assert(totals@[0] as int == v);
                }
            }
        }
        let mut oi: usize = 1;
        while oi < self.operands.len()
            invariant
                1 <= oi <= self.operands@.len(),
                forall|v: int| has_val(totals@, v) <==> reach_set(ops, oi as int, fs@).contains(v),
            decreases self.operands@.len() - oi,
        {
            let op = self.operands[oi];
            proof {
                assert(ops[oi as int] == op as int);
            }
            let mut next: Vec<i64> = Vec::new();
            let mut ti: usize = 0;
            while ti < totals.len()
                invariant
                    ti <= totals@.len(),
                    forall|v: int|
                        has_val(next@, v) ==> reach_set(ops, oi + 1, fs@).contains(v),
                    forall|a: int, fi: int|
                        0 <= a < ti && 0 <= fi < fs@.len() ==> (match app_val(
                            #[trigger] fs@[fi],
                            #[trigger] totals@[a] as int,
                            op as int,
                        ) {
                            Some(v) => has_val(next@, v),
                            None => true,
                        }),
                decreases totals@.len() - ti,
            {
                let t = totals[ti];
                let mut fi: usize = 0;
                while fi < fs.len()
                    invariant
                        fi <= fs@.len(),
                        ti < totals@.len(),
                        t == totals@[ti as int],
                        forall|v: int|
                            has_val(next@, v) ==> reach_set(ops, oi + 1, fs@).contains(v),
                        forall|a: int, f2: int|
                            0 <= a < ti && 0 <= f2 < fs@.len() ==> (match app_val(
                                #[trigger] fs@[f2],
                                #[trigger] totals@[a] as int,
                                op as int,
                            ) {
                                Some(v) => has_val(next@, v),
                                None => true,
                            }),
                        forall|f2: int|
                            0 <= f2 < fi ==> (match app_val(
                                #[trigger] fs@[f2],
                                t as int,
                                op as int,
                            ) {
                                Some(v) => has_val(next@, v),
                                None => true,
                            }),
                    decreases fs@.len() - fi,
                {
                    let ghost pre = next@;
                    match fs[fi].apply(t, op) {
                        Some(v) => {
                            if !contains_i64(&next, v) {
                                next.push(v);
                                proof {
                                    assert(has_val(totals@, t as int));
                                    assert(reach_set(ops, oi as int, fs@).contains(t as int));
                                    assert(app_val(fs@[fi as int], t as int, op as int)
                                        == Some(v as int));
                                    assert(reach_set(ops, oi + 1, fs@).contains(v as int));
                                    assert(next@[next@.len() - 1] == v);
                                    assert(has_val(next@, v as int));
                                    assert forall|w: int| has_val(next@, w) implies reach_set(
                                        ops,
                                        oi + 1,
                                        fs@,
                                    ).contains(w) by {
                                        let j = choose|j: int|
                                            0 <= j < next@.len() && #[trigger] next@[j] == w;
                                        if j < pre.len() {
                                            assert(pre[j] == w);
                                            assert(has_val(pre, w));
                                        }
                                    }
                                }
                            }
                        },
                        None => {},
                    }
                    proof {
                        assert forall|w: int| has_val(pre, w) implies has_val(next@, w) by {
                            let j = choose|j: int| 0 <= j < pre.len() && #[trigger] pre[j] == w;
                            assert(next@[j] == w);
                        }
                        assert(match app_val(fs@[fi as int], t as int, op as int) {
                            Some(v) => has_val(next@, v),
                            None => true,
                        });
                    }
                    fi = fi + 1;
                }
                ti = ti + 1;
            }
            proof {
                assert forall|v: int|
                    has_val(next@, v) <==> reach_set(ops, oi + 1, fs@).contains(v) by {
                    if reach_set(ops, oi + 1, fs@).contains(v) {
                        let (t, fi) = choose|t: int, fi: int|
                            #![trigger app_val(fs@[fi], t, ops[oi as int])]
                            reach_set(ops, oi as int, fs@).contains(t) && 0 <= fi < fs@.len()
                                && app_val(fs@[fi], t, ops[oi as int]) == Some(v);
                        assert(has_val(totals@, t));
                        let a = choose|a: int|
                            0 <= a < totals@.len() && #[trigger] totals@[a] == t;
                        assert(match app_val(fs@[fi], totals@[a] as int, op as int) {
                            Some(w) => has_val(next@, w),
                            None => true,
                        });
                    }
                }
            }
            totals = next;
            oi = oi + 1;
        }
        let hit = contains_i64(&totals, self.calib);
        proof {
            assert(oi as int == ops.len());
        }
        hit
    }
}

/// The sum of the calibration values among the first `i` equations that
/// could be true with the allowed operators.
pub open spec fn calib_sum(eqs: Seq<(int, Seq<int>)>, i: int, fs: Seq<Fun>) -> int
    decreases i,
{
    if i <= 0 {
        0
    } else {
        calib_sum(eqs, i - 1, fs) + if spec_could_be_true(eqs[i - 1].0, eqs[i - 1].1, fs) {
            eqs[i - 1].0
        } else {
            0
        }
    }
}

/// Every prefix of the calibration sum stays within `i64`.
pub open spec fn calib_sum_ok(eqs: Seq<(int, Seq<int>)>, fs: Seq<Fun>) -> bool {
    forall|i: int| 0 <= i <= eqs.len() ==> in64(#[trigger] calib_sum(eqs, i, fs))
}

/// Sum the calibration values of the equations that could be true.
#[verifier::loop_isolation(false)]
pub fn sum_of_possible_calibs(eqs: &Vec<Equation>, fs: &[Fun]) -> (n: i64)
    requires
        calib_sum_ok(eqs_model(eqs), fs@),
    ensures
        n == calib_sum(eqs_model(eqs), eqs@.len() as int, fs@),
{
    let ghost em = eqs_model(eqs);
    let mut n: i64 = 0;
    let mut i: usize = 0;
    while i < eqs.len()
        invariant
            i <= eqs@.len(),
            n == calib_sum(em, i as int, fs@),
        decreases eqs@.len() - i,
    {
        proof {
            assert(em[i as int] == eq_model(&eqs@[i as int]));
            assert(in64(calib_sum(em, i + 1, fs@)));
        }
        if eqs[i].could_be_true(fs) {
            n = n + eqs[i].calib;
        }
        i = i + 1;
    }
    n
}

impl Data {
    /// Sum the calibration values reachable with addition and
    /// multiplication.
    pub fn solve1(&self) -> (n: i64)
        requires
            calib_sum_ok(eqs_model(&self.equations), seq![Fun::Add, Fun::Mul]),
        ensures
            n == calib_sum(
                eqs_model(&self.equations),
                self.equations@.len() as int,
                seq![Fun::Add, Fun::Mul],
            ),
    {
        let mut fs: Vec<Fun> = Vec::new();
        fs.push(Fun::Add);
        fs.push(Fun::Mul);
        proof {
            assert(fs@ =~= seq![Fun::Add, Fun::Mul]);
        }
        sum_of_possible_calibs(&self.equations, fs.as_slice())
    }

    /// Sum the calibration values reachable with addition,
    /// multiplication and digit concatenation.
    pub fn solve2(&self) -> (n: i64)
        requires
            calib_sum_ok(eqs_model(&self.equations), seq![Fun::Add, Fun::Mul, Fun::Concat]),
        ensures
            n == calib_sum(
                eqs_model(&self.equations),
                self.equations@.len() as int,
                seq![Fun::Add, Fun::Mul, Fun::Concat],
            ),
    {
        let mut fs: Vec<Fun> = Vec::new();
        fs.push(Fun::Add);
        fs.push(Fun::Mul);
        fs.push(Fun::Concat);
        proof {
            assert(fs@ =~= seq![Fun::Add, Fun::Mul, Fun::Concat]);
        }
        sum_of_possible_calibs(&self.equations, fs.as_slice())
    }
}

} // verus!
