//! The reactor-report puzzle: each input line is a report of integer
//! levels.  A report is safe when its steps are all gentle (between one
//! and three apart) and all in one direction; part two tolerates one
//! removed level.

use vstd::prelude::*;
use vstd::string::StringSliceAdditionalSpecFns;

use crate::text::i32_values;
use crate::text::lines_model;
use crate::text::parse_i32;
use crate::text::spec_lines;
use crate::text::spec_tokens;
use crate::text::split_lines;
use crate::text::split_tokens;

verus! {

/// The mathematical model of the parsed reports.
pub open spec fn reports_model(v: &Vec<Vec<i32>>) -> Seq<Seq<i32>> {
    Seq::new(v@.len(), |i: int| v@[i]@)
}

/// The reports of the whole text, one per line.
pub open spec fn spec_reports(b: Seq<u8>) -> Seq<Seq<i32>> {
    Seq::new(spec_lines(b).len(), |i: int| i32_values(spec_tokens(spec_lines(b)[i])))
}

/// Every step lies between one and three apart.
pub open spec fn all_gentle(r: Seq<i32>) -> bool {
    forall|i: int|
        0 <= i < r.len() - 1 ==> {
            let d = r[i + 1] - #[trigger] r[i];
            (1 <= d && d <= 3) || (-3 <= d && d <= -1)
        }
}

/// Every step increases.
pub open spec fn all_increasing(r: Seq<i32>) -> bool {
    forall|i: int| 0 <= i < r.len() - 1 ==> r[i + 1] - #[trigger] r[i] > 0
}

/// Every step decreases.
pub open spec fn all_decreasing(r: Seq<i32>) -> bool {
    forall|i: int| 0 <= i < r.len() - 1 ==> r[i + 1] - #[trigger] r[i] < 0
}

/// A safe report: gentle steps, all in one direction.
pub open spec fn spec_safe(r: Seq<i32>) -> bool {
    all_gentle(r) && (all_increasing(r) || all_decreasing(r))
}

/// A report the problem dampener accepts: safe as it stands, or safe
/// after removing one level.
pub open spec fn dampened_safe(r: Seq<i32>) -> bool {
    spec_safe(r) || exists|j: int| 0 <= j < r.len() && spec_safe(r.remove(j))
}

/// How many of the first `i` reports the predicate of the part accepts.
pub open spec fn safe_count(rs: Seq<Seq<i32>>, i: int, dampened: bool) -> nat
    decreases i,
{
    if i <= 0 {
        0
    } else {
        safe_count(rs, i - 1, dampened) + if (dampened && dampened_safe(rs[i - 1])) || (!dampened
            && spec_safe(rs[i - 1])) {
            1nat
        } else {
            0nat
        }
    }
}

/// Whether the report is safe.
#[verifier::loop_isolation(false)]
pub fn is_safe(report: &Vec<i32>) -> (b: bool)
    ensures
        b == spec_safe(report@),
{
    let mut gentle: bool = true;
    let mut inc: bool = true;
    let mut dec: bool = true;
    let mut i: usize = 0;
    let n = report.len();
    if n == 0 {
        return true;
    }
    while i < n - 1
        invariant
            n == report@.len(),
            n > 0,
            i <= n - 1,
            gentle == forall|j: int|
                0 <= j < i ==> {
                    let d = report@[j + 1] - #[trigger] report@[j];
                    (1 <= d && d <= 3) || (-3 <= d && d <= -1)
                },
            inc == forall|j: int| 0 <= j < i ==> report@[j + 1] - #[trigger] report@[j] > 0,
            dec == forall|j: int| 0 <= j < i ==> report@[j + 1] - #[trigger] report@[j] < 0,
        decreases report@.len() - i,
    {
        let d: i64 = report[i + 1] as i64 - report[i] as i64;
        let step_gentle = (1 <= d && d <= 3) || (-3 <= d && d <= -1);
        gentle = gentle && step_gentle;
        inc = inc && d > 0;
        dec = dec && d < 0;
        i = i + 1;
    }
    gentle && (inc || dec)
}

/// The parsed reports.
pub struct Data {
    pub reports: Vec<Vec<i32>>,
}

impl Data {
    /// Parse one report per line: every whitespace-separated token that
    /// reads as an `i32` is a level; anything else is skipped.
    #[verifier::loop_isolation(false)]
    pub fn parse(input: &str) -> (d: Data)
        ensures
            reports_model(&d.reports) == spec_reports(input.spec_bytes()),
    {
        let bytes = input.as_bytes();
        let rows = split_lines(bytes);
        let ghost target = spec_reports(input.spec_bytes());
        let mut reports: Vec<Vec<i32>> = Vec::new();
        let mut li: usize = 0;
        while li < rows.len()
            invariant
                li <= rows@.len(),
                lines_model(&rows) == spec_lines(input.spec_bytes()),
                reports@.len() == li as int,
                forall|l: int| 0 <= l < li ==> (#[trigger] reports@[l])@ == target[l],
            decreases rows@.len() - li,
        {
            let toks = split_tokens(rows[li].as_slice());
            proof {
                assert(rows@[li as int]@ == lines_model(&rows)[li as int]);
            }
            let ghost tm = spec_tokens(rows@[li as int]@);
            let mut row: Vec<i32> = Vec::new();
            let mut ti: usize = 0;
            while ti < toks.len()
                invariant
                    ti <= toks@.len(),
                    lines_model(&toks) == tm,
                    row@ == i32_values(tm.take(ti as int)),
                decreases toks@.len() - ti,
            {
                proof {
                    assert(tm.take(ti + 1).drop_last() =~= tm.take(ti as int));
                    assert(tm.take(ti + 1).last() == toks@[ti as int]@);
                }
                match parse_i32(toks[ti].as_slice()) {
                    Some(v) => {
                        row.push(v);
                        proof {
                            assert(row@ =~= i32_values(tm.take(ti + 1)));
                        }
                    },
                    None => {
                        proof {
                            assert(row@ =~= i32_values(tm.take(ti + 1)));
                        }
                    },
                }
                ti = ti + 1;
            }
            proof {
                assert(tm.take(tm.len() as int) =~= tm);
                assert(row@ == target[li as int]);
            }
            reports.push(row);
            li = li + 1;
        }
        Data { reports }
    }

    /// Count the safe reports.
    #[verifier::loop_isolation(false)]
    pub fn solve1(&self) -> (n: usize)
        ensures
            n == safe_count(reports_model(&self.reports), self.reports@.len() as int, false),
    {
        let ghost rs = reports_model(&self.reports);
        let mut n: usize = 0;
        let mut i: usize = 0;
        while i < self.reports.len()
            invariant
                i <= self.reports@.len(),
                n <= i,
                n == safe_count(rs, i as int, false),
            decreases self.reports@.len() - i,
        {
            proof {
                assert(rs[i as int] == self.reports@[i as int]@);
            }
            if is_safe(&self.reports[i]) {
                n = n + 1;
            }
            i = i + 1;
        }
        n
    }

    /// Count the reports the problem dampener accepts: safe as they
    /// stand, or safe once one level is removed.
    #[verifier::loop_isolation(false)]
    pub fn solve2(&self) -> (n: usize)
        ensures
            n == safe_count(reports_model(&self.reports), self.reports@.len() as int, true),
    {
        let ghost rs = reports_model(&self.reports);
        let mut n: usize = 0;
        let mut i: usize = 0;
        while i < self.reports.len()
            invariant
                i <= self.reports@.len(),
                n <= i,
                n == safe_count(rs, i as int, true),
            decreases self.reports@.len() - i,
        {
            proof {
                assert(rs[i as int] == self.reports@[i as int]@);
            }
            let report = &self.reports[i];
            let mut accepted = is_safe(report);
            let mut j: usize = 0;
            while !accepted && j < report.len()
                invariant
                    j <= report@.len(),
                    accepted ==> dampened_safe(report@),
                    !accepted ==> !spec_safe(report@) && forall|jj: int|
                        0 <= jj < j ==> !spec_safe(report@.remove(jj)),
                decreases report@.len() - j + (if accepted {
                    0int
                } else {
                    1int
                }),
            {
                let mut reduced: Vec<i32> = Vec::new();
                let mut m: usize = 0;
                while m < report.len()
                    invariant
                        m <= report@.len(),
                        j < report@.len(),
                        j < report@.len() ==> reduced@ == if m <= j {
                            report@.take(m as int)
                        } else {
                            report@.remove(j as int).take((m - 1) as int)
                        },
                    decreases report@.len() - m,
                {
                    if m != j {
                        reduced.push(report[m]);
                    }
                    proof {
                        if m < j {
                            assert(reduced@ =~= report@.take(m + 1));
                        } else if m == j {
                            assert(reduced@ =~= report@.remove(j as int).take(j as int));
                        } else {
                            assert(reduced@ =~= report@.remove(j as int).take(m as int));
                        }
                    }
                    m = m + 1;
                }
                proof {
                    assert(reduced@ =~= report@.remove(j as int));
                }
                if is_safe(&reduced) {
                    accepted = true;
                } else {
                    j = j + 1;
                }
            }
            if accepted {
                proof {
                    assert(dampened_safe(rs[i as int]));
                }
                n = n + 1;
            } else {
                proof {
                    assert(!dampened_safe(rs[i as int]));
                }
            }
            i = i + 1;
        }
        n
    }
}

} // verus!
