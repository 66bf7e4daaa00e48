//! The location-list puzzle: two columns of location identifiers.  Part
//! one pairs them smallest-with-smallest and sums the distances; part
//! two scores each left entry by its frequency on the right.

use vstd::prelude::*;
use vstd::string::StringSliceAdditionalSpecFns;

use crate::text::i32_values;
use crate::text::lines_model;
use crate::text::parse_i32;
use crate::text::spec_lines;
use crate::text::spec_tokens;
use crate::text::split_lines;
use crate::text::split_tokens;

verus! {

/// Why a line was rejected: it must hold exactly two readable values.
#[derive(Debug, PartialEq, Eq, Structural)]
pub enum PairError {
    BadLine,
}

/// What the first `i` lines yield: the two columns, or a rejection at
/// the first line without exactly two readable values.
pub open spec fn pairs_result(lines: Seq<Seq<u8>>, i: int) -> Result<Seq<(i32, i32)>, PairError>
    decreases i,
{
    if i <= 0 {
        Ok(Seq::empty())
    } else {
        match pairs_result(lines, i - 1) {
            Err(e) => Err(e),
            Ok(s) => {
                let vals = i32_values(spec_tokens(lines[i - 1]));
                if vals.len() == 2 {
                    Ok(s.push((vals[0], vals[1])))
                } else {
                    Err(PairError::BadLine)
                }
            },
        }
    }
}

/// Inserting a value into a sorted run keeps it sorted.
pub open spec fn insert_sorted(x: i32, s: Seq<i32>) -> Seq<i32>
    decreases s.len(),
{
    if s.len() == 0 {
        seq![x]
    } else if x <= s[0] {
        seq![x] + s
    } else {
        seq![s[0]] + insert_sorted(x, s.drop_first())
    }
}

/// The ascending rearrangement of a list, built by insertion.
pub open spec fn sort_spec(s: Seq<i32>) -> Seq<i32>
    decreases s.len(),
{
    if s.len() == 0 {
        Seq::empty()
    } else {
        insert_sorted(s.last(), sort_spec(s.drop_last()))
    }
}

/// The distance of two values.
pub open spec fn dist(a: i32, b: i32) -> int {
    if a <= b {
        b - a
    } else {
        a - b
    }
}

/// The summed distances of the first `i` sorted pairs.
pub open spec fn dist_sum(ls: Seq<i32>, rs: Seq<i32>, i: int) -> int
    decreases i,
{
    if i <= 0 {
        0
    } else {
        dist_sum(ls, rs, i - 1) + dist(ls[i - 1], rs[i - 1])
    }
}

/// How often `x` occurs in the list.
pub open spec fn occ(s: Seq<i32>, x: i32) -> nat
    decreases s.len(),
{
    if s.len() == 0 {
        0
    } else {
        occ(s.drop_last(), x) + if s.last() == x {
            1nat
        } else {
            0nat
        }
    }
}

/// The similarity score of the first `i` left entries: each times its
/// frequency on the right.
pub open spec fn sim_sum(left: Seq<i32>, right: Seq<i32>, i: int) -> int
    decreases i,
{
    if i <= 0 {
        0
    } else {
        sim_sum(left, right, i - 1) + left[i - 1] * occ(right, left[i - 1])
    }
}

/// The two location columns.
pub struct Data {
    pub left: Vec<i32>,
    pub right: Vec<i32>,
}

/// The smaller of two lengths.
pub open spec fn min_len(a: int, b: int) -> int {
    if a <= b {
        a
    } else {
        b
    }
}

/// A partial distance sum never exceeds the whole, term by term.
proof fn lemma_dist_sum_mono(ls: Seq<i32>, rs: Seq<i32>, i: int, n: int)
    requires
        0 <= i <= n,
    ensures
        dist_sum(ls, rs, i) <= dist_sum(ls, rs, n),
    decreases n,
{
    if i < n {
        lemma_dist_sum_mono(ls, rs, i, n - 1);
    }
}

/// Sort a list of values ascending, by insertion.
#[verifier::loop_isolation(false)]
fn sort_values(s: &Vec<i32>) -> (out: Vec<i32>)
    ensures
        out@ == sort_spec(s@),
{
    let mut out: Vec<i32> = Vec::new();
    let mut i: usize = 0;
    while i < s.len()
        invariant
            i <= s@.len(),
            out@ == sort_spec(s@.take(i as int)),
        decreases s@.len() - i,
    {
        let x = s[i];
        let mut j: usize = 0;
        while j < out.len() && out[j] < x
            invariant
                j <= out@.len(),
                forall|m: int| 0 <= m < j ==> #[trigger] out@[m] < x,
            decreases out@.len() - j,
        {
            j = j + 1;
        }
        let ghost pre = out@;
        out.insert(j, x);
        proof {
            lemma_insert_at_first_fit(x, pre, j as int);
            assert(out@ =~= pre.take(j as int) + seq![x] + pre.skip(j as int));
            assert(s@.take(i + 1).drop_last() =~= s@.take(i as int));
        }
        i = i + 1;
    }
    proof {
        assert(s@.take(s@.len() as int) =~= s@);
    }
    out
}

/// Inserting at the first position whose value is no smaller is what
/// the insertion spec does.
proof fn lemma_insert_at_first_fit(x: i32, s: Seq<i32>, j: int)
    requires
        0 <= j <= s.len(),
        forall|m: int| 0 <= m < j ==> #[trigger] s[m] < x,
        j < s.len() ==> s[j] >= x,
    ensures
        insert_sorted(x, s) == s.take(j) + seq![x] + s.skip(j),
    decreases j,
{
    if j == 0 {
        if s.len() == 0 {
            assert(insert_sorted(x, s) =~= s.take(0) + seq![x] + s.skip(0));
        } else {
            assert(insert_sorted(x, s) =~= s.take(0) + seq![x] + s.skip(0));
        }
    } else {
        lemma_insert_at_first_fit(x, s.drop_first(), j - 1);
        assert(s[0] < x);
        assert(insert_sorted(x, s) == seq![s[0]] + insert_sorted(x, s.drop_first()));
        assert(s.drop_first().take(j - 1) =~= s.take(j).drop_first());
        assert(s.drop_first().skip(j - 1) =~= s.skip(j));
        assert(seq![s[0]] + (s.take(j).drop_first() + seq![x] + s.skip(j)) =~= s.take(j) + seq![
            x,
        ] + s.skip(j));
    }
}

impl Data {
    /// Parse one pair of values per line; a line without exactly two
    /// readable values rejects the whole input.
    #[verifier::loop_isolation(false)]
    pub fn parse(input: &str) -> (res: Result<Data, PairError>)
        ensures
            ({
                let lines = spec_lines(input.spec_bytes());
                match pairs_result(lines, lines.len() as int) {
                    Ok(s) => res matches Ok(d) && d.left@.len() == s.len() && d.right@.len()
                        == s.len() && (forall|j: int|
                        0 <= j < s.len() ==> d.left@[j] == (#[trigger] s[j]).0 && d.right@[j]
                            == s[j].1),
                    Err(e) => res == Err::<Data, PairError>(e),
                }
            }),
    {
        let bytes = input.as_bytes();
        let rows = split_lines(bytes);
        let ghost lines = spec_lines(input.spec_bytes());
        let mut left: Vec<i32> = Vec::new();
        let mut right: Vec<i32> = Vec::new();
        let mut li: usize = 0;
        while li < rows.len()
            invariant
                li <= rows@.len(),
                lines == lines_model(&rows),
                left@.len() == li as int,
                right@.len() == li as int,
                pairs_result(lines, li as int) matches Ok(s) && s.len() == li as int && forall|
                    j: int,
                |
                    0 <= j < li ==> left@[j] == (#[trigger] s[j]).0 && right@[j] == s[j].1,
            decreases rows@.len() - li,
        {
            proof {
                assert(lines[li as int] == rows@[li as int]@);
            }
            let toks = split_tokens(rows[li].as_slice());
            let ghost tm = spec_tokens(rows@[li as int]@);
            let mut vals: Vec<i32> = Vec::new();
            let mut ti: usize = 0;
            while ti < toks.len()
                invariant
                    ti <= toks@.len(),
                    tm == lines_model(&toks),
                    vals@ == i32_values(tm.take(ti as int)),
                decreases toks@.len() - ti,
            {
                proof {
                    assert(tm.take(ti + 1).drop_last() =~= tm.take(ti as int));
                    assert(tm.take(ti + 1).last() == toks@[ti as int]@);
                }
                match parse_i32(toks[ti].as_slice()) {
                    Some(v) => {
                        vals.push(v);
                        proof {
                            assert(vals@ =~= i32_values(tm.take(ti + 1)));
                        }
                    },
                    None => {
                        proof {
                            assert(vals@ =~= i32_values(tm.take(ti + 1)));
                        }
                    },
                }
                ti = ti + 1;
            }
            proof {
                assert(tm.take(tm.len() as int) =~= tm);
            }
            if vals.len() != 2 {
                proof {
                    lemma_pairs_error(lines, li as int, lines.len() as int);
                }
                return Err(PairError::BadLine);
            }
            left.push(vals[0]);
            right.push(vals[1]);
            li = li + 1;
        }
        Ok(Data { left, right })
    }

    /// Pair the two columns smallest-with-smallest and sum the
    /// distances of the pairs.
    #[verifier::loop_isolation(false)]
    pub fn solve1(&self) -> (n: u32)
        requires
            dist_sum(
                sort_spec(self.left@),
                sort_spec(self.right@),
                min_len(self.left@.len() as int, self.right@.len() as int),
            ) <= u32::MAX,
        ensures
            n == dist_sum(
                sort_spec(self.left@),
                sort_spec(self.right@),
                min_len(self.left@.len() as int, self.right@.len() as int),
            ),
    {
        let ls = sort_values(&self.left);
        let rs = sort_values(&self.right);
        let m = if ls.len() <= rs.len() {
            ls.len()
        } else {
            rs.len()
        };
        proof {
            lemma_sort_len(self.left@);
            lemma_sort_len(self.right@);
        }
        let mut n: u32 = 0;
        let mut i: usize = 0;
        while i < m
            invariant
                i <= m,
                m == min_len(self.left@.len() as int, self.right@.len() as int),
                ls@ == sort_spec(self.left@),
                rs@ == sort_spec(self.right@),
                m <= ls@.len() && m <= rs@.len(),
                n == dist_sum(ls@, rs@, i as int),
            decreases m - i,
        {
            proof {
                lemma_dist_sum_mono(ls@, rs@, i + 1, m as int);
            }
            let l = ls[i];
            let r = rs[i];
            let d: u32 = if l <= r {
                (r as i64 - l as i64) as u32
            } else {
                (l as i64 - r as i64) as u32
            };
            n = n + d;
            i = i + 1;
        }
        n
    }
}

/// Sorting keeps the length.
proof fn lemma_sort_len(s: Seq<i32>)
    ensures
        sort_spec(s).len() == s.len(),
    decreases s.len(),
{
    if s.len() > 0 {
        lemma_sort_len(s.drop_last());
        lemma_insert_len(s.last(), sort_spec(s.drop_last()));
    }
}

/// Inserting grows the run by one.
proof fn lemma_insert_len(x: i32, s: Seq<i32>)
    ensures
        insert_sorted(x, s).len() == s.len() + 1,
    decreases s.len(),
{
    if s.len() > 0 && x > s[0] {
        lemma_insert_len(x, s.drop_first());
    }
}

/// Once one line is rejected, the whole text is rejected.
proof fn lemma_pairs_error(lines: Seq<Seq<u8>>, i: int, n: int)
    requires
        0 <= i < n,
        pairs_result(lines, i) is Ok,
        i32_values(spec_tokens(lines[i])).len() != 2,
    ensures
        pairs_result(lines, n) == Err::<Seq<(i32, i32)>, PairError>(PairError::BadLine),
    decreases n,
{
    if n > i + 1 {
        lemma_pairs_error(lines, i, n - 1);
    }
}


/// How often `x` stands in the list.
#[verifier::loop_isolation(false)]
fn count_occ(s: &Vec<i32>, x: i32) -> (c: usize)
    ensures
        c == occ(s@, x),
{
    let mut c: usize = 0;
    let mut i: usize = 0;
    while i < s.len()
        invariant
            i <= s@.len(),
            c <= i,
            c == occ(s@.take(i as int), x),
        decreases s@.len() - i,
    {
        proof {
            assert(s@.take(i + 1).drop_last() =~= s@.take(i as int));
        }
        if s[i] == x {
            c = c + 1;
        }
        i = i + 1;
    }
    proof {
        assert(s@.take(s@.len() as int) =~= s@);
    }
    c
}

/// Every step of the similarity score stays within `i32`: each left
/// entry's frequency and term, and every partial sum.
pub open spec fn sim_sum_ok(left: Seq<i32>, right: Seq<i32>) -> bool {
    forall|j: int|
        0 <= j < left.len() ==> occ(right, #[trigger] left[j]) <= i32::MAX && i32::MIN <= left[j]
            * occ(right, left[j]) <= i32::MAX && i32::MIN <= sim_sum(left, right, j + 1)
            <= i32::MAX
}

impl Data {
    /// Score each left entry by how often it stands on the right, and
    /// sum the scores.
    #[verifier::loop_isolation(false)]
    pub fn solve2(&self) -> (n: i32)
        requires
            sim_sum_ok(self.left@, self.right@),
        ensures
            n == sim_sum(self.left@, self.right@, self.left@.len() as int),
    {
        let mut n: i32 = 0;
        let mut i: usize = 0;
        while i < self.left.len()
            invariant
                i <= self.left@.len(),
                n == sim_sum(self.left@, self.right@, i as int),
            decreases self.left@.len() - i,
        {
            let x = self.left[i];
            let c = count_occ(&self.right, x);
            proof {
                assert(occ(self.right@, self.left@[i as int]) <= i32::MAX);
                assert(i32::MIN <= sim_sum(self.left@, self.right@, i + 1) <= i32::MAX);
            }
            n = n + x * (c as i32);
            i = i + 1;
        }
        n
    }
}

} // verus!
