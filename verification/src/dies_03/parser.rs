//! A scanning parser for the instruction stream: it skips noise, reads a
//! keyword candidate, and recognises `do()`, `don't()` and `mul(a,b)`
//! occurrences, resuming after whatever it could not use.

use vstd::prelude::*;
use vstd::string::StringSliceAdditionalSpecFns;

use super::Ix;

verus! {

/// The keyword bytes: every byte that occurs in `don't` or `mul`.
pub open spec fn is_key(c: u8) -> bool {
    c == 100 || c == 111 || c == 110 || c == 39 || c == 116 || c == 109 || c == 117 || c == 108
}

/// Whether the byte is an ASCII decimal digit.
pub open spec fn is_digit(c: u8) -> bool {
    48 <= c <= 57
}

/// The decimal value of a digit string, most significant digit first.
pub open spec fn dec_val(s: Seq<u8>) -> int
    decreases s.len(),
{
    if s.len() == 0 {
        0
    } else {
        dec_val(s.drop_last()) * 10 + (s.last() - 48)
    }
}

/// The first position at or after `p` holding a keyword byte, or the end.
pub open spec fn non_key_end(b: Seq<u8>, p: int) -> int
    decreases b.len() - p,
{
    if p < 0 || p >= b.len() {
        b.len() as int
    } else if is_key(b[p]) {
        p
    } else {
        non_key_end(b, p + 1)
    }
}

/// The first position at or after `p` holding a non-keyword byte, or the end.
pub open spec fn key_end(b: Seq<u8>, p: int) -> int
    decreases b.len() - p,
{
    if p < 0 || p >= b.len() {
        b.len() as int
    } else if !is_key(b[p]) {
        p
    } else {
        key_end(b, p + 1)
    }
}

/// The first position at or after `p` holding a non-digit byte, or the end.
pub open spec fn num_end(b: Seq<u8>, p: int) -> int
    decreases b.len() - p,
{
    if p < 0 || p >= b.len() {
        b.len() as int
    } else if !is_digit(b[p]) {
        p
    } else {
        num_end(b, p + 1)
    }
}

/// Whether `s` ends with `suffix`.
pub open spec fn ends_with(s: Seq<u8>, suffix: Seq<u8>) -> bool {
    s.len() >= suffix.len() && s.subrange(s.len() - suffix.len(), s.len() as int) == suffix
}

/// What reading one number at `p` yields: the position after the digits
/// read, and the value, if any.  There is a value only when a non-digit
/// byte follows at least one digit and the value fits the result type.
pub open spec fn spec_num(b: Seq<u8>, p: int) -> (int, Option<i32>) {
    let q = num_end(b, p);
    if q >= b.len() || q == p || dec_val(b.subrange(p, q)) > i32::MAX {
        (q, None)
    } else {
        (q, Some(dec_val(b.subrange(p, q)) as i32))
    }
}

/// What consuming one expected byte at `p` yields.
pub open spec fn spec_consume(b: Seq<u8>, p: int, c: u8) -> (int, bool) {
    if 0 <= p < b.len() && b[p] == c {
        (p + 1, true)
    } else {
        (p, false)
    }
}

/// What consuming the unit suffix `()` at `p` yields.
pub open spec fn spec_unit(b: Seq<u8>, p: int) -> (int, bool) {
    let (p1, ok1) = spec_consume(b, p, 40);
    if !ok1 {
        (p1, false)
    } else {
        spec_consume(b, p1, 41)
    }
}

/// What one scanning step at `p` yields: the resume position, and the
/// instruction recognised there, if any.
pub open spec fn spec_ix(b: Seq<u8>, p: int) -> (int, Option<Ix>) {
    let p1 = non_key_end(b, p);
    if p1 >= b.len() {
        (p1, None)
    } else {
        let p2 = key_end(b, p1);
        if p2 >= b.len() {
            (p2, None)
        } else {
            let key = b.subrange(p1, p2);
            if ends_with(key, seq![100u8, 111u8]) {
                let (p3, ok) = spec_unit(b, p2);
                if ok {
                    (p3, Some(Ix::Do))
                } else {
                    (p3, None)
                }
            } else if ends_with(key, seq![100u8, 111u8, 110u8, 39u8, 116u8]) {
                let (p3, ok) = spec_unit(b, p2);
                if ok {
                    (p3, Some(Ix::Dont))
                } else {
                    (p3, None)
                }
            } else if ends_with(key, seq![109u8, 117u8, 108u8]) {
                let (p3, ok) = spec_consume(b, p2, 40);
                if !ok {
                    (p3, None)
                } else {
                    match spec_num(b, p3) {
                        (p4, None) => (p4, None),
                        (p4, Some(a)) => {
                            let (p5, ok5) = spec_consume(b, p4, 44);
                            if !ok5 {
                                (p5, None)
                            } else {
                                match spec_num(b, p5) {
                                    (p6, None) => (p6, None),
                                    (p6, Some(c)) => {
                                        let (p7, ok7) = spec_consume(b, p6, 41);
                                        if !ok7 {
                                            (p7, None)
                                        } else {
                                            (p7, Some(Ix::Mul(a, c)))
                                        }
                                    },
                                }
                            }
                        },
                    }
                }
            } else {
                (p2, None)
            }
        }
    }
}

/// `non_key_end` never runs backwards, and stops on a keyword byte.
proof fn lemma_non_key_end_bounds(b: Seq<u8>, p: int)
    requires
        0 <= p <= b.len(),
    ensures
        p <= non_key_end(b, p) <= b.len(),
        non_key_end(b, p) < b.len() ==> is_key(b[non_key_end(b, p)]),
    decreases b.len() - p,
{
    if p < b.len() && !is_key(b[p]) {
        lemma_non_key_end_bounds(b, p + 1);
    }
}

/// `key_end` never runs backwards.
proof fn lemma_key_end_bounds(b: Seq<u8>, p: int)
    requires
        0 <= p <= b.len(),
    ensures
        p <= key_end(b, p) <= b.len(),
    decreases b.len() - p,
{
    if p < b.len() && is_key(b[p]) {
        lemma_key_end_bounds(b, p + 1);
    }
}

/// `num_end` never runs backwards.
proof fn lemma_num_end_bounds(b: Seq<u8>, p: int)
    requires
        0 <= p <= b.len(),
    ensures
        p <= num_end(b, p) <= b.len(),
    decreases b.len() - p,
{
    if p < b.len() && is_digit(b[p]) {
        lemma_num_end_bounds(b, p + 1);
    }
}

/// One scanning step always advances, or stops at the end of the input.
pub proof fn lemma_ix_advances(b: Seq<u8>, p: int)
    requires
        0 <= p < b.len(),
    ensures
        p < spec_ix(b, p).0 <= b.len(),
{
    lemma_non_key_end_bounds(b, p);
    let p1 = non_key_end(b, p);
    if p1 < b.len() {
        assert(is_key(b[p1]));
        assert(key_end(b, p1) == key_end(b, p1 + 1));
        lemma_key_end_bounds(b, p1 + 1);
        let p2 = key_end(b, p1);
        assert(p2 > p1);
        if p2 < b.len() {
            if p2 + 1 <= b.len() {
                lemma_num_end_bounds(b, p2 + 1);
            }
            let q1 = num_end(b, p2 + 1);
            if q1 + 1 <= b.len() {
                lemma_num_end_bounds(b, q1 + 1);
            }
        }
    }
}

/// The instructions recognised from position `p` to the end of the input.
pub open spec fn spec_scan(b: Seq<u8>, p: int) -> Seq<Ix>
    decreases b.len() - p,
        when 0 <= p
{
    if p >= b.len() {
        Seq::empty()
    } else {
        let (q, r) = spec_ix(b, p);
        let rest = if q <= p || q > b.len() {
            Seq::empty()
        } else {
            spec_scan(b, q)
        };
        match r {
            Some(ix) => seq![ix] + rest,
            None => rest,
        }
    }
}


/// Whether the byte occurs in a keyword (`don't` or `mul`).
fn is_key_char(c: u8) -> (r: bool)
    ensures
        r == is_key(c),
{
    c == 100 || c == 111 || c == 110 || c == 39 || c == 116 || c == 109 || c == 117 || c == 108
}

/// Consume the expected byte, or leave the position alone.
fn consume_char(b: &[u8], pos: &mut usize, c: u8) -> (r: Option<()>)
    requires
        *old(pos) <= b@.len(),
    ensures
        *final(pos) <= b@.len(),
        ({
            let (q, ok) = spec_consume(b@, *old(pos) as int, c);
            *final(pos) == q && (r is Some) == ok
        }),
{
    if *pos < b.len() && b[*pos] == c {
        *pos = *pos + 1;
        Some(())
    } else {
        None
    }
}

/// Consume an opening parenthesis.
fn consume_paren_open(b: &[u8], pos: &mut usize) -> (r: Option<()>)
    requires
        *old(pos) <= b@.len(),
    ensures
        *final(pos) <= b@.len(),
        ({
            let (q, ok) = spec_consume(b@, *old(pos) as int, 40);
            *final(pos) == q && (r is Some) == ok
        }),
{
    consume_char(b, pos, 40)
}

/// Consume a closing parenthesis.
fn consume_paren_close(b: &[u8], pos: &mut usize) -> (r: Option<()>)
    requires
        *old(pos) <= b@.len(),
    ensures
        *final(pos) <= b@.len(),
        ({
            let (q, ok) = spec_consume(b@, *old(pos) as int, 41);
            *final(pos) == q && (r is Some) == ok
        }),
{
    consume_char(b, pos, 41)
}

/// Consume a comma.
fn consume_comma(b: &[u8], pos: &mut usize) -> (r: Option<()>)
    requires
        *old(pos) <= b@.len(),
    ensures
        *final(pos) <= b@.len(),
        ({
            let (q, ok) = spec_consume(b@, *old(pos) as int, 44);
            *final(pos) == q && (r is Some) == ok
        }),
{
    consume_char(b, pos, 44)
}

/// Consume the unit suffix `()`.
fn consume_unit(b: &[u8], pos: &mut usize) -> (r: Option<()>)
    requires
        *old(pos) <= b@.len(),
    ensures
        *final(pos) <= b@.len(),
        ({
            let (q, ok) = spec_unit(b@, *old(pos) as int);
            *final(pos) == q && (r is Some) == ok
        }),
{
    consume_paren_open(b, pos)?;
    consume_paren_close(b, pos)?;
    Some(())
}

/// Skip ahead to the next keyword byte; tell whether one was found.
fn consume_non_key(b: &[u8], pos: &mut usize) -> (r: Option<()>)
    requires
        *old(pos) <= b@.len(),
    ensures
        *final(pos) == non_key_end(b@, *old(pos) as int),
        *final(pos) <= b@.len(),
        (r is Some) == (*final(pos) < b@.len()),
{
    while *pos < b.len()
        invariant
            *pos <= b@.len(),
            non_key_end(b@, *old(pos) as int) == non_key_end(b@, *pos as int),
        decreases b@.len() - *pos,
    {
        if is_key_char(b[*pos]) {
            return Some(());
        }
        *pos = *pos + 1;
    }
    None
}

/// Read the keyword candidate at the position: every keyword byte up to
/// the next other byte.  There is a candidate only when such a byte
/// follows; at the end of the input there is none.
fn parse_key_candidate(b: &[u8], pos: &mut usize) -> (r: Option<Vec<u8>>)
    requires
        *old(pos) <= b@.len(),
    ensures
        *final(pos) == key_end(b@, *old(pos) as int),
        *final(pos) <= b@.len(),
        (r is Some) == (*final(pos) < b@.len()),
        r matches Some(v) ==> v@ == b@.subrange(*old(pos) as int, *final(pos) as int),
    decreases b@.len() - *old(pos),
{
    let mut buf: Vec<u8> = Vec::new();
    while *pos < b.len()
        invariant
            *old(pos) <= *pos <= b@.len(),
            key_end(b@, *old(pos) as int) == key_end(b@, *pos as int),
            buf@ == b@.subrange(*old(pos) as int, *pos as int),
        decreases b@.len() - *pos,
    {
        let c = b[*pos];
        if is_key_char(c) {
            buf.push(c);
            proof {
                assert(buf@ =~= b@.subrange(*old(pos) as int, *pos + 1));
            }
            *pos = *pos + 1;
        } else {
            return Some(buf);
        }
    }
    None
}

/// Read one decimal number: consume the digits at the position and
/// return their value when a non-digit byte follows at least one digit
/// and the value fits; return nothing otherwise (the digits are consumed
/// either way).
fn parse_num(b: &[u8], pos: &mut usize) -> (r: Option<i32>)
    requires
        *old(pos) <= b@.len(),
    ensures
        *final(pos) <= b@.len(),
        ({
            let (q, r0) = spec_num(b@, *old(pos) as int);
            *final(pos) == q && r == r0
        }),
{
    let start: usize = *pos;
    let mut val: i32 = 0;
    let mut over: bool = false;
    while *pos < b.len() && 48 <= b[*pos] && b[*pos] <= 57
        invariant
            start == *old(pos),
            *old(pos) <= *pos <= b@.len(),
            num_end(b@, *old(pos) as int) == num_end(b@, *pos as int),
            forall|j: int| *old(pos) <= j < *pos ==> is_digit(b@[j]),
            !over ==> val == dec_val(b@.subrange(*old(pos) as int, *pos as int)),
            over ==> dec_val(b@.subrange(*old(pos) as int, *pos as int)) > i32::MAX,
            val >= 0,
        decreases b@.len() - *pos,
    {
        let c = b[*pos];
        let ghost pre = b@.subrange(*old(pos) as int, *pos as int);
        proof {
            assert(b@.subrange(*old(pos) as int, *pos + 1).drop_last() =~= pre);
        }
        let wide: i64 = (val as i64) * 10 + ((c - 48) as i64);
        if over || wide > (i32::MAX as i64) {
            over = true;
        } else {
            val = wide as i32;
        }
        *pos = *pos + 1;
    }
    proof {
        if *pos < b@.len() {
            assert(num_end(b@, *pos as int) == *pos as int);
        }
    }
    if *pos >= b.len() || *pos == start {
        None
    } else if over {
        None
    } else {
        Some(val)
    }
}


/// Whether the candidate ends in `do`.
fn ends_do(v: &Vec<u8>) -> (r: bool)
    ensures
        r == ends_with(v@, seq![100u8, 111u8]),
{
    let n = v.len();
    let r = n >= 2 && v[n - 2] == 100 && v[n - 1] == 111;
    proof {
        if n >= 2 {
            assert(v@.subrange(n - 2, n as int) =~= seq![v@[n - 2], v@[n - 1]]);
        }
    }
    r
}

/// Whether the candidate ends in `don't`.
fn ends_dont(v: &Vec<u8>) -> (r: bool)
    ensures
        r == ends_with(v@, seq![100u8, 111u8, 110u8, 39u8, 116u8]),
{
    let n = v.len();
    let r = n >= 5 && v[n - 5] == 100 && v[n - 4] == 111 && v[n - 3] == 110 && v[n - 2] == 39
        && v[n - 1] == 116;
    proof {
        if n >= 5 {
            assert(v@.subrange(n - 5, n as int) =~= seq![
                v@[n - 5],
                v@[n - 4],
                v@[n - 3],
                v@[n - 2],
                v@[n - 1],
            ]);
        }
    }
    r
}

/// Whether the candidate ends in `mul`.
fn ends_mul(v: &Vec<u8>) -> (r: bool)
    ensures
        r == ends_with(v@, seq![109u8, 117u8, 108u8]),
{
    let n = v.len();
    let r = n >= 3 && v[n - 3] == 109 && v[n - 2] == 117 && v[n - 1] == 108;
    proof {
        if n >= 3 {
            assert(v@.subrange(n - 3, n as int) =~= seq![v@[n - 3], v@[n - 2], v@[n - 1]]);
        }
    }
    r
}

/// One scanning step: skip noise, read a keyword candidate, and try to
/// read the instruction it announces.  The candidate's tail decides, so
/// a noise prefix such as `xmul` still announces `mul`.
fn parse_ix(b: &[u8], pos: &mut usize) -> (r: Option<Ix>)
    requires
        *old(pos) <= b@.len(),
    ensures
        *final(pos) <= b@.len(),
        ({
            let (q, r0) = spec_ix(b@, *old(pos) as int);
            *final(pos) == q && r == r0
        }),
{
    consume_non_key(b, pos)?;
    let key_candidate = parse_key_candidate(b, pos)?;
    if ends_do(&key_candidate) {
        consume_unit(b, pos)?;
        Some(Ix::Do)
    } else if ends_dont(&key_candidate) {
        consume_unit(b, pos)?;
        Some(Ix::Dont)
    } else if ends_mul(&key_candidate) {
        consume_paren_open(b, pos)?;
        let left = parse_num(b, pos)?;
        consume_comma(b, pos)?;
        let right = parse_num(b, pos)?;
        consume_paren_close(b, pos)?;
        Some(Ix::Mul(left, right))
    } else {
        None
    }
}

/// Scan the whole text and collect every recognised instruction, in
/// order of occurrence.
pub fn parse(input: &str) -> (ixs: Vec<Ix>)
    ensures
        ixs@ == spec_scan(input.spec_bytes(), 0),
{
    let b = input.as_bytes();
    let mut ixs: Vec<Ix> = Vec::new();
    let mut pos: usize = 0;
    while pos < b.len()
        invariant
            pos <= b@.len(),
            b@ == input.spec_bytes(),
            spec_scan(b@, 0) == ixs@ + spec_scan(b@, pos as int),
        decreases b@.len() - pos,
    {
        proof {
            lemma_ix_advances(b@, pos as int);
        }
        let ghost p0 = pos as int;
        let ix_opt = parse_ix(b, &mut pos);
        proof {
            let (q, r0) = spec_ix(b@, p0);
            assert(spec_scan(b@, p0) == match r0 {
                Some(ix) => seq![ix] + spec_scan(b@, q),
                None => spec_scan(b@, q),
            });
        }
        if let Some(ix) = ix_opt {
            ixs.push(ix);
        }
        proof {
            assert(ixs@ + spec_scan(b@, pos as int) =~= spec_scan(b@, 0));
        }
    }
    proof {
        assert(ixs@ =~= spec_scan(b@, 0));
    }
    ixs
}

} // verus!
