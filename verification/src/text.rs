//! Splitting raw byte text into lines: the shared front door of the
//! textual puzzle inputs.

use vstd::prelude::*;

verus! {

/// The newline byte.
pub const NL: u8 = 10;

/// The lines of a byte text, split on the newline byte.  A trailing
/// newline closes the last line; a final fragment without one is a line
/// of its own.
pub open spec fn spec_lines(b: Seq<u8>) -> Seq<Seq<u8>>
    decreases b.len(),
{
    if b.len() == 0 {
        Seq::empty()
    } else if b[0] == NL {
        seq![Seq::<u8>::empty()] + spec_lines(b.drop_first())
    } else {
        let rl = spec_lines(b.drop_first());
        if rl.len() == 0 {
            seq![seq![b[0]]]
        } else {
            seq![seq![b[0]] + rl[0]] + rl.drop_first()
        }
    }
}

/// A buffered, partly-read line glued onto the lines still to come.
pub open spec fn glue(buf: Seq<u8>, rl: Seq<Seq<u8>>) -> Seq<Seq<u8>> {
    if rl.len() == 0 {
        if buf.len() == 0 {
            Seq::empty()
        } else {
            seq![buf]
        }
    } else {
        seq![buf + rl[0]] + rl.drop_first()
    }
}

/// Split a byte text into its lines.
pub fn split_lines(b: &[u8]) -> (rows: Vec<Vec<u8>>)
    ensures
        lines_model(&rows) == spec_lines(b@),
{
    let ghost whole = b@;
    let mut rows: Vec<Vec<u8>> = Vec::new();
    let mut buf: Vec<u8> = Vec::new();
    let mut i: usize = 0;
    proof {
        assert(whole.skip(0) =~= whole);
        assert(lines_model(&rows) + glue(buf@, spec_lines(whole)) =~~= spec_lines(whole));
    }
    while i < b.len()
        invariant
            i <= b.len(),
            whole == b@,
            spec_lines(whole) == lines_model(&rows) + glue(buf@, spec_lines(whole.skip(i as int))),
        decreases b.len() - i,
    {
        let c = b[i];
        let ghost rest = whole.skip(i as int);
        let ghost rest1 = whole.skip(i + 1);
        proof {
            assert(rest.drop_first() =~= rest1);
            assert(rest[0] == c);
        }
        if c == 10 {
            let ghost rows0 = lines_model(&rows);
            let ghost bufv = buf@;
            let full = buf;
            buf = Vec::new();
            rows.push(full);
            proof {
                assert(lines_model(&rows) =~~= rows0.push(bufv));
                let rl1 = spec_lines(rest1);
                assert(spec_lines(rest) == seq![Seq::<u8>::empty()] + rl1);
                assert(glue(bufv, spec_lines(rest)) =~~= seq![bufv] + rl1);
                assert(glue(buf@, rl1) =~~= rl1);
                assert(rows0 + glue(bufv, spec_lines(rest)) =~~= rows0.push(bufv) + glue(
                    buf@,
                    rl1,
                ));
            }
        } else {
            let ghost bufv = buf@;
            buf.push(c);
            proof {
                let rl1 = spec_lines(rest1);
                assert(buf@ =~= bufv.push(c));
                if rl1.len() == 0 {
                    assert(spec_lines(rest) == seq![seq![c]]);
                    assert(glue(bufv, spec_lines(rest)) =~~= seq![bufv.push(c)]);
                    assert(glue(buf@, rl1) =~~= seq![bufv.push(c)]);
                } else {
                    assert(spec_lines(rest) == seq![seq![c] + rl1[0]] + rl1.drop_first());
                    assert(bufv + (seq![c] + rl1[0]) =~= bufv.push(c) + rl1[0]);
                    assert(glue(bufv, spec_lines(rest)) =~~= glue(buf@, rl1));
                }
            }
        }
        i = i + 1;
    }
    proof {
        assert(whole.skip(whole.len() as int) =~= Seq::<u8>::empty());
    }
    if buf.len() > 0 {
        let ghost rows0 = lines_model(&rows);
        let ghost bufv = buf@;
        rows.push(buf);
        proof {
            assert(lines_model(&rows) =~~= rows0.push(bufv));
            assert(rows0 + glue(bufv, Seq::<Seq<u8>>::empty()) =~~= rows0.push(bufv));
        }
    } else {
        proof {
            assert(lines_model(&rows) + glue(buf@, Seq::<Seq<u8>>::empty()) =~~= lines_model(
                &rows,
            ));
        }
    }
    rows
}

/// The mathematical model of a list of byte rows.
pub open spec fn lines_model(rows: &Vec<Vec<u8>>) -> Seq<Seq<u8>> {
    Seq::new(rows@.len(), |i: int| rows@[i]@)
}



/// Whether the byte is an ASCII decimal digit.
pub open spec fn is_digit(c: u8) -> bool {
    48 <= c <= 57
}

/// Whether the byte is ASCII whitespace.
pub open spec fn is_ws(c: u8) -> bool {
    c == 32 || 9 <= c <= 13
}

/// The decimal value of a digit string, most significant digit first.
pub open spec fn dec_val(s: Seq<u8>) -> int
    decreases s.len(),
{
    if s.len() == 0 {
        0
    } else {
        dec_val(s.drop_last()) * 10 + (s.last() - 48)
    }
}

/// The whitespace-separated tokens of a byte text, in order.
pub open spec fn spec_tokens(b: Seq<u8>) -> Seq<Seq<u8>>
    decreases b.len(),
{
    if b.len() == 0 {
        Seq::empty()
    } else if is_ws(b[0]) {
        spec_tokens(b.drop_first())
    } else {
        let rl = spec_tokens(b.drop_first());
        if b.len() > 1 && !is_ws(b[1]) {
            seq![seq![b[0]] + rl[0]] + rl.drop_first()
        } else {
            seq![seq![b[0]]] + rl
        }
    }
}

/// A finished token followed by whitespace (or the end) stands alone in
/// front of the remaining tokens.
proof fn lemma_tokens_flush(buf: Seq<u8>, s: Seq<u8>)
    requires
        buf.len() > 0,
        forall|j: int| 0 <= j < buf.len() ==> !is_ws(#[trigger] buf[j]),
        s.len() == 0 || is_ws(s[0]),
    ensures
        spec_tokens(buf + s) == seq![buf] + spec_tokens(s),
    decreases buf.len(),
{
    let w = buf + s;
    assert(w[0] == buf[0]);
    if buf.len() == 1 {
        assert(w.drop_first() =~= s);
        assert(spec_tokens(w) =~~= seq![buf] + spec_tokens(s));
    } else {
        lemma_tokens_flush(buf.drop_first(), s);
        assert(w.drop_first() =~= buf.drop_first() + s);
        assert(w[1] == buf[1]);
        let rl = spec_tokens(w.drop_first());
        assert(rl == seq![buf.drop_first()] + spec_tokens(s));
        assert(seq![w[0]] + rl[0] =~= buf);
        assert(rl.drop_first() =~= spec_tokens(s));
        assert(spec_tokens(w) =~~= seq![buf] + spec_tokens(s));
    }
}

/// Split a byte text into its whitespace-separated tokens.
#[verifier::loop_isolation(false)]
pub fn split_tokens(b: &[u8]) -> (toks: Vec<Vec<u8>>)
    ensures
        lines_model(&toks) == spec_tokens(b@),
{
    let ghost whole = b@;
    let mut toks: Vec<Vec<u8>> = Vec::new();
    let mut buf: Vec<u8> = Vec::new();
    let mut i: usize = 0;
    proof {
        assert(whole.skip(0) =~= whole);
        assert(buf@ + whole =~= whole);
    }
    while i < b.len()
        invariant
            i <= b.len(),
            whole == b@,
            forall|j: int| 0 <= j < buf@.len() ==> !is_ws(#[trigger] buf@[j]),
            spec_tokens(whole) == lines_model(&toks) + spec_tokens(
                buf@ + whole.skip(i as int),
            ),
        decreases b.len() - i,
    {
        let c = b[i];
        let ghost rest = whole.skip(i as int);
        let ghost rest1 = whole.skip(i + 1);
        proof {
            assert(rest.drop_first() =~= rest1);
            assert(rest[0] == c);
        }
        if c == 32 || (9 <= c && c <= 13) {
            if buf.len() > 0 {
                let ghost toks0 = lines_model(&toks);
                let ghost bufv = buf@;
                let full = buf;
                buf = Vec::new();
                toks.push(full);
                proof {
                    lemma_tokens_flush(bufv, rest);
                    assert(lines_model(&toks) =~~= toks0.push(bufv));
                    assert(spec_tokens(rest) == spec_tokens(rest1));
                    assert(buf@ + rest1 =~= rest1);
                    assert(toks0 + (seq![bufv] + spec_tokens(rest1)) =~~= toks0.push(bufv)
                        + spec_tokens(rest1));
                }
            } else {
                proof {
                    assert(buf@ + rest =~= rest);
                    assert(spec_tokens(rest) == spec_tokens(rest1));
                    assert(buf@ + rest1 =~= rest1);
                }
            }
        } else {
            let ghost bufv = buf@;
            buf.push(c);
            proof {
                assert(bufv + rest =~= buf@ + rest1);
            }
        }
        i = i + 1;
    }
    proof {
        assert(whole.skip(whole.len() as int) =~= Seq::<u8>::empty());
    }
    if buf.len() > 0 {
        let ghost toks0 = lines_model(&toks);
        let ghost bufv = buf@;
        toks.push(buf);
        proof {
            assert(bufv + Seq::<u8>::empty() =~= bufv);
            lemma_tokens_flush(bufv, Seq::<u8>::empty());
            assert(lines_model(&toks) =~~= toks0.push(bufv));
            assert(toks0 + (seq![bufv] + spec_tokens(Seq::<u8>::empty())) =~~= toks0.push(
                bufv,
            ));
        }
    } else {
        proof {
            assert(buf@ + Seq::<u8>::empty() =~= Seq::<u8>::empty());
        }
    }
    toks
}

/// What `str::parse` makes of an integer token: an optional sign, then
/// at least one digit, nothing else, and a value in the range asked for.
pub open spec fn int_token_digits(t: Seq<u8>) -> Seq<u8> {
    if t.len() > 0 && (t[0] == 43 || t[0] == 45) {
        t.drop_first()
    } else {
        t
    }
}

/// Whether the token has the shape of a signed integer.
pub open spec fn is_int_token(t: Seq<u8>) -> bool {
    let d = int_token_digits(t);
    d.len() > 0 && forall|i: int| 0 <= i < d.len() ==> is_digit(#[trigger] d[i])
}

/// The value of a well-shaped integer token.
pub open spec fn int_token_val(t: Seq<u8>) -> int {
    if t.len() > 0 && t[0] == 45 {
        -dec_val(int_token_digits(t))
    } else {
        dec_val(int_token_digits(t))
    }
}

/// Parse a signed 64-bit integer token, as `str::parse` would: the
/// value when the token is well shaped and fits, nothing otherwise.
#[verifier::loop_isolation(false)]
pub fn parse_i64(t: &[u8]) -> (r: Option<i64>)
    ensures
        ({
            let valid = is_int_token(t@) && i64::MIN <= int_token_val(t@) <= i64::MAX;
            &&& (valid ==> r == Some(int_token_val(t@) as i64))
            &&& (!valid ==> r is None)
        }),
{
    let ghost whole = t@;
    let mut i: usize = 0;
    let mut neg: bool = false;
    if t.len() == 0 {
        return None;
    }
    if t[0] == 43 {
        i = 1;
    } else if t[0] == 45 {
        neg = true;
        i = 1;
    }
    let ghost digits = int_token_digits(whole);
    proof {
        assert(digits =~= whole.skip(i as int));
    }
    if i == t.len() {
        proof {
            assert(digits.len() == 0);
        }
        return None;
    }
    let ghost start = i as int;
    let mut mag: u64 = 0;
    let mut over: bool = false;
    while i < t.len()
        invariant
            start <= i <= t@.len(),
            digits == whole.skip(start),
            forall|j: int| start <= j < i ==> is_digit(#[trigger] whole[j]),
            !over ==> mag == dec_val(whole.subrange(start, i as int)),
            !over ==> mag <= i64::MAX as u64 + 1,
            over ==> dec_val(whole.subrange(start, i as int)) > i64::MAX as int + 1,
        decreases t@.len() - i,
    {
        let c = t[i];
        if c < 48 || c > 57 {
            proof {
                assert(digits[i - start] == whole[i as int]);
                assert(!is_digit(digits[i - start]));
            }
            return None;
        }
        let ghost pre = whole.subrange(start, i as int);
        proof {
            assert(whole.subrange(start, i + 1).drop_last() =~= pre);
        }
        if !over {
            let next: u64 = match mag.checked_mul(10) {
                Some(m) => match m.checked_add((c - 48) as u64) {
                    Some(m2) => m2,
                    None => {
                        over = true;
                        mag
                    },
                },
                None => {
                    over = true;
                    mag
                },
            };
            if !over {
                if next > i64::MAX as u64 + 1 {
                    over = true;
                } else {
                    mag = next;
                }
            }
        }
        i = i + 1;
    }
    proof {
        assert(whole.subrange(start, whole.len() as int) =~= digits);
        assert forall|j: int| 0 <= j < digits.len() implies is_digit(#[trigger] digits[j]) by {
            assert(digits[j] == whole[start + j]);
        }
    }
    if over {
        proof {
            if neg {
                assert(int_token_val(whole) < i64::MIN);
            } else {
                assert(int_token_val(whole) > i64::MAX);
            }
        }
        return None;
    }
    if neg {
        if mag > i64::MAX as u64 + 1 {
            return None;
        }
        if mag == i64::MAX as u64 + 1 {
            return Some(i64::MIN);
        }
        Some(-(mag as i64))
    } else {
        if mag > i64::MAX as u64 {
            return None;
        }
        Some(mag as i64)
    }
}

/// Parse a signed 32-bit integer token, as `str::parse` would.
pub fn parse_i32(t: &[u8]) -> (r: Option<i32>)
    ensures
        ({
            let valid = is_int_token(t@) && i32::MIN <= int_token_val(t@) <= i32::MAX;
            &&& (valid ==> r == Some(int_token_val(t@) as i32))
            &&& (!valid ==> r is None)
        }),
{
    match parse_i64(t) {
        Some(v) => if i32::MIN as i64 <= v && v <= i32::MAX as i64 {
            Some(v as i32)
        } else {
            None
        },
        None => None,
    }
}


/// Whether a token reads as an `i32`.
pub open spec fn is_i32_token(t: Seq<u8>) -> bool {
    is_int_token(t) && i32::MIN <= int_token_val(t) <= i32::MAX
}

/// The `i32` values among the tokens, in order; tokens that do not
/// read as an `i32` are skipped.
pub open spec fn i32_values(toks: Seq<Seq<u8>>) -> Seq<i32>
    decreases toks.len(),
{
    if toks.len() == 0 {
        Seq::empty()
    } else {
        i32_values(toks.drop_last()) + if is_i32_token(toks.last()) {
            seq![int_token_val(toks.last()) as i32]
        } else {
            Seq::empty()
        }
    }
}

} // verus!
