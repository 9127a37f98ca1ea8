//! The run-length stage of save compression.
//!
//! The encoded stream is a sequence of chunks, each opened by a length byte
//! read as a signed byte: a positive length `n` is followed by `n` bytes
//! copied as they are; a negative length `-n` is followed by one byte that
//! stands for `n` copies of itself; a length of zero is invalid. A chunk holds
//! at most 126 bytes of the original data.

use vstd::prelude::*;

verus! {

/// Largest number of data bytes that one chunk stands for.
pub const MAX_RUN: usize = 126;

/// End of the run of copies of `s[0]` that begins `s`, looking from index
/// `k` on and stopping at 126 bytes.
pub open spec fn run_end(s: Seq<u8>, k: int) -> int
    decreases s.len() - k,
{
    if k >= s.len() || k >= 126 || s[k] != s[0] {
        k
    } else {
        run_end(s, k + 1)
    }
}

/// End of the stretch at the front of `s` in which no byte repeats the one
/// before it, looking from index `k` on and stopping at 126 bytes.
pub open spec fn distinct_end(s: Seq<u8>, k: int) -> int
    decreases s.len() - k,
{
    if k >= s.len() || k >= 126 || s[k] == s[k - 1] {
        k
    } else {
        distinct_end(s, k + 1)
    }
}

pub proof fn lemma_run_end_bounds(s: Seq<u8>, k: int)
    ensures
        k <= run_end(s, k),
        run_end(s, k) <= if k <= s.len() { s.len() as int } else { k },
        run_end(s, k) <= if k <= 126 { 126 } else { k },
    decreases s.len() - k,
{
    if !(k >= s.len() || k >= 126 || s[k] != s[0]) {
        lemma_run_end_bounds(s, k + 1);
    }
}

pub proof fn lemma_distinct_end_bounds(s: Seq<u8>, k: int)
    ensures
        k <= distinct_end(s, k),
        distinct_end(s, k) <= if k <= s.len() { s.len() as int } else { k },
        distinct_end(s, k) <= if k <= 126 { 126 } else { k },
    decreases s.len() - k,
{
    if !(k >= s.len() || k >= 126 || s[k] == s[k - 1]) {
        lemma_distinct_end_bounds(s, k + 1);
    }
}

/// The length byte of a chunk that repeats one byte `n` times: `-n` as a
/// signed byte.
pub open spec fn repeat_tag(n: int) -> u8 {
    (256 - n) as u8
}

/// The encoding of `s` from a point where the encoder has just written a
/// chunk (or has written nothing yet). `stale_repeated` is the kind of the
/// chunk written last (`false` at the start): one or two final bytes that the
/// encoder has not looked at as a pair go out in that kind, except two
/// different bytes, which always go out as a chunk of copied bytes.
pub open spec fn rle_encode_from(s: Seq<u8>, stale_repeated: bool) -> Seq<u8>
    decreases s.len(),
{
    if s.len() == 0 {
        Seq::empty()
    } else if s.len() <= 2 {
        if stale_repeated && (s.len() == 1 || s[0] == s[1]) {
            seq![repeat_tag(s.len() as int), s[0]]
        } else {
            seq![s.len() as u8] + s
        }
    } else if s[0] == s[1] {
        let r = run_end(s, 2);
        proof {
            lemma_run_end_bounds(s, 2);
        }
        if r >= s.len() {
            seq![repeat_tag(r), s[0]]
        } else {
            seq![repeat_tag(r), s[0]] + rle_encode_from(s.skip(r), true)
        }
    } else {
        let j = distinct_end(s, 2);
        proof {
            lemma_distinct_end_bounds(s, 2);
        }
        if j >= s.len() {
            seq![s.len() as u8] + s
        } else {
            seq![(j - 1) as u8] + s.take(j - 1) + rle_encode_from(s.skip(j - 1), false)
        }
    }
}

/// What `RLE::encode` produces from `s`.
pub open spec fn rle_encode(s: Seq<u8>) -> Seq<u8> {
    rle_encode_from(s, false)
}

/// What `RLE::decode` produces from `s`: `None` at a zero length byte; a
/// chunk cut short by the end of the input gives what is there. The length
/// byte 0x80 (-128) stands for 128 copies.
pub open spec fn rle_decode(s: Seq<u8>) -> Option<Seq<u8>>
    decreases s.len(),
{
    if s.len() == 0 {
        Some(Seq::empty())
    } else if s[0] == 0 {
        None
    } else if s[0] < 128 {
        let n = if s[0] <= s.len() - 1 { s[0] as int } else { s.len() - 1 };
        match rle_decode(s.skip(1 + n)) {
            Some(rest) => Some(s.subrange(1, 1 + n) + rest),
            None => None,
        }
    } else if s.len() < 2 {
        Some(Seq::empty())
    } else {
        match rle_decode(s.skip(2)) {
            Some(rest) => Some(Seq::new((256 - s[0]) as nat, |i: int| s[1]) + rest),
            None => None,
        }
    }
}

/// `x` followed by the decoded bytes `d`, where there are any.
pub open spec fn prepend_decoded(x: Seq<u8>, d: Option<Seq<u8>>) -> Option<Seq<u8>> {
    match d {
        Some(y) => Some(x + y),
        None => None,
    }
}

/// `s` is made of whole chunks: no chunk is cut short by the end of `s`
/// (reading stops at a zero length byte, where decoding fails).
pub open spec fn rle_whole(s: Seq<u8>) -> bool
    decreases s.len(),
{
    if s.len() == 0 || s[0] == 0 {
        true
    } else if s[0] < 128 {
        s[0] <= s.len() - 1 && rle_whole(s.skip(1 + s[0] as int))
    } else {
        s.len() >= 2 && rle_whole(s.skip(2))
    }
}

proof fn lemma_run_end_same(s: Seq<u8>, k: int)
    requires
        1 <= k <= s.len(),
        forall|i: int| 0 <= i < k ==> #[trigger] s[i] == s[0],
    ensures
        forall|i: int| 0 <= i < run_end(s, k) ==> #[trigger] s[i] == s[0],
    decreases s.len() - k,
{
    if !(k >= s.len() || k >= 126 || s[k] != s[0]) {
        lemma_run_end_same(s, k + 1);
    }
}

proof fn lemma_decode_literal_chunk(t: Seq<u8>, rest: Seq<u8>)
    requires
        1 <= t.len() < 128,
    ensures
        rle_decode(seq![t.len() as u8] + t + rest) == prepend_decoded(t, rle_decode(rest)),
{
    let s = seq![t.len() as u8] + t + rest;
    assert(s.skip(1 + t.len() as int) =~= rest);
    assert(s.subrange(1, 1 + t.len() as int) =~= t);
}

proof fn lemma_decode_repeat_chunk(r: int, b: u8, rest: Seq<u8>)
    requires
        1 <= r <= 128,
    ensures
        rle_decode(seq![repeat_tag(r), b] + rest) == prepend_decoded(
            Seq::new(r as nat, |i: int| b),
            rle_decode(rest),
        ),
{
    let s = seq![repeat_tag(r), b] + rest;
    assert(s.skip(2) =~= rest);
    match rle_decode(rest) {
        Some(x) => {
            assert(Seq::new((256 - s[0]) as nat, |i: int| s[1]) + x =~= Seq::new(
                r as nat,
                |i: int| b,
            ) + x);
        },
        None => {},
    }
}

proof fn lemma_round_trip_run_step(s: Seq<u8>, tail: Seq<u8>)
    requires
        s.len() > 2,
        s[0] == s[1],
        run_end(s, 2) < s.len(),
        rle_decode(rle_encode_from(s.skip(run_end(s, 2)), true) + tail) == prepend_decoded(
            s.skip(run_end(s, 2)),
            rle_decode(tail),
        ),
    ensures
        rle_decode(rle_encode_from(s, false) + tail) == prepend_decoded(s, rle_decode(tail)),
        rle_encode_from(s, false) == rle_encode_from(s, true),
{
    let r = run_end(s, 2);
    lemma_run_end_bounds(s, 2);
    lemma_run_end_same(s, 2);
    let rest = s.skip(r);
    let head = Seq::new(r as nat, |i: int| s[0]);
    let e2 = rle_encode_from(rest, true) + tail;
    lemma_decode_repeat_chunk(r, s[0], e2);
    assert(rle_encode_from(s, false) + tail =~= seq![repeat_tag(r), s[0]] + e2);
    assert(head =~= s.take(r));
    assert(s =~= head + rest);
    match rle_decode(tail) {
        Some(y) => {
            assert(head + (rest + y) =~= s + y);
        },
        None => {},
    }
}

proof fn lemma_round_trip_distinct_step(s: Seq<u8>, tail: Seq<u8>)
    requires
        s.len() > 2,
        s[0] != s[1],
        distinct_end(s, 2) < s.len(),
        rle_decode(rle_encode_from(s.skip(distinct_end(s, 2) - 1), false) + tail)
            == prepend_decoded(s.skip(distinct_end(s, 2) - 1), rle_decode(tail)),
    ensures
        rle_decode(rle_encode_from(s, false) + tail) == prepend_decoded(s, rle_decode(tail)),
        rle_encode_from(s, false) == rle_encode_from(s, true),
{
    let j = distinct_end(s, 2);
    lemma_distinct_end_bounds(s, 2);
    let rest = s.skip(j - 1);
    let head = s.take(j - 1);
    let e2 = rle_encode_from(rest, false) + tail;
    lemma_decode_literal_chunk(head, e2);
    assert(rle_encode_from(s, false) + tail =~= seq![head.len() as u8] + head + e2);
    assert(s =~= head + rest);
    match rle_decode(tail) {
        Some(y) => {
            assert(head + (rest + y) =~= s + y);
        },
        None => {},
    }
}

proof fn lemma_round_trip_last_chunk(s: Seq<u8>, stale_repeated: bool, tail: Seq<u8>)
    requires
        s.len() <= 2 || (s[0] == s[1] && run_end(s, 2) >= s.len()) || (s[0] != s[1]
            && distinct_end(s, 2) >= s.len()),
    ensures
        rle_decode(rle_encode_from(s, stale_repeated) + tail) == prepend_decoded(
            s,
            rle_decode(tail),
        ),
{
    let e = rle_encode_from(s, stale_repeated);
    if s.len() == 0 {
        assert(e + tail =~= tail);
        match rle_decode(tail) {
            Some(y) => {
                assert(s + y =~= y);
            },
            None => {},
        }
    } else if s.len() <= 2 {
        if stale_repeated && (s.len() == 1 || s[0] == s[1]) {
            lemma_decode_repeat_chunk(s.len() as int, s[0], tail);
            assert(e + tail =~= seq![repeat_tag(s.len() as int), s[0]] + tail);
            assert(Seq::new(s.len() as nat, |i: int| s[0]) =~= s);
        } else {
            lemma_decode_literal_chunk(s, tail);
            assert(e + tail =~= seq![s.len() as u8] + s + tail);
        }
    } else if s[0] == s[1] {
        let r = run_end(s, 2);
        lemma_run_end_bounds(s, 2);
        lemma_run_end_same(s, 2);
        lemma_decode_repeat_chunk(r, s[0], tail);
        assert(e + tail =~= seq![repeat_tag(r), s[0]] + tail);
        assert(Seq::new(r as nat, |i: int| s[0]) =~= s);
    } else {
        lemma_distinct_end_bounds(s, 2);
        lemma_decode_literal_chunk(s, tail);
        assert(e + tail =~= seq![s.len() as u8] + s + tail);
    }
}

/// Decoding the run-length encoding of `s` (from any point of the encoder,
/// see `rle_encode_from`) followed by any bytes `tail` gives `s`, then the
/// decoding of `tail`; it fails exactly where decoding `tail` fails.
pub proof fn lemma_rle_round_trip_tail(s: Seq<u8>, stale_repeated: bool, tail: Seq<u8>)
    ensures
        rle_decode(rle_encode_from(s, stale_repeated) + tail) == prepend_decoded(
            s,
            rle_decode(tail),
        ),
    decreases s.len(),
{
    if s.len() <= 2 {
        lemma_round_trip_last_chunk(s, stale_repeated, tail);
    } else if s[0] == s[1] {
        lemma_run_end_bounds(s, 2);
        if run_end(s, 2) >= s.len() {
            lemma_round_trip_last_chunk(s, stale_repeated, tail);
        } else {
            lemma_rle_round_trip_tail(s.skip(run_end(s, 2)), true, tail);
            lemma_round_trip_run_step(s, tail);
        }
    } else {
        lemma_distinct_end_bounds(s, 2);
        if distinct_end(s, 2) >= s.len() {
            lemma_round_trip_last_chunk(s, stale_repeated, tail);
        } else {
            lemma_rle_round_trip_tail(s.skip(distinct_end(s, 2) - 1), false, tail);
            lemma_round_trip_distinct_step(s, tail);
        }
    }
}

/// Decoding the run-length encoding of any `s` gives `s` back.
pub proof fn lemma_rle_round_trip(s: Seq<u8>)
    ensures
        rle_decode(rle_encode(s)) == Some(s),
{
    lemma_rle_round_trip_tail(s, false, Seq::empty());
    assert(rle_encode(s) + Seq::<u8>::empty() =~= rle_encode(s));
    assert(s + Seq::<u8>::empty() =~= s);
}

/// Decoding a stream `a` made of whole chunks followed by any stream `b`
/// gives the decoding of `a` followed by the decoding of `b`; it fails
/// exactly where one of the two fails.
pub proof fn lemma_rle_decode_concat(a: Seq<u8>, b: Seq<u8>)
    requires
        rle_whole(a),
    ensures
        rle_decode(a + b) == match rle_decode(a) {
            Some(x) => prepend_decoded(x, rle_decode(b)),
            None => None,
        },
    decreases a.len(),
{
    let s = a + b;
    if a.len() == 0 {
        assert(s =~= b);
        match rle_decode(b) {
            Some(y) => {
                assert(Seq::<u8>::empty() + y =~= y);
            },
            None => {},
        }
    } else if a[0] == 0 {
    } else if a[0] < 128 {
        let n = a[0] as int;
        assert(s.skip(1 + n) =~= a.skip(1 + n) + b);
        assert(s.subrange(1, 1 + n) =~= a.subrange(1, 1 + n));
        lemma_rle_decode_concat(a.skip(1 + n), b);
        match (rle_decode(a.skip(1 + n)), rle_decode(b)) {
            (Some(x), Some(y)) => {
                assert(a.subrange(1, 1 + n) + (x + y) =~= (a.subrange(1, 1 + n) + x) + y);
            },
            _ => {},
        }
    } else {
        assert(s.skip(2) =~= a.skip(2) + b);
        lemma_rle_decode_concat(a.skip(2), b);
        let c = Seq::new((256 - a[0]) as nat, |i: int| a[1]);
        match (rle_decode(a.skip(2)), rle_decode(b)) {
            (Some(x), Some(y)) => {
                assert(c + (x + y) =~= (c + x) + y);
            },
            _ => {},
        }
    }
}

/// A length byte of zero makes decoding fail, whatever follows.
pub proof fn lemma_rle_decode_zero(rest: Seq<u8>)
    ensures
        rle_decode(seq![0u8] + rest) is None,
{
}

/// A chunk made of a length byte `n` (1 to 127) and `n` bytes decodes to
/// those bytes, followed by the decoding of what comes after it.
pub proof fn lemma_rle_decode_literal(t: Seq<u8>, rest: Seq<u8>)
    requires
        1 <= t.len() <= 127,
    ensures
        rle_decode(seq![t.len() as u8] + t + rest) == prepend_decoded(t, rle_decode(rest)),
{
    lemma_decode_literal_chunk(t, rest);
}

/// A chunk made of the length byte `-n` (the byte `256 - n`, for `n` from 1
/// to 128) and a byte `b` decodes to `n` copies of `b`, followed by the
/// decoding of what comes after it.
pub proof fn lemma_rle_decode_run(n: int, b: u8, rest: Seq<u8>)
    requires
        1 <= n <= 128,
    ensures
        rle_decode(seq![(256 - n) as u8, b] + rest) == prepend_decoded(
            Seq::new(n as nat, |i: int| b),
            rle_decode(rest),
        ),
{
    assert(repeat_tag(n) == (256 - n) as u8);
    lemma_decode_repeat_chunk(n, b, rest);
}

proof fn lemma_run_end_exact(s: Seq<u8>, k: int, n: int)
    requires
        1 <= k <= n <= 126,
        n <= s.len(),
        forall|i: int| 0 <= i < n ==> #[trigger] s[i] == s[0],
        n < s.len() ==> s[n] != s[0],
    ensures
        run_end(s, k) == n,
    decreases n - k,
{
    if k < n {
        lemma_run_end_exact(s, k + 1, n);
    }
}

/// Data that starts with exactly `n` copies of a byte `b` (3 to 126 of them,
/// and then a different byte or the end) is encoded as the run chunk: the
/// length byte `-n` (the byte `256 - n`) and `b`, followed by the encoding of
/// the bytes after the run.
pub proof fn lemma_rle_encode_run(s: Seq<u8>, n: int, b: u8)
    requires
        3 <= n <= 126,
        n <= s.len(),
        forall|i: int| 0 <= i < n ==> #[trigger] s[i] == b,
        n < s.len() ==> s[n] != b,
    ensures
        rle_encode(s) == seq![(256 - n) as u8, b] + if n < s.len() {
            rle_encode_from(s.skip(n), true)
        } else {
            Seq::empty()
        },
{
    assert(s[0] == b && s[1] == b);
    lemma_run_end_exact(s, 2, n);
    assert(repeat_tag(n) == (256 - n) as u8);
    if n >= s.len() {
        assert(seq![(256 - n) as u8, b] + Seq::<u8>::empty() =~= seq![(256 - n) as u8, b]);
    }
}

proof fn lemma_distinct_end_exact(s: Seq<u8>, k: int)
    requires
        1 <= k <= s.len() <= 126,
        forall|i: int| 1 <= i < s.len() ==> #[trigger] s[i] != s[i - 1],
    ensures
        distinct_end(s, k) == s.len(),
    decreases s.len() - k,
{
    if k < s.len() {
        lemma_distinct_end_exact(s, k + 1);
    }
}

/// Data of 1 to 126 bytes in which no byte repeats the one before it is
/// encoded as one chunk: its length byte, then the bytes as they are.
pub proof fn lemma_rle_encode_literal(s: Seq<u8>)
    requires
        1 <= s.len() <= 126,
        forall|i: int| 1 <= i < s.len() ==> #[trigger] s[i] != s[i - 1],
    ensures
        rle_encode(s) == seq![s.len() as u8] + s,
{
    if s.len() > 2 {
        assert(s[1] != s[0]);
        lemma_distinct_end_exact(s, 2);
    }
}

/// `n` copies of a byte `b`, for `n` from 3 to 126, are encoded as the two
/// bytes `256 - n` and `b`.
pub proof fn lemma_rle_encode_repeated(n: int, b: u8)
    requires
        3 <= n <= 126,
    ensures
        rle_encode(Seq::new(n as nat, |i: int| b)) == seq![(256 - n) as u8, b],
{
    lemma_rle_encode_run(Seq::new(n as nat, |i: int| b), n, b);
}

pub struct RLE {}

impl RLE {
    /// Run-length encodes `input` (see the module documentation). Runs of
    /// repeated bytes and stretches without repeats are cut at 126 bytes.
    pub fn encode(input: &Vec<u8>) -> (output: Vec<u8>)
        ensures
            output@ == rle_encode(input@),
    {
        let mut output: Vec<u8> = Vec::new();
        let mut temp: Vec<u8> = Vec::new();
        let mut written: bool = true;
        let mut repeated: bool = false;
        let max_buffer_len: usize = MAX_RUN;
        let n = input.len();
        let mut p: usize = 0;

        if p < n {
            temp.push(input[p]);
            p = p + 1;
        }
        if p < n {
            temp.push(input[p]);
            p = p + 1;
        }
        assert(temp@ =~= input@.subrange(0, p as int));
        assert(input@.skip(0) =~= input@);

        while p < n
            invariant
                n == input@.len(),
                max_buffer_len == 126,
                temp@.len() <= p <= n,
                temp@ == input@.subrange(p - temp@.len(), p as int),
                temp@.len() <= 126,
                p < n ==> temp@.len() >= 2,
                written ==> temp@.len() <= 2,
                written ==> rle_encode(input@) == output@ + rle_encode_from(
                    input@.skip(p - temp@.len()),
                    repeated,
                ),
                !written ==> ({
                    let sub = input@.skip(p - temp@.len());
                    &&& temp@.len() >= 3
                    &&& rle_encode(input@) == output@ + rle_encode_from(sub, repeated)
                    &&& repeated ==> sub[0] == sub[1]
                    &&& repeated ==> run_end(sub, 2) == run_end(sub, temp@.len() as int)
                    &&& repeated ==> forall|k: int| 0 <= k < temp@.len() ==> #[trigger] temp@[k] == temp@[0]
                    &&& !repeated ==> sub[0] != sub[1]
                    &&& !repeated ==> distinct_end(sub, 2) == distinct_end(
                        sub,
                        temp@.len() as int,
                    )
                }),
            decreases n - p,
        {
            let ghost t0 = p - temp@.len();
            let ghost sub = input@.skip(t0);
            let byte = input[p];
            p = p + 1;
            let len = temp.len();
            assert(sub.len() >= len + 1);
            assert(sub[len as int] == byte);
            assert(forall|k: int| 0 <= k < len ==> sub[k] == temp@[k]);
            if written {
                repeated = temp[len - 1] == temp[len - 2];
                written = false;
            }
            if repeated {
                assert(run_end(sub, len as int) == if byte != temp@[len - 1] || len == 126 {
                    len as int
                } else {
                    run_end(sub, len + 1)
                });
                if byte != temp[len - 1] || temp.len() == max_buffer_len {
                    proof {
                        lemma_run_end_bounds(sub, 2);
                        assert(sub.skip(len as int) =~= input@.skip(t0 + len));
                        assert(rle_encode_from(sub, repeated) == seq![
                            repeat_tag(len as int),
                            sub[0],
                        ] + rle_encode_from(sub.skip(len as int), true));
                    }
                    let ghost out0 = output@;
                    output.push((256 - temp.len()) as u8);
                    output.push(temp[0]);
                    assert(output@ =~= out0 + seq![repeat_tag(len as int), sub[0]]);
                    temp.clear();
                    written = true;
                    temp.push(byte);
                    if p < n {
                        temp.push(input[p]);
                        p = p + 1;
                    }
                    assert(temp@ =~= input@.subrange(p - temp@.len(), p as int));
                } else {
                    temp.push(byte);
                    assert(temp@ =~= input@.subrange(p - temp@.len(), p as int));
                }
            } else {
                assert(distinct_end(sub, len as int) == if byte == temp@[len - 1] || len == 126 {
                    len as int
                } else {
                    distinct_end(sub, len + 1)
                });
                if byte == temp[len - 1] || temp.len() == max_buffer_len {
                    proof {
                        lemma_distinct_end_bounds(sub, 2);
                        assert(sub.skip(len - 1) =~= input@.skip(t0 + len - 1));
                    }
                    let ghost out0 = output@;
                    let prev = temp.pop();
                    match prev {
                        Some(prev) => {
                            output.push(temp.len() as u8);
                            output.extend_from_slice(temp.as_slice());
                            assert(temp@ =~= sub.take(len - 1));
                            assert(output@ =~= out0 + (seq![(len - 1) as u8] + sub.take(len - 1)));
                            temp.clear();
                            temp.push(prev);
                            written = true;
                        },
                        None => {},
                    }
                }
                temp.push(byte);
                assert(temp@ =~= input@.subrange(p - temp@.len(), p as int));
            }
        }

        let ghost sub = input@.skip(p - temp@.len());
        assert(sub =~= temp@);
        let len = temp.len();
        if len > 0 {
            if repeated && (len != 2 || temp[0] == temp[1]) {
                if !written {
                    proof {
                        lemma_run_end_bounds(sub, len as int);
                    }
                }
                output.push((256 - len) as u8);
                output.push(temp[0]);
            } else {
                if !written {
                    proof {
                        lemma_distinct_end_bounds(sub, len as int);
                    }
                }
                output.push(len as u8);
                output.extend_from_slice(temp.as_slice());
            }
        }
        output
    }
}


impl RLE {
    /// Decodes a run-length encoded stream (see the module documentation);
    /// `None` when a length byte is zero.
    pub fn decode(input: &Vec<u8>) -> (res: Option<Vec<u8>>)
        ensures
            match res {
                Some(out) => rle_decode(input@) == Some(out@),
                None => rle_decode(input@) is None,
            },
    {
        let mut output: Vec<u8> = Vec::new();
        let n = input.len();
        let mut p: usize = 0;
        assert(input@.skip(0) =~= input@);
        assert(output@ + Seq::<u8>::empty() =~= Seq::<u8>::empty());
        while p < n
            invariant
                n == input@.len(),
                p <= n,
                match rle_decode(input@.skip(p as int)) {
                    Some(r) => rle_decode(input@) == Some(output@ + r),
                    None => rle_decode(input@) is None,
                },
            decreases n - p,
        {
            let ghost p0 = p;
            let ghost out0 = output@;
            let ghost rest = input@.skip(p0 as int);
            let length = input[p];
            p = p + 1;
            if length == 0 {
                return None;
            } else if length < 128 {
                let ghost m = if length <= rest.len() - 1 { length as int } else { rest.len() - 1 };
                let mut i: u8 = 0;
                while i < length
                    invariant
                        n == input@.len(),
                        p0 < n,
                        rest == input@.skip(p0 as int),
                        0 <= i <= length,
                        p == p0 + 1 + if i <= rest.len() - 1 { i as int } else { rest.len() - 1 },
                        output@ == out0 + input@.subrange(p0 + 1, p as int),
                    decreases length - i,
                {
                    if p < n {
                        output.push(input[p]);
                        p = p + 1;
                        assert(input@.subrange(p0 + 1, p as int) =~= input@.subrange(
                            p0 + 1,
                            p - 1,
                        ).push(input@[p - 1]));
                    }
                    i = i + 1;
                }
                assert(rest.skip(1 + m) =~= input@.skip(p as int));
                assert(rest.subrange(1, 1 + m) =~= input@.subrange(p0 + 1, p as int));
            } else {
                if p < n {
                    let repeated_char = input[p];
                    p = p + 1;
                    let count: usize = 256 - length as usize;
                    let mut i: usize = 0;
                    while i < count
                        invariant
                            0 <= i <= count,
                            output@ == out0 + Seq::new(i as nat, |k: int| repeated_char),
                        decreases count - i,
                    {
                        output.push(repeated_char);
                        i = i + 1;
                        assert(output@ =~= out0 + Seq::new(i as nat, |k: int| repeated_char));
                    }
                    assert(rest.skip(2) =~= input@.skip(p as int));
                } else {
                    assert(input@.skip(p as int) =~= Seq::<u8>::empty());
                    assert(output@ + Seq::<u8>::empty() =~= output@);
                }
            }
            proof {
                match rle_decode(input@.skip(p as int)) {
                    Some(r) => {
                        assert(out0 + rle_decode(rest).unwrap() =~= output@ + r);
                    },
                    None => {},
                }
            }
        }
        Some(output)
    }
}

} // verus!
