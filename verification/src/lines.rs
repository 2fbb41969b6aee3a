//! Cutting a stream of bytes into full lines of text.

use crate::chars::first_index;
use crate::chars::lemma_first_index_bounds;
use crate::chars::lemma_first_index_is;
use vstd::prelude::*;
use vstd::slice::slice_subrange;
use vstd::utf8::decode_utf8;
use vstd::utf8::valid_utf8;

verus! {

/// The byte that ends a line.
pub const NEWLINE: u8 = 0x0A;

/// The full lines that `bytes` holds, as bytes and in order. A full line is a
/// run of bytes that ends with a newline, begins where the run before it
/// ended, and is valid UTF-8. A run that ends with a newline but is not valid
/// UTF-8 is passed over. What follows the last newline is no full line.
pub open spec fn full_lines(bytes: Seq<u8>) -> Seq<Seq<u8>>
    decreases bytes.len(),
{
    let k = first_index(bytes, NEWLINE);
    if 0 <= k < bytes.len() {
        let rest = full_lines(bytes.skip(k + 1));
        if valid_utf8(bytes.take(k + 1)) {
            seq![bytes.take(k + 1)] + rest
        } else {
            rest
        }
    } else {
        Seq::empty()
    }
}

/// How many bytes the runs of `runs` hold together.
pub open spec fn total_len(runs: Seq<Seq<u8>>) -> nat
    decreases runs.len(),
{
    if runs.len() == 0 {
        0
    } else {
        total_len(runs.drop_last()) + runs.last().len()
    }
}

/// The texts that the runs of `runs` encode.
pub open spec fn decoded(runs: Seq<Seq<u8>>) -> Seq<Seq<char>> {
    Seq::new(runs.len(), |i: int| decode_utf8(runs[i]))
}

/// The texts that the strings of `lines` hold.
pub open spec fn texts(lines: Seq<String>) -> Seq<Seq<char>> {
    Seq::new(lines.len(), |i: int| lines[i]@)
}

/// What stays of `bytes` when as many bytes as its full lines hold have left
/// its front.
pub open spec fn left_over(bytes: Seq<u8>) -> Seq<u8> {
    bytes.skip(total_len(full_lines(bytes)) as int)
}

/// The number of bytes of `bytes` up to and including its last newline.
pub open spec fn terminated_len(bytes: Seq<u8>) -> nat
    decreases bytes.len(),
{
    let k = first_index(bytes, NEWLINE);
    if 0 <= k < bytes.len() {
        (k + 1 + terminated_len(bytes.skip(k + 1))) as nat
    } else {
        0
    }
}

/// Whether every run of `bytes` that ends with a newline is valid UTF-8.
pub open spec fn every_line_decodes(bytes: Seq<u8>) -> bool
    decreases bytes.len(),
{
    let k = first_index(bytes, NEWLINE);
    0 <= k < bytes.len() ==> valid_utf8(bytes.take(k + 1)) && every_line_decodes(bytes.skip(k + 1))
}

/// One run holds the bytes that it holds.
pub proof fn lemma_total_len_one(run: Seq<u8>)
    ensures
        total_len(seq![run]) == run.len(),
{
    reveal_with_fuel(total_len, 2);
    assert(seq![run].drop_last() =~= Seq::<Seq<u8>>::empty());
}

/// Runs put one behind the other hold the bytes of both.
pub proof fn lemma_total_len_concat(a: Seq<Seq<u8>>, b: Seq<Seq<u8>>)
    ensures
        total_len(a + b) == total_len(a) + total_len(b),
    decreases b.len(),
{
    if b.len() == 0 {
        assert(a + b =~= a);
    } else {
        lemma_total_len_concat(a, b.drop_last());
        assert((a + b).drop_last() =~= a + b.drop_last());
    }
}

/// The full lines never hold more bytes than stand before the end of the last
/// newline, and every one of them ends with a newline.
pub proof fn lemma_full_lines_bounds(bytes: Seq<u8>)
    ensures
        total_len(full_lines(bytes)) <= terminated_len(bytes) <= bytes.len(),
        every_line_decodes(bytes) ==> total_len(full_lines(bytes)) == terminated_len(bytes),
        forall|i: int|
            0 <= i < full_lines(bytes).len() ==> {
                let run = #[trigger] full_lines(bytes)[i];
                run.len() > 0 && run.last() == NEWLINE && valid_utf8(run)
            },
    decreases bytes.len(),
{
    lemma_first_index_bounds(bytes, NEWLINE);
    let k = first_index(bytes, NEWLINE);
    if 0 <= k < bytes.len() {
        let run = bytes.take(k + 1);
        let rest = full_lines(bytes.skip(k + 1));
        lemma_full_lines_bounds(bytes.skip(k + 1));
        lemma_total_len_concat(seq![run], rest);
        lemma_total_len_one(run);
    }
}

/// Valid UTF-8 encodes no more characters than it has bytes.
pub proof fn lemma_decoded_no_longer(bytes: Seq<u8>)
    requires
        valid_utf8(bytes),
    ensures
        decode_utf8(bytes).len() <= bytes.len(),
    decreases bytes.len(),
{
    if bytes.len() > 0 {
        let rest = vstd::utf8::pop_first_scalar(bytes);
        assert(rest.len() < bytes.len());
        lemma_decoded_no_longer(rest);
    }
}

/// The texts of the full lines hold no more characters than the lines hold
/// bytes, and so no more than there are bytes at all.
pub proof fn lemma_full_lines_chars(bytes: Seq<u8>)
    ensures
        crate::chars::total_chars(decoded(full_lines(bytes))) <= total_len(full_lines(bytes))
            <= bytes.len(),
{
    lemma_full_lines_bounds(bytes);
    lemma_runs_chars(full_lines(bytes));
}

proof fn lemma_runs_chars(runs: Seq<Seq<u8>>)
    requires
        forall|i: int| 0 <= i < runs.len() ==> valid_utf8(#[trigger] runs[i]),
    ensures
        crate::chars::total_chars(decoded(runs)) <= total_len(runs),
    decreases runs.len(),
{
    if runs.len() > 0 {
        let earlier = runs.drop_last();
        assert forall|i: int| 0 <= i < earlier.len() implies valid_utf8(#[trigger] earlier[i]) by {
            assert(earlier[i] == runs[i]);
        }
        lemma_runs_chars(earlier);
        assert(decoded(runs).drop_last() =~= decoded(earlier));
        assert(valid_utf8(runs[runs.len() - 1]));
        lemma_decoded_no_longer(runs.last());
    }
}

/// Where `bytes` holds no newline it holds no full line.
pub proof fn lemma_no_newline_no_line(bytes: Seq<u8>)
    requires
        forall|i: int| 0 <= i < bytes.len() ==> bytes[i] != NEWLINE,
    ensures
        full_lines(bytes) == Seq::<Seq<u8>>::empty(),
        terminated_len(bytes) == 0,
{
    lemma_first_index_is(bytes, NEWLINE, bytes.len() as int);
}

/// Bytes that arrive in two parts give the same full lines as the same bytes
/// in one part, where every line of the first part decodes: the lines of the
/// first part, then the lines of what the first part left over followed by the
/// second part. What is left over in the end is the same too.
pub proof fn lemma_full_lines_in_parts(a: Seq<u8>, b: Seq<u8>)
    requires
        every_line_decodes(a),
    ensures
        full_lines(a + b) == full_lines(a) + full_lines(left_over(a) + b),
        total_len(full_lines(a + b)) == total_len(full_lines(a)) + total_len(
            full_lines(left_over(a) + b),
        ),
        left_over(a + b) == left_over(left_over(a) + b),
    decreases a.len(),
{
    lemma_first_index_bounds(a, NEWLINE);
    lemma_full_lines_bounds(a);
    let k = first_index(a, NEWLINE);
    let whole = a + b;
    if 0 <= k < a.len() {
        let run = a.take(k + 1);
        let rest = a.skip(k + 1);
        assert(first_index(whole, NEWLINE) == k) by {
            lemma_first_index_is(whole, NEWLINE, k);
        }
        assert(whole.take(k + 1) =~= run);
        assert(whole.skip(k + 1) =~= rest + b);
        lemma_full_lines_in_parts(rest, b);
        lemma_full_lines_bounds(rest);
        let used = total_len(full_lines(rest));
        lemma_total_len_concat(seq![run], full_lines(rest));
        lemma_total_len_one(run);
        assert(a.skip(total_len(full_lines(a)) as int) =~= rest.skip(used as int));
        assert(full_lines(whole) =~= full_lines(a) + full_lines(rest.skip(used as int) + b));
    } else {
        assert(a.skip(0) =~= a);
        assert(full_lines(a) + full_lines(a + b) =~= full_lines(a + b));
    }
    lemma_total_len_concat(full_lines(a), full_lines(a.skip(total_len(full_lines(a)) as int) + b));
    lemma_full_lines_bounds(left_over(a) + b);
    assert(left_over(a + b) =~= left_over(left_over(a) + b));
}

/// The error of the standard library's UTF-8 decoding. Nothing is read from it.
#[verifier::external_type_specification]
#[verifier::external_body]
pub struct ExUtf8Error(core::str::Utf8Error);

/// `core::str::from_utf8` of the standard library: it succeeds exactly on
/// valid UTF-8, and the text it then returns is the one that the bytes encode.
pub assume_specification[ core::str::from_utf8 ](bytes: &[u8]) -> (text: Result<
    &str,
    core::str::Utf8Error,
>)
    ensures
        text.is_ok() == valid_utf8(bytes@),
        text matches Ok(s) ==> s@ == decode_utf8(bytes@),
;

/// Reads the full lines out of `input_buf`, each with its newline, and counts
/// the bytes that they hold.
pub fn read_full_lines(input_buf: &[u8]) -> (found: (Vec<String>, usize))
    ensures
        texts(found.0@) == decoded(full_lines(input_buf@)),
        found.1 == total_len(full_lines(input_buf@)),
        found.1 <= input_buf@.len(),
{
    let mut lines: Vec<String> = Vec::new();
    let mut read_bytes: usize = 0;
    let mut start: usize = 0;
    let mut i: usize = 0;
    let ghost mut runs: Seq<Seq<u8>> = Seq::empty();
    proof {
        assert(input_buf@.skip(0) =~= input_buf@);
        assert(runs + full_lines(input_buf@) =~= full_lines(input_buf@));
        assert(texts(lines@) =~= decoded(runs));
    }
    while i < input_buf.len()
        invariant
            start <= i <= input_buf.len(),
            forall|j: int| start <= j < i ==> input_buf@[j] != NEWLINE,
            full_lines(input_buf@) == runs + full_lines(input_buf@.skip(start as int)),
            texts(lines@) == decoded(runs),
            read_bytes == total_len(runs),
            read_bytes <= start,
        decreases input_buf.len() - i,
    {
        if input_buf[i] == NEWLINE {
            let run = slice_subrange(input_buf, start, i + 1);
            let ghost rest = input_buf@.skip(start as int);
            proof {
                assert forall|j: int| 0 <= j < i - start implies rest[j] != NEWLINE by {
                    assert(rest[j] == input_buf@[j + start]);
                }
                lemma_first_index_is(rest, NEWLINE, i - start);
                assert(rest.take(i - start + 1) =~= run@);
                assert(rest.skip(i - start + 1) =~= input_buf@.skip(i + 1));
            }
            match core::str::from_utf8(run) {
                Ok(text) => {
                    let line = text.to_owned();
                    proof {
                        let ghost longer = runs.push(run@);
                        assert(longer.drop_last() =~= runs);
                        assert(texts(lines@).len() == decoded(runs).len());
                        assert forall|j: int| 0 <= j < longer.len() implies texts(
                            lines@.push(line),
                        )[j] == decoded(longer)[j] by {
                            if j < runs.len() {
                                assert(texts(lines@)[j] == decoded(runs)[j]);
                            }
                        }
                        assert(texts(lines@.push(line)) =~= decoded(longer));
                        assert(runs + (seq![run@] + full_lines(input_buf@.skip(i + 1))) =~= longer
                            + full_lines(input_buf@.skip(i + 1)));
                        runs = longer;
                    }
                    lines.push(line);
                    read_bytes = read_bytes + (i + 1 - start);
                },
                Err(_) => {},
            }
            start = i + 1;
        }
        i += 1;
    }
    proof {
        let rest = input_buf@.skip(start as int);
        assert forall|j: int| 0 <= j < rest.len() implies rest[j] != NEWLINE by {
            assert(rest[j] == input_buf@[j + start]);
        }
        lemma_no_newline_no_line(rest);
        assert(runs + Seq::<Seq<u8>>::empty() =~= runs);
    }
    (lines, read_bytes)
}

} // verus!
