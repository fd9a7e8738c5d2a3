//! The run-length steps of BZip2, and the randomization of old blocks.

use vstd::prelude::*;

use crate::codecs::bzip::fault::Fault;
use crate::codecs::bzip::randtable::BZ2_RNUMS;

verus! {

/// How many bytes remain until the next flip, after one more byte.
pub open spec fn countdown(remaining: u16, index: int) -> u16 {
    let start: u16 = if remaining == 0 {
        BZ2_RNUMS[index]
    } else {
        remaining
    };
    if start == 0 {
        0
    } else {
        (start - 1) as u16
    }
}

/// The entry of the table that comes into use next.
pub open spec fn next_index(remaining: u16, index: int) -> int {
    if remaining == 0 {
        (index + 1) % 512
    } else {
        index
    }
}

/// The bytes with the randomized bits flipped: the table says how far apart they are.
pub open spec fn derandomized(bytes: Seq<u8>, remaining: u16, index: int) -> Seq<u8>
    decreases bytes.len(),
{
    if bytes.len() == 0 {
        Seq::empty()
    } else {
        let left = countdown(remaining, index);
        let byte: u8 = if left == 1 {
            bytes[0] ^ 1
        } else {
            bytes[0]
        };
        seq![byte] + derandomized(bytes.drop_first(), left, next_index(remaining, index))
    }
}

/// Randomizing twice changes nothing, and once changes no more than the lowest bits.
pub proof fn lemma_derandomized_twice(bytes: Seq<u8>, remaining: u16, index: int)
    ensures
        derandomized(bytes, remaining, index).len() == bytes.len(),
        derandomized(derandomized(bytes, remaining, index), remaining, index) == bytes,
        forall|i: int|
            0 <= i < bytes.len() ==> #[trigger] derandomized(bytes, remaining, index)[i] ^ bytes[i]
                <= 1,
    decreases bytes.len(),
{
    let once = derandomized(bytes, remaining, index);
    if bytes.len() == 0 {
        assert(derandomized(once, remaining, index) =~= bytes);
    } else {
        let left = countdown(remaining, index);
        let next = next_index(remaining, index);
        lemma_derandomized_twice(bytes.drop_first(), left, next);
        assert(once.drop_first() =~= derandomized(bytes.drop_first(), left, next));
        let b = bytes[0];
        assert(b ^ 1 ^ 1 == b && (b ^ 1) ^ b == 1 && b ^ b == 0) by (bit_vector);
        assert(derandomized(once, remaining, index) =~= bytes);
        assert forall|i: int| 0 <= i < bytes.len() implies #[trigger] once[i] ^ bytes[i] <= 1 by {
            if i > 0 {
                let later = derandomized(bytes.drop_first(), left, next);
                assert(once[i] == later[i - 1]);
                assert(bytes[i] == bytes.drop_first()[i - 1]);
                assert(later[i - 1] ^ bytes.drop_first()[i - 1] <= 1);
            }
        }
    }
}

/// Flips the randomized bits of a block. The lowest bit of some bytes changes, and doing it
/// once more gives the block back.
pub fn derandomize(bytes: &mut Vec<u8>)
    ensures
        final(bytes)@ == derandomized(old(bytes)@, 0, 0),
        final(bytes)@.len() == old(bytes)@.len(),
        forall|i: int|
            0 <= i < old(bytes)@.len() ==> #[trigger] final(bytes)@[i] ^ old(bytes)@[i] <= 1,
        derandomized(final(bytes)@, 0, 0) == old(bytes)@,
{
    proof {
        lemma_derandomized_twice(bytes@, 0, 0);
    }
    let mut remaining: u16 = 0;
    let mut index: usize = 0;
    let mut i: usize = 0;
    assert(bytes@.take(0) + derandomized(bytes@.skip(0), 0, 0) =~= derandomized(bytes@, 0, 0)) by {
        assert(bytes@.skip(0) =~= bytes@);
    }
    while i < bytes.len()
        invariant
            i <= bytes@.len(),
            index < 512,
            bytes@.take(i as int) + derandomized(bytes@.skip(i as int), remaining, index as int)
                == derandomized(old(bytes)@, 0, 0),
        decreases bytes.len() - i,
    {
        let ghost before = bytes@;
        let ghost left = countdown(remaining, index as int);
        let ghost next = next_index(remaining, index as int);
        if remaining == 0 {
            remaining = BZ2_RNUMS[index];
            index = (index + 1) % 512;
        }
        if remaining > 0 {
            remaining -= 1;
        }
        if remaining == 1 {
            let byte: u8 = bytes[i];
            bytes.set(i, byte ^ 1);
        }
        proof {
            assert(before.skip(i as int)[0] == before[i as int]);
            assert(before.skip(i as int).drop_first() =~= bytes@.skip(i + 1));
            assert(bytes@.take(i + 1) + derandomized(bytes@.skip(i + 1), left, next)
                =~= before.take(i as int) + (seq![bytes@[i as int]] + derandomized(
                bytes@.skip(i + 1),
                left,
                next,
            )));
        }
        i += 1;
    }
    assert(bytes@.take(i as int) =~= bytes@);
    assert(derandomized(bytes@.skip(i as int), remaining, index as int) =~= Seq::<u8>::empty());
    assert(bytes@ + Seq::<u8>::empty() =~= bytes@);
}

/// `n` copies of `byte`.
pub open spec fn repeated(byte: u8, n: nat) -> Seq<u8> {
    Seq::new(n, |i: int| byte)
}

/// How many bytes at the front equal the first one, given that `n` do; at most `max`.
pub open spec fn lead(s: Seq<u8>, n: int, max: int) -> int
    decreases max - n,
{
    if n < max && n < s.len() && s[n] == s[0] {
        lead(s, n + 1, max)
    } else {
        n
    }
}

/// A run as the first run-length step writes it: from four bytes on, four of them and a count.
pub open spec fn run_code(byte: u8, run: int) -> Seq<u8> {
    if run < 4 {
        repeated(byte, run as nat)
    } else {
        repeated(byte, 4).push((run - 4) as u8)
    }
}

/// The first run-length step.
pub open spec fn rle1(s: Seq<u8>) -> Seq<u8>
    decreases s.len(),
{
    if s.len() == 0 {
        Seq::empty()
    } else {
        let run = lead(s, 1, 259);
        proof {
            lemma_lead(s, 1, 259);
        }
        run_code(s[0], run) + rle1(s.skip(run))
    }
}

/// Undoes the first run-length step behind `out`, as long as no more than `limit` bytes result.
pub open spec fn unrle1(code: Seq<u8>, out: Seq<u8>, limit: int) -> Result<Seq<u8>, Fault>
    decreases code.len(),
{
    if code.len() == 0 {
        Ok(out)
    } else {
        let run = lead(code, 1, 4);
        proof {
            lemma_lead(code, 1, 4);
        }
        if run == 4 && code.len() == 4 {
            Err(Fault::TruncatedRun)
        } else {
            let width = if run == 4 {
                5
            } else {
                run
            };
            let count = if run == 4 {
                4 + code[4]
            } else {
                run
            };
            if out.len() + count > limit {
                Err(Fault::RunExceedsLength)
            } else {
                unrle1(code.skip(width), out + repeated(code[0], count as nat), limit)
            }
        }
    }
}

/// What a run of equal bytes is.
pub proof fn lemma_lead(s: Seq<u8>, n: int, max: int)
    requires
        1 <= n <= max,
        n <= s.len(),
        forall|i: int| 0 <= i < n ==> #[trigger] s[i] == s[0],
    ensures
        n <= lead(s, n, max) <= max,
        lead(s, n, max) <= s.len(),
        forall|i: int| 0 <= i < lead(s, n, max) ==> #[trigger] s[i] == s[0],
        lead(s, n, max) < max && lead(s, n, max) < s.len() ==> s[lead(s, n, max)] != s[0],
    decreases max - n,
{
    if n < max && n < s.len() && s[n] == s[0] {
        lemma_lead(s, n + 1, max);
    }
}

/// A maximal run is what `lead` finds.
proof fn lemma_lead_is(s: Seq<u8>, n: int, max: int, r: int)
    requires
        1 <= n <= r <= max,
        r <= s.len(),
        forall|i: int| 0 <= i < r ==> #[trigger] s[i] == s[0],
        r < max && r < s.len() ==> s[r] != s[0],
    ensures
        lead(s, n, max) == r,
    decreases max - n,
{
    if n < r {
        assert(s[n] == s[0]);
        lemma_lead_is(s, n + 1, max, r);
    }
}

/// The code of a string begins with its first byte.
proof fn lemma_rle1_first(s: Seq<u8>)
    requires
        s.len() > 0,
    ensures
        rle1(s).len() > 0,
        rle1(s)[0] == s[0],
{
    lemma_lead(s, 1, 259);
}

/// The first run-length step can be undone.
pub proof fn lemma_rle1_round_trip(s: Seq<u8>, out: Seq<u8>, limit: int)
    requires
        out.len() + s.len() <= limit,
    ensures
        unrle1(rle1(s), out, limit) == Ok::<Seq<u8>, Fault>(out + s),
    decreases s.len(),
{
    if s.len() == 0 {
        assert(out + s =~= out);
    } else {
        let run = lead(s, 1, 259);
        lemma_lead(s, 1, 259);
        let rest = s.skip(run);
        let code = rle1(s);
        let head = run_code(s[0], run);
        assert(code == head + rle1(rest));
        assert(s =~= repeated(s[0], run as nat) + rest);
        lemma_rle1_round_trip(rest, out + repeated(s[0], run as nat), limit);
        assert(out + repeated(s[0], run as nat) + rest =~= out + s);
        if run < 4 {
            assert(code.skip(run) =~= rle1(rest));
            if rest.len() > 0 {
                lemma_rle1_first(rest);
                assert(rest[0] == s[run]);
            }
            lemma_lead_is(code, 1, 4, run);
        } else {
            assert(code.skip(5) =~= rle1(rest));
            assert(code[4] == (run - 4) as u8);
            lemma_lead_is(code, 1, 4, 4);
        }
    }
}

/// How much of `s` fits into a block of which `used` bytes are taken: whole runs only.
pub open spec fn block_length(s: Seq<u8>, used: int, limit: int) -> int
    decreases s.len(),
{
    if s.len() == 0 {
        0
    } else {
        let run = lead(s, 1, 259);
        let width = if run < 4 {
            run
        } else {
            5
        };
        proof {
            lemma_lead(s, 1, 259);
        }
        if used + width > limit {
            0
        } else {
            run + block_length(s.skip(run), used + width, limit)
        }
    }
}

/// The code of a block fits its limit, and a block with room for a run takes at least one.
pub proof fn lemma_block_length(s: Seq<u8>, used: int, limit: int)
    requires
        used <= limit,
    ensures
        0 <= block_length(s, used, limit) <= s.len(),
        used + rle1(s.take(block_length(s, used, limit))).len() <= limit,
        s.len() > 0 && used + 5 <= limit ==> block_length(s, used, limit) > 0,
    decreases s.len(),
{
    let n = block_length(s, used, limit);
    if s.len() == 0 {
        assert(s.take(0).len() == 0);
    } else {
        let run = lead(s, 1, 259);
        lemma_lead(s, 1, 259);
        let width = if run < 4 {
            run
        } else {
            5
        };
        if used + width <= limit {
            let rest = s.skip(run);
            lemma_block_length(rest, used + width, limit);
            let part = s.take(n);
            let m = block_length(rest, used + width, limit);
            if run < part.len() {
                assert(part[run] == s[run]);
            }
            lemma_lead_is(part, 1, 259, run);
            assert(part.skip(run) =~= rest.take(m));
        } else {
            assert(s.take(0).len() == 0);
        }
    }
}

/// Appends `count` copies of `byte`.
pub fn append_run(output: &mut Vec<u8>, byte: u8, count: usize)
    ensures
        final(output)@ == old(output)@ + repeated(byte, count as nat),
{
    let mut i: usize = 0;
    assert(output@ + repeated(byte, 0) =~= output@);
    while i < count
        invariant
            i <= count,
            output@ == old(output)@ + repeated(byte, i as nat),
        decreases count - i,
    {
        output.push(byte);
        i += 1;
        assert(output@ =~= old(output)@ + repeated(byte, i as nat));
    }
}

/// How many bytes from `position` on equal the one there, at most `max`.
fn run_length(input: &[u8], position: usize, max: usize) -> (run: usize)
    requires
        position < input@.len(),
        1 <= max,
    ensures
        run == lead(input@.skip(position as int), 1, max as int),
        1 <= run <= max,
        position + run <= input@.len(),
{
    let size: usize = input.len();
    let mut run: usize = 1;
    let ghost rest = input@.skip(position as int);
    while run < max && run < size - position && input[position + run] == input[position]
        invariant
            1 <= run <= max,
            position < size,
            size == input@.len(),
            run <= size - position,
            rest == input@.skip(position as int),
            lead(rest, 1, max as int) == lead(rest, run as int, max as int),
        decreases max - run,
    {
        run += 1;
    }
    run
}

/// The first run-length step.
pub fn encode_rle1(input: &[u8]) -> (output: Vec<u8>)
    ensures
        output@ == rle1(input@),
{
    let mut output: Vec<u8> = Vec::with_capacity(input.len());
    let mut position: usize = 0;
    assert(input@.skip(0) =~= input@);
    assert(output@ + rle1(input@) =~= rle1(input@));
    while position < input.len()
        invariant
            position <= input@.len(),
            output@ + rle1(input@.skip(position as int)) == rle1(input@),
        decreases input.len() - position,
    {
        let byte: u8 = input[position];
        let run: usize = run_length(input, position, 259);
        let ghost before = output@;
        if run < 4 {
            append_run(&mut output, byte, run);
        } else {
            append_run(&mut output, byte, 4);
            output.push((run - 4) as u8);
        }
        proof {
            let rest = input@.skip(position as int);
            assert(rest.skip(run as int) =~= input@.skip(position + run));
            assert(output@ =~= before + run_code(byte, run as int));
            assert(before + (run_code(byte, run as int) + rle1(rest.skip(run as int)))
                =~= output@ + rle1(rest.skip(run as int)));
        }
        position += run;
    }
    assert(rle1(input@.skip(position as int)) =~= Seq::<u8>::empty());
    assert(output@ + Seq::<u8>::empty() =~= output@);
    output
}

/// Undoes the first run-length step, as long as no more than `limit` bytes result.
pub fn decode_rle1(input: &[u8], limit: usize) -> (result: Result<Vec<u8>, Fault>)
    ensures
        match unrle1(input@, Seq::empty(), limit as int) {
            Ok(out) => result is Ok && result->Ok_0@ == out && out.len() <= limit,
            Err(fault) => result == Err::<Vec<u8>, Fault>(fault),
        },
{
    let mut output: Vec<u8> = Vec::new();
    let mut position: usize = 0;
    let size: usize = input.len();
    assert(input@.skip(0) =~= input@);
    assert(output@ =~= Seq::<u8>::empty());
    while position < size
        invariant
            position <= size,
            size == input@.len(),
            output@.len() <= limit,
            unrle1(input@.skip(position as int), output@, limit as int) == unrle1(
                input@,
                Seq::empty(),
                limit as int,
            ),
        decreases size - position,
    {
        let byte: u8 = input[position];
        let run: usize = run_length(input, position, 4);
        let ghost rest = input@.skip(position as int);
        let mut width: usize = run;
        let mut count: usize = run;
        if run == 4 {
            if size - position == 4 {
                return Err(Fault::TruncatedRun);
            }
            width = 5;
            count = 4 + input[position + 4] as usize;
            assert(rest[4] == input@[position + 4]);
        }
        if count > limit - output.len() {
            return Err(Fault::RunExceedsLength);
        }
        append_run(&mut output, byte, count);
        assert(rest.skip(width as int) =~= input@.skip(position + width));
        position += width;
    }
    Ok(output)
}

/// Where the block that starts at `start` ends: its code takes at most `encoded_limit` bytes.
pub fn rle1_block_end(input: &[u8], start: usize, encoded_limit: usize) -> (end: usize)
    requires
        start <= input@.len(),
    ensures
        end == start + block_length(input@.skip(start as int), 0, encoded_limit as int),
        start <= end <= input@.len(),
        start < input@.len() && encoded_limit >= 5 ==> start < end,
        rle1(input@.subrange(start as int, end as int)).len() <= encoded_limit,
{
    let mut position: usize = start;
    let mut used: usize = 0;
    let ghost rest = input@.skip(start as int);
    let ghost whole = block_length(rest, 0, encoded_limit as int);
    proof {
        lemma_block_length(rest, 0, encoded_limit as int);
        assert(input@.subrange(start as int, start + whole) =~= rest.take(whole));
    }
    while position < input.len()
        invariant_except_break
            start + whole == position + block_length(
                input@.skip(position as int),
                used as int,
                encoded_limit as int,
            ),
        invariant
            start <= position <= input@.len(),
            used <= encoded_limit,
        ensures
            position == start + whole,
        decreases input.len() - position,
    {
        let run: usize = run_length(input, position, 259);
        let width: usize = if run < 4 {
            run
        } else {
            5
        };
        if width > encoded_limit - used {
            break;
        }
        assert(input@.skip(position as int).skip(run as int) =~= input@.skip(position + run));
        used += width;
        position += run;
    }
    position
}

} // verus!
