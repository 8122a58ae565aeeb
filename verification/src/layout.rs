//! Channel-layout transforms between interleaved and planar sample buffers.
//!
//! In an interleaved buffer of `C` channels, sample `i` belongs to channel
//! `i % C` and to slot `i / C`. A planar buffer holds one row per channel.
//! Both transforms write into buffers that the caller provides and may be
//! larger than the frame; what lies outside the frame is left untouched.

use vstd::prelude::*;

verus! {

/// The rows of a planar buffer as sequences.
pub open spec fn planar_view<T>(rows: Seq<Vec<T>>) -> Seq<Seq<T>> {
    Seq::new(rows.len(), |c: int| rows[c]@)
}

/// The planar layout of an interleaved frame of `channels` channels: row `c`
/// holds, slot by slot, the samples at `s * channels + c`.
pub open spec fn deinterleaved<T>(frame: Seq<T>, channels: nat) -> Seq<Seq<T>> {
    Seq::new(
        channels,
        |c: int| Seq::new(frame.len() / channels, |s: int| frame[s * channels + c]),
    )
}

/// The interleaved layout of a planar frame whose rows all have the length of
/// the first: sample `i` is taken from row `i % C` at slot `i / C`.
pub open spec fn interleaved<T>(rows: Seq<Seq<T>>) -> Seq<T> {
    Seq::new(
        rows.len() * rows[0].len(),
        |i: int| rows[i % (rows.len() as int)][i / (rows.len() as int)],
    )
}

/// Every row has the same length as the first.
pub open spec fn rectangular<T>(rows: Seq<Seq<T>>) -> bool {
    forall|c: int| 0 <= c < rows.len() ==> (#[trigger] rows[c]).len() == rows[0].len()
}

/// `rows` has `channels` rows of `slots` samples each.
pub open spec fn shaped<T>(rows: Seq<Seq<T>>, channels: nat, slots: nat) -> bool {
    rows.len() == channels && forall|c: int|
        0 <= c < rows.len() ==> (#[trigger] rows[c]).len() == slots
}

/// Each of the first `len` interleaved positions has a place in `rows`.
pub open spec fn planar_holds<T>(rows: Seq<Seq<T>>, len: nat, channels: nat) -> bool {
    forall|i: int|
        0 <= i < len ==> (i % (channels as int)) < rows.len() && (i / (channels as int)) < (
        #[trigger] rows[i % (channels as int)]).len()
}

/// `rows` after the interleaved `frame` has been written over it: the place of
/// every sample of the frame holds that sample, every other place is as before.
pub open spec fn planar_written<T>(rows: Seq<Seq<T>>, frame: Seq<T>, channels: nat) -> Seq<Seq<T>> {
    Seq::new(
        rows.len(),
        |c: int|
            Seq::new(
                rows[c].len(),
                |s: int|
                    if c < channels && s * channels + c < frame.len() {
                        frame[s * channels + c]
                    } else {
                        rows[c][s]
                    },
            ),
    )
}

/// Position `i` of an interleaved buffer lies in channel `i % channels` at
/// slot `i / channels`.
pub proof fn lemma_position(i: int, channels: int)
    requires
        0 <= i,
        channels >= 1,
    ensures
        0 <= i % channels < channels,
        0 <= i / channels <= i,
        (i / channels) * channels + i % channels == i,
{
    vstd::arithmetic::div_mod::lemma_fundamental_div_mod(i, channels);
    vstd::arithmetic::div_mod::lemma_div_pos_is_pos(i, channels);
    vstd::arithmetic::div_mod::lemma_div_is_ordered_by_denominator(i, 1, channels);
    assert((i / channels) * channels == channels * (i / channels)) by (nonlinear_arith);
}

/// Slot `s` of channel `c` lies at position `s * channels + c`, and at no other.
pub proof fn lemma_place(c: int, s: int, channels: int)
    requires
        0 <= c < channels,
        0 <= s,
    ensures
        0 <= s * channels + c,
        (s * channels + c) % channels == c,
        (s * channels + c) / channels == s,
{
    assert(s * channels == channels * s) by (nonlinear_arith);
    assert(0 <= s * channels) by (nonlinear_arith)
        requires
            0 <= s,
            0 <= channels,
    ;
    vstd::arithmetic::div_mod::lemma_fundamental_div_mod_converse(
        s * channels + c,
        channels,
        s,
        c,
    );
}

/// Splits an interleaved frame into per-channel rows, in place.
pub fn deinterleave<T: Copy>(channels: usize, input: &Vec<T>, output: &mut Vec<Vec<T>>)
    requires
        channels >= 1,
        planar_holds(planar_view(old(output)@), input@.len(), channels as nat),
    ensures
        final(output)@.len() == old(output)@.len(),
        planar_view(final(output)@) == planar_written(
            planar_view(old(output)@),
            input@,
            channels as nat,
        ),
        input@.len() % (channels as nat) == 0 && shaped(
            planar_view(old(output)@),
            channels as nat,
            input@.len() / (channels as nat),
        ) ==> planar_view(final(output)@) == deinterleaved(input@, channels as nat),
{
    let ghost before = planar_view(output@);
    assert(planar_view(output@) =~~= planar_written(before, input@.take(0), channels as nat));
    let mut i: usize = 0;
    while i < input.len()
        invariant
            channels >= 1,
            i <= input@.len(),
            before == planar_view(old(output)@),
            output@.len() == old(output)@.len(),
            planar_holds(before, input@.len(), channels as nat),
            planar_view(output@) == planar_written(before, input@.take(i as int), channels as nat),
        decreases input@.len() - i,
    {
        let c: usize = i % channels;
        let s: usize = i / channels;
        let ghost prev = planar_view(output@);
        proof {
            lemma_position(i as int, channels as int);
            assert(prev.len() == before.len());
            assert(prev[c as int].len() == before[c as int].len());
            assert(prev[c as int] == output@[c as int]@);
        }
        output[c][s] = input[i];
        proof {
            let next = planar_view(output@);
            let want = planar_written(before, input@.take(i + 1), channels as nat);
            assert(next.len() == want.len());
            assert forall|r: int| 0 <= r < next.len() implies next[r] =~= want[r] by {
                assert(next[r] == output@[r]@);
                assert(prev[r].len() == before[r].len());
                if r == c {
                    assert(next[r] == prev[r].update(s as int, input@[i as int]));
                } else {
                    assert(next[r] == prev[r]);
                }
                assert forall|t: int| 0 <= t < next[r].len() implies next[r][t] == want[r][t] by {
                    if r < channels {
                        lemma_place(r, t, channels as int);
                    }
                }
            }
            assert(next =~= want);
        }
        i += 1;
    }
    assert(input@.take(i as int) =~= input@);
    proof {
        if input@.len() % (channels as nat) == 0 && shaped(
            before,
            channels as nat,
            input@.len() / (channels as nat),
        ) {
            lemma_written_whole(before, input@, channels as nat);
        }
    }
}

/// Writing a whole frame over rows of exactly its shape leaves the frame's
/// planar layout and nothing else.
pub proof fn lemma_written_whole<T>(rows: Seq<Seq<T>>, frame: Seq<T>, channels: nat)
    requires
        channels >= 1,
        frame.len() % channels == 0,
        shaped(rows, channels, frame.len() / channels),
    ensures
        planar_written(rows, frame, channels) == deinterleaved(frame, channels),
{
    let slots = frame.len() / channels;
    let written = planar_written(rows, frame, channels);
    let planar = deinterleaved(frame, channels);
    lemma_position(frame.len() as int, channels as int);
    assert(slots * channels == frame.len());
    assert forall|c: int| 0 <= c < written.len() implies written[c] =~= planar[c] by {
        assert(rows[c].len() == slots);
        assert forall|s: int| 0 <= s < slots implies written[c][s] == planar[c][s] by {
            assert(s * channels + c < slots * channels) by (nonlinear_arith)
                requires
                    0 <= s < slots,
                    0 <= c < channels,
            ;
        }
    }
    assert(written =~= planar);
}

/// `before` with the interleaved layout of `rows` written over its start.
pub open spec fn interleaved_over<T>(before: Seq<T>, rows: Seq<Seq<T>>) -> Seq<T> {
    interleaved(rows) + before.skip((rows.len() * rows[0].len()) as int)
}

/// Merges per-channel rows into one interleaved frame, in place. The first
/// row gives the number of slots; longer rows are read that far.
pub fn interleave<T: Copy>(input: &Vec<Vec<T>>, output: &mut Vec<T>)
    requires
        input@.len() >= 1,
        forall|c: int| 0 <= c < input@.len() ==> (#[trigger] input@[c])@.len() >= input@[0]@.len(),
        input@.len() * input@[0]@.len() <= old(output)@.len(),
    ensures
        final(output)@ == interleaved_over(old(output)@, planar_view(input@)),
{
    let channels: usize = input.len();
    let slots: usize = input[0].len();
    let ghost rows = planar_view(input@);
    let ghost before = output@;
    assert(before.len() == output.len());
    let mut i: usize = 0;
    while i < slots
        invariant
            channels == input@.len(),
            channels >= 1,
            slots == input@[0]@.len(),
            rows == planar_view(input@),
            forall|c: int| 0 <= c < input@.len() ==> (#[trigger] input@[c])@.len() >= slots,
            channels * slots <= before.len() <= usize::MAX,
            i <= slots,
            output@.len() == before.len(),
            forall|j: int|
                0 <= j < channels * i ==> #[trigger] output@[j] == rows[j % (channels as int)][j
                    / (channels as int)],
            forall|j: int| channels * i <= j < before.len() ==> #[trigger] output@[j] == before[j],
        decreases slots - i,
    {
        let mut channel: usize = 0;
        while channel < channels
            invariant
                channels == input@.len(),
                channels >= 1,
                slots == input@[0]@.len(),
                rows == planar_view(input@),
                forall|c: int| 0 <= c < input@.len() ==> (#[trigger] input@[c])@.len() >= slots,
                channels * slots <= before.len() <= usize::MAX,
                i < slots,
                channel <= channels,
                output@.len() == before.len(),
                forall|j: int|
                    0 <= j < channels * i + channel ==> #[trigger] output@[j] == rows[j % (
                    channels as int)][j / (channels as int)],
                forall|j: int|
                    channels * i + channel <= j < before.len() ==> #[trigger] output@[j]
                        == before[j],
            decreases channels - channel,
        {
            proof {
                assert(0 <= channels * i && channels * i + channel < channels * slots)
                    by (nonlinear_arith)
                    requires
                        0 <= i < slots,
                        0 <= channel < channels,
                ;
                assert(channels * i == i * channels) by (nonlinear_arith);
                lemma_place(channel as int, i as int, channels as int);
            }
            output[channels * i + channel] = input[channel][i];
            channel += 1;
        }
        proof {
            assert(channels * i + channels == channels * (i + 1)) by (nonlinear_arith);
        }
        i += 1;
    }
    proof {
        let want = interleaved_over(before, rows);
        assert(rows.len() == channels);
        assert(rows[0].len() == slots);
        assert(output@.len() == want.len());
        assert forall|j: int| 0 <= j < output@.len() implies output@[j] == want[j] by {
            if j < channels * slots {
                assert(want[j] == interleaved(rows)[j]);
            } else {
                assert(want[j] == before.skip((channels * slots) as int)[j - channels * slots]);
            }
        }
        assert(output@ =~= want);
    }
}

/// The interleaved layout of the planar layout of a frame is the frame, for
/// any frame of a whole number of slots and any number of channels from one
/// up.
pub proof fn law_interleave_after_deinterleave<T>(frame: Seq<T>, channels: nat)
    requires
        channels >= 1,
        frame.len() % channels == 0,
    ensures
        interleaved(deinterleaved(frame, channels)) == frame,
{
    let slots = frame.len() / channels;
    let rows = deinterleaved(frame, channels);
    let back = interleaved(rows);
    lemma_position(frame.len() as int, channels as int);
    assert(rows.len() * rows[0].len() == frame.len()) by (nonlinear_arith)
        requires
            rows.len() == channels,
            rows[0].len() == slots,
            slots * channels == frame.len(),
    ;
    assert forall|i: int| 0 <= i < frame.len() implies back[i] == frame[i] by {
        lemma_position(i, channels as int);
        assert(i / (channels as int) < slots) by (nonlinear_arith)
            requires
                (i / (channels as int)) * channels + i % (channels as int) == i,
                0 <= i % (channels as int),
                i < slots * channels,
                channels >= 1,
        ;
    }
    assert(back =~= frame);
}

/// The planar layout of the interleaved layout of a planar buffer is that
/// buffer, for any buffer of at least one row whose rows are equally long.
pub proof fn law_deinterleave_after_interleave<T>(rows: Seq<Seq<T>>)
    requires
        rows.len() >= 1,
        rectangular(rows),
    ensures
        deinterleaved(interleaved(rows), rows.len()) == rows,
{
    let channels = rows.len();
    let slots = rows[0].len();
    let frame = interleaved(rows);
    let back = deinterleaved(frame, channels);
    assert(frame.len() == channels * slots);
    assert(frame.len() / channels == slots) by {
        assert(channels * slots == slots * channels) by (nonlinear_arith);
        vstd::arithmetic::div_mod::lemma_div_multiples_vanish(slots as int, channels as int);
    }
    assert forall|c: int| 0 <= c < channels implies back[c] =~= rows[c] by {
        assert(rows[c].len() == slots);
        assert forall|s: int| 0 <= s < slots implies back[c][s] == rows[c][s] by {
            lemma_place(c, s, channels as int);
            assert(s * channels + c < channels * slots) by (nonlinear_arith)
                requires
                    0 <= s < slots,
                    0 <= c < channels,
            ;
        }
    }
    assert(back =~= rows);
}

} // verus!
