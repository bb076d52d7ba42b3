//! What the state of a coder is: how each step changes it, and how it stands in bytes.
use crate::byte_laws::{le_number, lemma_eight_digits, words_are_written_as_digits};
use crate::bytes::bytes_of;
use crate::rans::{
    flushed, opened, stream_of, without_bits, without_slot, RansSymbol, Stream,
};
use vstd::prelude::*;

verus! {

/// A slot can be absorbed where it is not empty, and raw bits where there are four of them.
pub proof fn step_can_be_absorbed_where_it_is_not_empty(step: RansSymbol)
    ensures
        step.valid() <==> if step.bypass {
            step.start < 16
        } else {
            step.range > 0
        },
{
}

/// No steps leave the state `2^31`, and no words.
pub proof fn no_steps_leave_the_least_state()
    ensures
        stream_of(Seq::empty()) == (Stream { x: 0x8000_0000, words: Seq::empty() }),
{
}

/// A slot that is `f` wide and begins at `start`, put in front of other steps, takes their
/// state `x` to `2^16 * (x / f) + x % f + start`. Where `x` is `2^47 * f` or more, its low
/// half is first moved to the front of the words.
pub proof fn slot_is_put_in_front(steps: Seq<RansSymbol>)
    requires
        steps.len() > 0,
        !steps[0].bypass,
        steps[0].range > 0,
    ensures
        ({
            let rest = stream_of(steps.drop_first());
            let f = steps[0].range as int;
            let low = rest.x % 0x1_0000_0000;
            let high = rest.x / 0x1_0000_0000;
            &&& rest.x < 0x8000_0000_0000 * f ==> stream_of(steps) == (Stream {
                x: 0x1_0000 * (rest.x / f) + rest.x % f + steps[0].start,
                words: rest.words,
            })
            &&& rest.x >= 0x8000_0000_0000 * f ==> stream_of(steps) == (Stream {
                x: 0x1_0000 * (high / f) + high % f + steps[0].start,
                words: seq![low as u32] + rest.words,
            })
        }),
{
}

/// Four raw bits, put in front of other steps, take their state `x` to `16 * x` plus the
/// bits. Where `x` is `2^59` or more, its low half is first moved to the front of the words.
pub proof fn bits_are_put_in_front(steps: Seq<RansSymbol>)
    requires
        steps.len() > 0,
        steps[0].bypass,
    ensures
        ({
            let rest = stream_of(steps.drop_first());
            let low = rest.x % 0x1_0000_0000;
            let high = rest.x / 0x1_0000_0000;
            &&& rest.x < 0x800_0000_0000_0000 ==> stream_of(steps) == (Stream {
                x: 16 * rest.x + steps[0].start,
                words: rest.words,
            })
            &&& rest.x >= 0x800_0000_0000_0000 ==> stream_of(steps) == (Stream {
                x: 16 * high + steps[0].start,
                words: seq![low as u32] + rest.words,
            })
        }),
{
}

/// A finished stream is written as eight bytes that have the state as their number, then
/// four bytes for each word, in the order in which a reader takes them.
pub proof fn finished_stream_begins_with_its_state(s: Stream)
    requires
        0 <= s.x <= u64::MAX,
    ensures
        bytes_of(flushed(s)).len() == 8 + 4 * s.words.len(),
        le_number(bytes_of(flushed(s)).take(8)) == s.x,
        bytes_of(flushed(s)).skip(8) == bytes_of(s.words),
        forall|i: int|
            0 <= i < s.words.len() ==> le_number(
                bytes_of(flushed(s)).subrange(8 + 4 * i, 12 + 4 * i),
            ) == #[trigger] s.words[i],
{
    let words = flushed(s);
    let b = bytes_of(words);
    words_are_written_as_digits(words);
    assert(b.take(8).take(4) =~= b.subrange(0, 4));
    assert(b.take(8).skip(4) =~= b.subrange(4, 8));
    lemma_eight_digits(b.take(8));
    assert(words[0] == s.x % 0x1_0000_0000 && words[1] == s.x / 0x1_0000_0000);
    assert(le_number(b.subrange(4 * 0int, 4 * 0int + 4)) == words[0]);
    assert(le_number(b.subrange(4 * 1int, 4 * 1int + 4)) == words[1]);
    assert forall|i: int| 0 <= i < s.words.len() implies le_number(
        b.subrange(8 + 4 * i, 12 + 4 * i),
    ) == #[trigger] s.words[i] by {
        assert(words[i + 2] == s.words[i]);
        assert(b.subrange(4 * (i + 2), 4 * (i + 2) + 4) =~= b.subrange(8 + 4 * i, 12 + 4 * i));
    }
    assert(b.skip(8) =~= bytes_of(s.words)) by {
        assert forall|i: int| 0 <= i < 4 * s.words.len() implies #[trigger] b.skip(8)[i]
            == bytes_of(s.words)[i] by {
            assert((i + 8) / 4 == i / 4 + 2 && (i + 8) % 4 == i % 4);
            assert(words[i / 4 + 2] == s.words[i / 4]);
        }
    }
}

/// A reader starts from the state that the first two words make up, the low one first, and
/// takes the other words in order. Fewer words hold no stream.
pub proof fn reader_starts_from_the_first_two_words(words: Seq<u32>)
    ensures
        words.len() < 2 ==> opened(words) is None,
        words.len() >= 2 ==> opened(words) == Some(
            Stream { x: words[0] + 0x1_0000_0000 * words[1], words: words.skip(2) },
        ),
{
}

/// Taking four raw bits out of a state divides it by 16. A state below `2^31` takes in the
/// next word as its low half, and there is no stream where no word is left.
pub proof fn taken_bits_divide_the_state(s: Stream)
    ensures
        s.x / 16 >= 0x8000_0000 ==> without_bits(s) == Some(Stream { x: s.x / 16, words: s.words }),
        s.x / 16 < 0x8000_0000 && s.words.len() > 0 ==> without_bits(s) == Some(
            Stream { x: 0x1_0000_0000 * (s.x / 16) + s.words[0], words: s.words.skip(1) },
        ),
        s.x / 16 < 0x8000_0000 && s.words.len() == 0 ==> without_bits(s) is None,
{
    if s.words.len() > 0 {
        assert(s.words.skip(1) =~= s.words.drop_first());
    }
}

/// Taking the slot that is `freq` wide and begins at `start` out of a state `x` leaves
/// `freq * (x / 2^16) + x % 2^16 - start`. A state below `2^31` takes in the next word as
/// its low half, and there is no stream where no word is left.
pub proof fn taken_slot_shrinks_the_state(s: Stream, start: u64, freq: u64)
    requires
        0 <= s.x,
    ensures
        ({
            let sum = freq * (s.x / 0x1_0000) + s.x % 0x1_0000;
            let y = sum - start;
            let u = without_slot(s, start, freq);
            &&& sum > u64::MAX || y < 0 ==> u is None
            &&& sum <= u64::MAX && y >= 0x8000_0000 ==> u == Some(Stream { x: y, words: s.words })
            &&& sum <= u64::MAX && 0 <= y < 0x8000_0000 && s.words.len() > 0 ==> u == Some(
                Stream { x: 0x1_0000_0000 * y + s.words[0], words: s.words.skip(1) },
            )
            &&& sum <= u64::MAX && 0 <= y < 0x8000_0000 && s.words.len() == 0 ==> u is None
        }),
{
    if s.words.len() > 0 {
        assert(s.words.skip(1) =~= s.words.drop_first());
    }
}

} // verus!
