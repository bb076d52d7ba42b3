//! The rANS state machine: absorbing a table slot or four raw bits into the
//! state, and taking them out again.
use crate::bytes::{bytes_of, halves, joined, lemma_bytes_of_push, write_word};
use vstd::prelude::*;

verus! {

/// The least state between two steps; a smaller one takes in another word.
pub const RANS64_L: u64 = 0x8000_0000;

/// One step of the coder. A table slot begins at the cumulative frequency `start`
/// and is `range` wide; a `bypass` step carries the four raw bits in `start`.
#[derive(Clone, Copy, Debug, PartialEq, Eq, Structural)]
pub struct RansSymbol {
    pub start: u16,
    pub range: u16,
    pub bypass: bool,
}

/// The state `x` of a coder, with the words that a reader at this point finds
/// ahead of it.
pub struct Stream {
    pub x: int,
    pub words: Seq<u32>,
}

impl RansSymbol {
    /// A step that can be absorbed: a slot that is not empty, or a four-bit value.
    pub open spec fn valid(self) -> bool {
        if self.bypass {
            self.start < 16
        } else {
            self.range > 0
        }
    }

    /// A slot that lies inside the sixteen-bit range, or a four-bit value.
    pub open spec fn fits(self) -> bool {
        &&& self.valid()
        &&& !self.bypass ==> self.start + self.range <= 0x1_0000
    }

    /// The state from which on a word is shed before this step is absorbed.
    pub open spec fn limit(self) -> int {
        if self.bypass {
            0x0800_0000_0000_0000
        } else {
            0x8000_0000_0000 * self.range
        }
    }

    /// The state after this step is absorbed into `x`.
    pub open spec fn absorbed(self, x: int) -> int {
        if self.bypass {
            16 * x + self.start
        } else {
            0x1_0000 * (x / self.range as int) + x % self.range as int + self.start
        }
    }
}

/// The stream before anything is absorbed.
pub open spec fn fresh() -> Stream {
    Stream { x: RANS64_L as int, words: Seq::empty() }
}

/// The stream in front of which the step `symbol` is put.
pub open spec fn put(symbol: RansSymbol, s: Stream) -> Stream {
    if s.x >= symbol.limit() {
        Stream {
            x: symbol.absorbed(s.x / 0x1_0000_0000),
            words: seq![(s.x % 0x1_0000_0000) as u32] + s.words,
        }
    } else {
        Stream { x: symbol.absorbed(s.x), words: s.words }
    }
}

/// The stream from which `symbols` are read in order.
pub open spec fn stream_of(symbols: Seq<RansSymbol>) -> Stream
    decreases symbols.len(),
{
    if symbols.len() == 0 {
        fresh()
    } else {
        put(symbols[0], stream_of(symbols.drop_first()))
    }
}

/// The words of a finished stream: the two halves of the state, then the words shed.
pub open spec fn flushed(s: Stream) -> Seq<u32> {
    halves(s.x as u64) + s.words
}

/// Takes in the next word if `x` is below the least state; there may be none.
pub open spec fn refilled(x: int, words: Seq<u32>) -> Option<Stream> {
    if x >= RANS64_L {
        Some(Stream { x, words })
    } else if words.len() == 0 {
        None
    } else {
        Some(Stream { x: 0x1_0000_0000 * x + words[0], words: words.drop_first() })
    }
}

/// The stream after four raw bits, which are `s.x % 16`, are taken out.
pub open spec fn without_bits(s: Stream) -> Option<Stream> {
    refilled(s.x / 16, s.words)
}

/// The stream after the slot that begins at `start` and is `freq` wide is taken out.
/// There is none where the new state is negative or does not fit into 64 bits.
pub open spec fn without_slot(s: Stream, start: u64, freq: u64) -> Option<Stream> {
    let y = freq * (s.x / 0x1_0000) + s.x % 0x1_0000;
    if y > u64::MAX || y < start {
        None
    } else {
        refilled(y - start, s.words)
    }
}

/// A stream between two steps: its state is in the interval that encoder and decoder
/// share.
pub open spec fn settled(s: Stream) -> bool {
    RANS64_L <= s.x < 0x8000_0000_0000_0000
}

proof fn lemma_quotient_below(x: int, f: int, k: int)
    requires
        0 <= x < k * f,
        0 < f,
    ensures
        0 <= x / f < k,
        0 <= x % f < f,
        x == f * (x / f) + x % f,
{
    assert(0 <= x / f < k && 0 <= x % f < f && x == f * (x / f) + x % f) by (nonlinear_arith)
        requires
            0 <= x < k * f,
            0 < f,
    ;
}

proof fn lemma_quotient_at_least(x: int, f: int, k: int)
    requires
        k * f <= x,
        0 < f,
    ensures
        k <= x / f,
{
    assert(k <= x / f) by (nonlinear_arith)
        requires
            k * f <= x,
            0 < f,
    ;
}

/// Absorbing a step keeps the state within 64 bits.
pub proof fn lemma_put_bounded(symbol: RansSymbol, s: Stream)
    requires
        symbol.valid(),
        0 <= s.x <= u64::MAX,
    ensures
        0 <= put(symbol, s).x <= u64::MAX,
        !symbol.bypass ==> {
            let x = if s.x >= symbol.limit() { s.x / 0x1_0000_0000 } else { s.x };
            &&& 0 <= x / symbol.range as int <= 0x7fff_ffff_ffff
            &&& 0 <= x % symbol.range as int <= 0xffff
        },
{
    let x = if s.x >= symbol.limit() { s.x / 0x1_0000_0000 } else { s.x };
    if !symbol.bypass {
        lemma_quotient_below(x, symbol.range as int, 0x8000_0000_0000);
    }
}

/// Taking a slot out of a stream undoes putting it there, and in between the low bits of
/// the state name the slot.
pub proof fn slot_is_undone(symbol: RansSymbol, s: Stream)
    requires
        symbol.fits(),
        !symbol.bypass,
        settled(s),
    ensures
        settled(put(symbol, s)),
        symbol.start <= put(symbol, s).x % 0x1_0000 < symbol.start + symbol.range,
        without_slot(put(symbol, s), symbol.start as u64, symbol.range as u64) == Some(s),
{
    let f = symbol.range as int;
    let shed = s.x >= symbol.limit();
    let x = if shed { s.x / 0x1_0000_0000 } else { s.x };
    let t = put(symbol, s);
    lemma_quotient_below(x, f, 0x8000_0000_0000);
    if shed {
        lemma_quotient_at_least(x, f, 0x8000);
    } else {
        assert(x / f >= x / 0x1_0000) by (nonlinear_arith)
            requires
                0 <= x,
                0 < f <= 0x1_0000,
        ;
    }
    let q = x / f;
    let r = x % f + symbol.start;
    assert(t.x == 0x1_0000 * q + r);
    assert(t.x / 0x1_0000 == q && t.x % 0x1_0000 == r);
    assert(f * (t.x / 0x1_0000) + t.x % 0x1_0000 - symbol.start == x);
    if shed {
        assert(t.words.drop_first() =~= s.words);
    }
}

/// Taking four raw bits out of a stream undoes putting them there.
pub proof fn bits_are_undone(symbol: RansSymbol, s: Stream)
    requires
        symbol.fits(),
        symbol.bypass,
        settled(s),
    ensures
        settled(put(symbol, s)),
        put(symbol, s).x % 16 == symbol.start,
        without_bits(put(symbol, s)) == Some(s),
{
    let t = put(symbol, s);
    if s.x >= symbol.limit() {
        assert(t.words.drop_first() =~= s.words);
    }
}

/// The stream that a reader of `words` starts from; fewer than two words hold none.
pub open spec fn opened(words: Seq<u32>) -> Option<Stream> {
    if words.len() < 2 {
        None
    } else {
        Some(Stream { x: joined(words[0], words[1]) as int, words: words.skip(2) })
    }
}

/// A finished stream opens to the stream that was finished.
pub proof fn flushed_stream_opens(s: Stream)
    requires
        0 <= s.x <= u64::MAX,
    ensures
        opened(flushed(s)) == Some(s),
{
    let w = flushed(s);
    assert(w.skip(2) =~= s.words);
}

/// Writes the bytes of the stream from which `symbols` are read in order.
pub fn write_stream(symbols: &Vec<RansSymbol>) -> (out: Vec<u8>)
    requires
        forall|i: int| 0 <= i < symbols@.len() ==> (#[trigger] symbols@[i]).valid(),
    ensures
        out@ == bytes_of(flushed(stream_of(symbols@))),
{
    let mut rans: u64 = RANS64_L;
    // The words shed so far, the last one first.
    let mut shed: Vec<u32> = Vec::new();
    let mut i: usize = symbols.len();
    assert(symbols@.skip(i as int) =~= Seq::empty());
    assert(shed@.reverse() =~= Seq::empty());
    while i > 0
        invariant
            i <= symbols@.len(),
            forall|j: int| 0 <= j < symbols@.len() ==> (#[trigger] symbols@[j]).valid(),
            stream_of(symbols@.skip(i as int)).x == rans,
            stream_of(symbols@.skip(i as int)).words == shed@.reverse(),
        decreases i,
    {
        let ghost s = stream_of(symbols@.skip(i as int));
        let ghost shed_before = shed@;
        i = i - 1;
        let symbol = symbols[i];
        assert(symbols@.skip(i as int).drop_first() =~= symbols@.skip(i + 1));
        proof {
            lemma_put_bounded(symbol, s);
        }
        let limit: u64 = if symbol.bypass {
            0x0800_0000_0000_0000
        } else {
            0x8000_0000_0000 * symbol.range as u64
        };
        let mut x: u64 = rans;
        if x >= limit {
            shed.push((x % 0x1_0000_0000) as u32);
            x = x / 0x1_0000_0000;
            assert(shed@.reverse() =~= seq![(s.x % 0x1_0000_0000) as u32]
                + shed_before.reverse());
        }
        if symbol.bypass {
            rans = 16 * x + symbol.start as u64;
        } else {
            let freq: u64 = symbol.range as u64;
            rans = 0x1_0000 * (x / freq) + x % freq + symbol.start as u64;
        }
        assert(stream_of(symbols@.skip(i as int)) == put(symbol, s));
    }
    assert(symbols@.skip(0) =~= symbols@);
    let ghost s = stream_of(symbols@);
    let mut out: Vec<u8> = Vec::new();
    write_word(&mut out, (rans % 0x1_0000_0000) as u32);
    write_word(&mut out, (rans / 0x1_0000_0000) as u32);
    assert(out@ =~= bytes_of(flushed(s).take(2)));
    let mut k: usize = shed.len();
    while k > 0
        invariant
            k <= shed@.len(),
            s.words == shed@.reverse(),
            out@ == bytes_of(flushed(s).take(2 + shed@.len() - k)),
        decreases k,
    {
        let ghost n = 2 + shed@.len() - k;
        k = k - 1;
        write_word(&mut out, shed[k]);
        proof {
            lemma_bytes_of_push(flushed(s).take(n), shed@[k as int]);
            assert(flushed(s).take(n).push(shed@[k as int]) =~= flushed(s).take(n + 1));
            assert(out@ =~= bytes_of(flushed(s).take(n + 1)));
        }
    }
    assert(flushed(s).take(2 + shed@.len() as int) =~= flushed(s));
    out
}

/// A reader of a stream: the state, and the place of the next word.
pub struct Reader {
    x: u64,
    words: Vec<u32>,
    pos: usize,
}

impl View for Reader {
    type V = Stream;

    closed spec fn view(&self) -> Stream {
        Stream { x: self.x as int, words: self.words@.skip(self.pos as int) }
    }
}

impl Reader {
    /// The place of the next word lies inside the words or at their end.
    pub closed spec fn wf(&self) -> bool {
        self.pos <= self.words@.len()
    }

    /// Opens the stream that `words` hold.
    pub fn open(words: Vec<u32>) -> (reader: Option<Reader>)
        ensures
            reader is Some <==> opened(words@) is Some,
            reader matches Some(r) ==> r.wf() && opened(words@) == Some(r@),
    {
        if words.len() < 2 {
            return None;
        }
        let x: u64 = words[0] as u64 + 0x1_0000_0000 * (words[1] as u64);
        Some(Reader { x, words, pos: 2 })
    }

    /// The cumulative frequency that the state points at.
    pub fn cum_freq(&self) -> (cum: i32)
        ensures
            cum == self@.x % 0x1_0000,
            0 <= self@.x <= u64::MAX,
    {
        (self.x % 0x1_0000) as i32
    }

    /// Makes `x` the state, after taking in a word where it is too small.
    fn refill(&mut self, x: u64) -> (done: bool)
        requires
            old(self).wf(),
        ensures
            final(self).wf(),
            done <==> refilled(x as int, old(self)@.words) is Some,
            done ==> refilled(x as int, old(self)@.words) == Some(final(self)@),
            !done ==> final(self)@ == old(self)@,
    {
        if x >= RANS64_L {
            self.x = x;
            return true;
        }
        if self.pos >= self.words.len() {
            return false;
        }
        assert(self@.words.drop_first() =~= self.words@.skip(self.pos + 1));
        self.x = 0x1_0000_0000 * x + self.words[self.pos] as u64;
        self.pos = self.pos + 1;
        true
    }

    /// Takes four raw bits out.
    pub fn get_bits(&mut self) -> (bits: Option<u32>)
        requires
            old(self).wf(),
        ensures
            final(self).wf(),
            bits is Some <==> without_bits(old(self)@) is Some,
            bits matches Some(b) ==> b == old(self)@.x % 16 && without_bits(old(self)@) == Some(
                final(self)@,
            ),
            bits is None ==> final(self)@ == old(self)@,
    {
        let bits: u32 = (self.x % 16) as u32;
        let x: u64 = self.x / 16;
        if self.refill(x) {
            Some(bits)
        } else {
            None
        }
    }

    /// Takes the slot that begins at `start` and is `freq` wide out.
    pub fn drop_slot(&mut self, start: u64, freq: u64) -> (done: bool)
        requires
            old(self).wf(),
        ensures
            final(self).wf(),
            done <==> without_slot(old(self)@, start, freq) is Some,
            done ==> without_slot(old(self)@, start, freq) == Some(final(self)@),
            !done ==> final(self)@ == old(self)@,
    {
        let high: u64 = self.x / 0x1_0000;
        let low: u64 = self.x % 0x1_0000;
        assert(freq * high >= 0) by (nonlinear_arith);
        match freq.checked_mul(high) {
            None => false,
            Some(product) => match product.checked_add(low) {
                None => false,
                Some(y) => {
                    if y < start {
                        false
                    } else {
                        self.refill(y - start)
                    }
                },
            },
        }
    }
}

} // verus!
