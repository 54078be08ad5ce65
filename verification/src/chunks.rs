//! The chunking discipline: how a byte stream is cut into windows.
//!
//! A stream is split into consecutive chunks of exactly `window` bytes;
//! the final chunk is whatever remains, between zero and `window` bytes,
//! and is the only chunk allowed to be short. An empty stream still
//! yields exactly one final chunk, of length zero — never zero chunks.

use vstd::prelude::*;

verus! {

/// The chunks of `input` under the given window size, in order, each
/// paired with its last-chunk flag. Every chunk but the last is exactly
/// `window` bytes and not final; the last is final and at most `window`
/// bytes.
pub open spec fn spec_chunks(input: Seq<u8>, window: nat) -> Seq<(Seq<u8>, bool)>
    decreases input.len(),
{
    if window == 0 {
        seq![]
    } else if input.len() <= window {
        seq![(input, true)]
    } else {
        seq![(input.take(window as int), false)] + spec_chunks(input.skip(window as int), window)
    }
}

/// An empty stream is framed as exactly one final chunk of length zero.
pub proof fn lemma_chunks_empty(window: nat)
    requires
        window >= 1,
    ensures
        spec_chunks(Seq::<u8>::empty(), window) == seq![(Seq::<u8>::empty(), true)],
{
    assert(spec_chunks(Seq::<u8>::empty(), window) =~= seq![(Seq::<u8>::empty(), true)]);
}

/// Where each chunk of a stream lies: chunk `i` of `n` is the window at
/// position `i * window` for `i < n - 1`, each such chunk is full-sized
/// and not final, and the last chunk is the remaining suffix, final and
/// at most one window long. Only an empty stream has an empty last chunk.
pub proof fn lemma_chunks_index(input: Seq<u8>, window: nat)
    requires
        window >= 1,
    ensures
        ({
            let cs = spec_chunks(input, window);
            let n = cs.len() as int;
            &&& n >= 1
            &&& input.len() == (n - 1) * window + cs.last().0.len()
            &&& forall|i: int|
                0 <= i < n - 1 ==> (#[trigger] cs[i]).0 == input.subrange(
                    i * window,
                    (i + 1) * window,
                )
            &&& forall|i: int| 0 <= i < n - 1 ==> !(#[trigger] cs[i]).1
            &&& cs.last().0 == input.skip((n - 1) * window)
            &&& cs.last().1
            &&& cs.last().0.len() <= window
            &&& (input.len() > 0 ==> cs.last().0.len() >= 1)
        }),
    decreases input.len(),
{
    let cs = spec_chunks(input, window);
    let n = cs.len() as int;
    let w = window as int;
    if input.len() <= window {
        assert(cs == seq![(input, true)]);
        assert(cs.last().0 =~= input.skip(0));
    } else {
        let tail = input.skip(w);
        lemma_chunks_index(tail, window);
        let cs2 = spec_chunks(tail, window);
        let n2 = cs2.len() as int;
        assert(cs == seq![(input.take(w), false)] + cs2);
        assert(n == n2 + 1);
        assert(cs.last() == cs2.last());
        assert(tail.len() == input.len() - w);
        assert((n - 1) * w == (n2 - 1) * w + w) by (nonlinear_arith)
            requires
                n == n2 + 1,
        ;
        assert(cs.last().0 =~= input.skip((n - 1) * w)) by {
            assert(cs2.last().0 == tail.skip((n2 - 1) * w));
            assert(tail.skip((n2 - 1) * w) =~= input.skip((n2 - 1) * w + w));
        }
        assert forall|i: int|
            0 <= i < n - 1 implies (#[trigger] cs[i]).0 == input.subrange(i * w, (i + 1) * w)
                && !cs[i].1 by {
            if i == 0 {
                assert(cs[0] == (input.take(w), false));
                assert(0 * w == 0 && (0 + 1) * w == w) by (nonlinear_arith);
                assert(input.take(w) =~= input.subrange(0 * w, (0 + 1) * w));
            } else {
                let j = i - 1;
                let a = j * w;
                assert(cs[i] == cs2[j]);
                assert(cs2[j].0 == tail.subrange(j * w, (j + 1) * w));
                assert(!cs2[j].1);
                assert((j + 1) * w == a + w) by (nonlinear_arith)
                    requires
                        a == j * w,
                ;
                assert(i * w == a + w && (i + 1) * w == a + w + w) by (nonlinear_arith)
                    requires
                        a == (i - 1) * w,
                ;
                assert((j + 1) * w <= (n2 - 1) * w) by (nonlinear_arith)
                    requires
                        j + 1 <= n2 - 1,
                        w >= 1,
                ;
                assert((n2 - 1) * w <= tail.len());
                assert(a + w <= tail.len());
                assert(tail.subrange(a, a + w) =~= input.subrange(a + w, a + w + w));
                assert(cs[i].0 == input.subrange(i * w, (i + 1) * w));
            }
        }
    }
}

/// One round of chunk extraction: while more than a window is buffered,
/// emit a full non-final chunk; what remains stays buffered. This is the
/// abstract step the chunking reader takes after each source read.
pub open spec fn drain(buffer: Seq<u8>, window: nat) -> (Seq<(Seq<u8>, bool)>, Seq<u8>)
    decreases buffer.len(),
{
    if window >= 1 && buffer.len() > window {
        let rec = drain(buffer.skip(window as int), window);
        (seq![(buffer.take(window as int), false)] + rec.0, rec.1)
    } else {
        (seq![], buffer)
    }
}

/// The chunks an incremental reader emits for a schedule of source
/// reads: each feed's bytes are buffered and full windows extracted; an
/// empty feed reports exhaustion and makes the remainder the final
/// chunk. Feeds after the first empty one never happen and are ignored.
pub open spec fn run_chunker(window: nat, buffer: Seq<u8>, feeds: Seq<Seq<u8>>) -> Seq<
    (Seq<u8>, bool),
>
    decreases feeds.len(),
{
    if feeds.len() == 0 {
        seq![]
    } else if feeds[0].len() == 0 {
        seq![(buffer, true)]
    } else {
        let d = drain(buffer + feeds[0], window);
        d.0 + run_chunker(window, d.1, feeds.drop_first())
    }
}

/// The bytes a schedule of source reads carries, in order.
pub open spec fn concat_feeds(feeds: Seq<Seq<u8>>) -> Seq<u8>
    decreases feeds.len(),
{
    if feeds.len() == 0 {
        Seq::empty()
    } else {
        feeds[0] + concat_feeds(feeds.drop_first())
    }
}

/// Draining commutes with chunking: the full windows peeled off the
/// front of a buffer are exactly the leading chunks of any stream that
/// starts with that buffer.
pub proof fn lemma_drain_chunks(x: Seq<u8>, y: Seq<u8>, window: nat)
    requires
        window >= 1,
    ensures
        drain(x, window).1.len() <= window,
        spec_chunks(x + y, window) == drain(x, window).0 + spec_chunks(
            drain(x, window).1 + y,
            window,
        ),
    decreases x.len(),
{
    let w = window as int;
    if x.len() > window {
        lemma_drain_chunks(x.skip(w), y, window);
        assert((x + y).len() > window);
        assert((x + y).take(w) =~= x.take(w));
        assert((x + y).skip(w) =~= x.skip(w) + y);
        assert(spec_chunks(x + y, window) == seq![((x + y).take(w), false)] + spec_chunks(
            (x + y).skip(w),
            window,
        ));
        assert(drain(x, window).0 == seq![(x.take(w), false)] + drain(x.skip(w), window).0);
        assert(drain(x, window).1 == drain(x.skip(w), window).1);
        assert(spec_chunks(x + y, window) =~= drain(x, window).0 + spec_chunks(
            drain(x, window).1 + y,
            window,
        ));
    } else {
        assert(drain(x, window) == (Seq::<(Seq<u8>, bool)>::empty(), x));
        assert(spec_chunks(x + y, window) =~= drain(x, window).0 + spec_chunks(
            drain(x, window).1 + y,
            window,
        ));
    }
}

/// An incremental run over any schedule of source reads — one byte per
/// read, everything at once, or anything between — emits exactly the
/// chunks of the bytes the schedule carries: chunking does not depend on
/// how the source fragments its bytes.
pub proof fn lemma_run_chunker_chunks(window: nat, buffer: Seq<u8>, feeds: Seq<Seq<u8>>)
    requires
        window >= 1,
        buffer.len() <= window,
        feeds.len() >= 1,
        feeds.last().len() == 0,
        forall|i: int| 0 <= i < feeds.len() - 1 ==> (#[trigger] feeds[i]).len() > 0,
    ensures
        run_chunker(window, buffer, feeds) == spec_chunks(buffer + concat_feeds(feeds), window),
    decreases feeds.len(),
{
    if feeds[0].len() == 0 {
        assert(feeds.len() == 1) by {
            if feeds.len() > 1 {
                assert(feeds[0].len() > 0);
            }
        }
        assert(concat_feeds(feeds.drop_first()) == Seq::<u8>::empty());
        assert(buffer + concat_feeds(feeds) =~= buffer);
        assert(run_chunker(window, buffer, feeds) == seq![(buffer, true)]);
        assert(spec_chunks(buffer, window) == seq![(buffer, true)]);
    } else {
        let rest = feeds.drop_first();
        assert(rest.len() >= 1);
        assert(rest.last() == feeds.last());
        assert(forall|i: int| 0 <= i < rest.len() - 1 ==> (#[trigger] rest[i]).len() > 0) by {
            assert(forall|i: int|
                0 <= i < rest.len() - 1 ==> rest[i] == feeds[i + 1] && (#[trigger] rest[i]).len()
                    == feeds[i + 1].len());
        }
        let d = drain(buffer + feeds[0], window);
        lemma_drain_chunks(buffer + feeds[0], concat_feeds(rest), window);
        lemma_run_chunker_chunks(window, d.1, rest);
        assert(buffer + concat_feeds(feeds) =~= (buffer + feeds[0]) + concat_feeds(rest));
        assert(run_chunker(window, buffer, feeds) == d.0 + run_chunker(window, d.1, rest));
        assert(spec_chunks((buffer + feeds[0]) + concat_feeds(rest), window) == d.0 + spec_chunks(
            d.1 + concat_feeds(rest),
            window,
        ));
    }
}

/// Two schedules that carry the same bytes make the chunking reader emit
/// the same chunks: a source that yields one byte per read and a source
/// that yields everything in one read are indistinguishable downstream.
pub proof fn lemma_chunking_schedule_independent(
    window: nat,
    feeds1: Seq<Seq<u8>>,
    feeds2: Seq<Seq<u8>>,
)
    requires
        window >= 1,
        feeds1.len() >= 1,
        feeds2.len() >= 1,
        feeds1.last().len() == 0,
        feeds2.last().len() == 0,
        forall|i: int| 0 <= i < feeds1.len() - 1 ==> (#[trigger] feeds1[i]).len() > 0,
        forall|i: int| 0 <= i < feeds2.len() - 1 ==> (#[trigger] feeds2[i]).len() > 0,
        concat_feeds(feeds1) == concat_feeds(feeds2),
    ensures
        run_chunker(window, Seq::empty(), feeds1) == run_chunker(window, Seq::empty(), feeds2),
{
    lemma_run_chunker_chunks(window, Seq::empty(), feeds1);
    lemma_run_chunker_chunks(window, Seq::empty(), feeds2);
}

} // verus!
