//! Reading a Host's two streams.
//!
//! Both are read at once — read in turn, they deadlock once the child fills one
//! — and both are capped: a Host that prints more than rshx keeps must not grow
//! rshx without bound, nor block on a full pipe, since ssh would then never
//! exit.

use vstd::prelude::*;

use crate::bytes::{keep, lemma_capped_in_steps, room, with_capped};
use crate::privilege::stream_of;

verus! {

/// The most of each stream kept in memory; past this the bytes are dropped.
pub const CAP: usize = 1024 * 1024;

/// A stream being read, keeping at most `cap` bytes. The rest is drained and
/// thrown away: a Host that prints more than the cap must not grow rshx
/// without bound, nor block on a full pipe, since ssh would then never exit.
pub struct Capture {
    pub kept: Vec<u8>,
    pub truncated: bool,
}

/// What is kept of a stream after these reads.
pub open spec fn captured(chunks: Seq<Seq<u8>>, cap: int) -> Seq<u8>
    decreases chunks.len(),
{
    if chunks.len() == 0 {
        Seq::empty()
    } else {
        with_capped(captured(chunks.drop_last(), cap), chunks.last(), cap)
    }
}

/// Whether bytes were dropped in these reads.
pub open spec fn cut_off(chunks: Seq<Seq<u8>>, cap: int) -> bool
    decreases chunks.len(),
{
    if chunks.len() == 0 {
        false
    } else {
        cut_off(chunks.drop_last(), cap) || chunks.last().len() > room(
            captured(chunks.drop_last(), cap),
            cap,
        )
    }
}

impl Default for Capture {
    fn default() -> (r: Capture)
        ensures
            r.kept@ == Seq::<u8>::empty(),
            !r.truncated,
    {
        Capture { kept: Vec::new(), truncated: false }
    }
}

impl Capture {
    /// Takes one read.
    pub fn read_capped(&mut self, chunk: &[u8], cap: usize)
        ensures
            final(self).kept@ == with_capped(old(self).kept@, chunk@, cap as int),
            final(self).truncated == (old(self).truncated || chunk@.len() > room(
                old(self).kept@,
                cap as int,
            )),
    {
        let fits = keep(chunk, &mut self.kept, cap);
        self.truncated = self.truncated || !fits;
    }
}

/// How a stream is cut into reads makes no difference: what is kept is its
/// first bytes, as many as the cap, and the stream counts as cut off exactly
/// when it is longer than the cap.
pub proof fn law_the_first_bytes_are_kept(chunks: Seq<Seq<u8>>, cap: int)
    requires
        0 <= cap,
    ensures
        captured(chunks, cap) == if stream_of(chunks).len() <= cap {
            stream_of(chunks)
        } else {
            stream_of(chunks).take(cap)
        },
        cut_off(chunks, cap) == (stream_of(chunks).len() > cap),
    decreases chunks.len(),
{
    let none = Seq::<u8>::empty();
    if chunks.len() > 0 {
        let before = chunks.drop_last();
        law_the_first_bytes_are_kept(before, cap);
        lemma_capped_in_steps(none, stream_of(before), chunks.last(), cap);
        assert(none + stream_of(before) == stream_of(before));
        assert(with_capped(none, stream_of(before), cap) == captured(before, cap)) by {
            if stream_of(before).len() > cap {
                assert(none + stream_of(before).take(cap) == stream_of(before).take(cap));
            }
        }
        let all = stream_of(chunks);
        assert(none + all == all);
        if all.len() > cap {
            assert(none + all.take(cap) == all.take(cap));
        }
    }
}

/// A Host's stream is kept up to one mebibyte, however it is read.
pub proof fn law_a_stream_is_kept_up_to_a_mebibyte(chunks: Seq<Seq<u8>>)
    ensures
        stream_of(chunks).len() <= 1_048_576 ==> captured(chunks, CAP as int) == stream_of(chunks)
            && !cut_off(chunks, CAP as int),
        stream_of(chunks).len() > 1_048_576 ==> captured(chunks, CAP as int) == stream_of(
            chunks,
        ).take(1_048_576) && cut_off(chunks, CAP as int),
{
    law_the_first_bytes_are_kept(chunks, CAP as int);
}

} // verus!
