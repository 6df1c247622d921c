//! `--privilege`: answering a remote command that asks for a password.
//!
//! rshx authenticates nothing itself. It runs the command under a `sudo` of its
//! own that reads its password from stdin (`-S`) and announces the ask with a
//! marker of rshx's own (`-p rshx-password:`), watches each Host's stderr for
//! that marker, and writes the password to that Host's stdin when it appears.
//! The ask is what triggers the prompt: a Host whose sudo needs no password
//! never prints the marker, so rshx never asks for a password nobody wants.

use vstd::hash_map::StringHashMap;
use vstd::hash_set::StringHashSet;
use vstd::prelude::*;
use vstd::utf8::{encode_utf8, is_ascii_chars_encode_utf8};

use crate::bytes::{
    find_from, first_occurrence, keep, lemma_capped_in_steps, lemma_first_occurrence,
    lemma_first_occurrence_is, lemma_occurs_in_longer, occurs, occurs_at, room, with_capped,
};
use crate::text::{
    chars_of, joined, lemma_pieces_join, lemma_pieces_one, opt_text, pieces, same, same_bytes, split,
    string_of, texts,
};

verus! {

/// The prompt sudo is told to print, so rshx can recognise the ask.
///
/// rshx's own string rather than sudo's default, which is translated and would
/// be recognised only on an English machine. It holds no space, so ssh's
/// joining of the command's arguments cannot split it, and no `%`, which sudo
/// would expand.
pub const MARKER: &'static str = "rshx-password:";

// ---------------------------------------------------------------------------
// The marker in a Host's stderr
// ---------------------------------------------------------------------------

/// The marker as it stands in a stream.
pub open spec fn marker_bytes() -> Seq<u8> {
    encode_utf8(MARKER@)
}

/// How long the marker is.
pub proof fn lemma_marker_len()
    ensures
        marker_bytes().len() == 14,
{
    reveal_strlit("rshx-password:");
    is_ascii_chars_encode_utf8(MARKER@);
}

/// The marker stays one word on its way through ssh and a shell, and sudo
/// prints it as it is: it holds no space, no quote and no `%`.
pub proof fn law_the_marker_is_one_plain_word()
    ensures
        !MARKER@.contains(' '),
        !MARKER@.contains('\''),
        !MARKER@.contains('%'),
{
    reveal_strlit("rshx-password:");
}

/// A stream without its markers.
pub open spec fn without_markers(s: Seq<u8>) -> Seq<u8>
    decreases s.len(),
{
    let i = first_occurrence(s, marker_bytes());
    if 0 <= i < i + marker_bytes().len() <= s.len() {
        s.take(i) + without_markers(s.skip(i + marker_bytes().len()))
    } else {
        s
    }
}

/// Whether the last `n` bytes are the first `n` of the marker.
pub open spec fn ends_in_start(s: Seq<u8>, n: int) -> bool {
    0 < n < marker_bytes().len() && n <= s.len() && s.skip(s.len() - n) == marker_bytes().take(n)
}

/// How many of the last bytes could be the start of a marker, looking at `n`
/// of them at most.
pub open spec fn start_len(s: Seq<u8>, n: int) -> int
    decreases n,
{
    if n <= 0 {
        0
    } else if ends_in_start(s, n) {
        n
    } else {
        start_len(s, n - 1)
    }
}

/// The longest end of the stream that could still be the start of a marker.
pub open spec fn open_end(s: Seq<u8>) -> int {
    start_len(s, marker_bytes().len() - 1)
}

/// What can be shown of a stream so far: the markers are gone, and an end that
/// could be the start of one is held back.
pub open spec fn shown(s: Seq<u8>) -> Seq<u8>
    decreases s.len(),
{
    let i = first_occurrence(s, marker_bytes());
    if 0 <= i < i + marker_bytes().len() <= s.len() {
        s.take(i) + shown(s.skip(i + marker_bytes().len()))
    } else {
        s.take(s.len() - open_end(s))
    }
}

/// What is held back of a stream so far.
pub open spec fn held_back(s: Seq<u8>) -> Seq<u8>
    decreases s.len(),
{
    let i = first_occurrence(s, marker_bytes());
    if 0 <= i < i + marker_bytes().len() <= s.len() {
        held_back(s.skip(i + marker_bytes().len()))
    } else {
        s.skip(s.len() - open_end(s))
    }
}

proof fn lemma_start_len(s: Seq<u8>, n: int)
    ensures
        0 <= start_len(s, n),
        n >= 0 ==> start_len(s, n) <= n,
        start_len(s, n) > 0 ==> ends_in_start(s, start_len(s, n)),
        forall|k: int| start_len(s, n) < k <= n ==> !ends_in_start(s, k),
    decreases n,
{
    if n > 0 && !ends_in_start(s, n) {
        lemma_start_len(s, n - 1);
    }
}

proof fn lemma_open_end(s: Seq<u8>)
    ensures
        0 <= open_end(s) <= s.len(),
        open_end(s) < marker_bytes().len(),
        forall|k: int| open_end(s) < k ==> !ends_in_start(s, k),
{
    lemma_marker_len();
    lemma_start_len(s, marker_bytes().len() - 1);
}

/// Where the marker stands in a stream, it stands there whatever comes later.
proof fn lemma_first_stays(s: Seq<u8>, more: Seq<u8>)
    requires
        first_occurrence(s, marker_bytes()) < s.len(),
    ensures
        first_occurrence(s + more, marker_bytes()) == first_occurrence(s, marker_bytes()),
{
    lemma_marker_len();
    let m = marker_bytes();
    let i = first_occurrence(s, m);
    lemma_first_occurrence(s, m);
    let whole = s + more;
    assert(occurs_at(s, m, i));
    assert(whole.subrange(i, i + m.len()) == s.subrange(i, i + m.len()));
    assert(occurs_at(whole, m, i));
    assert forall|j: int| 0 <= j < i implies !occurs_at(whole, m, j) by {
        assert(!occurs_at(s, m, j));
        assert(j + m.len() <= s.len());
        assert(whole.subrange(j, j + m.len()) == s.subrange(j, j + m.len()));
    }
    lemma_first_occurrence_is(whole, m, i);
}

/// A stream without markers, and what comes later: no marker begins before the
/// end that is held back.
proof fn lemma_no_marker_before_open_end(s: Seq<u8>, more: Seq<u8>, j: int)
    requires
        !occurs(s, marker_bytes()),
        occurs_at(s + more, marker_bytes(), j),
    ensures
        j >= s.len() - open_end(s),
{
    lemma_open_end(s);
    let m = marker_bytes();
    let whole = s + more;
    if j < s.len() - open_end(s) {
        let n = s.len() - j;
        if j + m.len() <= s.len() {
            assert(s.subrange(j, j + m.len()) == whole.subrange(j, j + m.len()));
            assert(occurs_at(s, m, j));
        } else {
            assert(s.skip(j) =~= m.take(n)) by {
                assert forall|k: int| 0 <= k < n implies s.skip(j)[k] == m.take(n)[k] by {
                    assert(whole.subrange(j, j + m.len())[k] == m[k]);
                }
            }
            assert(s.skip(s.len() - n) == m.take(n));
            assert(ends_in_start(s, n));
        }
    }
}

/// Later output changes nothing of what was already shown: what is shown of the
/// whole is that, and then what is shown of the rest.
proof fn lemma_resume(s: Seq<u8>, more: Seq<u8>)
    ensures
        without_markers(s + more) == shown(s) + without_markers(held_back(s) + more),
        shown(s + more) == shown(s) + shown(held_back(s) + more),
        held_back(s + more) == held_back(held_back(s) + more),
        occurs(s + more, marker_bytes()) == (occurs(s, marker_bytes()) || occurs(
            held_back(s) + more,
            marker_bytes(),
        )),
        held_back(s).len() < marker_bytes().len(),
        held_back(s).len() <= s.len(),
    decreases s.len(),
{
    lemma_marker_len();
    let m = marker_bytes();
    let i = first_occurrence(s, m);
    lemma_first_occurrence(s, m);
    let whole = s + more;
    if i < s.len() {
        lemma_first_stays(s, more);
        let rest = s.skip(i + m.len());
        lemma_resume(rest, more);
        assert(whole.skip(i + m.len()) == rest + more);
        assert(whole.take(i) == s.take(i));
        assert(without_markers(whole) == s.take(i) + without_markers(rest + more));
        assert(s.take(i) + (shown(rest) + without_markers(held_back(rest) + more)) == (s.take(i)
            + shown(rest)) + without_markers(held_back(rest) + more));
        assert(shown(whole) == s.take(i) + shown(rest + more));
        assert(s.take(i) + (shown(rest) + shown(held_back(rest) + more)) == (s.take(i) + shown(
            rest,
        )) + shown(held_back(rest) + more));
        lemma_occurs_in_longer(s, more, m);
    } else {
        lemma_open_end(s);
        let cut = s.len() - open_end(s);
        let tail = s.skip(cut);
        let short = tail + more;
        let k = first_occurrence(whole, m);
        lemma_first_occurrence(whole, m);
        lemma_first_occurrence(short, m);
        assert forall|j: int| cut <= j && j + m.len() <= whole.len() implies whole.subrange(
            j,
            j + m.len(),
        ) == #[trigger] short.subrange(j - cut, j - cut + m.len()) by {}
        if k < whole.len() {
            assert(occurs_at(whole, m, k));
            lemma_no_marker_before_open_end(s, more, k);
            assert(short.subrange(k - cut, k - cut + m.len()) == m);
            assert(occurs_at(short, m, k - cut));
            assert forall|j: int| 0 <= j < k - cut implies !occurs_at(short, m, j) by {
                assert(!occurs_at(whole, m, j + cut));
                if occurs_at(short, m, j) {
                    assert(short.subrange(j + cut - cut, j + cut - cut + m.len()) == m);
                    assert(whole.subrange(j + cut, j + cut + m.len()) == m);
                }
            }
            lemma_first_occurrence_is(short, m, k - cut);
            assert(whole.take(k) == s.take(cut) + short.take(k - cut));
            assert(whole.skip(k + m.len()) == short.skip(k - cut + m.len()));
            let after = whole.skip(k + m.len());
            assert(s.take(cut) + short.take(k - cut) + without_markers(after) == s.take(cut) + (
            short.take(k - cut) + without_markers(after)));
            assert(s.take(cut) + short.take(k - cut) + shown(after) == s.take(cut) + (short.take(
                k - cut,
            ) + shown(after)));
        } else {
            if occurs(short, m) {
                let j = choose|j: int| occurs_at(short, m, j);
                assert(short.subrange(j + cut - cut, j + cut - cut + m.len()) == m);
                assert(whole.subrange(j + cut, j + cut + m.len()) == m);
                assert(occurs_at(whole, m, j + cut));
            }
            assert(whole == s.take(cut) + short);
            lemma_open_end(whole);
            lemma_open_end(short);
            lemma_same_open_end(s, more);
            assert(open_end(whole) == open_end(short));
            assert(whole.take(whole.len() - open_end(whole)) == s.take(cut) + short.take(
                short.len() - open_end(short),
            ));
            assert(whole.skip(whole.len() - open_end(whole)) == short.skip(
                short.len() - open_end(short),
            ));
        }
    }
}

/// The end that is held back is the same whether the whole stream or only what
/// was held back before is looked at.
proof fn lemma_same_open_end(s: Seq<u8>, more: Seq<u8>)
    ensures
        open_end(s + more) == open_end(s.skip(s.len() - open_end(s)) + more),
{
    lemma_open_end(s);
    let m = marker_bytes();
    let cut = s.len() - open_end(s);
    let whole = s + more;
    let short = s.skip(cut) + more;
    lemma_open_end(whole);
    lemma_open_end(short);
    lemma_start_len(whole, m.len() - 1);
    lemma_start_len(short, m.len() - 1);
    let a = open_end(whole);
    let b = open_end(short);
    if b > 0 {
        assert(whole.skip(whole.len() - b) == short.skip(short.len() - b));
        assert(ends_in_start(whole, b));
    }
    if a > b {
        if a <= short.len() {
            assert(whole.skip(whole.len() - a) == short.skip(short.len() - a));
            assert(ends_in_start(short, a));
        } else {
            let n = a - more.len();
            assert(s.skip(s.len() - n) =~= m.take(n)) by {
                assert forall|k: int| 0 <= k < n implies s.skip(s.len() - n)[k] == m.take(n)[k] by {
                    assert(whole.skip(whole.len() - a)[k] == m.take(a)[k]);
                }
            }
            assert(ends_in_start(s, n));
        }
    }
}

/// Removes rshx's marker from a Host's stderr, and reports where it was.
///
/// The marker is stripped rather than shown: it is rshx's own plumbing, and
/// sudo prints it once per attempt, so a rejected password would otherwise put
/// two `rshx-password:` lines in the report. Bytes are held back until they can
/// no longer be the start of a marker, so a marker split across two reads is
/// still recognised — and still stripped.
pub struct MarkerFilter {
    /// The tail of the previous chunk, kept only while it could still be the
    /// beginning of a marker.
    held: Vec<u8>,
}

/// What filtering one chunk of a stream held.
#[derive(Debug, Clone, Copy)]
pub struct Filtered {
    /// Whether this chunk carried a marker. sudo prints one per attempt, so a
    /// rejected password produces a second ask: every one of them is a read
    /// that wants a password written to it.
    pub asked: bool,
    /// Whether bytes were dropped, because the stream is past its cap.
    pub dropped: bool,
}

impl Default for Filtered {
    fn default() -> (r: Filtered)
        ensures
            !r.asked,
            !r.dropped,
    {
        Filtered { asked: false, dropped: false }
    }
}

impl Default for MarkerFilter {
    fn default() -> (r: MarkerFilter)
        ensures
            r.held() == Seq::<u8>::empty(),
    {
        MarkerFilter { held: Vec::new() }
    }
}

impl MarkerFilter {
    /// The bytes held back.
    pub closed spec fn held(&self) -> Seq<u8> {
        self.held@
    }

    /// Filters one chunk into `kept`.
    #[verifier::spinoff_prover]
    pub fn push(&mut self, chunk: &[u8], kept: &mut Vec<u8>, cap: usize) -> (r: Filtered)
        ensures
            final(self).held() == held_back(old(self).held() + chunk@),
            final(kept)@ == with_capped(
                old(kept)@,
                shown(old(self).held() + chunk@),
                cap as int,
            ),
            r.asked == occurs(old(self).held() + chunk@, marker_bytes()),
            r.dropped == (shown(old(self).held() + chunk@).len() > room(old(kept)@, cap as int)),
    {
        let mut text: Vec<u8> = Vec::new();
        text.extend_from_slice(self.held.as_slice());
        text.extend_from_slice(chunk);
        let ghost all = self.held@ + chunk@;
        assert(text@ == all);
        let ghost first = kept@;
        let ghost mut done: Seq<u8> = Seq::empty();
        let marker = MARKER.as_bytes();
        proof {
            lemma_marker_len();
            lemma_first_occurrence(all, marker_bytes());
            assert(all.skip(0) == all);
            assert(first + done == first);
            assert(done + shown(all) == shown(all));
        }
        let mut filtered = Filtered { asked: false, dropped: false };
        let mut start: usize = 0;
        loop
            invariant
                text@ == all,
                marker@ == marker_bytes(),
                marker@.len() == 14,
                start <= text@.len(),
                shown(all) == done + shown(all.skip(start as int)),
                held_back(all) == held_back(all.skip(start as int)),
                kept@ == with_capped(first, done, cap as int),
                filtered.dropped == (done.len() > room(first, cap as int)),
                filtered.asked ==> occurs(all, marker_bytes()),
                !filtered.asked ==> start == 0,
            ensures
                !occurs(all.skip(start as int), marker_bytes()),
                first_occurrence(all.skip(start as int), marker_bytes()) == text@.len() - start,
            decreases text@.len() - start,
        {
            let at = match find_from(text.as_slice(), marker, start) {
                Some(at) => at,
                None => {
                    break;
                },
            };
            let ghost rest = all.skip(start as int);
            let piece = vstd::slice::slice_subrange(text.as_slice(), start, at);
            let fits = keep(piece, kept, cap);
            proof {
                assert(rest.take(at - start) == piece@);
                assert(rest.skip(at - start + marker@.len()) == all.skip(at + marker@.len()));
                lemma_capped_in_steps(first, done, piece@, cap as int);
                if start == 0 {
                    assert(rest == all);
                }
                let tail = all.skip(at + marker@.len());
                assert(shown(rest) == piece@ + shown(tail));
                assert(done + (piece@ + shown(tail)) == (done + piece@) + shown(tail));
                done = done + piece@;
            }
            filtered.dropped = filtered.dropped || !fits;
            filtered.asked = true;
            assert(at + marker@.len() <= text.len());
            start = at + marker.len();
        }
        // Everything from the last marker on could still be the start of
        // another, so only the part that cannot be is written now.
        let ghost tail = all.skip(start as int);
        let rest = vstd::slice::slice_subrange(text.as_slice(), start, text.len());
        assert(rest@ == tail);
        let safe = safe_prefix(rest);
        let ready = vstd::slice::slice_subrange(rest, 0, safe);
        let fits = keep(ready, kept, cap);
        let held = vstd::slice::slice_subrange(rest, safe, rest.len());
        self.held = vstd::slice::slice_to_vec(held);
        proof {
            lemma_open_end(tail);
            assert(ready@ == tail.take(safe as int));
            assert(self.held@ == tail.skip(safe as int));
            lemma_capped_in_steps(first, done, ready@, cap as int);
            assert(shown(tail) == ready@);
            assert(held_back(tail) == self.held@);
        }
        filtered.dropped = filtered.dropped || !fits;
        filtered
    }

    /// Writes whatever was held back, once the stream has ended, and answers
    /// whether bytes were dropped.
    pub fn finish(&mut self, kept: &mut Vec<u8>, cap: usize) -> (r: bool)
        ensures
            final(self).held() == Seq::<u8>::empty(),
            final(kept)@ == with_capped(old(kept)@, old(self).held(), cap as int),
            r == (old(self).held().len() > room(old(kept)@, cap as int)),
    {
        let fits = keep(self.held.as_slice(), kept, cap);
        self.held = Vec::new();
        !fits
    }
}

/// How much of `tail` cannot be the start of a marker, and so is safe to write.
fn safe_prefix(tail: &[u8]) -> (r: usize)
    ensures
        r == tail@.len() - open_end(tail@),
        r <= tail@.len(),
{
    let marker = MARKER.as_bytes();
    proof {
        lemma_marker_len();
        lemma_open_end(tail@);
        lemma_start_len(tail@, 13);
    }
    let mut n: usize = if tail.len() < marker.len() - 1 {
        tail.len()
    } else {
        marker.len() - 1
    };
    proof {
        lemma_start_len(tail@, 13);
        assert(start_len(tail@, 13) <= tail@.len());
        lemma_start_capped(tail@, 13, n as int);
    }
    while n > 0
        invariant
            marker@ == marker_bytes(),
            marker@.len() == 14,
            n <= tail@.len(),
            n <= 13,
            open_end(tail@) == start_len(tail@, n as int),
        decreases n,
    {
        let end = vstd::slice::slice_subrange(tail, tail.len() - n, tail.len());
        let start = vstd::slice::slice_subrange(marker, 0, n);
        assert(end@ == tail@.skip(tail@.len() - n));
        assert(start@ == marker@.take(n as int));
        if same_bytes(end, start) {
            return tail.len() - n;
        }
        n -= 1;
    }
    tail.len()
}

/// Looking at more bytes than the stream has finds nothing more.
proof fn lemma_start_capped(s: Seq<u8>, n: int, m: int)
    requires
        0 <= m <= n,
        m == s.len() || m == n,
    ensures
        start_len(s, n) == start_len(s, m),
    decreases n,
{
    if m < n {
        assert(!ends_in_start(s, n));
        lemma_start_capped(s, n - 1, m);
    }
}

/// The chunks one after another.
pub open spec fn stream_of(chunks: Seq<Seq<u8>>) -> Seq<u8>
    decreases chunks.len(),
{
    if chunks.len() == 0 {
        Seq::empty()
    } else {
        stream_of(chunks.drop_last()) + chunks.last()
    }
}

/// What a filter holds back after these chunks.
pub open spec fn held_after(chunks: Seq<Seq<u8>>) -> Seq<u8>
    decreases chunks.len(),
{
    if chunks.len() == 0 {
        Seq::empty()
    } else {
        held_back(held_after(chunks.drop_last()) + chunks.last())
    }
}

/// What a filter has kept after these chunks.
pub open spec fn kept_after(chunks: Seq<Seq<u8>>, cap: int) -> Seq<u8>
    decreases chunks.len(),
{
    if chunks.len() == 0 {
        Seq::empty()
    } else {
        with_capped(
            kept_after(chunks.drop_last(), cap),
            shown(held_after(chunks.drop_last()) + chunks.last()),
            cap,
        )
    }
}

/// Whether a filter has dropped something for want of room after these chunks.
pub open spec fn cut_after(chunks: Seq<Seq<u8>>, cap: int) -> bool
    decreases chunks.len(),
{
    if chunks.len() == 0 {
        false
    } else {
        cut_after(chunks.drop_last(), cap) || shown(
            held_after(chunks.drop_last()) + chunks.last(),
        ).len() > room(kept_after(chunks.drop_last(), cap), cap)
    }
}

/// Whether some chunk was found to carry an ask.
pub open spec fn asked_after(chunks: Seq<Seq<u8>>) -> bool
    decreases chunks.len(),
{
    if chunks.len() == 0 {
        false
    } else {
        asked_after(chunks.drop_last()) || occurs(
            held_after(chunks.drop_last()) + chunks.last(),
            marker_bytes(),
        )
    }
}

proof fn lemma_short_has_no_marker(s: Seq<u8>)
    requires
        s.len() < marker_bytes().len(),
    ensures
        without_markers(s) == s,
        !occurs(s, marker_bytes()),
{
    lemma_marker_len();
    lemma_first_occurrence(s, marker_bytes());
    if occurs(s, marker_bytes()) {
        let i = choose|i: int| occurs_at(s, marker_bytes(), i);
    }
}

proof fn lemma_filter_state(chunks: Seq<Seq<u8>>, cap: int)
    requires
        0 <= cap,
    ensures
        held_after(chunks) == held_back(stream_of(chunks)),
        kept_after(chunks, cap) == with_capped(Seq::empty(), shown(stream_of(chunks)), cap),
        cut_after(chunks, cap) == (shown(stream_of(chunks)).len() > cap),
        asked_after(chunks) == occurs(stream_of(chunks), marker_bytes()),
    decreases chunks.len(),
{
    lemma_marker_len();
    if chunks.len() == 0 {
        let none = Seq::<u8>::empty();
        lemma_short_has_no_marker(none);
        lemma_open_end(none);
        lemma_first_occurrence(none, marker_bytes());
        assert(shown(none) == none);
        assert(held_back(none) == none);
        assert(with_capped(none, none, cap) == none);
    } else {
        let before = stream_of(chunks.drop_last());
        let chunk = chunks.last();
        lemma_filter_state(chunks.drop_last(), cap);
        lemma_resume(before, chunk);
        lemma_capped_in_steps(
            Seq::empty(),
            shown(before),
            shown(held_back(before) + chunk),
            cap,
        );
    }
}

/// How a stream is cut into reads makes no difference: once it has ended, what
/// was kept is the stream without its markers, up to the cap; something was
/// dropped exactly when the stream without its markers is longer than the cap;
/// and an ask was noticed exactly when a marker stands somewhere in the stream.
pub proof fn law_reads_may_fall_anywhere(chunks: Seq<Seq<u8>>, cap: int)
    requires
        0 <= cap,
    ensures
        with_capped(kept_after(chunks, cap), held_after(chunks), cap) == with_capped(
            Seq::empty(),
            without_markers(stream_of(chunks)),
            cap,
        ),
        (cut_after(chunks, cap) || held_after(chunks).len() > room(kept_after(chunks, cap), cap))
            == (without_markers(stream_of(chunks)).len() > cap),
        asked_after(chunks) == occurs(stream_of(chunks), marker_bytes()),
{
    let all = stream_of(chunks);
    lemma_filter_state(chunks, cap);
    lemma_resume(all, Seq::empty());
    assert(all + Seq::<u8>::empty() == all);
    assert(held_back(all) + Seq::<u8>::empty() == held_back(all));
    lemma_short_has_no_marker(held_back(all));
    lemma_capped_in_steps(Seq::empty(), shown(all), held_back(all), cap);
}

/// Output that carries no marker comes through as it is.
pub proof fn law_output_without_markers_is_kept_whole(s: Seq<u8>)
    requires
        !occurs(s, marker_bytes()),
    ensures
        without_markers(s) == s,
{
    lemma_marker_len();
    lemma_first_occurrence(s, marker_bytes());
}

// ---------------------------------------------------------------------------
// The command under sudo
// ---------------------------------------------------------------------------

/// The words rshx puts before a command: its own sudo, reading the password
/// from stdin and announcing the ask with the marker.
pub open spec fn sudo_words() -> Seq<Seq<char>> {
    seq!["sudo"@, "-S"@, "-p"@, MARKER@]
}

/// Appends copies of the words.
fn extend(list: &mut Vec<String>, words: &[String])
    ensures
        texts(final(list)@) == texts(old(list)@) + texts(words@),
{
    let ghost start = list@;
    let mut i: usize = 0;
    assert(texts(words@).take(0) == Seq::<Seq<char>>::empty());
    while i < words.len()
        invariant
            i <= words@.len(),
            texts(list@) == texts(start) + texts(words@).take(i as int),
        decreases words@.len() - i,
    {
        let ghost before = list@;
        list.push(words[i].clone());
        i += 1;
        proof {
            assert(texts(list@) == texts(before).push(words@[i - 1]@));
            assert(texts(words@).take(i as int) == texts(words@).take(i - 1).push(words@[i - 1]@));
        }
    }
    assert(texts(words@).take(words@.len() as int) == texts(words@));
}

/// The command as it is run: rshx's own sudo, then the command verbatim.
///
/// rshx never reads the command's own sudo options — that would mean
/// reimplementing sudo's option grammar, and being wrong about it some day. So
/// the command is always wrapped, and one that runs sudo itself ends up with a
/// second elevation inside rshx's. `runs_sudo` is what lets the caller say so.
pub fn under_sudo(command: &[String]) -> (r: Vec<String>)
    ensures
        texts(r@) == sudo_words() + texts(command@),
{
    let mut rewritten: Vec<String> = Vec::new();
    rewritten.push("sudo".to_string());
    rewritten.push("-S".to_string());
    rewritten.push("-p".to_string());
    rewritten.push(MARKER.to_string());
    assert(texts(rewritten@) == sudo_words());
    extend(&mut rewritten, command);
    rewritten
}

/// The words rshx puts before a command that may not prompt: a password it
/// already has is read from stdin, and without one only a sudo that wants none
/// runs the command.
pub open spec fn unprompted_words(password: bool) -> Seq<Seq<char>> {
    if password {
        seq!["sudo"@, "-S"@, "-p"@, ""@, "--"@]
    } else {
        seq!["sudo"@, "-n"@, "--"@]
    }
}

/// The command under a sudo that prints no prompt: it reads a password that
/// rshx already has, or runs only where it wants none.
pub fn under_sudo_unprompted(command: &[String], password: bool) -> (r: Vec<String>)
    ensures
        texts(r@) == unprompted_words(password) + texts(command@),
{
    let mut rewritten: Vec<String> = Vec::new();
    rewritten.push("sudo".to_string());
    if password {
        rewritten.push("-S".to_string());
        rewritten.push("-p".to_string());
        rewritten.push("".to_string());
    } else {
        rewritten.push("-n".to_string());
    }
    rewritten.push("--".to_string());
    assert(texts(rewritten@) == unprompted_words(password));
    extend(&mut rewritten, command);
    rewritten
}

/// The last component of a path that names something: empty components and `.`
/// name nothing.
pub open spec fn last_name(components: Seq<Seq<char>>) -> Seq<char>
    decreases components.len(),
{
    if components.len() == 0 {
        Seq::empty()
    } else if components.last().len() == 0 || components.last() == seq!['.'] {
        last_name(components.drop_last())
    } else {
        components.last()
    }
}

/// Whether a word names sudo itself: `sudo`, or a path to it.
pub open spec fn names_sudo(word: Seq<char>) -> bool {
    last_name(pieces(word, '/')) == "sudo"@
}

/// Whether an argument names sudo itself: `sudo`, or a path to it.
fn is_sudo(word: &str) -> (r: bool)
    ensures
        r == names_sudo(word@),
{
    let cs = chars_of(word);
    let parts = split(cs.as_slice(), '/');
    let ghost all = pieces(word@, '/');
    let ghost view = |p: Vec<char>| p@;
    proof {
        reveal_strlit("sudo");
        assert(parts@.map_values(view) == all);
    }
    let mut n: usize = parts.len();
    assert(all.take(n as int) == all);
    while n > 0
        invariant
            n <= parts@.len(),
            view == (|p: Vec<char>| p@),
            parts@.map_values(view) == all,
            last_name(all) == last_name(all.take(n as int)),
            all == pieces(word@, '/'),
        decreases n,
    {
        let part = &parts[n - 1];
        proof {
            assert(part@ == all[n - 1]);
            assert(all.take(n as int).last() == all[n - 1]);
            assert(all.take(n as int).drop_last() == all.take(n - 1));
        }
        if part.len() == 0 || (part.len() == 1 && part[0] == '.') {
            assert(part.len() == 1 ==> part@ == seq!['.']);
            n -= 1;
        } else {
            assert(part@.len() == 1 ==> part@[0] == seq!['.'][0] ==> false);
            let name = string_of(part.as_slice());
            return same(name.as_str(), "sudo");
        }
    }
    assert(last_name(all).len() == 0);
    false
}

/// Whether the command already runs sudo itself.
///
/// Only ever used to warn: the wrapper is the same either way.
pub fn runs_sudo(command: &[String]) -> (r: bool)
    ensures
        r == (command@.len() > 0 && names_sudo(command@[0]@)),
{
    command.len() > 0 && is_sudo(command[0].as_str())
}

/// No word of the command is read, moved or dropped by the wrapper, so two
/// commands that differ still differ under it.
pub proof fn law_command_is_wrapped_verbatim(command: Seq<Seq<char>>)
    ensures
        (sudo_words() + command).skip(sudo_words().len() as int) == command,
        (sudo_words() + command).take(sudo_words().len() as int) == sudo_words(),
{
    assert((sudo_words() + command).skip(sudo_words().len() as int) =~= command);
    assert((sudo_words() + command).take(sudo_words().len() as int) =~= sudo_words());
}

// ---------------------------------------------------------------------------
// The passwords
// ---------------------------------------------------------------------------

/// The password of a Host that has one of its own, and whether it has been
/// given it yet.
pub struct Unique {
    pub password: Option<Vec<u8>>,
    pub tried: bool,
}

/// The passwords a run can need.
///
/// Who has had the shared one is what tells a retry from a first ask: sudo
/// prints the marker again only after rejecting a password, so a Host asking
/// twice has had the one it was given refused, and writing that same password
/// again would only burn sudo's remaining tries.
pub struct Privilege {
    /// The password every Host shares.
    password: Option<Vec<u8>>,
    /// The Hosts it has already been given to.
    given: StringHashSet,
    /// The passwords of Hosts marked `unique_privilege_pass`.
    unique: StringHashMap<Unique>,
    /// Why the run cannot go on, once it cannot: there was nowhere to ask, or
    /// nothing was typed.
    fatal: Option<String>,
}

/// A password that belongs to one Host.
pub ghost struct OwnPassword {
    pub password: Option<Seq<u8>>,
    pub tried: bool,
}

/// What a run knows of passwords.
pub ghost struct PrivilegeModel {
    pub password: Option<Seq<u8>>,
    pub given: Set<Seq<char>>,
    pub unique: Map<Seq<char>, OwnPassword>,
    pub fatal: Option<Seq<char>>,
}

/// The bytes of an optional password.
pub open spec fn secret(p: Option<Vec<u8>>) -> Option<Seq<u8>> {
    match p {
        Some(b) => Some(b@),
        None => None,
    }
}

impl View for Privilege {
    type V = PrivilegeModel;

    closed spec fn view(&self) -> PrivilegeModel {
        PrivilegeModel {
            password: secret(self.password),
            given: self.given@,
            unique: self.unique@.map_values(
                |u: Unique| OwnPassword { password: secret(u.password), tried: u.tried },
            ),
            fatal: opt_text(self.fatal),
        }
    }
}

/// What is known of a Host's own password: nothing, before it was asked for.
pub open spec fn own(m: PrivilegeModel, host: Seq<char>) -> OwnPassword {
    if m.unique.contains_key(host) {
        m.unique[host]
    } else {
        OwnPassword { password: None, tried: false }
    }
}

/// The password the run has that this Host has not been given yet.
pub open spec fn due(m: PrivilegeModel, host: Seq<char>, unique: bool) -> Option<Seq<u8>> {
    if unique {
        if own(m, host).tried {
            None
        } else {
            own(m, host).password
        }
    } else if m.given.contains(host) {
        None
    } else {
        m.password
    }
}

/// The passwords after this Host has been given the one that is due.
pub open spec fn after_giving(m: PrivilegeModel, host: Seq<char>, unique: bool) -> PrivilegeModel {
    if unique {
        PrivilegeModel {
            unique: m.unique.insert(
                host,
                OwnPassword {
                    password: own(m, host).password,
                    tried: own(m, host).tried || own(m, host).password is Some,
                },
            ),
            ..m
        }
    } else if due(m, host, false) is Some {
        PrivilegeModel { given: m.given.insert(host), ..m }
    } else {
        m
    }
}

/// The passwords after one was typed for this Host. A new shared password
/// replaces the old one, and every other Host is due to be given it again: the
/// ones that took the old one are exactly the ones whose sudo has just refused
/// it.
pub open spec fn after_typing(
    m: PrivilegeModel,
    host: Seq<char>,
    unique: bool,
    password: Seq<u8>,
) -> PrivilegeModel {
    if unique {
        PrivilegeModel {
            unique: m.unique.insert(host, OwnPassword { password: Some(password), tried: true }),
            ..m
        }
    } else {
        PrivilegeModel { password: Some(password), given: set![host], ..m }
    }
}

/// The first failure is the one worth reporting: a Host asking after it would
/// only restate it.
pub open spec fn after_failure(m: PrivilegeModel, reason: Seq<char>) -> PrivilegeModel {
    PrivilegeModel {
        fatal: if m.fatal is None {
            Some(reason)
        } else {
            m.fatal
        },
        ..m
    }
}

/// What asking the user for a password produced.
pub enum Answer {
    /// They typed one.
    Password(Vec<u8>),
    /// They pressed Ctrl-C: the run stops, the way any interrupt stops it.
    Interrupted,
    /// Nothing was typed, or there was nowhere to ask. `Privilege::fatal` says
    /// which; either way the run cannot answer, so it stops.
    Refused,
}

/// What the terminal gave back.
pub enum Typed {
    /// A password, as typed.
    Password(Vec<u8>),
    /// They pressed Ctrl-C.
    Interrupted,
    /// They pressed Enter on an empty line.
    Empty,
    /// There is nowhere to ask.
    NoTerminal(String),
}

/// The prompt names the Host it is for: a Host asking a second time had its
/// password refused, and with a run of Hosts with passwords of their own, the
/// next prompt may well be about another one.
pub fn ask_text(host: &str) -> (r: String)
    ensures
        r@ == "privilege password for "@ + host@ + ": "@,
{
    let mut s = "privilege password for ".to_string();
    s.append(host);
    s.append(": ");
    s
}

/// The terminal could not be opened, or could not be put into the mode a
/// password is typed in.
pub fn no_terminal(err: &str) -> (r: Typed)
    ensures
        r is NoTerminal,
        r->NoTerminal_0@ == "/dev/tty: "@ + err@,
{
    let mut s = "/dev/tty: ".to_string();
    s.append(err);
    Typed::NoTerminal(s)
}

fn copy_bytes(bytes: &[u8]) -> (r: Vec<u8>)
    ensures
        r@ == bytes@,
{
    vstd::slice::slice_to_vec(bytes)
}

fn copy_secret(p: &Option<Vec<u8>>) -> (r: Option<Vec<u8>>)
    ensures
        secret(r) == secret(*p),
{
    match p {
        Some(b) => Some(copy_bytes(b.as_slice())),
        None => None,
    }
}

impl Default for Privilege {
    fn default() -> (r: Privilege)
        ensures
            r@ == (PrivilegeModel {
                password: None,
                given: Set::empty(),
                unique: Map::empty(),
                fatal: None,
            }),
    {
        let r = Privilege {
            password: None,
            given: StringHashSet::new(),
            unique: StringHashMap::new(),
            fatal: None,
        };
        assert(r@.unique =~= Map::empty());
        r
    }
}

impl Privilege {
    /// Why the run cannot go on, if it cannot.
    pub fn fatal(&self) -> (r: Option<String>)
        ensures
            opt_text(r) == self@.fatal,
    {
        match &self.fatal {
            Some(s) => Some(s.clone()),
            None => None,
        }
    }

    /// A password this Host has not been given yet, if the run has one. It
    /// counts as given from now on.
    pub fn untried(&mut self, host: &str, unique: bool) -> (r: Option<Vec<u8>>)
        ensures
            secret(r) == due(old(self)@, host@, unique),
            final(self)@ == after_giving(old(self)@, host@, unique),
    {
        let ghost before = self@;
        if unique {
            let (password, tried) = match self.unique.get(host) {
                Some(entry) => (copy_secret(&entry.password), entry.tried),
                None => (None, false),
            };
            let now = tried || password.is_some();
            let ghost known = OwnPassword { password: secret(password), tried };
            assert(known == own(before, host@));
            let kept = copy_secret(&password);
            let ghost view = |u: Unique| OwnPassword { password: secret(u.password), tried: u.tried };
            let ghost map = self.unique@;
            let entry = Unique { password, tried: now };
            let ghost made = entry;
            self.unique.insert(host.to_string(), entry);
            assert(map.insert(host@, made).map_values(view) =~= map.map_values(view).insert(
                host@,
                view(made),
            ));
            assert(self@ == after_giving(before, host@, unique));
            if tried {
                None
            } else {
                kept
            }
        } else {
            if self.given.contains(host) {
                return None;
            }
            match &self.password {
                None => None,
                Some(p) => {
                    let kept = copy_bytes(p.as_slice());
                    self.given.insert(host.to_string());
                    Some(kept)
                },
            }
        }
    }

    fn remember(&mut self, host: &str, unique: bool, password: &[u8])
        ensures
            final(self)@ == after_typing(old(self)@, host@, unique, password@),
    {
        let kept = copy_bytes(password);
        if unique {
            let ghost view = |u: Unique| OwnPassword { password: secret(u.password), tried: u.tried };
            let ghost map = self.unique@;
            let entry = Unique { password: Some(kept), tried: true };
            let ghost made = entry;
            self.unique.insert(host.to_string(), entry);
            assert(map.insert(host@, made).map_values(view) =~= map.map_values(view).insert(
                host@,
                view(made),
            ));
        } else {
            self.password = Some(kept);
            self.given.clear();
            self.given.insert(host.to_string());
            assert(self.given@ =~= set![host@]);
        }
    }

    /// The run cannot go on, for this reason unless there is one already.
    pub fn fail(&mut self, reason: &str)
        ensures
            final(self)@ == after_failure(old(self)@, reason@),
    {
        if self.fatal.is_none() {
            self.fatal = Some(reason.to_string());
        }
    }

    /// What the prompt's outcome means for the Host it was asked for: a
    /// password is remembered and given, Ctrl-C stops the run the way any
    /// interrupt stops it, and anything else is why the run cannot go on.
    pub fn ask(&mut self, host: &str, unique: bool, typed: Typed) -> (r: Answer)
        ensures
            match typed {
                Typed::Password(password) => {
                    &&& r is Password && r->Password_0@ == password@
                    &&& final(self)@ == after_typing(old(self)@, host@, unique, password@)
                },
                Typed::Interrupted => r is Interrupted && final(self)@ == old(self)@,
                Typed::Empty => r is Refused && final(self)@ == after_failure(
                    old(self)@,
                    "the password was empty; nothing was attempted"@,
                ),
                Typed::NoTerminal(err) => r is Refused && final(self)@ == after_failure(
                    old(self)@,
                    "--privilege needs a terminal to ask for a password: "@ + err@,
                ),
            },
    {
        match typed {
            Typed::Password(password) => {
                self.remember(host, unique, password.as_slice());
                Answer::Password(password)
            },
            Typed::Interrupted => Answer::Interrupted,
            Typed::Empty => {
                self.fail("the password was empty; nothing was attempted");
                Answer::Refused
            },
            Typed::NoTerminal(err) => {
                let mut s = "--privilege needs a terminal to ask for a password: ".to_string();
                s.append(err.as_str());
                self.fail(s.as_str());
                Answer::Refused
            },
        }
    }

    /// The prompt itself broke, so the run cannot answer. Nothing was written,
    /// and the Host's sudo will fail on its own.
    pub fn could_not_ask(&mut self, err: &str) -> (r: Answer)
        ensures
            r is Refused,
            final(self)@ == after_failure(
                old(self)@,
                "could not ask for a password: "@ + err@,
            ),
    {
        let mut s = "could not ask for a password: ".to_string();
        s.append(err);
        self.fail(s.as_str());
        Answer::Refused
    }

    /// The password the run already has for this Host, given to it or not. A
    /// stop writes it again, since it must not ask for another.
    pub fn password_for(&self, host: &str, unique: bool) -> (r: Option<Vec<u8>>)
        ensures
            secret(r) == (if unique {
                own(self@, host@).password
            } else {
                self@.password
            }),
    {
        if unique {
            match self.unique.get(host) {
                Some(entry) => copy_secret(&entry.password),
                None => None,
            }
        } else {
            copy_secret(&self.password)
        }
    }
}

/// A Host is never given the same password a second time: once it has been
/// given the one the run has, none is due to it until another is typed.
pub proof fn law_a_refused_password_is_not_written_again(
    m: PrivilegeModel,
    host: Seq<char>,
    unique: bool,
)
    requires
        due(m, host, unique) is Some,
    ensures
        due(after_giving(m, host, unique), host, unique) is None,
{
}

/// A password typed for a Host is not due to it again, since it is given with
/// the typing. A shared one becomes due to every other Host, whatever they
/// were given before; a Host's own is due to nobody else and leaves the shared
/// one alone.
pub proof fn law_a_typed_password_reaches_every_other_host(
    m: PrivilegeModel,
    host: Seq<char>,
    other: Seq<char>,
    password: Seq<u8>,
)
    requires
        host != other,
    ensures
        due(after_typing(m, host, false, password), host, false) is None,
        due(after_typing(m, host, false, password), other, false) == Some(password),
        due(after_typing(m, host, true, password), host, true) is None,
        due(after_typing(m, host, true, password), other, true) == due(m, other, true),
        due(after_typing(m, host, true, password), other, false) == due(m, other, false),
        due(after_typing(m, host, false, password), other, true) == due(m, other, true),
{
}

/// Giving one Host its password takes nothing from another.
pub proof fn law_hosts_are_given_passwords_apart(
    m: PrivilegeModel,
    host: Seq<char>,
    unique: bool,
    other: Seq<char>,
    other_unique: bool,
)
    requires
        host != other || unique != other_unique,
    ensures
        due(after_giving(m, host, unique), other, other_unique) == due(m, other, other_unique),
{
}

/// The first failure stays the one that is reported.
pub proof fn law_the_first_failure_is_kept(m: PrivilegeModel, first: Seq<char>, second: Seq<char>)
    ensures
        after_failure(after_failure(m, first), second) == after_failure(m, first),
        after_failure(m, first).fatal is Some,
{
}

// ---------------------------------------------------------------------------
// The line a password is typed on
// ---------------------------------------------------------------------------

/// The line so far, and whether it is done.
pub enum Keyed {
    /// More keys are wanted.
    More,
    /// The line ended, or was given up.
    Done(Typed),
}

/// The line that these keys type, before it is ended: backspace, which is
/// unseen and so has to work, takes the last byte back.
pub open spec fn line_of(keys: Seq<u8>) -> Seq<u8>
    decreases keys.len(),
{
    if keys.len() == 0 {
        Seq::empty()
    } else {
        after_key(line_of(keys.drop_last()), keys.last())
    }
}

/// The line after one more key.
pub open spec fn after_key(line: Seq<u8>, key: u8) -> Seq<u8> {
    if key == 0x7f || key == 0x08 {
        if line.len() > 0 {
            line.drop_last()
        } else {
            line
        }
    } else {
        line.push(key)
    }
}

/// Whether the key ends the line: Enter, or Ctrl-D.
pub open spec fn ends_line(key: u8) -> bool {
    key == 10 || key == 13 || key == 0x04
}

/// A password being typed: no echo, a byte at a time, and Ctrl-C delivered as a
/// byte rather than a signal.
pub struct Line {
    bytes: Vec<u8>,
}

impl View for Line {
    type V = Seq<u8>;

    closed spec fn view(&self) -> Seq<u8> {
        self.bytes@
    }
}

/// What a finished line amounts to.
pub open spec fn is_entered(typed: Typed, line: Seq<u8>) -> bool {
    if line.len() == 0 {
        typed is Empty
    } else {
        typed is Password && typed->Password_0@ == line
    }
}

impl Line {
    /// Nothing typed yet.
    pub fn new() -> (r: Line)
        ensures
            r@ == Seq::<u8>::empty(),
    {
        Line { bytes: Vec::new() }
    }

    /// Takes one key.
    pub fn key(&mut self, key: u8) -> (r: Keyed)
        ensures
            if key == 0x03 {
                r is Done && r->Done_0 is Interrupted && final(self)@ == old(self)@
            } else if ends_line(key) {
                r is Done && is_entered(r->Done_0, old(self)@) && final(self)@ == old(self)@
            } else {
                r is More && final(self)@ == after_key(old(self)@, key)
            },
    {
        if key == 10 || key == 13 || key == 0x04 {
            return Keyed::Done(self.end());
        }
        if key == 0x03 {
            return Keyed::Done(Typed::Interrupted);
        }
        if key == 0x7f || key == 0x08 {
            if self.bytes.len() > 0 {
                self.bytes.pop();
            }
        } else {
            self.bytes.push(key);
        }
        Keyed::More
    }

    /// The line is over: Enter, Ctrl-D, or nothing more to read.
    pub fn end(&self) -> (r: Typed)
        ensures
            is_entered(r, self@),
    {
        if self.bytes.len() == 0 {
            Typed::Empty
        } else {
            Typed::Password(copy_bytes(self.bytes.as_slice()))
        }
    }
}

/// A key and a backspace after it leave the line as it was.
pub proof fn law_backspace_takes_a_key_back(keys: Seq<u8>, key: u8, back: u8)
    requires
        key != 0x7f,
        key != 0x08,
        back == 0x7f || back == 0x08,
    ensures
        line_of(keys.push(key).push(back)) == line_of(keys),
{
    let more = keys.push(key);
    assert(more.push(back).drop_last() == more);
    assert(more.drop_last() == keys);
    assert(line_of(more) == line_of(keys).push(key));
    assert(more.push(back).last() == back);
    assert(line_of(keys).push(key).drop_last() == line_of(keys));
}

// ---------------------------------------------------------------------------
// The time a prompt takes
// ---------------------------------------------------------------------------

/// What one Host has spent waiting for a password, and whether it is waiting
/// now. Times and spans are in nanoseconds, counted from a moment before the
/// run began.
#[derive(Debug, Clone, Copy)]
pub struct Waiting {
    /// When the ask went out, while it is still out.
    pub since: Option<u128>,
    /// What this Host has already spent waiting.
    pub spent: u128,
}

/// The span from one moment to a later one; none where the clock has not moved
/// on.
pub open spec fn span(from: u128, to: u128) -> u128 {
    if from < to {
        (to - from) as u128
    } else {
        0
    }
}

/// The span from one moment to a later one.
pub fn elapsed(from: u128, to: u128) -> (r: u128)
    ensures
        r == span(from, to),
{
    if from < to {
        to - from
    } else {
        0
    }
}

/// Two spans together, as far as they can be counted.
pub open spec fn spans(a: u128, b: u128) -> u128 {
    if a + b <= u128::MAX {
        (a + b) as u128
    } else {
        u128::MAX
    }
}

/// What a Host has spent waiting, a wait in progress counted up to now.
pub open spec fn waited(w: Waiting, now: u128) -> u128 {
    match w.since {
        Some(at) => spans(w.spent, span(at, now)),
        None => w.spent,
    }
}

impl Waiting {
    /// What this Host has spent waiting, so far.
    pub fn total(&self, now: u128) -> (r: u128)
        ensures
            r == waited(*self, now),
    {
        match self.since {
            Some(at) => self.spent.saturating_add(elapsed(at, now)),
            None => self.spent,
        }
    }
}

/// How long each Host has spent blocked on rshx for a password.
///
/// Per Host, not per run. Only the Hosts whose ask is out are stopped at a
/// prompt: the rest carry on running, and a `--timeout` is a bound on what each
/// Host's own command does. Charging one Host's ask to the whole run would let a
/// slow typist hold a healthy Host open past its limit — or, worse, let a
/// prompt keep a wedged Host from ever timing out.
pub struct PromptClock {
    hosts: StringHashMap<Waiting>,
}

impl View for PromptClock {
    type V = Map<Seq<char>, Waiting>;

    closed spec fn view(&self) -> Map<Seq<char>, Waiting> {
        self.hosts@
    }
}

/// What is known of a Host's waits: none, before its first ask.
pub open spec fn wait_of(clock: Map<Seq<char>, Waiting>, host: Seq<char>) -> Waiting {
    if clock.contains_key(host) {
        clock[host]
    } else {
        Waiting { since: None, spent: 0 }
    }
}

/// How long a Host has spent waiting for a password.
pub open spec fn spent_waiting(
    clock: Map<Seq<char>, Waiting>,
    host: Seq<char>,
    now: u128,
) -> u128 {
    waited(wait_of(clock, host), now)
}

/// The clock once a Host's ask has gone out.
pub open spec fn ask_out(
    clock: Map<Seq<char>, Waiting>,
    host: Seq<char>,
    now: u128,
) -> Map<Seq<char>, Waiting> {
    clock.insert(host, Waiting { since: Some(now), spent: wait_of(clock, host).spent })
}

/// The clock once a Host's ask has come back.
pub open spec fn ask_back(
    clock: Map<Seq<char>, Waiting>,
    host: Seq<char>,
    now: u128,
) -> Map<Seq<char>, Waiting> {
    if wait_of(clock, host).since is Some {
        clock.insert(host, Waiting { since: None, spent: spent_waiting(clock, host, now) })
    } else {
        clock
    }
}

impl Default for PromptClock {
    fn default() -> (r: PromptClock)
        ensures
            r@ == Map::<Seq<char>, Waiting>::empty(),
    {
        PromptClock { hosts: StringHashMap::new() }
    }
}

impl PromptClock {
    /// How long this Host has been waiting for a password, including a wait in
    /// progress.
    pub fn spent_by(&self, host: &str, now: u128) -> (r: u128)
        ensures
            r == spent_waiting(self@, host@, now),
    {
        match self.hosts.get(host) {
            Some(waiting) => waiting.total(now),
            None => 0,
        }
    }

    /// Whether this Host is waiting for a password right now.
    pub fn asking(&self, host: &str) -> (r: bool)
        ensures
            r == (wait_of(self@, host@).since is Some),
    {
        match self.hosts.get(host) {
            Some(waiting) => waiting.since.is_some(),
            None => false,
        }
    }

    /// Times this Host's ask from now on.
    ///
    /// Called by the Host's own stderr reader rather than by the run's main
    /// loop: the Host starts waiting the moment its ask goes out, whether or
    /// not the loop has got to it.
    pub fn asking_now(&mut self, host: &str, now: u128)
        ensures
            final(self)@ == ask_out(old(self)@, host@, now),
    {
        let spent: u128 = match self.hosts.get(host) {
            Some(waiting) => waiting.spent,
            None => 0,
        };
        self.hosts.insert(host.to_string(), Waiting { since: Some(now), spent });
    }

    /// This Host's ask has come back.
    pub fn answered(&mut self, host: &str, now: u128)
        ensures
            final(self)@ == ask_back(old(self)@, host@, now),
    {
        let done = match self.hosts.get(host) {
            Some(waiting) => if waiting.since.is_some() {
                Some(waiting.total(now))
            } else {
                None
            },
            None => None,
        };
        if let Some(spent) = done {
            self.hosts.insert(host.to_string(), Waiting { since: None, spent });
        }
    }
}

/// One Host's ask is never charged to another.
pub proof fn law_a_prompt_is_charged_to_its_own_host(
    clock: Map<Seq<char>, Waiting>,
    host: Seq<char>,
    other: Seq<char>,
    then: u128,
    now: u128,
)
    requires
        host != other,
    ensures
        spent_waiting(ask_out(clock, host, then), other, now) == spent_waiting(clock, other, now),
        spent_waiting(ask_back(clock, host, then), other, now) == spent_waiting(clock, other, now),
{
}

/// An ask costs a Host the time from its going out to its coming back, and
/// nothing after that.
pub proof fn law_a_prompt_costs_the_time_it_is_out(
    clock: Map<Seq<char>, Waiting>,
    host: Seq<char>,
    out: u128,
    back: u128,
    now: u128,
)
    requires
        wait_of(clock, host).since is None,
        out <= back,
    ensures
        spent_waiting(ask_back(ask_out(clock, host, out), host, back), host, now) == spans(
            wait_of(clock, host).spent,
            span(out, back),
        ),
        wait_of(ask_out(clock, host, out), host).since is Some,
        wait_of(ask_back(ask_out(clock, host, out), host, back), host).since is None,
{
}

// ---------------------------------------------------------------------------
// What a privileged run does
// ---------------------------------------------------------------------------

/// The first marker in a stream is taken out, all fourteen bytes of it, and
/// nothing before it is touched; what follows is treated in the same way.
pub proof fn law_a_marker_is_taken_out_whole(before: Seq<u8>, after: Seq<u8>)
    requires
        forall|j: int|
            0 <= j < before.len() ==> !occurs_at(
                before + encode_utf8("rshx-password:"@) + after,
                encode_utf8("rshx-password:"@),
                j,
            ),
    ensures
        without_markers(before + encode_utf8("rshx-password:"@) + after) == before
            + without_markers(after),
{
    lemma_marker_len();
    let m = marker_bytes();
    let s = before + m + after;
    let n = before.len() as int;
    assert(s.subrange(n, n + m.len()) =~= m);
    lemma_first_occurrence_is(s, m, n);
    assert(s.take(n) =~= before);
    assert(s.skip(n + m.len()) =~= after);
}

/// Each marker is an ask, the second as well as the first: a read that
/// completes a marker is noticed as one exactly when it leaves less to show
/// than it brought.
pub proof fn law_every_marker_is_an_ask(chunks: Seq<Seq<u8>>, chunk: Seq<u8>)
    ensures
        occurs(held_after(chunks) + chunk, encode_utf8("rshx-password:"@)) <==> without_markers(
            stream_of(chunks) + chunk,
        ).len() < without_markers(stream_of(chunks)).len() + chunk.len(),
        held_after(chunks).len() < 14,
{
    let s = stream_of(chunks);
    lemma_marker_len();
    lemma_filter_state(chunks, 0);
    lemma_resume(s, chunk);
    lemma_resume(s, Seq::empty());
    assert(s + Seq::<u8>::empty() =~= s);
    assert(held_back(s) + Seq::<u8>::empty() =~= held_back(s));
    lemma_short_has_no_marker(held_back(s));
    lemma_markers_shorten(held_back(s) + chunk);
}

proof fn lemma_markers_shorten(s: Seq<u8>)
    ensures
        without_markers(s).len() <= s.len(),
        occurs(s, marker_bytes()) <==> without_markers(s).len() < s.len(),
    decreases s.len(),
{
    lemma_marker_len();
    lemma_first_occurrence(s, marker_bytes());
    let i = first_occurrence(s, marker_bytes());
    if occurs(s, marker_bytes()) {
        lemma_markers_shorten(s.skip(i + marker_bytes().len()));
    }
}

/// A privileged command is the command as it was typed, behind a sudo that
/// reads its password from stdin and asks for it with rshx's marker; one that
/// must not ask is behind a sudo that prints no prompt, or that needs none.
pub proof fn law_a_privileged_command_is_behind_one_sudo()
    ensures
        sudo_words() == seq!["sudo"@, "-S"@, "-p"@, "rshx-password:"@],
        unprompted_words(true) == seq!["sudo"@, "-S"@, "-p"@, ""@, "--"@],
        unprompted_words(false) == seq!["sudo"@, "-n"@, "--"@],
{
}

/// A word names sudo by the last part of its path, whatever directory it is in;
/// slashes and dots after it make no difference.
pub proof fn law_sudo_is_known_by_the_last_part_of_its_path(
    dir: Seq<char>,
    base: Seq<char>,
)
    requires
        !base.contains('/'),
        base.len() > 0,
        base != seq!['.'],
    ensures
        names_sudo(base) <==> base == "sudo"@,
        names_sudo(dir.push('/') + base) <==> base == "sudo"@,
        names_sudo((dir.push('/') + base).push('/')) <==> base == "sudo"@,
        names_sudo((dir.push('/') + base).push('/').push('.')) <==> base == "sudo"@,
{
    let none = Seq::<char>::empty();
    let dot = seq!['.'];
    lemma_pieces_one(base, '/');
    lemma_pieces_one(none, '/');
    lemma_pieces_one(dot, '/');
    lemma_pieces_join(dir, base, '/');
    let path = dir.push('/') + base;
    let parts = pieces(dir, '/') + seq![base];
    assert(parts.last() == base);
    lemma_pieces_join(path, none, '/');
    assert(path.push('/') + none =~= path.push('/'));
    let slashed = parts + seq![none];
    assert(slashed.last() == none);
    assert(slashed.drop_last() =~= parts);
    lemma_pieces_join(path, dot, '/');
    assert(path.push('/') + dot =~= path.push('/').push('.'));
    let dotted = parts + seq![dot];
    assert(dotted.last() == dot);
    assert(dotted.drop_last() =~= parts);
    assert(seq![base].last() == base);
}

/// What is typed for a Host is kept for it: a password of its own for that Host
/// alone, any other for every Host. Neither that nor giving a password away
/// changes any other password, or why the run stopped.
pub proof fn law_a_typed_password_is_kept(
    m: PrivilegeModel,
    host: Seq<char>,
    other: Seq<char>,
    unique: bool,
    password: Seq<u8>,
)
    ensures
        after_typing(m, host, false, password).password == Some(password),
        after_typing(m, host, true, password).password == m.password,
        own(after_typing(m, host, true, password), host).password == Some(password),
        host != other ==> own(after_typing(m, host, true, password), other) == own(m, other),
        own(after_typing(m, host, false, password), other) == own(m, other),
        after_giving(m, host, unique).password == m.password,
        own(after_giving(m, host, unique), other).password == own(m, other).password,
        after_typing(m, host, unique, password).fatal == m.fatal,
        after_giving(m, host, unique).fatal == m.fatal,
{
}

/// A Host is given the password that is known for it, once: the run's, or its
/// own where it has one of its own, and nothing before one is known.
pub proof fn law_a_host_is_given_the_password_it_is_due(
    m: PrivilegeModel,
    host: Seq<char>,
    unique: bool,
)
    ensures
        due(
            PrivilegeModel {
                password: None,
                given: Set::empty(),
                unique: Map::empty(),
                fatal: None,
            },
            host,
            unique,
        ) is None,
        due(m, host, false) is Some ==> due(m, host, false) == m.password,
        due(m, host, false) is None && m.password is Some ==> m.given.contains(host),
        due(m, host, true) is Some ==> due(m, host, true) == own(m, host).password,
        due(m, host, true) is None && own(m, host).password is Some ==> own(m, host).tried,
        due(m, host, false) is None ==> after_giving(m, host, false) == m,
{
}

/// The first reason a run cannot go on is the one that is kept, and nothing else
/// is changed by it.
pub proof fn law_a_failure_is_kept_as_it_was_given(m: PrivilegeModel, reason: Seq<char>)
    ensures
        m.fatal is None ==> after_failure(m, reason).fatal == Some(reason),
        m.fatal is Some ==> after_failure(m, reason) == m,
        after_failure(m, reason).password == m.password,
        after_failure(m, reason).given == m.given,
        after_failure(m, reason).unique == m.unique,
{
}

/// Keys that take nothing back are the line that was typed, and taking back from
/// an empty line does nothing.
pub proof fn law_a_line_is_the_keys_that_were_typed(keys: Seq<u8>, back: u8)
    requires
        back == 0x7f || back == 0x08,
    ensures
        !keys.contains(0x7f) && !keys.contains(0x08) ==> line_of(keys) == keys,
        line_of(seq![back] + keys) == line_of(keys),
    decreases keys.len(),
{
    let all = seq![back] + keys;
    if keys.len() > 0 {
        let fewer = keys.drop_last();
        law_a_line_is_the_keys_that_were_typed(fewer, back);
        assert(all.drop_last() =~= seq![back] + fewer);
        assert(all.last() == keys.last());
        if !keys.contains(0x7f) && !keys.contains(0x08) {
            assert(keys.contains(keys[keys.len() - 1]));
            assert(!fewer.contains(0x7f) && !fewer.contains(0x08)) by {
                if fewer.contains(0x7f) || fewer.contains(0x08) {
                    let i = choose|i: int|
                        0 <= i < fewer.len() && (fewer[i] == 0x7f || fewer[i] == 0x08);
                    assert(keys[i] == fewer[i]);
                }
            }
            assert(fewer.push(keys.last()) =~= keys);
        }
    } else {
        assert(all =~= seq![back]);
        assert(all.drop_last() =~= Seq::<u8>::empty());
        assert(line_of(keys) =~= keys);
    }
}

/// Enter, however it is sent, and the end of input end a line, and no other key
/// does; an empty line is no password, and any other is one as it stands.
pub proof fn law_a_line_ends_at_its_end(key: u8, typed: Typed, line: Seq<u8>)
    ensures
        ends_line(key) <==> key == 0x0a || key == 0x0d || key == 0x04,
        is_entered(typed, Seq::empty()) <==> typed is Empty,
        line.len() > 0 ==> (is_entered(typed, line) <==> typed is Password && typed->Password_0@
            == line),
{
}

/// A Host has spent at prompts what it spent before and what an ask that is out
/// has taken so far; time never runs backwards.
pub proof fn law_a_prompts_time_is_what_passed(spent: u128, at: u128, more: u128)
    requires
        at + more <= u128::MAX,
        spent + more <= u128::MAX,
    ensures
        span(at, (at + more) as u128) == more,
        span((at + more) as u128, at) == 0,
        waited(Waiting { since: Some(at), spent }, (at + more) as u128) == spent + more,
        waited(Waiting { since: None, spent }, (at + more) as u128) == spent,
{
}

/// What a Host's shell is handed before a privileged command, on one line.
pub proof fn law_a_sudo_is_one_line()
    ensures
        joined(sudo_words(), " "@) == "sudo -S -p rshx-password:"@,
{
    let words = sudo_words();
    let line = "sudo"@ + " "@ + "-S"@ + " "@ + "-p"@ + " "@ + "rshx-password:"@;
    assert(joined(words, " "@) == line) by {
        reveal_with_fuel(joined, 5);
        assert(words.drop_last() =~= seq!["sudo"@, "-S"@, "-p"@]);
        assert(seq!["sudo"@, "-S"@, "-p"@].drop_last() =~= seq!["sudo"@, "-S"@]);
        assert(seq!["sudo"@, "-S"@].drop_last() =~= seq!["sudo"@]);
    }
    reveal_strlit("sudo");
    reveal_strlit("-S");
    reveal_strlit("-p");
    reveal_strlit(" ");
    reveal_strlit("rshx-password:");
    reveal_strlit("sudo -S -p rshx-password:");
    assert(line =~= "sudo -S -p rshx-password:"@);
}

/// A Host that was never asked about has spent nothing at prompts, and an answer
/// to no ask changes nothing.
pub proof fn law_a_host_that_never_asked_has_spent_nothing(
    clock: Map<Seq<char>, Waiting>,
    host: Seq<char>,
    now: u128,
)
    ensures
        !clock.contains_key(host) ==> spent_waiting(clock, host, now) == 0,
        wait_of(clock, host).since is None ==> ask_back(clock, host, now) == clock,
        wait_of(clock, host).since is None ==> spent_waiting(ask_out(clock, host, now), host, now)
            == spent_waiting(clock, host, now),
{
}

} // verus!
