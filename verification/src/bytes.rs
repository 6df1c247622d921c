//! Bytes as a remote command sends them: searching, and keeping up to a cap.

use vstd::prelude::*;

verus! {

// ---------------------------------------------------------------------------
// Searching
// ---------------------------------------------------------------------------

/// Whether the needle stands in the haystack at this place.
pub open spec fn occurs_at(hay: Seq<u8>, needle: Seq<u8>, i: int) -> bool {
    0 <= i && i + needle.len() <= hay.len() && hay.subrange(i, i + needle.len()) == needle
}

/// Whether the needle stands somewhere in the haystack.
pub open spec fn occurs(hay: Seq<u8>, needle: Seq<u8>) -> bool {
    exists|i: int| occurs_at(hay, needle, i)
}

/// Where the needle first stands; the haystack's length where it does not.
pub open spec fn first_occurrence(hay: Seq<u8>, needle: Seq<u8>) -> int
    decreases hay.len(),
{
    if hay.len() == 0 || hay.len() < needle.len() {
        hay.len() as int
    } else if hay.take(needle.len() as int) == needle {
        0
    } else {
        1 + first_occurrence(hay.drop_first(), needle)
    }
}

/// What `first_occurrence` stands for.
pub proof fn lemma_first_occurrence(hay: Seq<u8>, needle: Seq<u8>)
    requires
        needle.len() > 0,
    ensures
        0 <= first_occurrence(hay, needle) <= hay.len(),
        first_occurrence(hay, needle) < hay.len() ==> occurs_at(
            hay,
            needle,
            first_occurrence(hay, needle),
        ),
        forall|j: int| 0 <= j < first_occurrence(hay, needle) ==> !occurs_at(hay, needle, j),
        (first_occurrence(hay, needle) < hay.len()) == occurs(hay, needle),
    decreases hay.len(),
{
    let k = first_occurrence(hay, needle);
    if hay.len() < needle.len() {
    } else if hay.take(needle.len() as int) == needle {
        assert(hay.take(needle.len() as int) == hay.subrange(0, needle.len() as int));
        assert(occurs_at(hay, needle, 0));
    } else {
        let t = hay.drop_first();
        lemma_first_occurrence(t, needle);
        assert forall|j: int| 0 < j && j + needle.len() <= hay.len() implies hay.subrange(
            j,
            j + needle.len(),
        ) == #[trigger] t.subrange(j - 1, j - 1 + needle.len()) by {}
        assert forall|j: int| 0 <= j < k implies !occurs_at(hay, needle, j) by {
            if j == 0 {
                assert(hay.take(needle.len() as int) == hay.subrange(0, needle.len() as int));
            } else {
                assert(!occurs_at(t, needle, j - 1));
                if occurs_at(hay, needle, j) {
                    assert(t.subrange(j - 1, j - 1 + needle.len()) == needle);
                }
            }
        }
        if k < hay.len() {
            assert(occurs_at(t, needle, k - 1));
            assert(t.subrange(k - 1, k - 1 + needle.len()) == needle);
            assert(occurs_at(hay, needle, k));
        }
        if occurs(hay, needle) {
            let i = choose|i: int| occurs_at(hay, needle, i);
            if k >= hay.len() {
                assert(!occurs_at(hay, needle, i));
            }
        }
    }
}

/// The place that meets `lemma_first_occurrence` is the only one.
pub proof fn lemma_first_occurrence_is(hay: Seq<u8>, needle: Seq<u8>, i: int)
    requires
        needle.len() > 0,
        0 <= i <= hay.len(),
        forall|j: int| 0 <= j < i ==> !occurs_at(hay, needle, j),
        i < hay.len() ==> occurs_at(hay, needle, i),
    ensures
        first_occurrence(hay, needle) == i,
{
    lemma_first_occurrence(hay, needle);
    let k = first_occurrence(hay, needle);
    if k < i {
        assert(!occurs_at(hay, needle, k));
    }
    if i < k {
        assert(!occurs_at(hay, needle, i));
    }
}

/// Whether the needle stands at this place, from `from` on.
fn stands_at(hay: &[u8], needle: &[u8], at: usize) -> (r: bool)
    requires
        at + needle@.len() <= hay@.len(),
    ensures
        r == occurs_at(hay@, needle@, at as int),
{
    let mut i: usize = 0;
    while i < needle.len()
        invariant
            i <= needle@.len(),
            at + needle@.len() <= hay@.len(),
            forall|j: int| 0 <= j < i ==> hay@[at + j] == #[trigger] needle@[j],
        decreases needle@.len() - i,
    {
        assert(at + i < hay.len());
        if hay[at + i] != needle[i] {
            assert(hay@.subrange(at as int, at + needle@.len())[i as int] != needle@[i as int]);
            return false;
        }
        i += 1;
    }
    assert(hay@.subrange(at as int, at + needle@.len()) =~= needle@);
    true
}

/// The first occurrence of `needle` in `hay`, from `start` on.
pub fn find_from(hay: &[u8], needle: &[u8], start: usize) -> (r: Option<usize>)
    requires
        needle@.len() > 0,
        start <= hay@.len(),
    ensures
        match r {
            Some(at) => {
                &&& start <= at
                &&& at + needle@.len() <= hay@.len()
                &&& at - start == first_occurrence(hay@.skip(start as int), needle@)
                &&& occurs(hay@.skip(start as int), needle@)
            },
            None => {
                &&& !occurs(hay@.skip(start as int), needle@)
                &&& first_occurrence(hay@.skip(start as int), needle@) == hay@.len() - start
            },
        },
{
    let ghost rest = hay@.skip(start as int);
    let mut at: usize = start;
    while at < hay.len() && needle.len() <= hay.len() - at
        invariant
            needle@.len() > 0,
            start <= at <= hay@.len(),
            rest == hay@.skip(start as int),
            forall|j: int| 0 <= j < at - start ==> !occurs_at(rest, needle@, j),
        decreases hay@.len() - at,
    {
        proof {
            assert(rest.subrange(at - start, at - start + needle@.len()) == hay@.subrange(
                at as int,
                at + needle@.len(),
            ));
        }
        if stands_at(hay, needle, at) {
            assert(occurs_at(rest, needle@, at - start));
            proof {
                lemma_first_occurrence_is(rest, needle@, at - start);
            }
            return Some(at);
        }
        at += 1;
    }
    proof {
        lemma_first_occurrence_is(rest, needle@, rest.len() as int);
        lemma_first_occurrence(rest, needle@);
    }
    None
}

/// Whether the needle stands somewhere in the haystack.
pub fn holds_bytes(hay: &[u8], needle: &[u8]) -> (r: bool)
    requires
        needle@.len() > 0,
    ensures
        r == occurs(hay@, needle@),
{
    assert(hay@.skip(0) == hay@);
    find_from(hay, needle, 0).is_some()
}

/// What stands in a haystack still stands when more comes after it.
pub proof fn lemma_occurs_in_longer(hay: Seq<u8>, more: Seq<u8>, needle: Seq<u8>)
    requires
        occurs(hay, needle),
    ensures
        occurs(hay + more, needle),
{
    let i = choose|i: int| occurs_at(hay, needle, i);
    assert((hay + more).subrange(i, i + needle.len()) == hay.subrange(i, i + needle.len()));
    assert(occurs_at(hay + more, needle, i));
}

/// What stands in a haystack still stands when something comes before it.
pub proof fn lemma_occurs_later(before: Seq<u8>, hay: Seq<u8>, needle: Seq<u8>)
    requires
        occurs(hay, needle),
    ensures
        occurs(before + hay, needle),
{
    let i = choose|i: int| occurs_at(hay, needle, i);
    let at = before.len() + i;
    assert((before + hay).subrange(at, at + needle.len()) == hay.subrange(i, i + needle.len()));
    assert(occurs_at(before + hay, needle, at));
}

// ---------------------------------------------------------------------------
// Letters
// ---------------------------------------------------------------------------

/// A byte with an ASCII capital made small.
pub open spec fn small(b: u8) -> u8 {
    if 65 <= b <= 90 {
        (b + 32) as u8
    } else {
        b
    }
}

/// Bytes with the ASCII capitals made small.
pub open spec fn lowered(bytes: Seq<u8>) -> Seq<u8> {
    bytes.map_values(|b: u8| small(b))
}

/// Makes the ASCII capitals small.
pub fn lower(bytes: &[u8]) -> (r: Vec<u8>)
    ensures
        r@ == lowered(bytes@),
{
    let mut v: Vec<u8> = Vec::new();
    let mut i: usize = 0;
    while i < bytes.len()
        invariant
            i <= bytes@.len(),
            v@ == lowered(bytes@.take(i as int)),
        decreases bytes@.len() - i,
    {
        let b = bytes[i];
        let made: u8 = if 65 <= b && b <= 90 {
            b + 32
        } else {
            b
        };
        v.push(made);
        i += 1;
        assert(bytes@.take(i as int) == bytes@.take(i - 1).push(b));
        assert(lowered(bytes@.take(i - 1).push(b)) == lowered(bytes@.take(i - 1)).push(small(b)));
    }
    assert(bytes@.take(bytes@.len() as int) == bytes@);
    v
}

// ---------------------------------------------------------------------------
// Keeping up to a cap
// ---------------------------------------------------------------------------

/// How many more bytes the cap leaves room for.
pub open spec fn room(kept: Seq<u8>, cap: int) -> int {
    if kept.len() < cap {
        cap - kept.len()
    } else {
        0
    }
}

/// What is kept, with as much of the bytes after it as the cap leaves room for.
pub open spec fn with_capped(kept: Seq<u8>, bytes: Seq<u8>, cap: int) -> Seq<u8> {
    if bytes.len() <= room(kept, cap) {
        kept + bytes
    } else {
        kept + bytes.take(room(kept, cap))
    }
}

/// Appends up to the cap, and answers whether everything fit.
pub fn keep(bytes: &[u8], kept: &mut Vec<u8>, cap: usize) -> (r: bool)
    ensures
        final(kept)@ == with_capped(old(kept)@, bytes@, cap as int),
        r == (bytes@.len() <= room(old(kept)@, cap as int)),
{
    let room: usize = if kept.len() < cap {
        cap - kept.len()
    } else {
        0
    };
    let fits = bytes.len() <= room;
    let n: usize = if fits {
        bytes.len()
    } else {
        room
    };
    let ghost start = kept@;
    let mut i: usize = 0;
    while i < n
        invariant
            i <= n <= bytes@.len(),
            kept@ == start + bytes@.take(i as int),
        decreases n - i,
    {
        kept.push(bytes[i]);
        i += 1;
        assert(bytes@.take(i as int) == bytes@.take(i - 1).push(bytes@[i - 1]));
    }
    if fits {
        assert(bytes@.take(n as int) == bytes@);
    }
    fits
}

/// Keeping in two steps is keeping in one.
pub proof fn lemma_capped_in_steps(kept: Seq<u8>, a: Seq<u8>, b: Seq<u8>, cap: int)
    ensures
        with_capped(with_capped(kept, a, cap), b, cap) == with_capped(kept, a + b, cap),
        ((a + b).len() <= room(kept, cap)) == (a.len() <= room(kept, cap) && b.len() <= room(
            with_capped(kept, a, cap),
            cap,
        )),
{
    let mid = with_capped(kept, a, cap);
    let r = room(kept, cap);
    if a.len() <= r {
        if (a + b).len() <= r {
            assert(kept + a + b == kept + (a + b));
        } else {
            assert(kept + a + b.take(r - a.len()) == kept + (a + b).take(r));
        }
    } else {
        assert((a + b).take(r) == a.take(r));
        assert(room(mid, cap) == 0);
        if b.len() == 0 {
            assert(mid + b == mid);
        } else {
            assert(mid + b.take(0) == mid);
        }
    }
}

/// Keeping up to a cap keeps the first bytes: all of them where they fit, and
/// exactly as many as the cap otherwise.
pub proof fn law_a_cap_keeps_the_first_bytes(kept: Seq<u8>, bytes: Seq<u8>, cap: int)
    requires
        kept.len() <= cap,
    ensures
        kept.len() + bytes.len() <= cap ==> with_capped(kept, bytes, cap) == kept + bytes,
        kept.len() + bytes.len() > cap ==> with_capped(kept, bytes, cap) == (kept + bytes).take(
            cap,
        ),
        bytes.len() <= room(kept, cap) <==> kept.len() + bytes.len() <= cap,
{
    if kept.len() + bytes.len() > cap {
        assert(with_capped(kept, bytes, cap) =~= (kept + bytes).take(cap));
    }
}

/// Lowering changes the letters `A` to `Z` alone, each to its small one.
pub proof fn law_lowering_changes_capitals_alone(bytes: Seq<u8>, i: int)
    requires
        0 <= i < bytes.len(),
    ensures
        lowered(bytes).len() == bytes.len(),
        65 <= bytes[i] <= 90 ==> lowered(bytes)[i] - bytes[i] == 97 - 65,
        !(65 <= bytes[i] <= 90) ==> lowered(bytes)[i] == bytes[i],
{
}

} // verus!
