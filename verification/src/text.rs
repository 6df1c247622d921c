//! Text as sequences of characters: searching, splitting, joining, and the
//! numbers written into messages.

use vstd::prelude::*;
use vstd::utf8::{decode_utf8, encode_utf8, encode_utf8_decode_utf8, valid_utf8};

verus! {

// ---------------------------------------------------------------------------
// Strings and characters
// ---------------------------------------------------------------------------

/// `String::push` appends the one character.
pub assume_specification[ String::push ](s: &mut String, c: char)
    ensures
        final(s)@ == old(s)@.push(c),
;

/// The text that `String::from_utf8_lossy` makes of bytes: what is not UTF-8
/// in them is replaced.
pub uninterp spec fn lossy(bytes: Seq<u8>) -> Seq<char>;

/// `String::from_utf8_lossy`: the text is a function of the bytes alone, and
/// bytes that are UTF-8 come out as the text they encode.
#[verifier::external_body]
pub(crate) fn read_lossy(bytes: &[u8]) -> (r: String)
    ensures
        r@ == lossy(bytes@),
        valid_utf8(bytes@) ==> r@ == decode_utf8(bytes@),
{
    String::from_utf8_lossy(bytes).into_owned()
}

/// `std::str::from_utf8`: the text the bytes encode, exactly when they are
/// UTF-8.
#[verifier::external_body]
pub(crate) fn read_utf8(bytes: &[u8]) -> (r: Option<String>)
    ensures
        r is Some == valid_utf8(bytes@),
        r is Some ==> r->Some_0@ == decode_utf8(bytes@),
{
    std::str::from_utf8(bytes).ok().map(str::to_string)
}

/// The UTF-8 bytes of a text.
pub fn bytes_of(s: &str) -> (r: Vec<u8>)
    ensures
        r@ == encode_utf8(s@),
{
    vstd::slice::slice_to_vec(s.as_bytes())
}

/// The texts of a list of strings.
pub open spec fn texts(words: Seq<String>) -> Seq<Seq<char>> {
    words.map_values(|w: String| w@)
}

/// The text of an optional string.
pub open spec fn opt_text(s: Option<String>) -> Option<Seq<char>> {
    match s {
        Some(t) => Some(t@),
        None => None,
    }
}

/// The characters of a text.
pub fn chars_of(s: &str) -> (r: Vec<char>)
    ensures
        r@ == s@,
{
    let mut v: Vec<char> = Vec::new();
    for c in it: s.chars()
        invariant
            v@ == it.seq().take(it.index()),
    {
        v.push(c);
    }
    v
}

/// The text made of these characters.
pub fn string_of(cs: &[char]) -> (r: String)
    ensures
        r@ == cs@,
{
    let mut s = String::new();
    let mut i: usize = 0;
    while i < cs.len()
        invariant
            i <= cs.len(),
            s@ == cs@.take(i as int),
        decreases cs.len() - i,
    {
        s.push(cs[i]);
        i += 1;
        assert(cs@.take(i as int) == cs@.take(i - 1).push(cs@[i - 1]));
    }
    assert(cs@.take(cs@.len() as int) == cs@);
    s
}

/// Whether two texts are the same.
pub fn same(a: &str, b: &str) -> (r: bool)
    ensures
        r == (a@ == b@),
{
    let x = a.as_bytes();
    let y = b.as_bytes();
    proof {
        encode_utf8_decode_utf8(a@);
        encode_utf8_decode_utf8(b@);
    }
    same_bytes(x, y)
}

/// Whether two byte strings are the same.
pub fn same_bytes(a: &[u8], b: &[u8]) -> (r: bool)
    ensures
        r == (a@ == b@),
{
    if a.len() != b.len() {
        return false;
    }
    let mut i: usize = 0;
    while i < a.len()
        invariant
            i <= a.len(),
            a.len() == b.len(),
            a@.take(i as int) == b@.take(i as int),
        decreases a.len() - i,
    {
        if a[i] != b[i] {
            return false;
        }
        i += 1;
        assert(a@.take(i as int) == a@.take(i - 1).push(a@[i - 1]));
        assert(b@.take(i as int) == b@.take(i - 1).push(b@[i - 1]));
    }
    assert(a@.take(a@.len() as int) == a@);
    assert(b@.take(b@.len() as int) == b@);
    true
}

/// A copy of a list of strings.
pub fn copied(words: &[String]) -> (r: Vec<String>)
    ensures
        r@ == words@,
{
    let mut v: Vec<String> = Vec::new();
    let mut i: usize = 0;
    while i < words.len()
        invariant
            i <= words.len(),
            v@ == words@.take(i as int),
        decreases words.len() - i,
    {
        v.push(words[i].clone());
        i += 1;
        assert(words@.take(i as int) == words@.take(i - 1).push(words@[i - 1]));
    }
    assert(words@.take(words@.len() as int) == words@);
    v
}

/// The words with the separator between each two.
pub open spec fn joined(words: Seq<Seq<char>>, sep: Seq<char>) -> Seq<char>
    decreases words.len(),
{
    if words.len() == 0 {
        Seq::empty()
    } else if words.len() == 1 {
        words[0]
    } else {
        joined(words.drop_last(), sep) + sep + words.last()
    }
}

/// Joins the words with the separator.
pub fn join(words: &[String], sep: &str) -> (r: String)
    ensures
        r@ == joined(texts(words@), sep@),
{
    let mut s = String::new();
    let mut i: usize = 0;
    while i < words.len()
        invariant
            i <= words.len(),
            s@ == joined(texts(words@).take(i as int), sep@),
        decreases words.len() - i,
    {
        if i > 0 {
            s.append(sep);
        }
        s.append(words[i].as_str());
        i += 1;
        proof {
            let now = texts(words@).take(i as int);
            assert(now.drop_last() == texts(words@).take(i - 1));
            assert(now.last() == words@[i - 1]@);
            if i == 1 {
                assert(texts(words@).take(0).len() == 0);
                assert(Seq::<char>::empty() + now[0] == now[0]);
            }
        }
    }
    assert(texts(words@).take(words@.len() as int) == texts(words@));
    s
}

/// Where the word first stands in the list; the length where it does not.
pub open spec fn first_place(words: Seq<Seq<char>>, word: Seq<char>) -> int
    decreases words.len(),
{
    if words.len() == 0 || words[0] == word {
        0
    } else {
        1 + first_place(words.drop_first(), word)
    }
}

/// What `first_place` stands for.
pub proof fn lemma_first_place(words: Seq<Seq<char>>, word: Seq<char>)
    ensures
        0 <= first_place(words, word) <= words.len(),
        first_place(words, word) < words.len() ==> words[first_place(words, word)] == word,
        forall|j: int| 0 <= j < first_place(words, word) ==> words[j] != word,
        (first_place(words, word) < words.len()) == words.contains(word),
    decreases words.len(),
{
    if words.len() == 0 || words[0] == word {
        if words.len() > 0 {
            assert(words[0] == word);
        }
    } else {
        let t = words.drop_first();
        lemma_first_place(t, word);
        let k = first_place(words, word);
        assert forall|j: int| 0 <= j < k implies words[j] != word by {
            if j > 0 {
                assert(t[j - 1] == words[j]);
            }
        }
        if k < words.len() {
            assert(t[k - 1] == words[k]);
        }
    }
}

/// The place that meets `lemma_first_place` is the only one.
pub proof fn lemma_first_place_is(words: Seq<Seq<char>>, word: Seq<char>, i: int)
    requires
        0 <= i <= words.len(),
        forall|j: int| 0 <= j < i ==> words[j] != word,
        i < words.len() ==> words[i] == word,
    ensures
        first_place(words, word) == i,
{
    lemma_first_place(words, word);
    let k = first_place(words, word);
    if k < i {
        assert(words[k] != word);
    }
    if i < k {
        assert(words[i] != word);
    }
}

/// Finds the word in the list.
pub fn place(words: &[String], word: &str) -> (r: usize)
    ensures
        r == first_place(texts(words@), word@),
        r <= words@.len(),
{
    let mut i: usize = 0;
    while i < words.len()
        invariant
            i <= words.len(),
            forall|j: int| 0 <= j < i ==> #[trigger] texts(words@)[j] != word@,
        decreases words.len() - i,
    {
        assert(texts(words@)[i as int] == words@[i as int]@);
        if same(words[i].as_str(), word) {
            proof {
                lemma_first_place_is(texts(words@), word@, i as int);
            }
            return i;
        }
        i += 1;
    }
    proof {
        lemma_first_place_is(texts(words@), word@, i as int);
    }
    i
}

/// Whether the first text comes before the second, character by character.
pub open spec fn precedes(a: Seq<char>, b: Seq<char>) -> bool
    decreases a.len(),
{
    if b.len() == 0 {
        false
    } else if a.len() == 0 {
        true
    } else if a[0] != b[0] {
        a[0] < b[0]
    } else {
        precedes(a.drop_first(), b.drop_first())
    }
}

/// The order is total: of two texts one comes first, or they are the same.
pub proof fn lemma_precedes_total(a: Seq<char>, b: Seq<char>)
    ensures
        precedes(a, b) || precedes(b, a) || a == b,
        !(precedes(a, b) && precedes(b, a)),
        !precedes(a, a),
        a == b ==> !precedes(a, b),
    decreases a.len(),
{
    if a.len() > 0 {
        assert(!precedes(a, a)) by {
            lemma_precedes_total(a.drop_first(), a.drop_first());
        }
    }
    if a.len() > 0 && b.len() > 0 && a[0] == b[0] {
        lemma_precedes_total(a.drop_first(), b.drop_first());
        if a.drop_first() == b.drop_first() {
            assert(a == seq![a[0]] + a.drop_first());
            assert(b == seq![b[0]] + b.drop_first());
        }
    } else if a.len() == 0 && b.len() == 0 {
        assert(a == b);
    }
}

/// What comes before a text that comes before another comes before that one.
pub proof fn lemma_precedes_chain(a: Seq<char>, b: Seq<char>, c: Seq<char>)
    requires
        precedes(a, b),
        precedes(b, c),
    ensures
        precedes(a, c),
    decreases a.len(),
{
    if a.len() > 0 && a[0] == b[0] && b[0] == c[0] {
        lemma_precedes_chain(a.drop_first(), b.drop_first(), c.drop_first());
    }
}

/// Whether the first text comes before the second.
pub fn is_before(a: &str, b: &str) -> (r: bool)
    ensures
        r == precedes(a@, b@),
{
    let x = chars_of(a);
    let y = chars_of(b);
    let mut i: usize = 0;
    assert(x@.skip(0) == a@);
    assert(y@.skip(0) == b@);
    loop
        invariant
            x@ == a@,
            y@ == b@,
            i <= x@.len(),
            i <= y@.len(),
            precedes(a@, b@) == precedes(x@.skip(i as int), y@.skip(i as int)),
        decreases x@.len() - i,
    {
        if i >= y.len() {
            return false;
        }
        if i >= x.len() {
            return true;
        }
        if x[i] != y[i] {
            return x[i] < y[i];
        }
        proof {
            assert(x@.skip(i as int).drop_first() == x@.skip(i + 1));
            assert(y@.skip(i as int).drop_first() == y@.skip(i + 1));
        }
        i += 1;
    }
}

// ---------------------------------------------------------------------------
// Searching and splitting
// ---------------------------------------------------------------------------

/// Where the character first occurs; the length where it does not occur.
pub open spec fn first_index(s: Seq<char>, c: char) -> int
    decreases s.len(),
{
    if s.len() == 0 || s[0] == c {
        0
    } else {
        1 + first_index(s.drop_first(), c)
    }
}

/// What `first_index` stands for.
pub proof fn lemma_first_index(s: Seq<char>, c: char)
    ensures
        0 <= first_index(s, c) <= s.len(),
        forall|j: int| 0 <= j < first_index(s, c) ==> s[j] != c,
        first_index(s, c) < s.len() ==> s[first_index(s, c)] == c,
        (first_index(s, c) < s.len()) == s.contains(c),
    decreases s.len(),
{
    if s.len() == 0 || s[0] == c {
        if s.len() > 0 {
            assert(s[0] == c);
        }
    } else {
        let t = s.drop_first();
        lemma_first_index(t, c);
        assert forall|j: int| 0 <= j < first_index(s, c) implies s[j] != c by {
            if j > 0 {
                assert(t[j - 1] == s[j]);
            }
        }
        if first_index(s, c) < s.len() {
            assert(t[first_index(t, c)] == s[first_index(s, c)]);
        }
    }
}

/// The index that meets `lemma_first_index` is the only one.
pub proof fn lemma_first_index_is(s: Seq<char>, c: char, i: int)
    requires
        0 <= i <= s.len(),
        forall|j: int| 0 <= j < i ==> s[j] != c,
        i < s.len() ==> s[i] == c,
    ensures
        first_index(s, c) == i,
{
    lemma_first_index(s, c);
    let k = first_index(s, c);
    if k < i {
        assert(s[k] != c);
    }
    if i < k {
        assert(s[i] != c);
    }
}

/// Finds the character.
pub fn find(s: &[char], c: char) -> (r: usize)
    ensures
        r == first_index(s@, c),
        r <= s@.len(),
{
    let mut i: usize = 0;
    while i < s.len() && s[i] != c
        invariant
            i <= s.len(),
            forall|j: int| 0 <= j < i ==> s@[j] != c,
        decreases s.len() - i,
    {
        i += 1;
    }
    proof {
        lemma_first_index_is(s@, c, i as int);
    }
    i
}

/// Whether the character occurs.
pub fn contains_char(s: &[char], c: char) -> (r: bool)
    ensures
        r == s@.contains(c),
{
    proof {
        lemma_first_index(s@, c);
    }
    find(s, c) < s.len()
}

/// The pieces between the separators: one more than there are separators.
pub open spec fn pieces(s: Seq<char>, sep: char) -> Seq<Seq<char>>
    decreases s.len(),
{
    let i = first_index(s, sep);
    if 0 <= i < s.len() {
        seq![s.take(i)] + pieces(s.skip(i + 1), sep)
    } else {
        seq![s]
    }
}

/// There is at least one piece.
pub proof fn lemma_pieces_some(s: Seq<char>, sep: char)
    ensures
        pieces(s, sep).len() >= 1,
{
    lemma_first_index(s, sep);
}

/// Splitting two texts with a separator between them is splitting each.
pub proof fn lemma_pieces_join(a: Seq<char>, b: Seq<char>, sep: char)
    ensures
        pieces(a.push(sep) + b, sep) == pieces(a, sep) + pieces(b, sep),
    decreases a.len(),
{
    let whole = a.push(sep) + b;
    let i = first_index(a, sep);
    lemma_first_index(a, sep);
    assert forall|j: int| 0 <= j < i implies whole[j] != sep by {
        assert(whole[j] == a[j]);
    }
    assert(whole[i] == sep) by {
        if i < a.len() {
            assert(whole[i] == a[i]);
        }
    }
    lemma_first_index_is(whole, sep, i);
    assert(whole.take(i) =~= a.take(i));
    if i < a.len() {
        assert(whole.skip(i + 1) =~= a.skip(i + 1).push(sep) + b);
        lemma_pieces_join(a.skip(i + 1), b, sep);
        assert(seq![a.take(i)] + (pieces(a.skip(i + 1), sep) + pieces(b, sep)) =~= (seq![a.take(i)]
            + pieces(a.skip(i + 1), sep)) + pieces(b, sep));
    } else {
        assert(whole.skip(i + 1) =~= b);
        assert(a.take(i) =~= a);
    }
}

/// A text without the separator is one piece.
pub proof fn lemma_pieces_one(s: Seq<char>, sep: char)
    requires
        !s.contains(sep),
    ensures
        pieces(s, sep) == seq![s],
{
    lemma_first_index(s, sep);
}

/// Splits at every separator.
pub fn split(s: &[char], sep: char) -> (r: Vec<Vec<char>>)
    ensures
        r@.map_values(|p: Vec<char>| p@) == pieces(s@, sep),
{
    let mut out: Vec<Vec<char>> = Vec::new();
    let mut rest: Vec<char> = slice_to(s, 0, s.len());
    assert(rest@ == s@);
    let ghost view = |p: Vec<char>| p@;
    loop
        invariant_except_break
            out@.map_values(view) + pieces(rest@, sep) == pieces(s@, sep),
        invariant
            view == (|p: Vec<char>| p@),
        ensures
            out@.map_values(view) == pieces(s@, sep),
        decreases rest@.len(),
    {
        proof {
            lemma_first_index(rest@, sep);
        }
        let i = find(rest.as_slice(), sep);
        if i >= rest.len() {
            let ghost before = out@.map_values(view);
            let ghost last = rest@;
            out.push(rest);
            assert(out@.map_values(view) == before.push(last));
            assert(before.push(last) == before + seq![last]);
            break;
        }
        let piece = slice_to(rest.as_slice(), 0, i);
        let tail = slice_to(rest.as_slice(), i + 1, rest.len());
        proof {
            assert(piece@ == rest@.take(i as int));
            assert(tail@ == rest@.skip(i + 1));
            assert(pieces(rest@, sep) == seq![piece@] + pieces(tail@, sep));
        }
        let ghost before = out@.map_values(view);
        let ghost head = piece@;
        out.push(piece);
        proof {
            assert(out@.map_values(view) == before.push(head));
            assert(before + (seq![head] + pieces(tail@, sep)) == before.push(head) + pieces(
                tail@,
                sep,
            ));
        }
        rest = tail;
    }
    out
}

/// The characters from `from` up to `to`.
pub fn slice_to(s: &[char], from: usize, to: usize) -> (r: Vec<char>)
    requires
        from <= to <= s@.len(),
    ensures
        r@ == s@.subrange(from as int, to as int),
{
    let mut v: Vec<char> = Vec::new();
    let mut i: usize = from;
    while i < to
        invariant
            from <= i <= to <= s@.len(),
            v@ == s@.subrange(from as int, i as int),
        decreases to - i,
    {
        v.push(s[i]);
        i += 1;
        assert(s@.subrange(from as int, i as int) == s@.subrange(from as int, i - 1).push(
            s@[i - 1],
        ));
    }
    v
}

// ---------------------------------------------------------------------------
// White space and lines
// ---------------------------------------------------------------------------

/// Whether Unicode counts the character as white space.
pub open spec fn is_white(c: char) -> bool {
    let n = c as u32;
    ||| 0x09 <= n <= 0x0d
    ||| n == 0x20
    ||| n == 0x85
    ||| n == 0xa0
    ||| n == 0x1680
    ||| 0x2000 <= n <= 0x200a
    ||| n == 0x2028
    ||| n == 0x2029
    ||| n == 0x202f
    ||| n == 0x205f
    ||| n == 0x3000
}

/// Whether a character is white space.
pub(crate) fn white(c: char) -> (r: bool)
    ensures
        r == is_white(c),
{
    let n: u32 = c as u32;
    (0x09 <= n && n <= 0x0d) || n == 0x20 || n == 0x85 || n == 0xa0 || n == 0x1680 || (0x2000 <= n
        && n <= 0x200a) || n == 0x2028 || n == 0x2029 || n == 0x202f || n == 0x205f || n == 0x3000
}

/// A text without the white space before it.
pub open spec fn trimmed_start(s: Seq<char>) -> Seq<char>
    decreases s.len(),
{
    if s.len() > 0 && is_white(s[0]) {
        trimmed_start(s.drop_first())
    } else {
        s
    }
}

/// A text without the white space after it.
pub open spec fn trimmed_end(s: Seq<char>) -> Seq<char>
    decreases s.len(),
{
    if s.len() > 0 && is_white(s.last()) {
        trimmed_end(s.drop_last())
    } else {
        s
    }
}

/// A text without the white space around it.
pub open spec fn trimmed(s: Seq<char>) -> Seq<char> {
    trimmed_end(trimmed_start(s))
}

/// Takes the white space around the characters away.
pub fn trim(s: &[char]) -> (r: Vec<char>)
    ensures
        r@ == trimmed(s@),
{
    let mut from: usize = 0;
    assert(s@.skip(0) == s@);
    while from < s.len() && white(s[from])
        invariant
            from <= s@.len(),
            trimmed_start(s@) == trimmed_start(s@.skip(from as int)),
        decreases s@.len() - from,
    {
        assert(s@.skip(from as int).drop_first() == s@.skip(from + 1));
        from += 1;
    }
    let mut to: usize = s.len();
    let ghost rest = s@.skip(from as int);
    assert(rest == s@.subrange(from as int, to as int));
    while to > from && white(s[to - 1])
        invariant
            from <= to <= s@.len(),
            trimmed_end(rest) == trimmed_end(s@.subrange(from as int, to as int)),
        decreases to,
    {
        let ghost now = s@.subrange(from as int, to as int);
        assert(now.last() == s@[to - 1]);
        assert(now.drop_last() == s@.subrange(from as int, to - 1));
        to -= 1;
    }
    let ghost now = s@.subrange(from as int, to as int);
    assert(to > from ==> now.last() == s@[to - 1]);
    slice_to(s, from, to)
}

/// A line that a line feed ended, without a carriage return right before it.
pub open spec fn without_return(s: Seq<char>) -> Seq<char> {
    if s.len() > 0 && s.last() == '\r' {
        s.drop_last()
    } else {
        s
    }
}

/// The lines of a text. What follows the last line feed is a line only where it
/// holds something.
pub open spec fn lines_of(s: Seq<char>) -> Seq<Seq<char>>
    decreases s.len(),
{
    let i = first_index(s, '\n');
    if 0 <= i < s.len() {
        seq![without_return(s.take(i))] + lines_of(s.skip(i + 1))
    } else if s.len() == 0 {
        Seq::empty()
    } else {
        seq![s]
    }
}

/// Splits a text into its lines.
pub fn lines(s: &str) -> (r: Vec<String>)
    ensures
        texts(r@) == lines_of(s@),
{
    let cs = chars_of(s);
    let mut out: Vec<String> = Vec::new();
    let mut rest: Vec<char> = slice_to(cs.as_slice(), 0, cs.len());
    assert(rest@ == s@);
    assert(texts(out@) + lines_of(rest@) == lines_of(s@));
    loop
        invariant_except_break
            texts(out@) + lines_of(rest@) == lines_of(s@),
        ensures
            texts(out@) == lines_of(s@),
        decreases rest@.len(),
    {
        proof {
            lemma_first_index(rest@, '\n');
        }
        let ghost before = texts(out@);
        let i = find(rest.as_slice(), '\n');
        if i >= rest.len() {
            if rest.len() > 0 {
                let last = string_of(rest.as_slice());
                let ghost line = last@;
                out.push(last);
                assert(texts(out@) == before.push(line));
                assert(before.push(line) == before + seq![line]);
            } else {
                assert(before + Seq::<Seq<char>>::empty() == before);
            }
            break;
        }
        let end: usize = if i > 0 && rest[i - 1] == '\r' {
            i - 1
        } else {
            i
        };
        let line_chars = slice_to(rest.as_slice(), 0, end);
        let tail = slice_to(rest.as_slice(), i + 1, rest.len());
        let line_text = string_of(line_chars.as_slice());
        let ghost line = line_text@;
        proof {
            let whole = rest@.take(i as int);
            assert(i > 0 ==> whole.last() == rest@[i - 1]);
            assert(line =~= without_return(whole));
            assert(tail@ =~= rest@.skip(i + 1));
        }
        out.push(line_text);
        proof {
            assert(texts(out@) == before.push(line));
            assert(before + (seq![line] + lines_of(tail@)) == before.push(line) + lines_of(tail@));
        }
        rest = tail;
    }
    out
}

/// No line holds a line feed.
pub proof fn lemma_lines_are_lines(s: Seq<char>)
    ensures
        forall|i: int| 0 <= i < lines_of(s).len() ==> !(#[trigger] lines_of(s)[i]).contains('\n'),
    decreases s.len(),
{
    lemma_first_index(s, '\n');
    let i = first_index(s, '\n');
    if i < s.len() {
        let head = without_return(s.take(i));
        assert(!head.contains('\n')) by {
            if head.contains('\n') {
                let j = choose|j: int| 0 <= j < head.len() && head[j] == '\n';
                assert(s[j] == '\n');
            }
        }
        lemma_lines_are_lines(s.skip(i + 1));
        let rest = lines_of(s.skip(i + 1));
        assert forall|k: int| 0 <= k < lines_of(s).len() implies !(#[trigger] lines_of(
            s,
        )[k]).contains('\n') by {
            if k > 0 {
                assert(lines_of(s)[k] == rest[k - 1]);
            } else {
                assert(lines_of(s)[k] == head);
            }
        }
    }
}

/// The last line that holds something.
pub open spec fn last_full(lines: Seq<Seq<char>>) -> Option<Seq<char>>
    decreases lines.len(),
{
    if lines.len() == 0 {
        None
    } else if lines.last().len() > 0 {
        Some(lines.last())
    } else {
        last_full(lines.drop_last())
    }
}

/// Finds the last line that holds something.
pub fn last_line(s: &str) -> (r: Option<String>)
    ensures
        opt_text(r) == last_full(lines_of(s@)),
{
    let all = lines(s);
    let ghost every = lines_of(s@);
    let mut n: usize = all.len();
    assert(every.take(n as int) == every);
    while n > 0
        invariant
            n <= all@.len(),
            texts(all@) == every,
            last_full(every) == last_full(every.take(n as int)),
            every == lines_of(s@),
        decreases n,
    {
        let line = all[n - 1].as_str();
        proof {
            assert(every[n - 1] == line@);
            assert(every.take(n as int).last() == line@);
            assert(every.take(n as int).drop_last() == every.take(n - 1));
        }
        if !line.is_empty() {
            return Some(all[n - 1].clone());
        }
        n -= 1;
    }
    None
}

/// A text with spaces after it up to the width.
pub open spec fn padded(s: Seq<char>, width: int) -> Seq<char> {
    s + run_of(' ', width - s.len())
}

/// Adds spaces up to the width.
pub fn pad(s: &str, width: usize) -> (r: String)
    ensures
        r@ == padded(s@, width as int),
{
    let cs = chars_of(s);
    let mut out = s.to_string();
    let ghost start = cs@.len() as int;
    let mut i: usize = cs.len();
    assert(s@ + run_of(' ', 0) == s@);
    while i < width
        invariant
            start == cs@.len(),
            start <= i,
            i <= width || i == start,
            out@ == s@ + run_of(' ', i - start),
        decreases width - i,
    {
        out.push(' ');
        i += 1;
        assert(run_of(' ', i - start) == run_of(' ', i - 1 - start).push(' '));
    }
    assert(run_of(' ', width - start) == run_of(' ', i - start));
    out
}

// ---------------------------------------------------------------------------
// Numbers
// ---------------------------------------------------------------------------

/// The digit that stands for `d`, in bases up to sixteen.
pub open spec fn digit(d: int) -> char {
    if d < 10 {
        (('0' as int) + d) as char
    } else {
        (('a' as int) + (d - 10)) as char
    }
}

/// A number written in a base, without leading zeros.
pub open spec fn digits(n: int, base: int) -> Seq<char>
    decreases n,
    via digits_shrink
{
    if n < base || base < 2 {
        seq![digit(n)]
    } else {
        digits(n / base, base).push(digit(n % base))
    }
}

#[via_fn]
proof fn digits_shrink(n: int, base: int) {
    if 2 <= base <= n {
        lemma_quotient_shrinks(n, base);
    }
}

/// Dividing makes a number smaller.
proof fn lemma_quotient_shrinks(n: int, base: int)
    requires
        2 <= base <= n,
    ensures
        0 <= n / base < n,
{
    assert(0 <= n / base < n) by (nonlinear_arith)
        requires
            2 <= base <= n,
    ;
}

/// A number in decimal.
pub open spec fn decimal(n: int) -> Seq<char> {
    digits(n, 10)
}

/// A number in lower-case hexadecimal.
pub open spec fn hexadecimal(n: int) -> Seq<char> {
    digits(n, 16)
}

fn digit_char(d: u64) -> (c: char)
    requires
        d < 16,
    ensures
        c == digit(d as int),
{
    if d < 10 {
        (48u8 + d as u8) as char
    } else {
        (97u8 + (d - 10) as u8) as char
    }
}

fn write_digits(n: u64, base: u64) -> (r: Vec<char>)
    requires
        2 <= base <= 16,
    ensures
        r@ == digits(n as int, base as int),
    decreases n,
{
    if n < base {
        let mut v: Vec<char> = Vec::new();
        v.push(digit_char(n));
        assert(v@ == seq![digit(n as int)]);
        v
    } else {
        assert(n / base < n) by (nonlinear_arith)
            requires
                2 <= base <= n,
        ;
        assert(0 <= n % base < base) by (nonlinear_arith)
            requires
                2 <= base,
        ;
        let mut v = write_digits(n / base, base);
        v.push(digit_char(n % base));
        v
    }
}

/// Writes a number in decimal.
pub fn write_decimal(n: u64) -> (r: String)
    ensures
        r@ == decimal(n as int),
{
    let v = write_digits(n, 10);
    string_of(v.as_slice())
}

/// Writes a number in lower-case hexadecimal.
pub fn write_hexadecimal(n: u64) -> (r: String)
    ensures
        r@ == hexadecimal(n as int),
{
    let v = write_digits(n, 16);
    string_of(v.as_slice())
}

/// A whole number in decimal, with a `-` before it where it is below zero.
pub open spec fn signed(n: int) -> Seq<char> {
    if n < 0 {
        "-"@ + decimal(-n)
    } else {
        decimal(n)
    }
}

/// Writes a whole number in decimal.
pub fn write_signed(n: i32) -> (r: String)
    ensures
        r@ == signed(n as int),
{
    if n < 0 {
        let mut s = "-".to_string();
        let m = write_decimal((-(n as i64)) as u64);
        s.append(m.as_str());
        s
    } else {
        write_decimal(n as u64)
    }
}

/// `n` copies of a character.
pub open spec fn run_of(c: char, n: int) -> Seq<char> {
    Seq::new((if n < 0 { 0 } else { n }) as nat, |i: int| c)
}

/// A number in decimal, with zeros before it up to the width.
pub open spec fn zero_padded(n: int, width: int) -> Seq<char> {
    run_of('0', width - decimal(n).len()) + decimal(n)
}

/// Writes a number in decimal, with zeros before it up to the width.
pub fn write_zero_padded(n: u64, width: usize) -> (r: String)
    ensures
        r@ == zero_padded(n as int, width as int),
{
    let v = write_digits(n, 10);
    let mut s = String::new();
    let mut i: usize = v.len();
    let ghost start = v@.len() as int;
    while i < width
        invariant
            start == v@.len(),
            start <= i,
            i <= width || i == start,
            s@ == run_of('0', i - start),
        decreases width - i,
    {
        s.push('0');
        i += 1;
        assert(run_of('0', i - start) == run_of('0', i - 1 - start).push('0'));
    }
    let tail = string_of(v.as_slice());
    s.append(tail.as_str());
    assert(run_of('0', width - start) == run_of('0', i - start));
    s
}

/// Whether the character is a decimal digit.
pub open spec fn is_digit(c: char) -> bool {
    '0' <= c <= '9'
}

/// The number that decimal digits write.
pub open spec fn value(s: Seq<char>) -> int
    decreases s.len(),
{
    if s.len() == 0 {
        0
    } else {
        value(s.drop_last()) * 10 + (s.last() as int - '0' as int)
    }
}

/// The digits of a number as a person writes it: one `+` may stand before them.
pub open spec fn unsigned_digits(s: Seq<char>) -> Seq<char> {
    if s.len() > 0 && s[0] == '+' {
        s.skip(1)
    } else {
        s
    }
}

/// The number a text writes, where it writes one that fits in 32 bits.
pub open spec fn parsed_u32(s: Seq<char>) -> Option<u32> {
    let d = unsigned_digits(s);
    if d.len() > 0 && (forall|i: int| 0 <= i < d.len() ==> is_digit(#[trigger] d[i])) && value(d)
        <= u32::MAX {
        Some(value(d) as u32)
    } else {
        None
    }
}

/// More digits never make a smaller number.
pub proof fn lemma_value_grows(s: Seq<char>, i: int)
    requires
        0 <= i <= s.len(),
        forall|j: int| 0 <= j < s.len() ==> is_digit(#[trigger] s[j]),
    ensures
        0 <= value(s.take(i)) <= value(s),
    decreases s.len(),
{
    if i == s.len() {
        assert(s.take(i) == s);
        if s.len() > 0 {
            lemma_value_grows(s.drop_last(), i - 1);
            assert(s.drop_last().take(i - 1) == s.drop_last());
            assert(is_digit(s[s.len() - 1]));
        }
    } else {
        lemma_value_grows(s.drop_last(), i);
        assert(s.drop_last().take(i) == s.take(i));
        assert(is_digit(s[s.len() - 1]));
    }
}

/// Reads a number of at most 32 bits.
pub fn parse_u32(s: &[char]) -> (r: Option<u32>)
    ensures
        r == parsed_u32(s@),
{
    let start: usize = if s.len() > 0 && s[0] == '+' {
        1
    } else {
        0
    };
    let ghost d = unsigned_digits(s@);
    assert(d == s@.skip(start as int));
    if start >= s.len() {
        return None;
    }
    let mut i: usize = start;
    while i < s.len()
        invariant
            start <= i <= s@.len(),
            d == s@.skip(start as int),
            d == unsigned_digits(s@),
            forall|j: int| 0 <= j < i - start ==> is_digit(#[trigger] d[j]),
        decreases s.len() - i,
    {
        assert(d[i - start] == s@[i as int]);
        if s[i] < '0' || s[i] > '9' {
            assert(!is_digit(d[i - start]));
            return None;
        }
        i += 1;
    }
    let mut n: u64 = 0;
    let mut k: usize = start;
    while k < s.len()
        invariant
            start <= k <= s@.len(),
            d == s@.skip(start as int),
            d == unsigned_digits(s@),
            forall|j: int| 0 <= j < d.len() ==> is_digit(#[trigger] d[j]),
            n == value(d.take(k - start)),
            n <= u32::MAX,
        decreases s.len() - k,
    {
        assert(d[k - start] == s@[k as int]);
        assert(is_digit(d[k - start]));
        n = n * 10 + (s[k] as u64 - '0' as u64);
        k += 1;
        proof {
            let now = d.take(k - start);
            assert(now.drop_last() == d.take(k - 1 - start));
            assert(now.last() == s@[k - 1]);
            lemma_value_grows(d, k - start);
        }
        if n > u32::MAX as u64 {
            return None;
        }
    }
    assert(d.take(d.len() as int) == d);
    Some(n as u32)
}

/// Decimal digits are digits, and read back as the number they were written
/// from.
pub proof fn lemma_decimal_reads_back(n: int)
    requires
        0 <= n,
    ensures
        decimal(n).len() > 0,
        forall|i: int| 0 <= i < decimal(n).len() ==> is_digit(#[trigger] decimal(n)[i]),
        value(decimal(n)) == n,
    decreases n,
{
    if n < 10 {
        assert(decimal(n) == seq![digit(n)]);
        assert(decimal(n).drop_last().len() == 0);
        assert(value(decimal(n).drop_last()) == 0);
    } else {
        lemma_decimal_reads_back(n / 10);
        assert(decimal(n) == decimal(n / 10).push(digit(n % 10)));
        assert(decimal(n).drop_last() == decimal(n / 10));
    }
}

/// Zeros before a number do not change it.
pub proof fn lemma_zeros_read_as_nothing(k: int, s: Seq<char>)
    requires
        0 <= k,
    ensures
        value(run_of('0', k) + s) == value(s),
    decreases k + s.len(),
{
    let padded = run_of('0', k) + s;
    if s.len() > 0 {
        assert(padded.drop_last() == run_of('0', k) + s.drop_last());
        assert(padded.last() == s.last());
        lemma_zeros_read_as_nothing(k, s.drop_last());
    } else if k > 0 {
        assert(padded.drop_last() == run_of('0', k - 1) + s);
        lemma_zeros_read_as_nothing(k - 1, s);
    } else {
        assert(padded == s);
    }
}

/// A zero-padded number reads back as the number it was written from, so two
/// different numbers never look the same.
pub proof fn lemma_padded_reads_back(n: int, width: int)
    requires
        0 <= n,
    ensures
        value(zero_padded(n, width)) == n,
{
    lemma_decimal_reads_back(n);
    let k = width - decimal(n).len();
    if k >= 0 {
        lemma_zeros_read_as_nothing(k, decimal(n));
    } else {
        assert(zero_padded(n, width) == decimal(n));
    }
}

/// A number written in a base has at least one digit, and no digit is a `-`.
pub proof fn lemma_digits_shape(n: int, base: int)
    requires
        0 <= n,
        2 <= base <= 16,
    ensures
        digits(n, base).len() > 0,
        forall|i: int|
            0 <= i < digits(n, base).len() ==> ('0' <= #[trigger] digits(n, base)[i] <= '9') || (
            'a' <= digits(n, base)[i] <= 'f'),
    decreases n,
{
    if n >= base {
        lemma_quotient_shrinks(n, base);
        lemma_digits_shape(n / base, base);
        assert(0 <= n % base < base) by (nonlinear_arith)
            requires
                2 <= base,
        ;
    }
}

/// Two numbers are written alike only where they are the same.
pub proof fn lemma_digits_tell_apart(n: int, m: int, base: int)
    requires
        0 <= n,
        0 <= m,
        2 <= base <= 16,
        digits(n, base) == digits(m, base),
    ensures
        n == m,
    decreases n,
{
    let a = digits(n, base);
    let b = digits(m, base);
    if n < base && m < base {
        assert(a[0] == b[0]);
    } else {
        if n >= base {
            lemma_quotient_shrinks(n, base);
            lemma_digits_shape(n / base, base);
            assert(a.drop_last() == digits(n / base, base));
        }
        if m >= base {
            lemma_quotient_shrinks(m, base);
            lemma_digits_shape(m / base, base);
            assert(b.drop_last() == digits(m / base, base));
        }
        assert(n >= base && m >= base);
        lemma_digits_tell_apart(n / base, m / base, base);
        assert(a.last() == b.last());
        assert(0 <= n % base < base && 0 <= m % base < base) by (nonlinear_arith)
            requires
                2 <= base,
        ;
        assert(n % base == m % base);
        assert(n == (n / base) * base + n % base) by (nonlinear_arith)
            requires
                2 <= base,
        ;
        assert(m == (m / base) * base + m % base) by (nonlinear_arith)
            requires
                2 <= base,
        ;
    }
}

// ---------------------------------------------------------------------------
// What the texts come to
// ---------------------------------------------------------------------------

/// The number that a run of decimal digits stands for.
pub open spec fn numeral(s: Seq<char>) -> int {
    s.fold_left(0int, |sum: int, c: char| sum * 10 + (c as int - '0' as int))
}

/// Whether a text is made of decimal digits alone, at least one.
pub open spec fn all_digits(s: Seq<char>) -> bool {
    &&& s.len() > 0
    &&& forall|i: int| 0 <= i < s.len() ==> '0' <= #[trigger] s[i] <= '9'
}

/// Whether a text is this number in decimal, at least so wide, with no more
/// zeros before it than the width asks for.
pub open spec fn is_padded(s: Seq<char>, n: int, width: int) -> bool {
    &&& all_digits(s)
    &&& numeral(s) == n
    &&& s.len() >= width
    &&& s.len() > width && s.len() > 1 ==> s[0] != '0'
}

proof fn lemma_numeral_is_value(s: Seq<char>)
    ensures
        numeral(s) == value(s),
    decreases s.len(),
{
    if s.len() > 0 {
        lemma_numeral_is_value(s.drop_last());
    }
}

proof fn lemma_no_leading_zero(n: int)
    requires
        0 < n,
    ensures
        decimal(n)[0] != '0',
    decreases n,
{
    lemma_decimal_reads_back(n);
    if n >= 10 {
        lemma_decimal_reads_back(n / 10);
        lemma_no_leading_zero(n / 10);
        assert(decimal(n) == decimal(n / 10).push(digit(n % 10)));
    }
}

/// A number is written in decimal, in as few digits as there are.
pub proof fn law_a_number_is_written_in_decimal(n: int)
    requires
        0 <= n,
    ensures
        is_padded(decimal(n), n, 1),
{
    lemma_decimal_reads_back(n);
    lemma_numeral_is_value(decimal(n));
    if n > 0 {
        lemma_no_leading_zero(n);
    }
}

/// A number written to a width is that number in decimal, at least so wide, and
/// filled with zeros only as far as the width asks.
pub proof fn law_padding_fills_with_zeros(n: int, width: int)
    requires
        0 <= n,
    ensures
        is_padded(zero_padded(n, width), n, width),
{
    let s = zero_padded(n, width);
    let d = decimal(n);
    lemma_decimal_reads_back(n);
    lemma_padded_reads_back(n, width);
    lemma_numeral_is_value(s);
    assert forall|i: int| 0 <= i < s.len() implies '0' <= #[trigger] s[i] <= '9' by {
        if i >= s.len() - d.len() {
            assert(s[i] == d[i - (s.len() - d.len())]);
        }
    }
    if s.len() > width && s.len() > 1 {
        assert(s =~= d);
        if n > 0 {
            lemma_no_leading_zero(n);
        }
    }
}

/// Two texts that are the same number at the same width are the same text.
pub proof fn law_a_padded_number_has_one_form(n: int, width: int, s: Seq<char>)
    requires
        0 <= n,
        is_padded(s, n, width),
    ensures
        s == zero_padded(n, width),
{
    law_padding_fills_with_zeros(n, width);
    lemma_numeral_is_value(s);
    let other = zero_padded(n, width);
    lemma_numeral_is_value(other);
    if s.len() == other.len() {
        lemma_same_digits(s, other);
    } else if s.len() > other.len() {
        lemma_leading_digit_counts(s, other);
    } else {
        lemma_leading_digit_counts(other, s);
    }
}

/// How large a number of so many digits may be.
spec fn ten_to(k: int) -> int
    decreases k,
{
    if k <= 0 {
        1
    } else {
        10 * ten_to(k - 1)
    }
}

proof fn lemma_value_bounds(s: Seq<char>)
    requires
        forall|i: int| 0 <= i < s.len() ==> '0' <= #[trigger] s[i] <= '9',
    ensures
        0 <= value(s) < ten_to(s.len() as int),
        s.len() > 0 && s[0] != '0' ==> value(s) >= ten_to(s.len() - 1),
    decreases s.len(),
{
    if s.len() > 0 {
        let before = s.drop_last();
        assert forall|i: int| 0 <= i < before.len() implies '0' <= #[trigger] before[i] <= '9' by {
            assert(before[i] == s[i]);
        }
        lemma_value_bounds(before);
        assert('0' <= s[s.len() - 1] <= '9');
        if before.len() > 0 {
            assert(before[0] == s[0]);
        }
    }
}

proof fn lemma_ten_grows(a: int, b: int)
    requires
        0 <= a <= b,
    ensures
        ten_to(a) <= ten_to(b),
        ten_to(a) >= 1,
    decreases b,
{
    if a < b {
        lemma_ten_grows(a, b - 1);
    } else if a > 0 {
        lemma_ten_grows(a - 1, a - 1);
    }
}

proof fn lemma_leading_digit_counts(long: Seq<char>, short: Seq<char>)
    requires
        all_digits(long),
        all_digits(short),
        long.len() > short.len(),
        long[0] != '0',
    ensures
        value(long) > value(short),
{
    lemma_value_bounds(long);
    lemma_value_bounds(short);
    lemma_ten_grows(short.len() as int, long.len() - 1);
}

proof fn lemma_same_digits(a: Seq<char>, b: Seq<char>)
    requires
        forall|i: int| 0 <= i < a.len() ==> '0' <= #[trigger] a[i] <= '9',
        forall|i: int| 0 <= i < b.len() ==> '0' <= #[trigger] b[i] <= '9',
        a.len() == b.len(),
        value(a) == value(b),
    ensures
        a == b,
    decreases a.len(),
{
    if a.len() > 0 {
        let x = a.drop_last();
        let y = b.drop_last();
        assert('0' <= a[a.len() - 1] <= '9' && '0' <= b[b.len() - 1] <= '9');
        assert forall|i: int| 0 <= i < x.len() implies '0' <= #[trigger] x[i] <= '9' by {
            assert(x[i] == a[i]);
        }
        assert forall|i: int| 0 <= i < y.len() implies '0' <= #[trigger] y[i] <= '9' by {
            assert(y[i] == b[i]);
        }
        assert(value(x) == value(y) && a.last() == b.last());
        lemma_same_digits(x, y);
        assert(a =~= x.push(a.last()));
        assert(b =~= y.push(b.last()));
    } else {
        assert(a =~= b);
    }
}

/// Digits are read as the number they stand for, as far as it fits; one `+` may
/// stand before them, and nothing else is a number.
pub proof fn law_a_number_is_read_as_it_is_written(s: Seq<char>)
    ensures
        all_digits(s) ==> parsed_u32(s) == (if numeral(s) <= u32::MAX {
            Some(numeral(s) as u32)
        } else {
            None
        }),
        all_digits(s) ==> parsed_u32(seq!['+'] + s) == parsed_u32(s),
        parsed_u32(s) is Some ==> all_digits(s) || (s[0] == '+' && all_digits(s.skip(1))),
{
    lemma_numeral_is_value(s);
    let signed = seq!['+'] + s;
    assert(signed.skip(1) =~= s);
    if all_digits(s) {
        assert('0' <= s[0] <= '9');
    }
}

/// A number in base sixteen is the number of its other digits and one digit
/// more, in small letters past nine.
pub proof fn law_a_hexadecimal_number_grows_by_a_digit(n: int, d: int)
    requires
        0 <= n,
        0 <= d < 16,
    ensures
        n > 0 ==> hexadecimal(16 * n + d) == hexadecimal(n) + hexadecimal(d),
        d < 10 ==> hexadecimal(d) == seq![('0' as int + d) as char],
        d >= 10 ==> hexadecimal(d) == seq![('a' as int + d - 10) as char],
{
    assert(('a' as int) + (d - 10) == 'a' as int + d - 10);
    if n > 0 {
        assert((16 * n + d) / 16 == n && (16 * n + d) % 16 == d);
        assert(hexadecimal(16 * n + d) =~= hexadecimal(n) + hexadecimal(d));
    }
}

/// A number below zero has its sign before it.
pub proof fn law_a_sign_stands_before_a_number(n: int)
    ensures
        0 <= n ==> signed(n) == decimal(n),
        0 < n ==> signed(-n) == seq!['-'] + decimal(n),
{
    reveal_strlit("-");
    assert("-"@ =~= seq!['-']);
}

/// Joining two lists of words is joining each, with the separator between them;
/// one word stands for itself, and none for nothing.
pub proof fn law_joining_puts_the_separator_between(
    a: Seq<Seq<char>>,
    b: Seq<Seq<char>>,
    sep: Seq<char>,
    word: Seq<char>,
)
    ensures
        joined(Seq::empty(), sep) == Seq::<char>::empty(),
        joined(seq![word], sep) == word,
        a.len() > 0 && b.len() > 0 ==> joined(a + b, sep) == joined(a, sep) + sep + joined(b, sep),
    decreases b.len(),
{
    if a.len() > 0 && b.len() > 0 {
        let all = a + b;
        assert(all.drop_last() =~= a + b.drop_last());
        assert(all.last() == b.last());
        if b.len() > 1 {
            law_joining_puts_the_separator_between(a, b.drop_last(), sep, word);
            assert(joined(all, sep) =~= joined(a, sep) + sep + joined(b, sep));
        } else {
            assert(a + b.drop_last() =~= a);
        }
    }
}

/// Splitting loses nothing: the pieces hold no separator, and joined with it
/// they are the text that was split.
pub proof fn law_pieces_are_what_was_split(s: Seq<char>, sep: char)
    ensures
        joined(pieces(s, sep), seq![sep]) == s,
        pieces(s, sep).len() >= 1,
        forall|i: int| 0 <= i < pieces(s, sep).len() ==> !(#[trigger] pieces(s, sep)[i]).contains(sep),
    decreases s.len(),
{
    let i = first_index(s, sep);
    lemma_first_index(s, sep);
    if i < s.len() {
        let head = s.take(i);
        let rest = s.skip(i + 1);
        law_pieces_are_what_was_split(rest, sep);
        law_joining_puts_the_separator_between(seq![head], pieces(rest, sep), seq![sep], head);
        assert(head + seq![sep] + rest =~= s);
        let all = seq![head] + pieces(rest, sep);
        assert(!head.contains(sep)) by {
            if head.contains(sep) {
                let j = choose|j: int| 0 <= j < head.len() && head[j] == sep;
                assert(s[j] == sep);
            }
        }
        assert forall|j: int| 0 <= j < all.len() implies !(#[trigger] all[j]).contains(sep) by {
            if j > 0 {
                assert(all[j] == pieces(rest, sep)[j - 1]);
            }
        }
    } else {
        law_joining_puts_the_separator_between(seq![s], seq![s], seq![sep], s);
    }
}

/// A text is its first line, up to the line's end and without a `\r` there, and
/// then the lines of the rest; a last line needs no end, and no text no line.
pub proof fn law_lines_end_where_the_text_says(line: Seq<char>, rest: Seq<char>)
    requires
        !line.contains('\n'),
    ensures
        lines_of(Seq::empty()) == Seq::<Seq<char>>::empty(),
        line.len() > 0 ==> lines_of(line) == seq![line],
        line.len() > 0 && line.last() == '\r' ==> lines_of(line.push('\n') + rest)
            == seq![line.drop_last()] + lines_of(rest),
        line.len() == 0 || line.last() != '\r' ==> lines_of(line.push('\n') + rest) == seq![line]
            + lines_of(rest),
{
    lemma_first_index(line, '\n');
    let s = line.push('\n') + rest;
    let n = line.len() as int;
    assert forall|j: int| 0 <= j < n implies s[j] != '\n' by {
        assert(s[j] == line[j]);
    }
    assert(s[n] == '\n');
    lemma_first_index_is(s, '\n', n);
    assert(s.take(n) =~= line);
    assert(s.skip(n + 1) =~= rest);
}

/// The last line that holds anything is one of the lines, and the lines after
/// it are empty.
pub proof fn law_the_last_full_line_is_the_last_that_holds_anything(
    lines: Seq<Seq<char>>,
    line: Seq<char>,
    empty: Seq<Seq<char>>,
)
    requires
        forall|i: int| 0 <= i < empty.len() ==> (#[trigger] empty[i]).len() == 0,
    ensures
        last_full(empty) is None,
        line.len() > 0 ==> last_full(lines.push(line) + empty) == Some(line),
    decreases empty.len(),
{
    let all = lines.push(line) + empty;
    if empty.len() > 0 {
        let fewer = empty.drop_last();
        assert forall|i: int| 0 <= i < fewer.len() implies (#[trigger] fewer[i]).len() == 0 by {
            assert(fewer[i] == empty[i]);
        }
        law_the_last_full_line_is_the_last_that_holds_anything(lines, line, fewer);
        assert(empty[empty.len() - 1].len() == 0);
        assert(all.drop_last() =~= lines.push(line) + fewer);
        assert(all.last() == empty.last());
    } else {
        assert(all =~= lines.push(line));
    }
}

/// Trimming takes white space off both ends, all of it, and nothing else.
pub proof fn law_trimming_takes_the_white_space_around(
    before: Seq<char>,
    text: Seq<char>,
    after: Seq<char>,
)
    requires
        forall|i: int| 0 <= i < before.len() ==> is_white(#[trigger] before[i]),
        forall|i: int| 0 <= i < after.len() ==> is_white(#[trigger] after[i]),
        text.len() > 0 ==> !is_white(text[0]) && !is_white(text.last()),
    ensures
        trimmed(before + text + after) == text,
    decreases before.len() + after.len(),
{
    let s = before + text + after;
    if before.len() > 0 {
        let fewer = before.drop_first();
        assert forall|i: int| 0 <= i < fewer.len() implies is_white(#[trigger] fewer[i]) by {
            assert(fewer[i] == before[i + 1]);
        }
        assert(is_white(before[0]));
        assert(s.drop_first() =~= fewer + text + after);
        law_trimming_takes_the_white_space_around(fewer, text, after);
        assert(trimmed_start(s) == trimmed_start(s.drop_first()));
    } else if text.len() > 0 {
        assert(s[0] == text[0]);
        assert(trimmed_start(s) == s);
        if after.len() > 0 {
            let fewer = after.drop_last();
            assert forall|i: int| 0 <= i < fewer.len() implies is_white(#[trigger] fewer[i]) by {
                assert(fewer[i] == after[i]);
            }
            assert(is_white(after[after.len() - 1]));
            assert(s.drop_last() =~= before + text + fewer);
            law_trimming_takes_the_white_space_around(before, text, fewer);
            assert((before + text + fewer)[0] == text[0]);
        } else {
            assert(s =~= text);
        }
    } else if after.len() > 0 {
        let fewer = after.drop_first();
        assert forall|i: int| 0 <= i < fewer.len() implies is_white(#[trigger] fewer[i]) by {
            assert(fewer[i] == after[i + 1]);
        }
        assert(is_white(after[0]));
        assert(s[0] == after[0]);
        assert(s.drop_first() =~= before + text + fewer);
        law_trimming_takes_the_white_space_around(before, text, fewer);
        assert(trimmed_start(s) == trimmed_start(s.drop_first()));
    } else {
        assert(s =~= text);
    }
}

/// Filling a text up to a width puts spaces after it, as many as it is short of
/// the width, and leaves the text itself alone.
pub proof fn law_filling_puts_spaces_after(s: Seq<char>, width: int, i: int)
    ensures
        padded(s, width).len() == (if s.len() < width {
            width
        } else {
            s.len() as int
        }),
        0 <= i < s.len() ==> padded(s, width)[i] == s[i],
        s.len() <= i < width ==> padded(s, width)[i] == ' ',
{
}

/// Texts are in the order of their first difference, and a text comes before
/// those it begins.
pub proof fn law_texts_are_in_the_order_of_their_first_difference(
    start: Seq<char>,
    a: char,
    b: char,
    rest: Seq<char>,
    other: Seq<char>,
)
    ensures
        precedes(start.push(a) + rest, start.push(b) + other) == (a < b || (a == b && precedes(
            rest,
            other,
        ))),
        precedes(start, start + other) == (other.len() > 0),
        !precedes(start + other, start),
    decreases start.len(),
{
    let x = start.push(a) + rest;
    let y = start.push(b) + other;
    if start.len() > 0 {
        let less = start.drop_first();
        law_texts_are_in_the_order_of_their_first_difference(less, a, b, rest, other);
        assert(x.drop_first() =~= less.push(a) + rest);
        assert(y.drop_first() =~= less.push(b) + other);
        assert(x[0] == start[0] && y[0] == start[0]);
        assert((start + other).drop_first() =~= less + other);
        assert((start + other)[0] == start[0]);
    } else {
        assert(x.drop_first() =~= rest);
        assert(y.drop_first() =~= other);
        assert(start + other =~= other);
    }
}

/// Digits never stand for less than nothing.
pub proof fn law_numerals_are_not_negative(s: Seq<char>)
    requires
        all_digits(s),
    ensures
        0 <= numeral(s),
{
    lemma_numeral_is_value(s);
    lemma_value_bounds(s);
}

/// The lines of a text that ends a line, and of what follows it, are the lines
/// of each.
pub proof fn law_lines_of_whole_lines(a: Seq<char>, b: Seq<char>)
    requires
        a.len() == 0 || a.last() == '\n',
    ensures
        lines_of(a + b) == lines_of(a) + lines_of(b),
    decreases a.len(),
{
    if a.len() == 0 {
        assert(a + b =~= b);
        assert(lines_of(a) + lines_of(b) =~= lines_of(b));
    } else {
        lemma_first_index(a, '\n');
        assert(a[a.len() - 1] == '\n');
        let i = first_index(a, '\n');
        let line = a.take(i);
        let rest = a.skip(i + 1);
        assert(!line.contains('\n')) by {
            if line.contains('\n') {
                let j = choose|j: int| 0 <= j < line.len() && line[j] == '\n';
                assert(a[j] == '\n');
            }
        }
        assert(a =~= line.push('\n') + rest);
        assert(a + b =~= line.push('\n') + (rest + b));
        law_lines_end_where_the_text_says(line, rest);
        law_lines_end_where_the_text_says(line, rest + b);
        if rest.len() > 0 {
            assert(rest.last() == a.last());
        }
        law_lines_of_whole_lines(rest, b);
        let first = without_return(line);
        assert(seq![first] + (lines_of(rest) + lines_of(b)) =~= seq![first] + lines_of(rest)
            + lines_of(b));
    }
}

/// White space is what Unicode calls so.
pub proof fn law_white_space_is_what_unicode_says(c: char)
    ensures
        is_white(c) <==> seq![
            '\t',
            '\n',
            '\u{b}',
            '\u{c}',
            '\r',
            ' ',
            '\u{85}',
            '\u{a0}',
            '\u{1680}',
            '\u{2000}',
            '\u{2001}',
            '\u{2002}',
            '\u{2003}',
            '\u{2004}',
            '\u{2005}',
            '\u{2006}',
            '\u{2007}',
            '\u{2008}',
            '\u{2009}',
            '\u{200a}',
            '\u{2028}',
            '\u{2029}',
            '\u{202f}',
            '\u{205f}',
            '\u{3000}',
        ].contains(c),
{
    let all = seq![
        '\t',
        '\n',
        '\u{b}',
        '\u{c}',
        '\r',
        ' ',
        '\u{85}',
        '\u{a0}',
        '\u{1680}',
        '\u{2000}',
        '\u{2001}',
        '\u{2002}',
        '\u{2003}',
        '\u{2004}',
        '\u{2005}',
        '\u{2006}',
        '\u{2007}',
        '\u{2008}',
        '\u{2009}',
        '\u{200a}',
        '\u{2028}',
        '\u{2029}',
        '\u{202f}',
        '\u{205f}',
        '\u{3000}',
    ];
    let n = c as int;
    let at = if n <= 13 {
        n - 9
    } else if n == 0x20 {
        5
    } else if n == 0x85 {
        6
    } else if n == 0xa0 {
        7
    } else if n == 0x1680 {
        8
    } else if n <= 0x200a {
        n - 0x2000 + 9
    } else if n <= 0x2029 {
        n - 0x2028 + 20
    } else if n == 0x202f {
        22
    } else if n == 0x205f {
        23
    } else {
        24
    };
    if is_white(c) {
        assert(all[at] == c);
    }
}

/// A list of words reads word by word, none left out.
pub proof fn law_words_are_read_one_by_one(words: Seq<String>, i: int)
    ensures
        texts(words).len() == words.len(),
        0 <= i < words.len() ==> texts(words)[i] == words[i]@,
{
}

} // verus!
