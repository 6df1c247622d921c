//! Host patterns: one bracketed range per name, expanded to many Hosts.

use vstd::prelude::*;

use crate::text::{
    all_digits, chars_of, contains_char, find, first_index, is_padded,
    law_a_number_is_read_as_it_is_written, law_numerals_are_not_negative,
    law_padding_fills_with_zeros, lemma_first_index, lemma_first_index_is,
    lemma_padded_reads_back, lemma_pieces_join, lemma_pieces_one, lemma_pieces_some, numeral,
    parse_u32, parsed_u32, pieces, slice_to, split, string_of, texts, write_zero_padded,
    zero_padded,
};

verus! {

/// The most Hosts one host entry may expand to. A range written with too many
/// digits is a typo, and expanding it would exhaust memory before any host ran.
pub const MAX_EXPANSION: usize = 65_536;

/// A text between backquotes, as messages show it.
pub open spec fn quoted(s: Seq<char>) -> Seq<char> {
    "`"@ + s + "`"@
}

/// Puts a text between backquotes.
pub fn quote(s: &str) -> (r: String)
    ensures
        r@ == quoted(s@),
{
    let mut q = "`".to_string();
    q.append(s);
    q.append("`");
    q
}

/// The numbers from `start` to `end`, each written at least `width` wide.
pub struct Range {
    pub start: u32,
    pub end: u32,
    pub width: usize,
}

/// A bound of a range: a number of at most 32 bits.
pub open spec fn bound_of(name: Seq<char>, bound: Seq<char>) -> Result<u32, Seq<char>> {
    match parsed_u32(bound) {
        Some(n) => Ok(n),
        None => Err(quoted(name) + ": "@ + quoted(bound) + " is not a number"@),
    }
}

/// What one item of a bracketed list writes: a number, or two with a `-`
/// between them. The width of the lower bound as written decides the zero
/// padding.
pub open spec fn range_of(name: Seq<char>, item: Seq<char>) -> Result<Range, Seq<char>> {
    let dash = first_index(item, '-');
    let ranged = dash < item.len();
    let low = if ranged {
        item.take(dash)
    } else {
        item
    };
    let high = if ranged {
        item.skip(dash + 1)
    } else {
        item
    };
    if ranged && high.contains('-') {
        Err(quoted(name) + ": "@ + quoted(item) + " is not a range; strides are not supported"@)
    } else if ranged && (low.len() == 0 || high.len() == 0) {
        Err(quoted(name) + ": "@ + quoted(item) + " is an incomplete range"@)
    } else {
        match bound_of(name, low) {
            Err(e) => Err(e),
            Ok(start) => match bound_of(name, high) {
                Err(e) => Err(e),
                Ok(end) => if start > end {
                    Err(
                        quoted(name) + ": range "@ + quoted(item)
                            + " counts down; ranges must ascend"@,
                    )
                } else {
                    Ok(Range { start, end, width: low.len() as usize })
                },
            },
        }
    }
}

/// How many numbers the ranges hold together.
pub open spec fn count(ranges: Seq<Range>) -> int
    decreases ranges.len(),
{
    if ranges.len() == 0 {
        0
    } else {
        count(ranges.drop_last()) + (ranges.last().end - ranges.last().start + 1)
    }
}

/// The ranges of a bracketed list, in order. The first item that is wrong, or
/// that takes the list over the cap, decides the error.
pub open spec fn ranges_of(name: Seq<char>, items: Seq<Seq<char>>) -> Result<Seq<Range>, Seq<char>>
    decreases items.len(),
{
    if items.len() == 0 {
        Ok(Seq::empty())
    } else {
        match ranges_of(name, items.drop_last()) {
            Err(e) => Err(e),
            Ok(before) => match range_of(name, items.last()) {
                Err(e) => Err(e),
                Ok(range) => if count(before.push(range)) > MAX_EXPANSION {
                    Err(quoted(name) + " expands to more than 65536 hosts; check the range"@)
                } else {
                    Ok(before.push(range))
                },
            },
        }
    }
}

/// The names one range stands for.
pub open spec fn range_names(prefix: Seq<char>, range: Range, suffix: Seq<char>) -> Seq<Seq<char>> {
    Seq::new(
        (range.end - range.start + 1) as nat,
        |i: int| prefix + zero_padded(range.start + i, range.width as int) + suffix,
    )
}

/// The names the ranges stand for, in order.
pub open spec fn all_names(
    prefix: Seq<char>,
    ranges: Seq<Range>,
    suffix: Seq<char>,
) -> Seq<Seq<char>>
    decreases ranges.len(),
{
    if ranges.len() == 0 {
        Seq::empty()
    } else {
        all_names(prefix, ranges.drop_last(), suffix) + range_names(prefix, ranges.last(), suffix)
    }
}

/// The Hosts a name declares: itself, or with a bracketed range, one for each
/// number of the range.
pub open spec fn expanded(name: Seq<char>) -> Result<Seq<Seq<char>>, Seq<char>> {
    let open = first_index(name, '[');
    let prefix = name.take(open);
    let rest = name.skip(open + 1);
    let close = first_index(rest, ']');
    let body = rest.take(close);
    let suffix = rest.skip(close + 1);
    if open >= name.len() {
        if name.contains(']') {
            Err(quoted(name) + " has a `]` with no `[`"@)
        } else {
            Ok(seq![name])
        }
    } else if prefix.contains(']') {
        Err(quoted(name) + " has a `]` before its `[`"@)
    } else if close >= rest.len() {
        Err(quoted(name) + " opens a `[` that is never closed"@)
    } else if suffix.contains('[') || suffix.contains(']') {
        Err(quoted(name) + " has more than one bracketed range; a name may have only one"@)
    } else if body.len() == 0 {
        Err(quoted(name) + " has an empty range"@)
    } else {
        match ranges_of(name, pieces(body, ',')) {
            Err(e) => Err(e),
            Ok(ranges) => Ok(all_names(prefix, ranges, suffix)),
        }
    }
}

fn parse_bound(name: &str, bound: &[char]) -> (r: Result<u32, String>)
    ensures
        match r {
            Ok(n) => bound_of(name@, bound@) == Ok::<u32, Seq<char>>(n),
            Err(e) => bound_of(name@, bound@) == Err::<u32, Seq<char>>(e@),
        },
{
    match parse_u32(bound) {
        Some(n) => Ok(n),
        None => {
            let mut e = quote(name);
            e.append(": ");
            let q = quote(string_of(bound).as_str());
            e.append(q.as_str());
            e.append(" is not a number");
            Err(e)
        },
    }
}

/// `name: item` and what is wrong with the item.
fn item_error(name: &str, before: &str, item: &[char], after: &str) -> (e: String)
    ensures
        e@ == quoted(name@) + before@ + quoted(item@) + after@,
{
    let mut e = quote(name);
    e.append(before);
    let q = quote(string_of(item).as_str());
    e.append(q.as_str());
    e.append(after);
    e
}

/// `name` and what is wrong with it.
fn name_error(name: &str, after: &str) -> (e: String)
    ensures
        e@ == quoted(name@) + after@,
{
    let mut e = quote(name);
    e.append(after);
    e
}

fn parse_item(name: &str, item: &[char]) -> (r: Result<Range, String>)
    ensures
        match r {
            Ok(range) => range_of(name@, item@) == Ok::<Range, Seq<char>>(range),
            Err(e) => range_of(name@, item@) == Err::<Range, Seq<char>>(e@),
        },
{
    let dash = find(item, '-');
    let ranged = dash < item.len();
    let low = slice_to(item, 0, dash);
    let high = if ranged {
        slice_to(item, dash + 1, item.len())
    } else {
        slice_to(item, 0, item.len())
    };
    proof {
        lemma_first_index(item@, '-');
        assert(item@.subrange(0, item@.len() as int) == item@);
        if ranged {
            assert(low@ == item@.take(dash as int));
            assert(high@ == item@.skip(dash + 1));
        }
    }
    if ranged {
        if contains_char(high.as_slice(), '-') {
            return Err(
                item_error(name, ": ", item, " is not a range; strides are not supported"),
            );
        }
        if low.len() == 0 || high.len() == 0 {
            return Err(item_error(name, ": ", item, " is an incomplete range"));
        }
    }
    let start = match parse_bound(name, low.as_slice()) {
        Ok(n) => n,
        Err(e) => {
            return Err(e);
        },
    };
    let end = match parse_bound(name, high.as_slice()) {
        Ok(n) => n,
        Err(e) => {
            return Err(e);
        },
    };
    if start > end {
        return Err(item_error(name, ": range ", item, " counts down; ranges must ascend"));
    }
    Ok(Range { start, end, width: low.len() })
}

/// The views of a list of character lists.
spec fn char_views(items: Seq<Vec<char>>) -> Seq<Seq<char>> {
    items.map_values(|p: Vec<char>| p@)
}

/// Reads every range and counts the expansion before any name is made: a range
/// written with too many digits costs no more than any other.
fn parse_items(name: &str, items: &[Vec<char>]) -> (r: Result<Vec<Range>, String>)
    ensures
        match r {
            Ok(ranges) => ranges_of(name@, char_views(items@)) == Ok::<Seq<Range>, Seq<char>>(
                ranges@,
            ),
            Err(e) => ranges_of(name@, char_views(items@)) == Err::<Seq<Range>, Seq<char>>(e@),
        },
{
    let mut ranges: Vec<Range> = Vec::new();
    let mut total: u64 = 0;
    let mut i: usize = 0;
    while i < items.len()
        invariant
            i <= items.len(),
            total == count(ranges@),
            total <= MAX_EXPANSION,
            ranges_of(name@, char_views(items@).take(i as int)) == Ok::<Seq<Range>, Seq<char>>(
                ranges@,
            ),
        decreases items.len() - i,
    {
        proof {
            let now = char_views(items@).take(i + 1);
            assert(now.drop_last() == char_views(items@).take(i as int));
            assert(now.last() == items@[i as int]@);
        }
        let range = match parse_item(name, items[i].as_slice()) {
            Ok(range) => range,
            Err(e) => {
                proof {
                    lemma_ranges_of_fails(name@, char_views(items@), i + 1);
                }
                return Err(e);
            },
        };
        assert(range.start <= range.end);
        total = total + (range.end - range.start) as u64 + 1;
        proof {
            assert(ranges@.push(range).drop_last() == ranges@);
        }
        if total > MAX_EXPANSION as u64 {
            proof {
                lemma_ranges_of_fails(name@, char_views(items@), i + 1);
            }
            return Err(name_error(name, " expands to more than 65536 hosts; check the range"));
        }
        ranges.push(range);
        i += 1;
    }
    assert(char_views(items@).take(items@.len() as int) == char_views(items@));
    Ok(ranges)
}

/// An error that an earlier part of the list gives is the whole list's error.
proof fn lemma_ranges_of_fails(name: Seq<char>, items: Seq<Seq<char>>, n: int)
    requires
        0 <= n <= items.len(),
        ranges_of(name, items.take(n)) is Err,
    ensures
        ranges_of(name, items) == ranges_of(name, items.take(n)),
    decreases items.len(),
{
    if n == items.len() {
        assert(items.take(n) == items);
    } else {
        assert(items.drop_last().take(n) == items.take(n));
        lemma_ranges_of_fails(name, items.drop_last(), n);
    }
}

/// Writes out the names the ranges stand for.
fn write_names(prefix: &str, ranges: &[Range], suffix: &str) -> (r: Vec<String>)
    requires
        forall|k: int|
            0 <= k < ranges@.len() ==> (#[trigger] ranges@[k]).start <= ranges@[k].end,
    ensures
        texts(r@) == all_names(prefix@, ranges@, suffix@),
{
    let mut names: Vec<String> = Vec::new();
    let mut k: usize = 0;
    while k < ranges.len()
        invariant
            k <= ranges.len(),
            forall|k: int|
                0 <= k < ranges@.len() ==> (#[trigger] ranges@[k]).start <= ranges@[k].end,
            texts(names@) == all_names(prefix@, ranges@.take(k as int), suffix@),
        decreases ranges.len() - k,
    {
        let ghost before = texts(names@);
        let ghost range = ranges@[k as int];
        let ghost row = range_names(prefix@, range, suffix@);
        let start: u64 = ranges[k].start as u64;
        let end: u64 = ranges[k].end as u64;
        let width: usize = ranges[k].width;
        let mut n: u64 = start;
        while n <= end
            invariant
                start == range.start,
                end == range.end,
                width == range.width,
                start <= n <= end + 1,
                end <= u32::MAX,
                row == range_names(prefix@, range, suffix@),
                texts(names@) == before + row.take(n - start),
            decreases end + 1 - n,
        {
            let mut name = prefix.to_string();
            let number = write_zero_padded(n, width);
            name.append(number.as_str());
            name.append(suffix);
            let ghost old_names = names@;
            let ghost made = name@;
            names.push(name);
            n += 1;
            proof {
                assert(row[n - 1 - start] == made);
                assert(row.take(n - start) == row.take(n - 1 - start).push(made));
                assert(texts(names@) == texts(old_names).push(made));
                assert(before + row.take(n - start) == (before + row.take(n - 1 - start)).push(
                    made,
                ));
            }
        }
        k += 1;
        proof {
            assert(row.take(row.len() as int) == row);
            assert(ranges@.take(k as int).drop_last() == ranges@.take(k - 1));
        }
    }
    assert(ranges@.take(ranges@.len() as int) == ranges@);
    names
}

/// Every range that is read ascends, and together they stay under the cap.
proof fn lemma_ranges_ascend(name: Seq<char>, items: Seq<Seq<char>>)
    requires
        ranges_of(name, items) is Ok,
    ensures
        forall|k: int|
            0 <= k < ranges_of(name, items)->Ok_0.len() ==> (#[trigger] ranges_of(
                name,
                items,
            )->Ok_0[k]).start <= ranges_of(name, items)->Ok_0[k].end,
        count(ranges_of(name, items)->Ok_0) <= MAX_EXPANSION,
        ranges_of(name, items)->Ok_0.len() == items.len(),
    decreases items.len(),
{
    if items.len() > 0 {
        lemma_ranges_ascend(name, items.drop_last());
    }
}

/// Expands a host entry's `name` into the Hosts it declares.
///
/// A name has at most one bracketed range: literal text, the range, literal
/// text. Anything the syntax cannot express is an error rather than a guess,
/// because a pattern that silently expands to the wrong Hosts would run a
/// command somewhere nobody asked for.
pub fn expand(name: &str) -> (r: Result<Vec<String>, String>)
    ensures
        match r {
            Ok(names) => expanded(name@) == Ok::<Seq<Seq<char>>, Seq<char>>(texts(names@)),
            Err(e) => expanded(name@) == Err::<Seq<Seq<char>>, Seq<char>>(e@),
        },
{
    let cs = chars_of(name);
    let open = find(cs.as_slice(), '[');
    if open >= cs.len() {
        if contains_char(cs.as_slice(), ']') {
            return Err(name_error(name, " has a `]` with no `[`"));
        }
        let mut names: Vec<String> = Vec::new();
        names.push(name.to_string());
        assert(texts(names@) == seq![name@]);
        return Ok(names);
    }
    let prefix = slice_to(cs.as_slice(), 0, open);
    assert(prefix@ == name@.take(open as int));
    if contains_char(prefix.as_slice(), ']') {
        return Err(name_error(name, " has a `]` before its `[`"));
    }
    let rest = slice_to(cs.as_slice(), open + 1, cs.len());
    assert(rest@ == name@.skip(open + 1));
    let close = find(rest.as_slice(), ']');
    if close >= rest.len() {
        return Err(name_error(name, " opens a `[` that is never closed"));
    }
    let body = slice_to(rest.as_slice(), 0, close);
    let suffix = slice_to(rest.as_slice(), close + 1, rest.len());
    assert(body@ == rest@.take(close as int));
    assert(suffix@ == rest@.skip(close + 1));
    if contains_char(suffix.as_slice(), '[') || contains_char(suffix.as_slice(), ']') {
        return Err(
            name_error(name, " has more than one bracketed range; a name may have only one"),
        );
    }
    if body.len() == 0 {
        return Err(name_error(name, " has an empty range"));
    }
    let items = split(body.as_slice(), ',');
    assert(char_views(items@) == pieces(body@, ','));
    match parse_items(name, items.as_slice()) {
        Err(e) => Err(e),
        Ok(ranges) => {
            proof {
                lemma_ranges_ascend(name@, pieces(body@, ','));
            }
            let before = string_of(prefix.as_slice());
            let after = string_of(suffix.as_slice());
            Ok(write_names(before.as_str(), ranges.as_slice(), after.as_str()))
        },
    }
}

/// A name without brackets stands for itself alone.
pub proof fn law_plain_name_is_itself(name: Seq<char>)
    requires
        !name.contains('['),
        !name.contains(']'),
    ensures
        expanded(name) == Ok::<Seq<Seq<char>>, Seq<char>>(seq![name]),
{
    lemma_first_index(name, '[');
}

proof fn lemma_all_names_count(prefix: Seq<char>, ranges: Seq<Range>, suffix: Seq<char>)
    requires
        forall|k: int| 0 <= k < ranges.len() ==> (#[trigger] ranges[k]).start <= ranges[k].end,
    ensures
        all_names(prefix, ranges, suffix).len() == count(ranges),
        count(ranges) >= ranges.len(),
    decreases ranges.len(),
{
    if ranges.len() > 0 {
        assert(ranges.last() == ranges[ranges.len() - 1]);
        assert forall|k: int| 0 <= k < ranges.drop_last().len() implies (
        #[trigger] ranges.drop_last()[k]).start <= ranges.drop_last()[k].end by {
            assert(ranges.drop_last()[k] == ranges[k]);
        }
        lemma_all_names_count(prefix, ranges.drop_last(), suffix);
    }
}

/// An expansion is never empty and never over the cap.
pub proof fn law_expansion_is_capped(name: Seq<char>)
    requires
        expanded(name) is Ok,
    ensures
        1 <= expanded(name)->Ok_0.len() <= MAX_EXPANSION,
{
    let open = first_index(name, '[');
    if open < name.len() {
        let rest = name.skip(open + 1);
        let close = first_index(rest, ']');
        let items = pieces(rest.take(close), ',');
        lemma_pieces_some(rest.take(close), ',');
        lemma_ranges_ascend(name, items);
        lemma_all_names_count(name.take(open), ranges_of(name, items)->Ok_0, rest.skip(close + 1));
    }
}

proof fn lemma_all_names_shape(
    prefix: Seq<char>,
    ranges: Seq<Range>,
    suffix: Seq<char>,
    i: int,
) -> (at: (int, int))
    requires
        forall|k: int| 0 <= k < ranges.len() ==> (#[trigger] ranges[k]).start <= ranges[k].end,
        0 <= i < all_names(prefix, ranges, suffix).len(),
    ensures
        0 <= at.0 < ranges.len(),
        ranges[at.0].start <= at.1 <= ranges[at.0].end,
        all_names(prefix, ranges, suffix)[i] == prefix + zero_padded(
            at.1,
            ranges[at.0].width as int,
        ) + suffix,
    decreases ranges.len(),
{
    let before = ranges.drop_last();
    let row = range_names(prefix, ranges.last(), suffix);
    let earlier = all_names(prefix, before, suffix);
    assert(ranges.last() == ranges[ranges.len() - 1]);
    if i < earlier.len() {
        assert forall|k: int| 0 <= k < before.len() implies (#[trigger] before[k]).start
            <= before[k].end by {
            assert(before[k] == ranges[k]);
        }
        let at = lemma_all_names_shape(prefix, before, suffix, i);
        assert(before[at.0] == ranges[at.0]);
        at
    } else {
        assert(all_names(prefix, ranges, suffix)[i] == row[i - earlier.len()]);
        (ranges.len() - 1, ranges.last().start + (i - earlier.len()))
    }
}

/// `made` is the text before the pattern's bracket, the number `n` of the
/// bracket's item `k`, and the text after the bracket.
pub open spec fn made_from(name: Seq<char>, k: int, n: int, made: Seq<char>) -> bool {
    let open = first_index(name, '[');
    let rest = name.skip(open + 1);
    let close = first_index(rest, ']');
    let items = pieces(rest.take(close), ',');
    let range = range_of(name, items[k]);
    &&& 0 <= k < items.len()
    &&& range is Ok
    &&& range->Ok_0.start <= n <= range->Ok_0.end
    &&& made == name.take(open) + zero_padded(n, range->Ok_0.width as int) + rest.skip(close + 1)
}

/// Every name a pattern expands to is the text before the bracket, a number
/// inside one of the bracket's ranges, and the text after it.
pub proof fn law_pattern_names_keep_their_text(name: Seq<char>, i: int)
    requires
        name.contains('['),
        expanded(name) is Ok,
        0 <= i < expanded(name)->Ok_0.len(),
    ensures
        exists|k: int, n: int| made_from(name, k, n, expanded(name)->Ok_0[i]),
{
    lemma_first_index(name, '[');
    let open = first_index(name, '[');
    let rest = name.skip(open + 1);
    let close = first_index(rest, ']');
    let items = pieces(rest.take(close), ',');
    lemma_ranges_ascend(name, items);
    let ranges = ranges_of(name, items)->Ok_0;
    let at = lemma_all_names_shape(name.take(open), ranges, rest.skip(close + 1), i);
    lemma_ranges_are_items(name, items, at.0);
    assert(made_from(name, at.0, at.1, expanded(name)->Ok_0[i]));
}

proof fn lemma_all_names_hold(
    prefix: Seq<char>,
    ranges: Seq<Range>,
    suffix: Seq<char>,
    k: int,
    n: int,
)
    requires
        0 <= k < ranges.len(),
        ranges[k].start <= n <= ranges[k].end,
    ensures
        all_names(prefix, ranges, suffix).contains(
            prefix + zero_padded(n, ranges[k].width as int) + suffix,
        ),
    decreases ranges.len(),
{
    let before = ranges.drop_last();
    let earlier = all_names(prefix, before, suffix);
    let row = range_names(prefix, ranges.last(), suffix);
    let all = all_names(prefix, ranges, suffix);
    let made = prefix + zero_padded(n, ranges[k].width as int) + suffix;
    if k < ranges.len() - 1 {
        assert(before[k] == ranges[k]);
        lemma_all_names_hold(prefix, before, suffix, k, n);
        let i = choose|i: int| 0 <= i < earlier.len() && earlier[i] == made;
        assert(all[i] == made);
    } else {
        let j = n - ranges.last().start;
        assert(row[j] == made);
        assert(all[earlier.len() + j] == made);
    }
}

/// Every number of every item of a pattern's bracket gives one of its names.
pub proof fn law_pattern_leaves_no_number_out(name: Seq<char>, k: int, n: int, made: Seq<char>)
    requires
        name.contains('['),
        expanded(name) is Ok,
        made_from(name, k, n, made),
    ensures
        expanded(name)->Ok_0.contains(made),
{
    lemma_first_index(name, '[');
    let open = first_index(name, '[');
    let rest = name.skip(open + 1);
    let close = first_index(rest, ']');
    let items = pieces(rest.take(close), ',');
    lemma_ranges_are_items(name, items, k);
    lemma_all_names_hold(
        name.take(open),
        ranges_of(name, items)->Ok_0,
        rest.skip(close + 1),
        k,
        n,
    );
}

proof fn lemma_ranges_are_items(name: Seq<char>, items: Seq<Seq<char>>, k: int)
    requires
        ranges_of(name, items) is Ok,
        0 <= k < items.len(),
    ensures
        ranges_of(name, items)->Ok_0.len() == items.len(),
        range_of(name, items[k]) == Ok::<Range, Seq<char>>(ranges_of(name, items)->Ok_0[k]),
    decreases items.len(),
{
    lemma_ranges_ascend(name, items);
    lemma_ranges_ascend(name, items.drop_last());
    if k < items.len() - 1 {
        lemma_ranges_are_items(name, items.drop_last(), k);
        assert(items.drop_last()[k] == items[k]);
    }
}

/// No two numbers of one range give the same name.
pub proof fn law_range_names_differ(
    prefix: Seq<char>,
    range: Range,
    suffix: Seq<char>,
    i: int,
    j: int,
)
    requires
        0 <= i < j < range_names(prefix, range, suffix).len(),
    ensures
        range_names(prefix, range, suffix)[i] != range_names(prefix, range, suffix)[j],
{
    let x = zero_padded(range.start + i, range.width as int);
    let y = zero_padded(range.start + j, range.width as int);
    lemma_padded_reads_back(range.start + i, range.width as int);
    lemma_padded_reads_back(range.start + j, range.width as int);
    let a = prefix + x + suffix;
    let b = prefix + y + suffix;
    if a == b {
        assert(a.len() == prefix.len() + x.len() + suffix.len());
        assert(b.len() == prefix.len() + y.len() + suffix.len());
        assert(x == a.subrange(prefix.len() as int, (prefix.len() + x.len()) as int));
        assert(y == b.subrange(prefix.len() as int, (prefix.len() + y.len()) as int));
        assert(false);
    }
}

// ---------------------------------------------------------------------------
// What a pattern stands for
// ---------------------------------------------------------------------------

/// The digits of a bound, which may have one `+` before them.
pub open spec fn bound_digits(s: Seq<char>) -> Seq<char> {
    if s.len() > 0 && s[0] == '+' {
        s.skip(1)
    } else {
        s
    }
}

/// One item of a bracket as it is written: a number, or two with a `-` between
/// them.
pub ghost struct Item {
    pub low: Seq<char>,
    pub high: Option<Seq<char>>,
}

impl Item {
    /// The item's own text.
    pub open spec fn text(self) -> Seq<char> {
        match self.high {
            Some(high) => self.low.push('-') + high,
            None => self.low,
        }
    }

    /// The number it counts from.
    pub open spec fn first(self) -> int {
        numeral(bound_digits(self.low))
    }

    /// The number it counts to.
    pub open spec fn last(self) -> int {
        match self.high {
            Some(high) => numeral(bound_digits(high)),
            None => numeral(bound_digits(self.low)),
        }
    }

    /// Whether its bounds are decimal digits, do not count down, and fit in 32
    /// bits.
    pub open spec fn ascends(self) -> bool {
        &&& all_digits(bound_digits(self.low))
        &&& self.high is Some ==> all_digits(bound_digits(self.high->Some_0))
        &&& self.first() <= self.last() <= u32::MAX
    }
}

/// The items of a bracket, one after another with commas between them.
pub open spec fn items_text(items: Seq<Item>) -> Seq<char>
    decreases items.len(),
{
    if items.len() == 0 {
        Seq::empty()
    } else if items.len() == 1 {
        items[0].text()
    } else {
        items_text(items.drop_last()).push(',') + items.last().text()
    }
}

/// How many numbers the first items count.
pub open spec fn numbers_in(items: Seq<Item>, upto: int) -> int
    decreases upto,
{
    if upto <= 0 {
        0
    } else {
        numbers_in(items, upto - 1) + (items[upto - 1].last() - items[upto - 1].first() + 1)
    }
}

/// A name with a bracket: what stands before it, its items, and what stands
/// after it.
pub open spec fn pattern_of(prefix: Seq<char>, items: Seq<Item>, suffix: Seq<char>) -> Seq<char> {
    prefix.push('[') + items_text(items) + seq![']'] + suffix
}

/// Whether a text holds no bracket.
pub open spec fn no_bracket(s: Seq<char>) -> bool {
    !s.contains('[') && !s.contains(']')
}

/// The middle of a text, without what stands before it and after it.
pub open spec fn between(s: Seq<char>, prefix: Seq<char>, suffix: Seq<char>) -> Seq<char> {
    s.subrange(prefix.len() as int, s.len() - suffix.len())
}

spec fn item_texts(items: Seq<Item>) -> Seq<Seq<char>> {
    items.map_values(|item: Item| item.text())
}

spec fn item_range(item: Item) -> Range {
    Range {
        start: item.first() as u32,
        end: item.last() as u32,
        width: item.low.len() as usize,
    }
}

spec fn item_ranges(items: Seq<Item>) -> Seq<Range> {
    items.map_values(|item: Item| item_range(item))
}

proof fn lemma_digits_hold_no(s: Seq<char>, c: char)
    requires
        all_digits(bound_digits(s)),
        !('0' <= c <= '9'),
        c != '+',
    ensures
        !s.contains(c),
{
    if s.contains(c) {
        let i = choose|i: int| 0 <= i < s.len() && s[i] == c;
        let d = bound_digits(s);
        if d.len() == s.len() {
            assert('0' <= d[i] <= '9');
        } else if i > 0 {
            assert('0' <= d[i - 1] <= '9');
        }
    }
}

proof fn lemma_item_holds_no(item: Item, c: char)
    requires
        item.ascends(),
        !('0' <= c <= '9'),
        c != '-',
        c != '+',
    ensures
        !item.text().contains(c),
{
    lemma_digits_hold_no(item.low, c);
    if item.high is Some {
        let high = item.high->Some_0;
        lemma_digits_hold_no(high, c);
        if item.text().contains(c) {
            let i = choose|i: int| 0 <= i < item.text().len() && item.text()[i] == c;
            if i < item.low.len() {
                assert(item.low[i] == c);
            } else if i > item.low.len() {
                assert(high[i - item.low.len() - 1] == c);
            }
        }
    }
}

/// An item is read as what it is written as: it counts from its lower bound to
/// its upper one, and is as wide as its lower bound is written, whatever the
/// name it stands in.
pub proof fn law_an_item_is_as_wide_as_its_lower_bound(name: Seq<char>, item: Item)
    requires
        item.ascends(),
        item.low.len() <= usize::MAX,
    ensures
        range_of(name, item.text()) is Ok,
        range_of(name, item.text())->Ok_0.start == item.first(),
        range_of(name, item.text())->Ok_0.end == item.last(),
        range_of(name, item.text())->Ok_0.width == item.low.len(),
{
    let text = item.text();
    let low = item.low;
    lemma_bound_is_read(low);
    lemma_digits_hold_no(low, '-');
    lemma_first_index(text, '-');
    assert(0 <= item.first() <= u32::MAX) by {
        law_numerals_are_not_negative(bound_digits(low));
    }
    match item.high {
        Some(high) => {
            lemma_bound_is_read(high);
            law_numerals_are_not_negative(bound_digits(high));
            lemma_digits_hold_no(high, '-');
            let n = low.len() as int;
            assert forall|j: int| 0 <= j < n implies text[j] != '-' by {
                assert(low.contains(low[j]));
                assert(text[j] == low[j]);
            }
            assert(text[n] == '-');
            lemma_first_index_is(text, '-', n);
            assert(text.take(n) =~= low);
            assert(text.skip(n + 1) =~= high);
        },
        None => {
            assert(first_index(text, '-') == text.len());
        },
    }
}

proof fn lemma_items_are_pieces(items: Seq<Item>)
    requires
        items.len() > 0,
        forall|k: int| 0 <= k < items.len() ==> (#[trigger] items[k]).ascends(),
    ensures
        pieces(items_text(items), ',') == item_texts(items),
        items_text(items).len() > 0,
        !items_text(items).contains(']'),
    decreases items.len(),
{
    let last = items.last();
    assert(items[items.len() - 1].ascends());
    lemma_item_holds_no(last, ',');
    lemma_item_holds_no(last, ']');
    lemma_pieces_one(last.text(), ',');
    if items.len() == 1 {
        assert(item_texts(items) =~= seq![last.text()]);
        assert(items[0] == last);
    } else {
        let before = items.drop_last();
        assert forall|k: int| 0 <= k < before.len() implies (#[trigger] before[k]).ascends() by {
            assert(before[k] == items[k]);
        }
        lemma_items_are_pieces(before);
        lemma_pieces_join(items_text(before), last.text(), ',');
        assert(item_texts(items) =~= item_texts(before) + seq![last.text()]);
        let all = items_text(items);
        if all.contains(']') {
            let i = choose|i: int| 0 <= i < all.len() && all[i] == ']';
            let n = items_text(before).len();
            if i < n {
                assert(items_text(before)[i] == ']');
            } else if i > n {
                assert(last.text()[i - n - 1] == ']');
            }
        }
    }
}

proof fn lemma_numbers_grow(items: Seq<Item>, upto: int)
    requires
        0 <= upto <= items.len(),
        forall|k: int| 0 <= k < items.len() ==> (#[trigger] items[k]).ascends(),
    ensures
        upto <= numbers_in(items, upto) <= numbers_in(items, items.len() as int),
    decreases items.len() - upto,
{
    if upto < items.len() {
        assert(items[upto].ascends());
        lemma_numbers_grow(items, upto + 1);
    }
    lemma_numbers_many(items, upto);
}

proof fn lemma_numbers_many(items: Seq<Item>, upto: int)
    requires
        0 <= upto <= items.len(),
        forall|k: int| 0 <= k < items.len() ==> (#[trigger] items[k]).ascends(),
    ensures
        upto <= numbers_in(items, upto),
    decreases upto,
{
    if upto > 0 {
        lemma_numbers_many(items, upto - 1);
        assert(items[upto - 1].ascends());
    }
}

proof fn lemma_numbers_of_fewer(items: Seq<Item>, fewer: Seq<Item>, upto: int)
    requires
        0 <= upto <= fewer.len() <= items.len(),
        forall|k: int| 0 <= k < fewer.len() ==> fewer[k] == items[k],
    ensures
        numbers_in(fewer, upto) == numbers_in(items, upto),
    decreases upto,
{
    if upto > 0 {
        lemma_numbers_of_fewer(items, fewer, upto - 1);
    }
}

proof fn lemma_items_are_ranges(name: Seq<char>, items: Seq<Item>)
    requires
        forall|k: int| 0 <= k < items.len() ==> (#[trigger] items[k]).ascends(),
        forall|k: int| 0 <= k < items.len() ==> (#[trigger] items[k]).low.len() <= usize::MAX,
    ensures
        count(item_ranges(items)) == numbers_in(items, items.len() as int),
        numbers_in(items, items.len() as int) <= MAX_EXPANSION ==> ranges_of(
            name,
            item_texts(items),
        ) == Ok::<Seq<Range>, Seq<char>>(item_ranges(items)),
        numbers_in(items, items.len() as int) > MAX_EXPANSION ==> ranges_of(
            name,
            item_texts(items),
        ) == Err::<Seq<Range>, Seq<char>>(
            quoted(name) + " expands to more than 65536 hosts; check the range"@,
        ),
    decreases items.len(),
{
    if items.len() > 0 {
        let before = items.drop_last();
        let last = items.last();
        assert forall|k: int| 0 <= k < before.len() implies (#[trigger] before[k]).ascends() by {
            assert(before[k] == items[k]);
        }
        assert forall|k: int| 0 <= k < before.len() implies (#[trigger] before[k]).low.len()
            <= usize::MAX by {
            assert(before[k] == items[k]);
        }
        lemma_items_are_ranges(name, before);
        lemma_numbers_of_fewer(items, before, before.len() as int);
        assert(items[items.len() - 1].ascends());
        lemma_numbers_grow(items, items.len() - 1);
        law_an_item_is_as_wide_as_its_lower_bound(name, last);
        law_numerals_are_not_negative(bound_digits(last.low));
        if last.high is Some {
            law_numerals_are_not_negative(bound_digits(last.high->Some_0));
        }
        assert(item_texts(items).drop_last() =~= item_texts(before));
        assert(item_texts(items).last() == last.text());
        assert(item_ranges(items) =~= item_ranges(before).push(item_range(last)));
        assert(item_ranges(items).drop_last() =~= item_ranges(before));
        assert(item_ranges(items).last() == item_range(last));
    } else {
        assert(item_ranges(items) =~= Seq::<Range>::empty());
    }
}

proof fn lemma_bracket_stands(prefix: Seq<char>, body: Seq<char>, suffix: Seq<char>)
    requires
        no_bracket(prefix),
        no_bracket(suffix),
        !body.contains(']'),
    ensures
        ({
            let name = prefix.push('[') + body + seq![']'] + suffix;
            let rest = name.skip(prefix.len() as int + 1);
            &&& first_index(name, '[') == prefix.len()
            &&& name.take(prefix.len() as int) == prefix
            &&& first_index(rest, ']') == body.len()
            &&& body.len() < rest.len()
            &&& rest.take(body.len() as int) == body
            &&& rest.skip(body.len() as int + 1) == suffix
            &&& prefix.len() < name.len()
        }),
{
    let name = prefix.push('[') + body + seq![']'] + suffix;
    let n = prefix.len() as int;
    let m = body.len() as int;
    assert forall|j: int| 0 <= j < n implies name[j] != '[' by {
        assert(name[j] == prefix[j]);
        assert(prefix.contains(prefix[j]));
    }
    assert(name[n] == '[');
    lemma_first_index_is(name, '[', n);
    let rest = name.skip(n + 1);
    assert(rest =~= body + seq![']'] + suffix);
    assert forall|j: int| 0 <= j < m implies rest[j] != ']' by {
        assert(rest[j] == body[j]);
        assert(body.contains(body[j]));
    }
    assert(rest[m] == ']');
    lemma_first_index_is(rest, ']', m);
    assert(name.take(n) =~= prefix);
    assert(rest.take(m) =~= body);
    assert(rest.skip(m + 1) =~= suffix);
}

proof fn lemma_names_stand_in_order(
    prefix: Seq<char>,
    items: Seq<Item>,
    suffix: Seq<char>,
    k: int,
    n: int,
)
    requires
        forall|j: int| 0 <= j < items.len() ==> (#[trigger] items[j]).ascends(),
        forall|j: int| 0 <= j < items.len() ==> (#[trigger] items[j]).low.len() <= usize::MAX,
        0 <= k < items.len(),
        items[k].first() <= n <= items[k].last(),
    ensures
        ({
            let names = all_names(prefix, item_ranges(items), suffix);
            let at = numbers_in(items, k) + n - items[k].first();
            &&& names.len() == numbers_in(items, items.len() as int)
            &&& 0 <= at < names.len()
            &&& names[at] == prefix + zero_padded(n, items[k].low.len() as int) + suffix
        }),
    decreases items.len(),
{
    let ranges = item_ranges(items);
    let before = items.drop_last();
    let last = items.last();
    assert forall|j: int| 0 <= j < before.len() implies (#[trigger] before[j]).ascends() by {
        assert(before[j] == items[j]);
    }
    assert forall|j: int| 0 <= j < before.len() implies (#[trigger] before[j]).low.len()
        <= usize::MAX by {
        assert(before[j] == items[j]);
    }
    assert forall|j: int| 0 <= j < ranges.len() implies (#[trigger] ranges[j]).start
        <= ranges[j].end by {
        assert(items[j].ascends());
        law_numerals_are_not_negative(bound_digits(items[j].low));
    }
    assert(items[items.len() - 1].ascends());
    law_numerals_are_not_negative(bound_digits(last.low));
    lemma_items_are_ranges(prefix, items);
    lemma_items_are_ranges(prefix, before);
    lemma_all_names_count(prefix, ranges, suffix);
    lemma_numbers_of_fewer(items, before, before.len() as int);
    lemma_numbers_many(items, k);
    let earlier = all_names(prefix, item_ranges(before), suffix);
    assert forall|j: int| 0 <= j < item_ranges(before).len() implies (
    #[trigger] item_ranges(before)[j]).start <= item_ranges(before)[j].end by {
        assert(item_ranges(before)[j] == ranges[j]);
    }
    lemma_all_names_count(prefix, item_ranges(before), suffix);
    let row = range_names(prefix, item_range(last), suffix);
    assert(ranges.drop_last() =~= item_ranges(before));
    assert(ranges.last() == item_range(last));
    if k < before.len() {
        assert(before[k] == items[k]);
        lemma_numbers_of_fewer(items, before, k);
        lemma_names_stand_in_order(prefix, before, suffix, k, n);
    } else {
        assert(row[n - last.first()] == prefix + zero_padded(n, last.low.len() as int) + suffix);
    }
}

/// A pattern stands for the numbers of its bracket, item by item as they are
/// written and in ascending order within each: the text before the bracket, the
/// number in decimal filled with zeros to the width of the item's lower bound,
/// and the text after the bracket. There are no other names.
pub proof fn law_a_pattern_stands_for_its_numbers(
    prefix: Seq<char>,
    items: Seq<Item>,
    suffix: Seq<char>,
    k: int,
    n: int,
)
    requires
        no_bracket(prefix),
        no_bracket(suffix),
        forall|j: int| 0 <= j < items.len() ==> (#[trigger] items[j]).ascends(),
        forall|j: int| 0 <= j < items.len() ==> (#[trigger] items[j]).low.len() <= usize::MAX,
        numbers_in(items, items.len() as int) <= 65_536,
        0 <= k < items.len(),
        items[k].first() <= n <= items[k].last(),
    ensures
        expanded(pattern_of(prefix, items, suffix)) is Ok,
        ({
            let names = expanded(pattern_of(prefix, items, suffix))->Ok_0;
            let name = names[numbers_in(items, k) + n - items[k].first()];
            &&& names.len() == numbers_in(items, items.len() as int)
            &&& 0 <= numbers_in(items, k) + n - items[k].first() < names.len()
            &&& prefix.is_prefix_of(name)
            &&& suffix.is_suffix_of(name)
            &&& name.len() >= prefix.len() + suffix.len()
            &&& is_padded(between(name, prefix, suffix), n, items[k].low.len() as int)
        }),
{
    let name = pattern_of(prefix, items, suffix);
    lemma_items_are_pieces(items);
    lemma_bracket_stands(prefix, items_text(items), suffix);
    lemma_items_are_ranges(name, items);
    lemma_names_stand_in_order(prefix, items, suffix, k, n);
    assert(items[k].ascends());
    law_numerals_are_not_negative(bound_digits(items[k].low));
    let number = zero_padded(n, items[k].low.len() as int);
    law_padding_fills_with_zeros(n, items[k].low.len() as int);
    let made = prefix + number + suffix;
    assert(between(made, prefix, suffix) =~= number);
    assert(made.take(prefix.len() as int) =~= prefix);
    assert(made.skip(made.len() - suffix.len()) =~= suffix);
}

/// A pattern of too many numbers is refused whole.
pub proof fn law_a_pattern_over_the_cap_is_refused(
    prefix: Seq<char>,
    items: Seq<Item>,
    suffix: Seq<char>,
)
    requires
        no_bracket(prefix),
        no_bracket(suffix),
        forall|j: int| 0 <= j < items.len() ==> (#[trigger] items[j]).ascends(),
        forall|j: int| 0 <= j < items.len() ==> (#[trigger] items[j]).low.len() <= usize::MAX,
        numbers_in(items, items.len() as int) > 65_536,
    ensures
        expanded(pattern_of(prefix, items, suffix)) == Err::<Seq<Seq<char>>, Seq<char>>(
            "`"@ + pattern_of(prefix, items, suffix)
                + "` expands to more than 65536 hosts; check the range"@,
        ),
{
    reveal_strlit("`");
    reveal_strlit(" expands to more than 65536 hosts; check the range");
    reveal_strlit("` expands to more than 65536 hosts; check the range");
    lemma_quoted_says(
        pattern_of(prefix, items, suffix),
        " expands to more than 65536 hosts; check the range"@,
    );
    assert("`"@ + " expands to more than 65536 hosts; check the range"@
        =~= "` expands to more than 65536 hosts; check the range"@);
    lemma_items_are_pieces(items);
    lemma_bracket_stands(prefix, items_text(items), suffix);
    lemma_items_are_ranges(pattern_of(prefix, items, suffix), items);
}

/// Whether an item of a bracket is a number, or two ascending ones with a `-`
/// between them.
pub open spec fn is_item(s: Seq<char>) -> bool {
    exists|low: Seq<char>, high: Seq<char>|
        {
            &&& s == low && high == low || s == #[trigger] (low.push('-') + high)
            &&& all_digits(bound_digits(low))
            &&& all_digits(bound_digits(high))
            &&& numeral(bound_digits(low)) <= numeral(bound_digits(high)) <= u32::MAX
        }
}

/// What is no pattern is refused rather than guessed at: a name with a bracket
/// that expands has one, opened and closed once, and every item of it is a
/// number or an ascending range.
pub proof fn law_only_a_bracket_of_ranges_expands(name: Seq<char>) -> (parts: (
    Seq<char>,
    Seq<char>,
    Seq<char>,
))
    requires
        !no_bracket(name),
        expanded(name) is Ok,
    ensures
        name == parts.0 + seq!['['] + parts.1 + seq![']'] + parts.2,
        no_bracket(parts.0),
        no_bracket(parts.2),
        parts.1.len() > 0,
        forall|i: int| 0 <= i < pieces(parts.1, ',').len() ==> is_item(#[trigger] pieces(parts.1, ',')[i]),
{
    lemma_first_index(name, '[');
    let open = first_index(name, '[');
    let prefix = name.take(open);
    let rest = name.skip(open + 1);
    lemma_first_index(rest, ']');
    let close = first_index(rest, ']');
    let body = rest.take(close);
    let suffix = rest.skip(close + 1);
    assert(open < name.len());
    assert(name =~= prefix + seq!['['] + body + seq![']'] + suffix);
    assert(!prefix.contains('[')) by {
        if prefix.contains('[') {
            let j = choose|j: int| 0 <= j < prefix.len() && prefix[j] == '[';
            assert(name[j] == '[');
        }
    }
    let items = pieces(body, ',');
    assert forall|i: int| 0 <= i < items.len() implies is_item(#[trigger] items[i]) by {
        lemma_ranges_are_items(name, items, i);
        lemma_readable_item(name, items[i]);
    }
    (prefix, body, suffix)
}

proof fn lemma_readable_item(name: Seq<char>, s: Seq<char>)
    requires
        range_of(name, s) is Ok,
    ensures
        is_item(s),
{
    let dash = first_index(s, '-');
    lemma_first_index(s, '-');
    let low = if dash < s.len() {
        s.take(dash)
    } else {
        s
    };
    let high = if dash < s.len() {
        s.skip(dash + 1)
    } else {
        s
    };
    lemma_readable_bound(low);
    lemma_readable_bound(high);
    assert(dash < s.len() ==> s =~= low.push('-') + high);
    let both = low.push('-') + high;
}

proof fn lemma_bound_is_read(s: Seq<char>)
    requires
        all_digits(bound_digits(s)),
        numeral(bound_digits(s)) <= u32::MAX,
    ensures
        parsed_u32(s) == Some(numeral(bound_digits(s)) as u32),
{
    law_a_number_is_read_as_it_is_written(bound_digits(s));
    if s[0] == '+' {
        assert(seq!['+'] + s.skip(1) =~= s);
    }
}

proof fn lemma_readable_bound(s: Seq<char>)
    requires
        parsed_u32(s) is Some,
    ensures
        all_digits(bound_digits(s)),
        numeral(bound_digits(s)) == parsed_u32(s)->Some_0,
{
    law_a_number_is_read_as_it_is_written(bound_digits(s));
    law_a_number_is_read_as_it_is_written(s);
    if s[0] == '+' {
        assert(seq!['+'] + s.skip(1) =~= s);
    }
    law_numerals_are_not_negative(bound_digits(s));
}

/// A name with something wrong about its brackets is refused for that, and the
/// message shows the name as it was written.
pub proof fn law_what_is_wrong_with_the_brackets_is_said(a: Seq<char>, b: Seq<char>, c: Seq<char>)
    requires
        !a.contains('['),
    ensures
        a.contains(']') ==> expanded(a) == Err::<Seq<Seq<char>>, Seq<char>>(
            "`"@ + a + "` has a `]` with no `[`"@,
        ),
        a.contains(']') ==> expanded(a.push('[') + b) == Err::<Seq<Seq<char>>, Seq<char>>(
            "`"@ + (a.push('[') + b) + "` has a `]` before its `[`"@,
        ),
        !a.contains(']') && !b.contains(']') ==> expanded(a.push('[') + b) == Err::<
            Seq<Seq<char>>,
            Seq<char>,
        >("`"@ + (a.push('[') + b) + "` opens a `[` that is never closed"@),
        !a.contains(']') && !b.contains(']') && !no_bracket(c) ==> expanded(
            a.push('[') + b.push(']') + c,
        ) == Err::<Seq<Seq<char>>, Seq<char>>(
            "`"@ + (a.push('[') + b.push(']') + c)
                + "` has more than one bracketed range; a name may have only one"@,
        ),
        !a.contains(']') && no_bracket(c) ==> expanded(a.push('[').push(']') + c) == Err::<
            Seq<Seq<char>>,
            Seq<char>,
        >("`"@ + (a.push('[').push(']') + c) + "` has an empty range"@),
{
    reveal_strlit("`");
    reveal_strlit(" has a `]` with no `[`");
    reveal_strlit("` has a `]` with no `[`");
    reveal_strlit(" has a `]` before its `[`");
    reveal_strlit("` has a `]` before its `[`");
    reveal_strlit(" opens a `[` that is never closed");
    reveal_strlit("` opens a `[` that is never closed");
    reveal_strlit(" has more than one bracketed range; a name may have only one");
    reveal_strlit("` has more than one bracketed range; a name may have only one");
    reveal_strlit(" has an empty range");
    reveal_strlit("` has an empty range");
    assert("`"@ + " has a `]` with no `[`"@ =~= "` has a `]` with no `[`"@);
    assert("`"@ + " has a `]` before its `[`"@ =~= "` has a `]` before its `[`"@);
    assert("`"@ + " opens a `[` that is never closed"@ =~= "` opens a `[` that is never closed"@);
    assert("`"@ + " has more than one bracketed range; a name may have only one"@
        =~= "` has more than one bracketed range; a name may have only one"@);
    assert("`"@ + " has an empty range"@ =~= "` has an empty range"@);
    lemma_first_index(a, '[');
    lemma_quoted_says(a, " has a `]` with no `[`"@);
    let n = a.len() as int;
    let open = a.push('[') + b;
    lemma_opened_at(a, b);
    lemma_quoted_says(open, " has a `]` before its `[`"@);
    lemma_quoted_says(open, " opens a `[` that is never closed"@);
    lemma_first_index(b, ']');
    let more = a.push('[') + b.push(']') + c;
    assert(more =~= a.push('[') + (b.push(']') + c));
    lemma_opened_at(a, b.push(']') + c);
    lemma_quoted_says(more, " has more than one bracketed range; a name may have only one"@);
    lemma_closed_at(b, c);
    let none = Seq::<char>::empty();
    let empty = a.push('[').push(']') + c;
    assert(empty =~= a.push('[') + (none.push(']') + c));
    lemma_opened_at(a, none.push(']') + c);
    lemma_closed_at(none, c);
    lemma_quoted_says(empty, " has an empty range"@);
}

proof fn lemma_quoted_says(name: Seq<char>, what: Seq<char>)
    ensures
        quoted(name) + what == "`"@ + name + ("`"@ + what),
{
    assert(quoted(name) + what =~= "`"@ + name + ("`"@ + what));
}

proof fn lemma_opened_at(a: Seq<char>, rest: Seq<char>)
    requires
        !a.contains('['),
    ensures
        first_index(a.push('[') + rest, '[') == a.len(),
        (a.push('[') + rest).take(a.len() as int) == a,
        (a.push('[') + rest).skip(a.len() as int + 1) == rest,
{
    let s = a.push('[') + rest;
    let n = a.len() as int;
    assert forall|j: int| 0 <= j < n implies s[j] != '[' by {
        assert(s[j] == a[j]);
        assert(a.contains(a[j]));
    }
    assert(s[n] == '[');
    lemma_first_index_is(s, '[', n);
    assert(s.take(n) =~= a);
    assert(s.skip(n + 1) =~= rest);
}

proof fn lemma_closed_at(b: Seq<char>, c: Seq<char>)
    ensures
        !b.contains(']') ==> {
            &&& first_index(b.push(']') + c, ']') == b.len()
            &&& (b.push(']') + c).take(b.len() as int) == b
            &&& (b.push(']') + c).skip(b.len() as int + 1) == c
        },
{
    let s = b.push(']') + c;
    let n = b.len() as int;
    if !b.contains(']') {
        assert forall|j: int| 0 <= j < n implies s[j] != ']' by {
            assert(s[j] == b[j]);
            assert(b.contains(b[j]));
        }
        assert(s[n] == ']');
        lemma_first_index_is(s, ']', n);
        assert(s.take(n) =~= b);
        assert(s.skip(n + 1) =~= c);
    }
}

/// What is wrong with an item is said of that item: a stride, a bound that is
/// missing, one that is no number, or a range that counts down.
#[verifier::spinoff_prover]
#[verifier::rlimit(40)]
pub proof fn law_what_is_wrong_with_an_item_is_said(
    name: Seq<char>,
    low: Seq<char>,
    high: Seq<char>,
)
    requires
        !low.contains('-'),
    ensures
        ({
            let item = low.push('-') + high;
            let start = "`"@ + name + "`: "@;
            let said = range_of(name, item);
            &&& high.contains('-') ==> said == Err::<Range, Seq<char>>(
                start + "`"@ + item + "` is not a range; strides are not supported"@,
            )
            &&& !high.contains('-') && (low.len() == 0 || high.len() == 0) ==> said == Err::<
                Range,
                Seq<char>,
            >(start + "`"@ + item + "` is an incomplete range"@)
            &&& !high.contains('-') && low.len() > 0 && high.len() > 0 && !is_number(low) ==> said
                == Err::<Range, Seq<char>>(start + "`"@ + low + "` is not a number"@)
            &&& !high.contains('-') && is_number(low) && high.len() > 0 && !is_number(high) ==> said
                == Err::<Range, Seq<char>>(start + "`"@ + high + "` is not a number"@)
            &&& !high.contains('-') && is_number(low) && is_number(high) && numeral(
                bound_digits(low),
            ) > numeral(bound_digits(high)) ==> said == Err::<Range, Seq<char>>(
                start + "range `"@ + item + "` counts down; ranges must ascend"@,
            )
            &&& !is_number(low) ==> range_of(name, low) == Err::<Range, Seq<char>>(
                start + "`"@ + low + "` is not a number"@,
            )
        }),
{
    reveal_strlit("`");
    reveal_strlit(": ");
    reveal_strlit("`: ");
    reveal_strlit(": range ");
    reveal_strlit("range `");
    reveal_strlit(" is not a range; strides are not supported");
    reveal_strlit("` is not a range; strides are not supported");
    reveal_strlit(" is an incomplete range");
    reveal_strlit("` is an incomplete range");
    reveal_strlit(" is not a number");
    reveal_strlit("` is not a number");
    reveal_strlit(" counts down; ranges must ascend");
    reveal_strlit("` counts down; ranges must ascend");
    let item = low.push('-') + high;
    let start = "`"@ + name + "`: "@;
    let n = low.len() as int;
    assert forall|j: int| 0 <= j < n implies item[j] != '-' by {
        assert(item[j] == low[j]);
        assert(low.contains(low[j]));
    }
    assert(item[n] == '-');
    lemma_first_index_is(item, '-', n);
    lemma_first_index(low, '-');
    assert(item.take(n) =~= low);
    assert(item.skip(n + 1) =~= high);
    lemma_number_is_read(low);
    lemma_number_is_read(high);
    assert(quoted(name) + ": "@ + quoted(item) + " is not a range; strides are not supported"@
        =~= start + "`"@ + item + "` is not a range; strides are not supported"@);
    assert(quoted(name) + ": "@ + quoted(item) + " is an incomplete range"@ =~= start + "`"@ + item
        + "` is an incomplete range"@);
    assert(quoted(name) + ": "@ + quoted(low) + " is not a number"@ =~= start + "`"@ + low
        + "` is not a number"@);
    assert(quoted(name) + ": "@ + quoted(high) + " is not a number"@ =~= start + "`"@ + high
        + "` is not a number"@);
    assert(quoted(name) + ": range "@ + quoted(item) + " counts down; ranges must ascend"@ =~= start
        + "range `"@ + item + "` counts down; ranges must ascend"@);
}

/// Whether a bound is a number of at most 32 bits.
pub open spec fn is_number(bound: Seq<char>) -> bool {
    all_digits(bound_digits(bound)) && numeral(bound_digits(bound)) <= u32::MAX
}

proof fn lemma_number_is_read(s: Seq<char>)
    ensures
        parsed_u32(s) is Some <==> is_number(s),
        is_number(s) ==> parsed_u32(s)->Some_0 == numeral(bound_digits(s)),
{
    if is_number(s) {
        lemma_bound_is_read(s);
        law_numerals_are_not_negative(bound_digits(s));
    }
    if parsed_u32(s) is Some {
        lemma_readable_bound(s);
    }
}

/// The first item of a list that is wrong decides what is said of the list.
pub proof fn law_the_first_wrong_item_is_the_one_named(
    prefix: Seq<char>,
    items: Seq<Item>,
    wrong: Seq<char>,
    rest: Seq<char>,
    suffix: Seq<char>,
)
    requires
        no_bracket(prefix),
        no_bracket(suffix),
        forall|j: int| 0 <= j < items.len() ==> (#[trigger] items[j]).ascends(),
        forall|j: int| 0 <= j < items.len() ==> (#[trigger] items[j]).low.len() <= usize::MAX,
        items.len() > 0,
        numbers_in(items, items.len() as int) <= 65_536,
        !wrong.contains(',') && !wrong.contains(']'),
        !rest.contains(']'),
        range_of(
            prefix.push('[') + (items_text(items).push(',') + (wrong.push(',') + rest)) + seq![']']
                + suffix,
            wrong,
        ) is Err,
    ensures
        ({
            let name = prefix.push('[') + (items_text(items).push(',') + (wrong.push(',') + rest))
                + seq![']'] + suffix;
            expanded(name) == Err::<Seq<Seq<char>>, Seq<char>>(range_of(name, wrong)->Err_0)
        }),
{
    let good = items_text(items);
    let tail = wrong.push(',') + rest;
    let body = good.push(',') + tail;
    let name = prefix.push('[') + body + seq![']'] + suffix;
    lemma_items_are_pieces(items);
    lemma_items_are_ranges(name, items);
    assert(!body.contains(']')) by {
        if body.contains(']') {
            let i = choose|i: int| 0 <= i < body.len() && body[i] == ']';
            if i < good.len() {
                assert(good[i] == ']');
            } else if i > good.len() {
                let j = i - good.len() - 1;
                if j < wrong.len() {
                    assert(wrong[j] == ']');
                } else if j > wrong.len() {
                    assert(rest[j - wrong.len() - 1] == ']');
                }
            }
        }
    }
    lemma_bracket_stands(prefix, body, suffix);
    lemma_pieces_join(good, tail, ',');
    lemma_pieces_join(wrong, rest, ',');
    lemma_pieces_one(wrong, ',');
    let all = pieces(body, ',');
    let n = items.len() as int;
    assert(all =~= item_texts(items) + (seq![wrong] + pieces(rest, ',')));
    assert(all.take(n + 1) =~= item_texts(items).push(wrong));
    assert(all.take(n + 1).drop_last() =~= item_texts(items));
    lemma_ranges_of_fails(name, all, n + 1);
}

/// A bracket whose first item is wrong is refused for that item, whether or not
/// others follow.
pub proof fn law_a_wrong_first_item_is_the_one_named(
    prefix: Seq<char>,
    wrong: Seq<char>,
    rest: Seq<char>,
    suffix: Seq<char>,
)
    requires
        no_bracket(prefix),
        no_bracket(suffix),
        wrong.len() > 0,
        !wrong.contains(',') && !wrong.contains(']'),
        !rest.contains(']'),
    ensures
        ({
            let name = prefix.push('[') + wrong + seq![']'] + suffix;
            range_of(name, wrong) is Err ==> expanded(name) == Err::<Seq<Seq<char>>, Seq<char>>(
                range_of(name, wrong)->Err_0,
            )
        }),
        ({
            let name = prefix.push('[') + (wrong.push(',') + rest) + seq![']'] + suffix;
            range_of(name, wrong) is Err ==> expanded(name) == Err::<Seq<Seq<char>>, Seq<char>>(
                range_of(name, wrong)->Err_0,
            )
        }),
{
    lemma_pieces_one(wrong, ',');
    lemma_bracket_stands(prefix, wrong, suffix);
    let alone = prefix.push('[') + wrong + seq![']'] + suffix;
    assert(seq![wrong].drop_last() =~= Seq::<Seq<char>>::empty());
    assert(ranges_of(alone, Seq::empty()) == Ok::<Seq<Range>, Seq<char>>(Seq::empty()));
    let body = wrong.push(',') + rest;
    assert(!body.contains(']')) by {
        if body.contains(']') {
            let i = choose|i: int| 0 <= i < body.len() && body[i] == ']';
            if i < wrong.len() {
                assert(wrong[i] == ']');
            } else if i > wrong.len() {
                assert(rest[i - wrong.len() - 1] == ']');
            }
        }
    }
    lemma_bracket_stands(prefix, body, suffix);
    lemma_pieces_join(wrong, rest, ',');
    let name = prefix.push('[') + body + seq![']'] + suffix;
    let all = pieces(body, ',');
    assert(all.take(1) =~= seq![wrong]);
    assert(ranges_of(name, Seq::empty()) == Ok::<Seq<Range>, Seq<char>>(Seq::empty()));
    if range_of(name, wrong) is Err {
        lemma_ranges_of_fails(name, all, 1);
    }
}

} // verus!
