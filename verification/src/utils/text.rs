//! Characters of a text: white space at its ends, and the pieces between
//! separators.
use vstd::prelude::*;
use vstd::string::*;

verus! {

/// Whether the character is white space: one of the twenty-five characters with
/// the Unicode property `White_Space`.
pub open spec fn is_white_space(c: char) -> bool {
    let code = c as u32;
    ||| 0x09 <= code <= 0x0D
    ||| code == 0x20
    ||| code == 0x85
    ||| code == 0xA0
    ||| code == 0x1680
    ||| 0x2000 <= code <= 0x200A
    ||| code == 0x2028
    ||| code == 0x2029
    ||| code == 0x202F
    ||| code == 0x205F
    ||| code == 0x3000
}

/// How many characters of white space the text begins with.
pub open spec fn leading_white_space(text: Seq<char>) -> nat
    decreases text.len(),
{
    if text.len() > 0 && is_white_space(text[0]) {
        1 + leading_white_space(text.drop_first())
    } else {
        0
    }
}

/// How many characters of white space the text ends with.
pub open spec fn trailing_white_space(text: Seq<char>) -> nat
    decreases text.len(),
{
    if text.len() > 0 && is_white_space(text.last()) {
        1 + trailing_white_space(text.drop_last())
    } else {
        0
    }
}

/// The text without the white space at its two ends.
pub open spec fn trimmed(text: Seq<char>) -> Seq<char> {
    let rest = text.skip(leading_white_space(text) as int);
    rest.take(rest.len() - trailing_white_space(rest))
}

/// Where `c` first stands in the text; the text's length where it does not.
pub open spec fn first_index(text: Seq<char>, c: char) -> int
    decreases text.len(),
{
    if text.len() == 0 || text[0] == c {
        0
    } else {
        1 + first_index(text.drop_first(), c)
    }
}

/// The pieces of the text between the separators, in order: one more piece
/// than there are separators, each possibly empty.
pub open spec fn split_on(text: Seq<char>, separator: char) -> Seq<Seq<char>>
    decreases text.len(),
{
    let at = first_index(text, separator);
    if 0 <= at < text.len() {
        seq![text.take(at)] + split_on(text.skip(at + 1), separator)
    } else {
        seq![text]
    }
}

/// A text begins with `count` characters of white space when those are white
/// space and the next one is not.
pub proof fn lemma_leading_white_space(text: Seq<char>, count: int)
    requires
        0 <= count <= text.len(),
        forall|k: int| 0 <= k < count ==> is_white_space(#[trigger] text[k]),
        count == text.len() || !is_white_space(text[count]),
    ensures
        leading_white_space(text) == count,
    decreases count,
{
    if count > 0 {
        let rest = text.drop_first();
        assert forall|k: int| 0 <= k < count - 1 implies is_white_space(#[trigger] rest[k]) by {
            assert(rest[k] == text[k + 1]);
        }
        lemma_leading_white_space(rest, count - 1);
    }
}

/// A text ends with `count` characters of white space when those are white
/// space and the one before them is not.
pub proof fn lemma_trailing_white_space(text: Seq<char>, count: int)
    requires
        0 <= count <= text.len(),
        forall|k: int| text.len() - count <= k < text.len() ==> is_white_space(#[trigger] text[k]),
        count == text.len() || !is_white_space(text[text.len() - count - 1]),
    ensures
        trailing_white_space(text) == count,
    decreases count,
{
    if count > 0 {
        let rest = text.drop_last();
        assert forall|k: int| rest.len() - (count - 1) <= k < rest.len() implies is_white_space(
            #[trigger] rest[k],
        ) by {
            assert(rest[k] == text[k]);
        }
        lemma_trailing_white_space(rest, count - 1);
    }
}

/// `c` first stands at `at` when it stands there and nowhere before.
pub proof fn lemma_first_index(text: Seq<char>, c: char, at: int)
    requires
        0 <= at <= text.len(),
        forall|k: int| 0 <= k < at ==> #[trigger] text[k] != c,
        at == text.len() || text[at] == c,
    ensures
        first_index(text, c) == at,
    decreases at,
{
    if at > 0 {
        let rest = text.drop_first();
        assert forall|k: int| 0 <= k < at - 1 implies #[trigger] rest[k] != c by {
            assert(rest[k] == text[k + 1]);
        }
        lemma_first_index(rest, c, at - 1);
    }
}

/// A text has at least one piece.
pub proof fn lemma_split_has_a_piece(text: Seq<char>, separator: char)
    ensures
        split_on(text, separator).len() >= 1,
{
}

/// Tells whether the character is white space.
pub fn is_space(c: char) -> (r: bool)
    ensures
        r == is_white_space(c),
{
    let code: u32 = c as u32;
    (0x09 <= code && code <= 0x0D) || code == 0x20 || code == 0x85 || code == 0xA0 || code
        == 0x1680 || (0x2000 <= code && code <= 0x200A) || code == 0x2028 || code == 0x2029 || code
        == 0x202F || code == 0x205F || code == 0x3000
}

/// The characters of a text, in order.
pub fn characters(text: &str) -> (chars: Vec<char>)
    ensures
        chars@ == text@,
{
    let mut chars: Vec<char> = Vec::new();
    for c in it: text.chars()
        invariant
            chars@ == it.seq().take(it.index() as int),
    {
        chars.push(c);
    }
    chars
}

/// The characters from `from` up to `to`, as a vector of their own.
pub fn copy_range(chars: &Vec<char>, from: usize, to: usize) -> (r: Vec<char>)
    requires
        from <= to <= chars.len(),
    ensures
        r@ == chars@.subrange(from as int, to as int),
{
    let mut r: Vec<char> = Vec::new();
    let mut i: usize = from;
    while i < to
        invariant
            from <= i <= to <= chars.len(),
            r@ == chars@.subrange(from as int, i as int),
        decreases to - i,
    {
        r.push(chars[i]);
        assert(r@ == chars@.subrange(from as int, i + 1));
        i += 1;
    }
    r
}

/// Trims the characters from `from` up to `to`: returns where the trimmed
/// text begins and where it ends.
pub fn trim_range(chars: &Vec<char>, from: usize, to: usize) -> (r: (usize, usize))
    requires
        from <= to <= chars.len(),
    ensures
        from <= r.0 <= r.1 <= to,
        chars@.subrange(r.0 as int, r.1 as int) == trimmed(chars@.subrange(from as int, to as int)),
{
    let ghost text = chars@.subrange(from as int, to as int);
    let mut begin: usize = from;
    while begin < to && is_space(chars[begin])
        invariant
            from <= begin <= to <= chars.len(),
            forall|k: int| from <= k < begin ==> is_white_space(#[trigger] chars@[k]),
        decreases to - begin,
    {
        begin += 1;
    }
    let mut end: usize = to;
    while begin < end && is_space(chars[end - 1])
        invariant
            begin <= end <= to <= chars.len(),
            forall|k: int| end <= k < to ==> is_white_space(#[trigger] chars@[k]),
        decreases end,
    {
        end -= 1;
    }
    proof {
        assert forall|k: int| 0 <= k < begin - from implies is_white_space(#[trigger] text[k]) by {
            assert(text[k] == chars@[from + k]);
        }
        lemma_leading_white_space(text, begin - from);
        let rest = text.skip(begin - from);
        assert(rest == chars@.subrange(begin as int, to as int));
        assert forall|k: int| rest.len() - (to - end) <= k < rest.len() implies is_white_space(
            #[trigger] rest[k],
        ) by {
            assert(rest[k] == chars@[begin + k]);
        }
        lemma_trailing_white_space(rest, to - end);
        assert(rest.take(rest.len() - (to - end)) == chars@.subrange(begin as int, end as int));
    }
    (begin, end)
}

/// Splits the characters from `from` up to `to` at each `separator`: returns
/// where each piece begins and ends, or `None` where there are more than `limit`
/// pieces.
pub fn split_range(chars: &Vec<char>, from: usize, to: usize, separator: char, limit: usize) -> (r:
    Option<Vec<(usize, usize)>>)
    requires
        from <= to <= chars.len(),
    ensures
        match r {
            Some(ranges) => {
                let pieces = split_on(chars@.subrange(from as int, to as int), separator);
                &&& ranges@.len() == pieces.len()
                &&& pieces.len() <= limit
                &&& forall|k: int|
                    0 <= k < ranges@.len() ==> from <= (#[trigger] ranges@[k]).0 <= ranges@[k].1
                        <= to && chars@.subrange(ranges@[k].0 as int, ranges@[k].1 as int)
                        == pieces[k]
            },
            None => split_on(chars@.subrange(from as int, to as int), separator).len() > limit,
        },
{
    let ghost pieces = split_on(chars@.subrange(from as int, to as int), separator);
    let mut ranges: Vec<(usize, usize)> = Vec::new();
    let mut begin: usize = from;
    let mut i: usize = from;
    while i < to
        invariant
            from <= begin <= i <= to <= chars.len(),
            pieces == split_on(chars@.subrange(from as int, to as int), separator),
            forall|k: int| begin <= k < i ==> #[trigger] chars@[k] != separator,
            ranges@.len() < limit || begin == from,
            pieces == Seq::new(
                ranges@.len(),
                |k: int| chars@.subrange(ranges@[k].0 as int, ranges@[k].1 as int),
            ) + split_on(chars@.subrange(begin as int, to as int), separator),
            forall|k: int|
                0 <= k < ranges@.len() ==> from <= (#[trigger] ranges@[k]).0 <= ranges@[k].1 <= to,
        decreases to - i,
    {
        if chars[i] == separator {
            let ghost rest = chars@.subrange(begin as int, to as int);
            let ghost found = Seq::new(
                ranges@.len(),
                |k: int| chars@.subrange(ranges@[k].0 as int, ranges@[k].1 as int),
            );
            proof {
                assert forall|k: int| 0 <= k < i - begin implies #[trigger] rest[k] != separator by {
                    assert(rest[k] == chars@[begin + k]);
                }
                lemma_first_index(rest, separator, i - begin);
                assert(rest.take(i - begin) == chars@.subrange(begin as int, i as int));
                assert(rest.skip(i - begin + 1) == chars@.subrange(i + 1, to as int));
                lemma_split_has_a_piece(chars@.subrange(i + 1, to as int), separator);
            }
            if ranges.len() + 1 >= limit {
                return None;
            }
            ranges.push((begin, i));
            proof {
                let longer = Seq::new(
                    ranges@.len(),
                    |k: int| chars@.subrange(ranges@[k].0 as int, ranges@[k].1 as int),
                );
                assert(longer == found + seq![chars@.subrange(begin as int, i as int)]);
            }
            begin = i + 1;
        }
        i += 1;
    }
    proof {
        let rest = chars@.subrange(begin as int, to as int);
        assert forall|k: int| 0 <= k < rest.len() implies #[trigger] rest[k] != separator by {
            assert(rest[k] == chars@[begin + k]);
        }
        lemma_first_index(rest, separator, rest.len() as int);
    }
    if ranges.len() >= limit {
        return None;
    }
    let ghost found = Seq::new(
        ranges@.len(),
        |k: int| chars@.subrange(ranges@[k].0 as int, ranges@[k].1 as int),
    );
    ranges.push((begin, to));
    proof {
        let longer = Seq::new(
            ranges@.len(),
            |k: int| chars@.subrange(ranges@[k].0 as int, ranges@[k].1 as int),
        );
        assert(longer == found + seq![chars@.subrange(begin as int, to as int)]);
        assert(pieces == longer);
    }
    Some(ranges)
}

} // verus!
