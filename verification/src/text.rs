//! Text as sequences of characters: the characters of a string, its parts
//! between separators, and its whitespace-separated fields.

use vstd::prelude::*;

verus! {

/// The characters with the Unicode property `White_Space`.
pub open spec fn white_space(c: char) -> bool {
    ||| c == ' '
    ||| '\u{9}' <= c <= '\u{d}'
    ||| c == '\u{85}'
    ||| c == '\u{a0}'
    ||| c == '\u{1680}'
    ||| '\u{2000}' <= c <= '\u{200a}'
    ||| c == '\u{2028}'
    ||| c == '\u{2029}'
    ||| c == '\u{202f}'
    ||| c == '\u{205f}'
    ||| c == '\u{3000}'
}

/// The parts of `s` between the occurrences of `sep`. There is one part more
/// than there are separators; a part may be empty.
pub open spec fn split(s: Seq<char>, sep: char) -> Seq<Seq<char>>
    decreases s.len(),
{
    if s.len() == 0 {
        seq![Seq::empty()]
    } else {
        let before = split(s.drop_last(), sep);
        if s.last() == sep {
            before.push(Seq::empty())
        } else {
            before.drop_last().push(before.last().push(s.last()))
        }
    }
}

/// The number of characters at the start of `s` before the first whitespace
/// character, or before the end.
pub open spec fn word_len(s: Seq<char>) -> nat
    decreases s.len(),
{
    if s.len() == 0 || white_space(s[0]) {
        0
    } else {
        1 + word_len(s.skip(1))
    }
}

/// The fields of `s`: its longest runs of characters that are not
/// whitespace, in order. Whitespace before, between and after them is
/// dropped.
pub open spec fn fields(s: Seq<char>) -> Seq<Seq<char>>
    decreases s.len(),
{
    if s.len() == 0 {
        Seq::empty()
    } else if white_space(s[0]) {
        fields(s.skip(1))
    } else {
        proof {
            lemma_word_len_bounds(s);
        }
        seq![s.take(word_len(s) as int)] + fields(s.skip(word_len(s) as int))
    }
}

/// A run of characters before the first whitespace is no longer than the
/// text, and is not empty where the text starts with another character.
pub proof fn lemma_word_len_bounds(s: Seq<char>)
    ensures
        word_len(s) <= s.len(),
        s.len() > 0 && !white_space(s[0]) ==> word_len(s) >= 1,
    decreases s.len(),
{
    if s.len() > 0 && !white_space(s[0]) {
        lemma_word_len_bounds(s.skip(1));
    }
}

/// The parts put together again, with `sep` between each two.
pub open spec fn join(parts: Seq<Seq<char>>, sep: char) -> Seq<char>
    decreases parts.len(),
{
    if parts.len() == 0 {
        Seq::empty()
    } else if parts.len() == 1 {
        parts[0]
    } else {
        join(parts.drop_last(), sep).push(sep) + parts.last()
    }
}

/// Splitting loses nothing and leaves no separator behind: there is at
/// least one part, no part holds the separator, and the parts joined by the
/// separator are the text again.
pub proof fn lemma_split_join(s: Seq<char>, sep: char)
    ensures
        split(s, sep).len() >= 1,
        forall|i: int|
            0 <= i < split(s, sep).len() ==> !(#[trigger] split(s, sep)[i]).contains(sep),
        join(split(s, sep), sep) == s,
    decreases s.len(),
{
    let parts = split(s, sep);
    if s.len() == 0 {
        assert(join(parts, sep) =~= s);
    } else {
        let before = split(s.drop_last(), sep);
        let c = s.last();
        lemma_split_join(s.drop_last(), sep);
        assert(s.drop_last().push(c) =~= s);
        if c == sep {
            assert(parts.drop_last() =~= before);
            assert(join(parts, sep) =~= s);
        } else {
            let grown = before.last().push(c);
            assert(parts.last() == grown);
            assert(parts.drop_last() =~= before.drop_last());
            assert forall|i: int| 0 <= i < parts.len() implies !(#[trigger] parts[i]).contains(
                sep,
            ) by {
                if i == parts.len() - 1 {
                    if grown.contains(sep) {
                        let k = choose|k: int| 0 <= k < grown.len() && grown[k] == sep;
                        assert(before.last()[k] == sep);
                    }
                } else {
                    assert(parts[i] == before[i]);
                }
            }
            if before.len() == 1 {
                assert(join(before, sep) == before[0]);
                assert(join(parts, sep) =~= s);
            } else {
                assert(join(before, sep) == join(before.drop_last(), sep).push(sep)
                    + before.last());
                assert(join(parts, sep) =~= join(before, sep).push(c));
            }
        }
    }
}

/// The text is a word: it is not empty and holds no whitespace.
pub open spec fn is_word(w: Seq<char>) -> bool {
    w.len() > 0 && forall|k: int| 0 <= k < w.len() ==> !white_space(#[trigger] w[k])
}

/// Every field of a text is a word.
pub proof fn lemma_fields_are_words(s: Seq<char>)
    ensures
        forall|i: int| 0 <= i < fields(s).len() ==> is_word(#[trigger] fields(s)[i]),
    decreases s.len(),
{
    if s.len() == 0 {
        assert(fields(s).len() == 0);
    } else if white_space(s[0]) {
        lemma_fields_are_words(s.skip(1));
        assert(fields(s) == fields(s.skip(1)));
    } else {
        let n = word_len(s) as int;
        lemma_word_len_bounds(s);
        lemma_word_is_clean(s);
        lemma_fields_are_words(s.skip(n));
        let word = s.take(n);
        let rest = fields(s.skip(n));
        let all = fields(s);
        assert(all == seq![word] + rest);
        assert(is_word(word)) by {
            assert forall|k: int| 0 <= k < word.len() implies !white_space(#[trigger] word[k]) by {
                assert(word[k] == s[k]);
            }
        }
        assert forall|i: int| 0 <= i < all.len() implies is_word(#[trigger] all[i]) by {
            if i > 0 {
                assert(all[i] == rest[i - 1]);
            } else {
                assert(all[0] == word);
            }
        }
    }
}

/// No character of the run before the first whitespace is whitespace.
proof fn lemma_word_is_clean(s: Seq<char>)
    ensures
        forall|k: int| 0 <= k < word_len(s) ==> !white_space(#[trigger] s[k]),
    decreases s.len(),
{
    if s.len() > 0 && !white_space(s[0]) {
        lemma_word_is_clean(s.skip(1));
        lemma_word_len_bounds(s.skip(1));
        assert forall|k: int| 0 <= k < word_len(s) implies !white_space(#[trigger] s[k]) by {
            if k > 0 {
                assert(s[k] == s.skip(1)[k - 1]);
            }
        }
    }
}

/// The views of the vectors of a sequence.
pub open spec fn views(parts: Seq<Vec<char>>) -> Seq<Seq<char>> {
    parts.map_values(|part: Vec<char>| part@)
}

/// Whether the character has the Unicode property `White_Space`.
pub fn is_whitespace(c: char) -> (space: bool)
    ensures
        space == white_space(c),
{
    c == ' ' || ('\u{9}' <= c && c <= '\u{d}') || c == '\u{85}' || c == '\u{a0}' || c == '\u{1680}'
        || ('\u{2000}' <= c && c <= '\u{200a}') || c == '\u{2028}' || c == '\u{2029}' || c
        == '\u{202f}' || c == '\u{205f}' || c == '\u{3000}'
}

/// The characters of a string, in order.
pub fn chars_of(s: &str) -> (chars: Vec<char>)
    ensures
        chars@ == s@,
{
    let mut chars: Vec<char> = Vec::new();
    for c in it: s.chars()
        invariant
            chars@ == it.seq().take(it.index() as int),
            it.seq() == s@,
    {
        chars.push(c);
    }
    chars
}

/// The parts of the text between the occurrences of `sep`.
pub fn split_on(chars: &Vec<char>, sep: char) -> (parts: Vec<Vec<char>>)
    ensures
        views(parts@) == split(chars@, sep),
{
    let mut parts: Vec<Vec<char>> = Vec::new();
    let mut current: Vec<char> = Vec::new();
    let mut i: usize = 0;
    assert(chars@.take(0) =~= Seq::<char>::empty());
    assert(views(parts@).push(current@) =~= seq![Seq::<char>::empty()]);
    while i < chars.len()
        invariant
            i <= chars.len(),
            views(parts@).push(current@) == split(chars@.take(i as int), sep),
        decreases chars.len() - i,
    {
        let c = chars[i];
        proof {
            let next = chars@.take(i + 1);
            assert(next.drop_last() =~= chars@.take(i as int));
            assert(next.last() == c);
        }
        let ghost before = views(parts@).push(current@);
        if c == sep {
            parts.push(current);
            current = Vec::new();
            assert(views(parts@).push(current@) =~= before.push(Seq::empty()));
        } else {
            current.push(c);
            assert(views(parts@).push(current@) =~= before.drop_last().push(
                before.last().push(c),
            ));
        }
        i += 1;
    }
    assert(chars@.take(chars.len() as int) =~= chars@);
    let ghost before = views(parts@).push(current@);
    parts.push(current);
    assert(views(parts@) =~= before);
    parts
}

/// Where a run of characters that are not whitespace ends, given that
/// every character from `from` up to `to` is none, is the start of the
/// field that this run belongs to.
proof fn lemma_word_len_run(s: Seq<char>, from: int, to: int)
    requires
        0 <= from <= to <= s.len(),
        forall|k: int| from <= k < to ==> !white_space(#[trigger] s[k]),
    ensures
        word_len(s.skip(from)) == (to - from) + word_len(s.skip(to)),
    decreases to - from,
{
    if from < to {
        lemma_word_len_run(s, from + 1, to);
        assert(s.skip(from).skip(1) =~= s.skip(from + 1));
        assert(s.skip(from)[0] == s[from]);
    }
}

/// The bounds of the first field at or after `start`, if there is one. The
/// fields of the text from `start` on are this field and the fields of the
/// text after it.
pub fn next_field(chars: &Vec<char>, start: usize) -> (bounds: Option<(usize, usize)>)
    requires
        start <= chars.len(),
    ensures
        match bounds {
            Some((from, to)) => {
                &&& start <= from < to <= chars.len()
                &&& fields(chars@.skip(start as int)) == seq![
                    chars@.subrange(from as int, to as int),
                ] + fields(chars@.skip(to as int))
            },
            None => fields(chars@.skip(start as int)) == Seq::<Seq<char>>::empty(),
        },
{
    let ghost s = chars@;
    let mut from = start;
    while from < chars.len() && is_whitespace(chars[from])
        invariant
            start <= from <= chars.len(),
            s == chars@,
            fields(s.skip(start as int)) == fields(s.skip(from as int)),
        decreases chars.len() - from,
    {
        assert(s.skip(from as int).skip(1) =~= s.skip(from + 1));
        from += 1;
    }
    if from >= chars.len() {
        assert(s.skip(from as int) =~= Seq::<char>::empty());
        return None;
    }
    let mut to = from + 1;
    while to < chars.len() && !is_whitespace(chars[to])
        invariant
            from < to <= chars.len(),
            s == chars@,
            forall|k: int| from <= k < to ==> !white_space(#[trigger] s[k]),
        decreases chars.len() - to,
    {
        to += 1;
    }
    proof {
        let rest = s.skip(from as int);
        lemma_word_len_run(s, from as int, to as int);
        assert(word_len(s.skip(to as int)) == 0);
        assert(rest.take(to - from) =~= s.subrange(from as int, to as int));
        assert(rest.skip(to - from) =~= s.skip(to as int));
    }
    Some((from, to))
}

} // verus!
