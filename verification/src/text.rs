//! Character-level helpers on strings.
//!
//! Every string is modelled by its sequence of characters (`Seq<char>`, the view of `str` and
//! `String`). The functions here read a string through a `Vec<char>` and build one character by
//! character, so each of them is linear in what it reads unless it says otherwise.

use vstd::prelude::*;

verus! {

broadcast use vstd::string::group_string_axioms;

/// `String::push` appends one character to the end of the string.
pub assume_specification[ String::push ](s: &mut String, ch: char)
    ensures
        final(s)@ == old(s)@.push(ch),
;

/// The view of an optional string.
pub open spec fn option_view(text: Option<String>) -> Option<Seq<char>> {
    match text {
        Some(text) => Some(text@),
        None => None,
    }
}

/// The characters of `s`, in order.
pub fn to_chars(s: &str) -> (chars: Vec<char>)
    ensures
        chars@ == s@,
{
    let mut chars: Vec<char> = Vec::new();
    for c in it: s.chars()
        invariant
            it.seq() == s@,
            chars@ == s@.take(it.index()),
    {
        chars.push(c);
    }
    chars
}

/// The string made of `chars[start..end]`.
pub fn from_range(chars: &Vec<char>, start: usize, end: usize) -> (s: String)
    requires
        start <= end <= chars.len(),
    ensures
        s@ == chars@.subrange(start as int, end as int),
{
    let mut s = String::new();
    let mut i: usize = start;
    while i < end
        invariant
            start <= i <= end <= chars.len(),
            s@ == chars@.subrange(start as int, i as int),
        decreases end - i,
    {
        s.push(chars[i]);
        i += 1;
    }
    s
}

/// The string made of all of `chars`.
pub fn from_chars(chars: &Vec<char>) -> (s: String)
    ensures
        s@ == chars@,
{
    from_range(chars, 0, chars.len())
}

/// The pieces of `s` between occurrences of `sep`: always at least one piece, and one more
/// than there are separators. `split("a.b", '.')` is `["a", "b"]`, `split("", '.')` is `[""]`.
pub open spec fn split(s: Seq<char>, sep: char) -> Seq<Seq<char>>
    decreases s.len(),
{
    if s.len() == 0 {
        seq![Seq::<char>::empty()]
    } else {
        let head = split(s.drop_last(), sep);
        if s.last() == sep {
            head.push(Seq::<char>::empty())
        } else {
            head.drop_last().push(head.last().push(s.last()))
        }
    }
}

/// `split` never returns an empty list.
pub proof fn lemma_split_nonempty(s: Seq<char>, sep: char)
    ensures
        split(s, sep).len() >= 1,
    decreases s.len(),
{
    if s.len() > 0 {
        lemma_split_nonempty(s.drop_last(), sep);
    }
}

/// Splits `text` at every `sep`.
pub fn split_text(text: &str, sep: char) -> (parts: Vec<String>)
    ensures
        parts.deep_view() == split(text@, sep),
{
    let chars = to_chars(text);
    let mut parts: Vec<String> = Vec::new();
    let mut current = String::new();
    let mut i: usize = 0;
    while i < chars.len()
        invariant
            i <= chars.len(),
            parts.deep_view().push(current@) == split(chars@.take(i as int), sep),
        decreases chars.len() - i,
    {
        let c = chars[i];
        proof {
            assert(chars@.take(i + 1).drop_last() == chars@.take(i as int));
            lemma_split_nonempty(chars@.take(i as int), sep);
        }
        let ghost before = parts.deep_view();
        if c == sep {
            parts.push(current);
            current = String::new();
            assert(parts.deep_view() == before.push(parts@.last()@));
        } else {
            current.push(c);
            assert(before.push(current@).drop_last() == before);
        }
        i += 1;
    }
    let ghost before = parts.deep_view();
    parts.push(current);
    proof {
        assert(chars@.take(chars.len() as int) == chars@);
        assert(parts.deep_view() == before.push(parts@.last()@));
    }
    parts
}

/// A line without the carriage return that may end it.
pub open spec fn strip_cr(line: Seq<char>) -> Seq<char> {
    if line.len() > 0 && line.last() == '\r' {
        line.drop_last()
    } else {
        line
    }
}

/// The lines of `s`. A line ends at a line feed; a carriage return just before that line feed
/// is not part of the line. What follows the last line feed is a line of its own unless it is
/// empty, and it keeps a carriage return at its end.
pub open spec fn lines_of(s: Seq<char>) -> Seq<Seq<char>> {
    let pieces = split(s, '\n');
    let ended = Seq::new((pieces.len() - 1) as nat, |i: int| strip_cr(pieces[i]));
    if pieces.last().len() == 0 {
        ended
    } else {
        ended.push(pieces.last())
    }
}

/// Splits `text` into its lines.
pub fn split_lines(text: &str) -> (lines: Vec<String>)
    ensures
        lines.deep_view() == lines_of(text@),
{
    let pieces = split_text(text, '\n');
    proof {
        lemma_split_nonempty(text@, '\n');
    }
    let mut lines: Vec<String> = Vec::new();
    let last = pieces.len() - 1;
    let mut i: usize = 0;
    while i < last
        invariant
            i <= last,
            last + 1 == pieces.len(),
            pieces.deep_view() == split(text@, '\n'),
            lines.deep_view() == Seq::new(i as nat, |k: int| strip_cr(split(text@, '\n')[k])),
        decreases last - i,
    {
        let chars = to_chars(pieces[i].as_str());
        assert(chars@ == pieces.deep_view()[i as int]);
        let n = chars.len();
        let line = if n > 0 && chars[n - 1] == '\r' {
            from_range(&chars, 0, n - 1)
        } else {
            from_chars(&chars)
        };
        assert(line@ == strip_cr(chars@));
        let ghost before = lines.deep_view();
        lines.push(line);
        assert(lines.deep_view() == before.push(lines@.last()@));
        i += 1;
    }
    let tail = to_chars(pieces[last].as_str());
    assert(tail@ == pieces.deep_view()[last as int]);
    if tail.len() > 0 {
        let ghost before = lines.deep_view();
        lines.push(from_chars(&tail));
        assert(lines.deep_view() == before.push(lines@.last()@));
    }
    lines
}

/// `needle` stands in `hay` at index `i`.
pub open spec fn occurs_at(hay: Seq<char>, needle: Seq<char>, i: int) -> bool {
    &&& 0 <= i
    &&& i + needle.len() <= hay.len()
    &&& hay.subrange(i, i + needle.len()) == needle
}

/// `needle` stands somewhere in `hay`.
pub open spec fn contains(hay: Seq<char>, needle: Seq<char>) -> bool {
    exists|i: int| occurs_at(hay, needle, i)
}

/// Whether `needle` stands in `hay` at index `at`.
pub fn matches_at(hay: &Vec<char>, needle: &Vec<char>, at: usize) -> (found: bool)
    ensures
        found == occurs_at(hay@, needle@, at as int),
{
    if needle.len() > hay.len() || at > hay.len() - needle.len() {
        return false;
    }
    let mut k: usize = 0;
    while k < needle.len()
        invariant
            k <= needle.len(),
            at + needle.len() <= hay.len(),
            hay@.subrange(at as int, at + k) == needle@.take(k as int),
        decreases needle.len() - k,
    {
        if hay[at + k] != needle[k] {
            assert(hay@.subrange(at as int, at + needle.len())[k as int] != needle@[k as int]);
            return false;
        }
        assert(hay@.subrange(at as int, at + k + 1) == hay@.subrange(at as int, at + k).push(
            hay@[at + k],
        ));
        assert(needle@.take(k + 1) == needle@.take(k as int).push(needle@[k as int]));
        k += 1;
    }
    assert(needle@.take(needle.len() as int) == needle@);
    true
}

/// Whether `needle` stands somewhere in `hay`. Time: the product of the two lengths.
pub fn contains_text(hay: &str, needle: &str) -> (found: bool)
    ensures
        found == contains(hay@, needle@),
{
    let hay_chars = to_chars(hay);
    let needle_chars = to_chars(needle);
    if needle_chars.len() > hay_chars.len() {
        return false;
    }
    let last = hay_chars.len() - needle_chars.len();
    let mut i: usize = 0;
    while i < last
        invariant
            i <= last,
            last + needle_chars.len() == hay_chars.len(),
            hay_chars@ == hay@,
            needle_chars@ == needle@,
            forall|j: int| 0 <= j < i ==> !occurs_at(hay@, needle@, j),
        decreases last - i,
    {
        if matches_at(&hay_chars, &needle_chars, i) {
            return true;
        }
        i += 1;
    }
    matches_at(&hay_chars, &needle_chars, last)
}

/// Whether `text` begins with `prefix`.
pub fn starts_with(text: &str, prefix: &str) -> (found: bool)
    ensures
        found == prefix@.is_prefix_of(text@),
{
    let text_chars = to_chars(text);
    let prefix_chars = to_chars(prefix);
    matches_at(&text_chars, &prefix_chars, 0)
}

/// Whether two strings hold the same characters.
pub fn same_text(a: &str, b: &str) -> (same: bool)
    ensures
        same == (a@ == b@),
{
    let first = a.to_owned();
    let second = b.to_owned();
    first == second
}

/// Whether two strings hold the same characters.
pub fn same_string(a: &String, b: &String) -> (same: bool)
    ensures
        same == (a@ == b@),
{
    *a == *b
}

/// `pattern` with every placeholder `{}` replaced by `(.+)`, which as a regular expression
/// stands for one or more characters.
pub open spec fn widen_placeholders(pattern: Seq<char>) -> Seq<char>
    decreases pattern.len(),
{
    let n = pattern.len() as int;
    if n == 0 {
        Seq::empty()
    } else if n >= 2 && pattern[n - 2] == '{' && pattern[n - 1] == '}' {
        widen_placeholders(pattern.take(n - 2)) + seq!['(', '.', '+', ')']
    } else {
        widen_placeholders(pattern.drop_last()).push(pattern.last())
    }
}

/// Replaces every placeholder `{}` of `pattern` by `(.+)`.
pub fn widen(pattern: &str) -> (widened: String)
    ensures
        widened@ == widen_placeholders(pattern@),
{
    let chars = to_chars(pattern);
    let mut widened = String::new();
    let mut i: usize = 0;
    while i < chars.len()
        invariant
            i <= chars.len(),
            widened@ == widen_placeholders(chars@.take(i as int)),
            0 < i < chars.len() && chars@[i - 1] == '{' ==> chars@[i as int] != '}',
        decreases chars.len() - i,
    {
        if chars[i] == '{' && i + 1 < chars.len() && chars[i + 1] == '}' {
            proof {
                assert(chars@.take(i + 2).take(i as int) == chars@.take(i as int));
            }
            widened.push('(');
            widened.push('.');
            widened.push('+');
            widened.push(')');
            assert(widened@ == widen_placeholders(chars@.take(i as int)) + seq!['(', '.', '+', ')']);
            i += 2;
        } else {
            proof {
                assert(chars@.take(i + 1).drop_last() == chars@.take(i as int));
            }
            widened.push(chars[i]);
            i += 1;
        }
    }
    proof {
        assert(chars@.take(chars.len() as int) == chars@);
    }
    widened
}

/// The pieces `parts` with `sep` between them: what `split` takes apart.
pub open spec fn join(parts: Seq<Seq<char>>, sep: char) -> Seq<char>
    decreases parts.len(),
{
    if parts.len() == 0 {
        Seq::empty()
    } else if parts.len() == 1 {
        parts[0]
    } else {
        join(parts.drop_last(), sep) + seq![sep] + parts.last()
    }
}

/// Joining the pieces of a string gives the string back, so two strings with the same pieces
/// are one string.
pub proof fn lemma_join_split(s: Seq<char>, sep: char)
    ensures
        join(split(s, sep), sep) == s,
    decreases s.len(),
{
    if s.len() == 0 {
        assert(split(s, sep)[0] =~= s);
    } else {
        let head = split(s.drop_last(), sep);
        lemma_split_nonempty(s.drop_last(), sep);
        lemma_join_split(s.drop_last(), sep);
        if s.last() == sep {
            let all = head.push(Seq::<char>::empty());
            assert(all.drop_last() =~= head);
            assert(join(all, sep) =~= s.drop_last() + seq![sep]);
            assert(s =~= s.drop_last() + seq![sep]);
        } else {
            let grown = head.last().push(s.last());
            let all = head.drop_last().push(grown);
            if head.len() == 1 {
                assert(all[0] == grown);
                assert(head[0] == s.drop_last());
                assert(grown =~= s);
            } else {
                assert(all.drop_last() =~= head.drop_last());
                assert(join(head, sep) == join(head.drop_last(), sep) + seq![sep] + head.last());
                assert(join(all, sep) =~= join(head.drop_last(), sep) + seq![sep] + head.last().push(
                    s.last(),
                ));
                assert(s =~= s.drop_last().push(s.last()));
            }
        }
    }
}

/// Joining two lists of pieces, one after the other, joins what each of them joins.
pub proof fn lemma_join_concat(first: Seq<Seq<char>>, second: Seq<Seq<char>>, sep: char)
    requires
        first.len() > 0,
        second.len() > 0,
    ensures
        join(first + second, sep) == join(first, sep) + seq![sep] + join(second, sep),
    decreases second.len(),
{
    let all = first + second;
    assert(all.drop_last() =~= first + second.drop_last());
    assert(all.last() == second.last());
    if second.len() == 1 {
        assert(first + second.drop_last() =~= first);
    } else {
        lemma_join_concat(first, second.drop_last(), sep);
        assert(join(all, sep) =~= join(first, sep) + seq![sep] + (join(second.drop_last(), sep)
            + seq![sep] + second.last()));
    }
}

} // verus!
