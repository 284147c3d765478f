//! File paths as text.
//!
//! A path is a string whose components are separated by `/`. Empty components and the
//! component `.` do not count, so `a//b/./c` has the components `a`, `b` and `c`.

use crate::text::{from_range, same_string, same_text, split, split_text, to_chars};
use vstd::string::StringExecFns;
use vstd::prelude::*;

verus! {

broadcast use vstd::string::group_string_axioms;

/// The index of the last `c` in `s`, or -1 where there is none.
pub open spec fn last_index_of(s: Seq<char>, c: char) -> int
    decreases s.len(),
{
    if s.len() == 0 {
        -1
    } else if s.last() == c {
        s.len() - 1
    } else {
        last_index_of(s.drop_last(), c)
    }
}

/// `last_index_of` gives an index of `c`, and `c` does not stand behind it.
pub proof fn lemma_last_index_of(s: Seq<char>, c: char)
    ensures
        -1 <= last_index_of(s, c) < s.len(),
        last_index_of(s, c) >= 0 ==> s[last_index_of(s, c)] == c,
        forall|i: int| last_index_of(s, c) < i < s.len() ==> s[i] != c,
    decreases s.len(),
{
    if s.len() > 0 && s.last() != c {
        lemma_last_index_of(s.drop_last(), c);
        assert forall|i: int| last_index_of(s, c) < i < s.len() implies s[i] != c by {
            if i < s.len() - 1 {
                assert(s.drop_last()[i] == s[i]);
            }
        }
    }
}

/// The index of the last `c` in `chars`, if there is one.
pub fn find_last(chars: &Vec<char>, c: char) -> (found: Option<usize>)
    ensures
        match found {
            Some(i) => i as int == last_index_of(chars@, c),
            None => last_index_of(chars@, c) == -1,
        },
{
    let mut end: usize = chars.len();
    assert(chars@.take(end as int) == chars@);
    while end > 0
        invariant
            end <= chars.len(),
            last_index_of(chars@, c) == last_index_of(chars@.take(end as int), c),
        decreases end,
    {
        assert(chars@.take(end as int).drop_last() == chars@.take(end - 1));
        if chars[end - 1] == c {
            return Some(end - 1);
        }
        end -= 1;
    }
    assert(chars@.take(0).len() == 0);
    None
}

/// The last component of a path as it is written: what follows the last `/`.
pub open spec fn file_name(path: Seq<char>) -> Seq<char> {
    path.skip(last_index_of(path, '/') + 1)
}

/// The extension of a file name: what follows its last `.`, unless that `.` is the name's first
/// character or the name is `..`.
pub open spec fn extension(name: Seq<char>) -> Option<Seq<char>> {
    let dot = last_index_of(name, '.');
    if dot <= 0 || name == seq!['.', '.'] {
        None
    } else {
        Some(name.skip(dot + 1))
    }
}

/// The stem of a file name: the name without its extension and the `.` before it.
pub open spec fn file_stem(name: Seq<char>) -> Seq<char> {
    if extension(name) is Some {
        name.take(last_index_of(name, '.'))
    } else {
        name
    }
}

/// Where the file name and its stem end and its extension begins, as indices into the path's
/// characters: the name is `chars[name_start..]`, the stem `chars[name_start..stem_end]`, and
/// the extension `chars[extension_start..]` where there is one.
pub struct NameParts {
    pub name_start: usize,
    pub stem_end: usize,
    pub extension_start: Option<usize>,
}

/// Finds the file name, its stem and its extension in the characters of a path.
pub fn name_parts(chars: &Vec<char>) -> (parts: NameParts)
    ensures
        parts.name_start <= parts.stem_end <= chars.len(),
        chars@.skip(parts.name_start as int) == file_name(chars@),
        chars@.subrange(parts.name_start as int, parts.stem_end as int) == file_stem(
            file_name(chars@),
        ),
        match parts.extension_start {
            Some(start) => start <= chars.len() && extension(file_name(chars@)) == Some(
                chars@.skip(start as int),
            ),
            None => extension(file_name(chars@)) is None,
        },
{
    proof {
        lemma_last_index_of(chars@, '/');
    }
    let name_start = match find_last(chars, '/') {
        Some(slash) => {
            assert(slash < chars.len());
            slash + 1
        },
        None => 0,
    };
    let ghost name = chars@.skip(name_start as int);
    let mut end: usize = chars.len();
    assert(name.take(end - name_start) == name);
    while end > name_start
        invariant
            name_start <= end <= chars.len(),
            name == chars@.skip(name_start as int),
            name == file_name(chars@),
            last_index_of(name, '.') == last_index_of(name.take(end - name_start), '.'),
        decreases end,
    {
        assert(name.take(end - name_start).drop_last() == name.take(end - 1 - name_start));
        assert(name.take(end - name_start).last() == chars@[end - 1]);
        if chars[end - 1] == '.' {
            let is_parent = end == chars.len() && end - name_start == 2 && chars[name_start]
                == '.';
            proof {
                if is_parent {
                    assert(name =~= seq!['.', '.']);
                } else if name == seq!['.', '.'] {
                    assert(name.len() == 2);
                    assert(name[0] == '.');
                }
            }
            if end - 1 == name_start || is_parent {
                return NameParts { name_start, stem_end: chars.len(), extension_start: None };
            }
            proof {
                assert(name.take(end - 1 - name_start) =~= chars@.subrange(
                    name_start as int,
                    end - 1,
                ));
                assert(name.skip(end - name_start) =~= chars@.skip(end as int));
            }
            return NameParts { name_start, stem_end: end - 1, extension_start: Some(end) };
        }
        end -= 1;
    }
    proof {
        assert(name.take(0).len() == 0);
        assert(chars@.subrange(name_start as int, chars.len() as int) =~= name);
        if name == seq!['.', '.'] {
            assert(name[1] == '.');
            lemma_last_index_of(name, '.');
        }
    }
    NameParts { name_start, stem_end: chars.len(), extension_start: None }
}

/// Whether the file name of `path` has the extension `wanted`.
pub fn has_extension(path: &str, wanted: &str) -> (found: bool)
    ensures
        found == (extension(file_name(path@)) == Some(wanted@)),
{
    let chars = to_chars(path);
    let parts = name_parts(&chars);
    match parts.extension_start {
        Some(start) => {
            let found = from_range(&chars, start, chars.len());
            assert(chars@.subrange(start as int, chars.len() as int) =~= chars@.skip(start as int));
            same_text(found.as_str(), wanted)
        },
        None => false,
    }
}

/// Whether a piece of a path counts as a component: it is neither empty nor `.`.
pub open spec fn is_component(piece: Seq<char>) -> bool {
    piece.len() > 0 && piece != seq!['.']
}

/// The components among the first `count` of `pieces`, in order.
pub open spec fn components_of(pieces: Seq<Seq<char>>, count: int) -> Seq<Seq<char>>
    decreases count,
{
    if count <= 0 {
        Seq::empty()
    } else if is_component(pieces[count - 1]) {
        components_of(pieces, count - 1).push(pieces[count - 1])
    } else {
        components_of(pieces, count - 1)
    }
}

/// The components of a path.
pub open spec fn components(path: Seq<char>) -> Seq<Seq<char>> {
    components_of(split(path, '/'), split(path, '/').len() as int)
}

/// The components of `path`.
pub fn path_components(path: &str) -> (parts: Vec<String>)
    ensures
        parts.deep_view() == components(path@),
{
    let pieces = split_text(path, '/');
    let mut parts: Vec<String> = Vec::new();
    let mut i: usize = 0;
    while i < pieces.len()
        invariant
            i <= pieces.len(),
            pieces.deep_view() == split(path@, '/'),
            parts.deep_view() == components_of(pieces.deep_view(), i as int),
        decreases pieces.len() - i,
    {
        let piece = &pieces[i];
        assert(pieces.deep_view()[i as int] == piece@);
        proof {
            reveal_strlit(".");
            assert("."@ =~= seq!['.']);
        }
        if !piece.as_str().is_empty() && !same_text(piece.as_str(), ".") {
            let ghost before = parts.deep_view();
            parts.push(piece.clone());
            assert(parts.deep_view() =~= before.push(piece@));
        }
        i += 1;
    }
    parts
}

/// Whether a path starts at the root of the file system.
pub open spec fn is_absolute(path: Seq<char>) -> bool {
    path.len() > 0 && path[0] == '/'
}

/// Whether the path `path` lies below the directory `base` or is `base`: both start at the root
/// or neither does, and the components of `base` are the first components of `path`.
pub open spec fn is_below(path: Seq<char>, base: Seq<char>) -> bool {
    is_absolute(path) == is_absolute(base) && components(base).is_prefix_of(components(path))
}

/// The components of `parts` from index `start` on, joined by `/`.
pub open spec fn join_components(parts: Seq<Seq<char>>, start: int, count: int) -> Seq<char>
    decreases count - start,
{
    if count <= start {
        Seq::empty()
    } else if count == start + 1 {
        parts[start]
    } else {
        join_components(parts, start, count - 1) + seq!['/'] + parts[count - 1]
    }
}

/// The path `path` as seen from the directory `base`: the components of `path` that follow
/// those of `base`, joined by `/`, where `path` lies below `base`; else `path` as it is.
pub open spec fn relative_path(path: Seq<char>, base: Seq<char>) -> Seq<char> {
    if is_below(path, base) {
        join_components(components(path), components(base).len() as int, components(path).len() as int)
    } else {
        path
    }
}

/// Whether `prefix` holds the first strings of `list`.
pub fn is_list_prefix(prefix: &Vec<String>, list: &Vec<String>) -> (found: bool)
    ensures
        found == prefix.deep_view().is_prefix_of(list.deep_view()),
{
    if prefix.len() > list.len() {
        return false;
    }
    let mut i: usize = 0;
    while i < prefix.len()
        invariant
            i <= prefix.len() <= list.len(),
            forall|j: int| 0 <= j < i ==> prefix.deep_view()[j] == list.deep_view()[j],
        decreases prefix.len() - i,
    {
        if !same_string(&prefix[i], &list[i]) {
            assert(prefix.deep_view()[i as int] != list.deep_view().subrange(
                0,
                prefix.deep_view().len() as int,
            )[i as int]);
            return false;
        }
        i += 1;
    }
    assert(prefix.deep_view() =~= list.deep_view().subrange(0, prefix.deep_view().len() as int));
    true
}

/// Whether `path` starts at the root of the file system.
pub fn starts_at_root(path: &str) -> (absolute: bool)
    ensures
        absolute == is_absolute(path@),
{
    let chars = to_chars(path);
    chars.len() > 0 && chars[0] == '/'
}

/// The path `path` as seen from the directory `base`.
pub fn make_relative(path: &str, base: &str) -> (relative: String)
    ensures
        relative@ == relative_path(path@, base@),
{
    let parts = path_components(path);
    let root = path_components(base);
    if starts_at_root(path) != starts_at_root(base) || !is_list_prefix(&root, &parts) {
        return path.to_owned();
    }
    let start = root.len();
    let mut relative = String::new();
    let mut i: usize = start;
    while i < parts.len()
        invariant
            start <= i <= parts.len(),
            relative@ == join_components(parts.deep_view(), start as int, i as int),
        decreases parts.len() - i,
    {
        if i > start {
            relative.push('/');
        }
        relative.append(parts[i].as_str());
        assert(parts.deep_view()[i as int] == parts@[i as int]@);
        assert(relative@ =~= join_components(parts.deep_view(), start as int, i + 1));
        i += 1;
    }
    relative
}

} // verus!
