//! Finds the translation keys that source text uses.
//!
//! The scanner is lexical: it reads a file line by line and looks for three shapes of call.
//! `t!("key", ..)` uses a literal key. `t!(name)` uses the value of a variable, which is looked
//! up in a binding `let name = "value";` on one of the twenty lines above. A line that holds a
//! call and a `format!("pattern", ..)` uses a key built at run time, recorded as the format
//! pattern itself. The namespaced call `rust_i18n::t!` is treated like `t!`.
//!
//! A call is taken to stand on one line. What a pattern finds on a line is what the `regex`
//! crate finds there: the contracts name those findings and say what the scanner makes of them.
//! A macro whose name only ends in `t`, such as `format!` or `print!`, is no call.

use crate::error::AuditError;
use crate::paths::{extension, file_name, has_extension};
use crate::pattern::{first_groups, pattern_compiles, pattern_groups, pattern_matches, search};
use crate::text::{contains, contains_text, lines_of, split_lines};
use vstd::hash_set::StringHashSet;
use vstd::prelude::*;
use vstd::string::StringExecFns;

verus! {

broadcast use vstd::string::group_string_axioms;

/// One place where source code uses a translation key.
///
/// `is_literal` is false where `key` is a reconstruction (the value bound to a variable, or a
/// format pattern with its placeholders) and not a key written at the call itself.
#[derive(Debug, Clone)]
pub struct UsedKey {
    /// The translation key.
    pub key: String,
    /// Whether the key stands at the call as a string literal.
    pub is_literal: bool,
    /// The file that holds the call.
    pub file_path: String,
    /// The line of the call, counted from 1.
    pub line_number: usize,
}

/// The mathematical value of a `UsedKey`.
pub struct UsedKeyView {
    pub key: Seq<char>,
    pub is_literal: bool,
    pub file_path: Seq<char>,
    pub line_number: usize,
}

impl DeepView for UsedKey {
    type V = UsedKeyView;

    open spec fn deep_view(&self) -> UsedKeyView {
        UsedKeyView {
            key: self.key@,
            is_literal: self.is_literal,
            file_path: self.file_path@,
            line_number: self.line_number,
        }
    }
}

impl View for UsedKey {
    type V = UsedKeyView;

    open spec fn view(&self) -> UsedKeyView {
        self.deep_view()
    }
}

/// A line that holds this text is scanned for namespaced calls only.
pub const NAMESPACE_MARK: &'static str = "rust_i18n::t!";

/// A line that does not hold this text holds no call and is not searched.
pub const CALL_MARK: &'static str = "t!";

/// A line that does not hold this text holds no format pattern.
pub const FORMAT_MARK: &'static str = "format!";

/// `t!("key" ..)`: the first group is the key.
pub const STANDARD_LITERAL: &'static str =
    "\\bt!\\s*\\(\\s*\"([^\"]+)\"(?:\\s*(?:,|\\)))(?:[^)]*\\))?";

/// `t!(name)`: the first group is the variable's name.
pub const STANDARD_VARIABLE: &'static str = "\\bt!\\s*\\(\\s*([a-zA-Z0-9_]+)\\s*\\)";

/// The start of any call `t!(`.
pub const STANDARD_CALL: &'static str = "\\bt!\\s*\\(";

/// `rust_i18n::t!("key" ..)`: the first group is the key.
pub const NAMESPACED_LITERAL: &'static str =
    "rust_i18n::t!\\s*\\(\\s*\"([^\"]+)\"(?:\\s*(?:,|\\)))(?:[^)]*\\))?";

/// `rust_i18n::t!(name)`: the first group is the variable's name.
pub const NAMESPACED_VARIABLE: &'static str = "rust_i18n::t!\\s*\\(\\s*([a-zA-Z0-9_]+)\\s*\\)";

/// The start of any call `rust_i18n::t!(`.
pub const NAMESPACED_CALL: &'static str = "rust_i18n::t!\\s*\\(";

/// `format!("pattern" ..)`: the first group is the format pattern.
pub const FORMAT_CALL: &'static str = "\\bformat!\\s*\\(\\s*\"([^\"]+)\"";

/// What stands before the variable's name in the pattern of a binding.
pub const BINDING_HEAD: &'static str = "let\\s+";

/// What stands after the variable's name in the pattern of a binding: the first group is the
/// bound string.
pub const BINDING_TAIL: &'static str = "\\s*=\\s*\"([^\"]+)\";";

/// How many lines above a call are searched for a binding.
pub const CONTEXT_LINES: usize = 20;

/// Whether a line is scanned for namespaced calls.
pub open spec fn is_namespaced(line: Seq<char>) -> bool {
    contains(line, NAMESPACE_MARK@)
}

/// The pattern of a call with a literal key.
pub open spec fn literal_pattern(namespaced: bool) -> Seq<char> {
    if namespaced {
        NAMESPACED_LITERAL@
    } else {
        STANDARD_LITERAL@
    }
}

/// The pattern of a call with a variable.
pub open spec fn variable_pattern(namespaced: bool) -> Seq<char> {
    if namespaced {
        NAMESPACED_VARIABLE@
    } else {
        STANDARD_VARIABLE@
    }
}

/// The pattern of the start of a call.
pub open spec fn call_pattern(namespaced: bool) -> Seq<char> {
    if namespaced {
        NAMESPACED_CALL@
    } else {
        STANDARD_CALL@
    }
}

/// The pattern of a binding `let name = "value";`.
pub open spec fn binding_pattern(name: Seq<char>) -> Seq<char> {
    BINDING_HEAD@ + name + BINDING_TAIL@
}

/// The index of the first line that is searched for a binding used on line `line_idx`.
pub open spec fn context_start(line_idx: int) -> int {
    if line_idx >= CONTEXT_LINES as int {
        line_idx - CONTEXT_LINES as int
    } else {
        0
    }
}

/// The string that line `index` binds to `name`, if its first binding of `name` binds one.
pub open spec fn bound_on_line(lines: Seq<Seq<char>>, name: Seq<char>, index: int) -> Option<
    Seq<char>,
> {
    let groups = pattern_groups(binding_pattern(name), lines[index]);
    if groups.len() > 0 {
        groups[0]
    } else {
        None
    }
}

/// The string bound to `name` on the closest line above `below` and not above `floor`.
pub open spec fn resolve_binding(
    lines: Seq<Seq<char>>,
    name: Seq<char>,
    floor: int,
    below: int,
) -> Option<Seq<char>>
    decreases below - floor,
{
    if below <= floor {
        None
    } else if bound_on_line(lines, name, below - 1) is Some {
        bound_on_line(lines, name, below - 1)
    } else {
        resolve_binding(lines, name, floor, below - 1)
    }
}

/// One key for each group that is there, in order.
pub open spec fn marked_keys(
    groups: Seq<Option<Seq<char>>>,
    is_literal: bool,
    file_path: Seq<char>,
    line_number: usize,
) -> Seq<UsedKeyView>
    decreases groups.len(),
{
    if groups.len() == 0 {
        Seq::empty()
    } else {
        let head = marked_keys(groups.drop_last(), is_literal, file_path, line_number);
        match groups.last() {
            Some(key) => head.push(UsedKeyView { key, is_literal, file_path, line_number }),
            None => head,
        }
    }
}

/// What a call `t!(name)` on line `line_idx` adds: the value bound to `name` above, as a key
/// that is not literal, or nothing where no binding is found.
pub open spec fn dynamic_key(
    lines: Seq<Seq<char>>,
    line_idx: int,
    name: Seq<char>,
    file_path: Seq<char>,
) -> Seq<UsedKeyView> {
    match resolve_binding(lines, name, context_start(line_idx), line_idx) {
        Some(key) => seq![
            UsedKeyView {
                key,
                is_literal: false,
                file_path,
                line_number: (line_idx + 1) as usize,
            },
        ],
        None => Seq::empty(),
    }
}

/// The keys of the variables named on line `line_idx`, in order.
pub open spec fn resolved_keys(
    lines: Seq<Seq<char>>,
    line_idx: int,
    names: Seq<Option<Seq<char>>>,
    file_path: Seq<char>,
) -> Seq<UsedKeyView>
    decreases names.len(),
{
    if names.len() == 0 {
        Seq::empty()
    } else {
        let head = resolved_keys(lines, line_idx, names.drop_last(), file_path);
        match names.last() {
            Some(name) => head + dynamic_key(lines, line_idx, name, file_path),
            None => head,
        }
    }
}

/// Whether the search for a binding of `name` above line `line_idx` can be made: it needs the
/// pattern of that binding as soon as there is a line to search.
pub open spec fn binding_ok(line_idx: int, name: Seq<char>) -> bool {
    line_idx > 0 ==> pattern_compiles(binding_pattern(name))
}

/// Whether every variable among `names` can be searched for.
pub open spec fn bindings_ok(line_idx: int, names: Seq<Option<Seq<char>>>) -> bool {
    forall|k: int|
        0 <= k < names.len() && (#[trigger] names[k]) is Some ==> binding_ok(line_idx, names[k]->0)
}

/// Whether a line may hold a call: it holds the text `t!`, with which every call ends its name.
pub open spec fn mentions_call(line: Seq<char>) -> bool {
    contains(line, CALL_MARK@)
}

/// Whether a line may hold a format pattern: it holds the text `format!`.
pub open spec fn mentions_format(line: Seq<char>) -> bool {
    contains(line, FORMAT_MARK@)
}

/// Whether line `line_idx` can be scanned: every pattern that it needs compiles. A line that
/// holds no `t!` needs none.
pub open spec fn line_ok(lines: Seq<Seq<char>>, line_idx: int) -> bool {
    let line = lines[line_idx];
    let namespaced = is_namespaced(line);
    mentions_call(line) ==> {
        &&& pattern_compiles(literal_pattern(namespaced))
        &&& pattern_compiles(variable_pattern(namespaced))
        &&& bindings_ok(line_idx, pattern_groups(variable_pattern(namespaced), line))
        &&& mentions_format(line) ==> pattern_compiles(call_pattern(namespaced))
            && pattern_compiles(FORMAT_CALL@)
    }
}

/// The keys that line `line_idx` uses: the literal keys, then the variables that resolve, then,
/// where the line holds a call, its format patterns. A line that holds no `t!` uses none.
pub open spec fn line_keys(lines: Seq<Seq<char>>, line_idx: int, file_path: Seq<char>) -> Seq<
    UsedKeyView,
> {
    let line = lines[line_idx];
    let namespaced = is_namespaced(line);
    let line_number = (line_idx + 1) as usize;
    let literals = marked_keys(
        pattern_groups(literal_pattern(namespaced), line),
        true,
        file_path,
        line_number,
    );
    let variables = resolved_keys(
        lines,
        line_idx,
        pattern_groups(variable_pattern(namespaced), line),
        file_path,
    );
    let formats = if mentions_format(line) && pattern_matches(call_pattern(namespaced), line) {
        marked_keys(pattern_groups(FORMAT_CALL@, line), false, file_path, line_number)
    } else {
        Seq::empty()
    };
    if mentions_call(line) {
        literals + variables + formats
    } else {
        Seq::empty()
    }
}

/// Whether every line can be scanned.
pub open spec fn scan_ok(lines: Seq<Seq<char>>) -> bool {
    forall|i: int| 0 <= i < lines.len() ==> line_ok(lines, i)
}

/// The keys that the first `count` lines use, line after line.
pub open spec fn scan_keys(lines: Seq<Seq<char>>, file_path: Seq<char>, count: int) -> Seq<
    UsedKeyView,
>
    decreases count,
{
    if count <= 0 {
        Seq::empty()
    } else {
        scan_keys(lines, file_path, count - 1) + line_keys(lines, count - 1, file_path)
    }
}

/// Appends `key` to `used_keys`.
fn push_key(used_keys: &mut Vec<UsedKey>, key: UsedKey)
    ensures
        final(used_keys)@ == old(used_keys)@.push(key),
        final(used_keys).deep_view() == old(used_keys).deep_view().push(key.deep_view()),
{
    used_keys.push(key);
    assert(used_keys.deep_view() =~= old(used_keys).deep_view().push(key.deep_view()));
}

/// The error of a pattern that did not compile.
fn pattern_error(pattern: &str, message: String) -> (error: AuditError)
    ensures
        error is Pattern,
        error->Pattern_pattern@ == pattern@,
{
    AuditError::Pattern { pattern: pattern.to_owned(), message }
}

/// Appends one key for each group that is there.
fn push_marked(
    groups: &Vec<Option<String>>,
    is_literal: bool,
    file_path: &str,
    line_number: usize,
    used_keys: &mut Vec<UsedKey>,
)
    ensures
        final(used_keys).deep_view() == old(used_keys).deep_view() + marked_keys(
            groups.deep_view(),
            is_literal,
            file_path@,
            line_number,
        ),
        final(used_keys)@.len() >= old(used_keys)@.len(),
        final(used_keys)@.take(old(used_keys)@.len() as int) == old(used_keys)@,
{
    let mut k: usize = 0;
    while k < groups.len()
        invariant
            k <= groups.len(),
            used_keys.deep_view() == old(used_keys).deep_view() + marked_keys(
                groups.deep_view().take(k as int),
                is_literal,
                file_path@,
                line_number,
            ),
            used_keys@.len() >= old(used_keys)@.len(),
            used_keys@.take(old(used_keys)@.len() as int) == old(used_keys)@,
        decreases groups.len() - k,
    {
        proof {
            assert(groups.deep_view().take(k + 1).drop_last() == groups.deep_view().take(k as int));
        }
        match &groups[k] {
            Some(key) => {
                push_key(
                    used_keys,
                    UsedKey {
                        key: key.clone(),
                        is_literal,
                        file_path: file_path.to_owned(),
                        line_number,
                    },
                );
            },
            None => {},
        }
        k += 1;
    }
    proof {
        assert(groups.deep_view().take(groups.len() as int) == groups.deep_view());
    }
}

/// The pattern of a binding of `name`.
fn make_binding_pattern(name: &str) -> (pattern: String)
    ensures
        pattern@ == binding_pattern(name@),
{
    let mut pattern = BINDING_HEAD.to_owned();
    pattern.append(name);
    pattern.append(BINDING_TAIL);
    pattern
}

/// Looks up the variable `var_name`, used in a call on line `line_idx`, in the bindings of the
/// lines above, and appends the key that it is bound to, if any.
///
/// The closest binding above the call wins, and no more than `CONTEXT_LINES` lines are
/// searched. A variable without a binding adds nothing. The call fails, with `used_keys`
/// unchanged, exactly when there is a line to search and the binding's pattern does not compile.
/// The line of the call is one of `lines`, or the line that would follow them.
pub fn process_dynamic_key(
    var_name: &str,
    lines: &Vec<String>,
    line_idx: usize,
    file_path: &str,
    used_keys: &mut Vec<UsedKey>,
) -> (result: Result<(), AuditError>)
    requires
        line_idx <= lines.len(),
        line_idx < usize::MAX,
    ensures
        result is Ok <==> binding_ok(line_idx as int, var_name@),
        result is Ok ==> final(used_keys).deep_view() == old(used_keys).deep_view() + dynamic_key(
            lines.deep_view(),
            line_idx as int,
            var_name@,
            file_path@,
        ),
        result is Err ==> final(used_keys)@ == old(used_keys)@,
        result matches Err(error) ==> error is Pattern,
        final(used_keys)@.len() >= old(used_keys)@.len(),
        final(used_keys)@.take(old(used_keys)@.len() as int) == old(used_keys)@,
{
    let floor = if line_idx >= CONTEXT_LINES {
        line_idx - CONTEXT_LINES
    } else {
        0
    };
    let pattern = make_binding_pattern(var_name);
    let mut below = line_idx;
    while below > floor
        invariant
            floor <= below <= line_idx <= lines.len(),
            line_idx < usize::MAX,
            floor == context_start(line_idx as int),
            pattern@ == binding_pattern(var_name@),
            below < line_idx ==> pattern_compiles(pattern@),
            resolve_binding(lines.deep_view(), var_name@, floor as int, line_idx as int)
                == resolve_binding(lines.deep_view(), var_name@, floor as int, below as int),
            used_keys@ == old(used_keys)@,
        decreases below - floor,
    {
        let groups = match first_groups(pattern.as_str(), lines[below - 1].as_str()) {
            Ok(groups) => groups,
            Err(message) => {
                return Err(pattern_error(pattern.as_str(), message));
            },
        };
        assert(lines.deep_view()[below - 1] == lines@[below - 1]@);
        if groups.len() > 0 {
            assert(groups.deep_view()[0] == groups@[0].deep_view());
            match &groups[0] {
                Some(value) => {
                    push_key(
                        used_keys,
                        UsedKey {
                            key: value.clone(),
                            is_literal: false,
                            file_path: file_path.to_owned(),
                            line_number: line_idx + 1,
                        },
                    );
                    proof {
                        assert(old(used_keys).deep_view().push(used_keys@.last().deep_view())
                            =~= old(used_keys).deep_view() + dynamic_key(
                            lines.deep_view(),
                            line_idx as int,
                            var_name@,
                            file_path@,
                        ));
                    }
                    return Ok(());
                },
                None => {},
            }
        }
        below -= 1;
    }
    Ok(())
}

/// Looks up each variable that is there, in order.
fn push_resolved(
    names: &Vec<Option<String>>,
    lines: &Vec<String>,
    line_idx: usize,
    file_path: &str,
    used_keys: &mut Vec<UsedKey>,
) -> (result: Result<(), AuditError>)
    requires
        line_idx < lines.len(),
    ensures
        result is Ok <==> bindings_ok(line_idx as int, names.deep_view()),
        result is Ok ==> final(used_keys).deep_view() == old(used_keys).deep_view()
            + resolved_keys(lines.deep_view(), line_idx as int, names.deep_view(), file_path@),
        result matches Err(error) ==> error is Pattern,
        final(used_keys)@.len() >= old(used_keys)@.len(),
        final(used_keys)@.take(old(used_keys)@.len() as int) == old(used_keys)@,
{
    let mut k: usize = 0;
    while k < names.len()
        invariant
            k <= names.len(),
            line_idx < lines.len(),
            bindings_ok(line_idx as int, names.deep_view().take(k as int)),
            used_keys.deep_view() == old(used_keys).deep_view() + resolved_keys(
                lines.deep_view(),
                line_idx as int,
                names.deep_view().take(k as int),
                file_path@,
            ),
            used_keys@.len() >= old(used_keys)@.len(),
            used_keys@.take(old(used_keys)@.len() as int) == old(used_keys)@,
        decreases names.len() - k,
    {
        let ghost all = names.deep_view();
        proof {
            assert(all.take(k + 1).drop_last() == all.take(k as int));
            assert(all.take(k + 1).last() == all[k as int]);
            assert(all[k as int] == names@[k as int].deep_view());
        }
        match &names[k] {
            Some(name) => {
                match process_dynamic_key(name.as_str(), lines, line_idx, file_path, used_keys) {
                    Ok(()) => {},
                    Err(error) => {
                        assert(!binding_ok(line_idx as int, all[k as int]->0));
                        return Err(error);
                    },
                }
            },
            None => {},
        }
        proof {
            let next = all.take(k + 1);
            assert forall|j: int| 0 <= j < next.len() && (#[trigger] next[j]) is Some implies binding_ok(
                line_idx as int,
                next[j]->0,
            ) by {
                if j < k {
                    assert(all.take(k as int)[j] == next[j]);
                }
            }
        }
        k += 1;
    }
    proof {
        assert(names.deep_view().take(names.len() as int) == names.deep_view());
    }
    Ok(())
}

/// Scans line `line_idx` and appends the keys that it uses.
fn scan_line(lines: &Vec<String>, line_idx: usize, file_path: &str, used_keys: &mut Vec<UsedKey>) -> (result:
    Result<(), AuditError>)
    requires
        line_idx < lines.len(),
    ensures
        result is Ok <==> line_ok(lines.deep_view(), line_idx as int),
        result is Ok ==> final(used_keys).deep_view() == old(used_keys).deep_view() + line_keys(
            lines.deep_view(),
            line_idx as int,
            file_path@,
        ),
        result matches Err(error) ==> error is Pattern,
        final(used_keys)@.len() >= old(used_keys)@.len(),
        final(used_keys)@.take(old(used_keys)@.len() as int) == old(used_keys)@,
{
    let line = lines[line_idx].as_str();
    assert(line@ == lines.deep_view()[line_idx as int]);
    let ghost start = used_keys.deep_view();
    if !contains_text(line, CALL_MARK) {
        assert(start + Seq::<UsedKeyView>::empty() =~= start);
        return Ok(());
    }
    let namespaced = contains_text(line, NAMESPACE_MARK);
    let literal = if namespaced {
        NAMESPACED_LITERAL
    } else {
        STANDARD_LITERAL
    };
    let variable = if namespaced {
        NAMESPACED_VARIABLE
    } else {
        STANDARD_VARIABLE
    };
    let call = if namespaced {
        NAMESPACED_CALL
    } else {
        STANDARD_CALL
    };
    let line_number = line_idx + 1;

    let literals = match first_groups(literal, line) {
        Ok(groups) => groups,
        Err(message) => {
            return Err(pattern_error(literal, message));
        },
    };
    push_marked(&literals, true, file_path, line_number, used_keys);

    let names = match first_groups(variable, line) {
        Ok(groups) => groups,
        Err(message) => {
            return Err(pattern_error(variable, message));
        },
    };
    match push_resolved(&names, lines, line_idx, file_path, used_keys) {
        Ok(()) => {},
        Err(error) => {
            return Err(error);
        },
    }

    if contains_text(line, FORMAT_MARK) {
        let has_call = match search(call, line) {
            Ok(hit) => hit,
            Err(message) => {
                return Err(pattern_error(call, message));
            },
        };
        let formats = match first_groups(FORMAT_CALL, line) {
            Ok(groups) => groups,
            Err(message) => {
                return Err(pattern_error(FORMAT_CALL, message));
            },
        };
        if has_call {
            push_marked(&formats, false, file_path, line_number, used_keys);
        }
    }
    proof {
        let keys = line_keys(lines.deep_view(), line_idx as int, file_path@);
        assert(used_keys.deep_view() =~= start + keys);
    }
    Ok(())
}

/// Scans `content`, the text of the file `file_path`, line by line, and appends to `used_keys`
/// the keys that it uses, in the order of the lines.
///
/// On each line the literal keys come first, then the variables that resolve, then the format
/// patterns. Nothing is removed from `used_keys` and no key is dropped as a duplicate. The scan
/// fails exactly when a pattern that it needs does not compile, and then leaves `used_keys` as
/// it was.
pub fn scan_file_content(content: &str, file_path: &str, used_keys: &mut Vec<UsedKey>) -> (result:
    Result<(), AuditError>)
    ensures
        result is Ok <==> scan_ok(lines_of(content@)),
        result is Ok ==> final(used_keys).deep_view() == old(used_keys).deep_view() + scan_keys(
            lines_of(content@),
            file_path@,
            lines_of(content@).len() as int,
        ),
        result matches Err(error) ==> error is Pattern && final(used_keys)@ == old(used_keys)@,
{
    let lines = split_lines(content);
    let start = used_keys.len();
    let mut i: usize = 0;
    while i < lines.len()
        invariant
            i <= lines.len(),
            lines.deep_view() == lines_of(content@),
            forall|j: int| 0 <= j < i ==> line_ok(lines.deep_view(), j),
            used_keys.deep_view() == old(used_keys).deep_view() + scan_keys(
                lines.deep_view(),
                file_path@,
                i as int,
            ),
            start == old(used_keys)@.len(),
            used_keys@.len() >= start,
            used_keys@.take(start as int) == old(used_keys)@,
        decreases lines.len() - i,
    {
        match scan_line(&lines, i, file_path, used_keys) {
            Ok(()) => {},
            Err(error) => {
                used_keys.truncate(start);
                return Err(error);
            },
        }
        i += 1;
    }
    Ok(())
}

/// A source file that was read: the path by which it is reported, and its text.
#[derive(Debug, Clone)]
pub struct SourceFile {
    pub path: String,
    pub content: String,
}

/// The mathematical value of a `SourceFile`.
pub struct SourceFileView {
    pub path: Seq<char>,
    pub content: Seq<char>,
}

impl DeepView for SourceFile {
    type V = SourceFileView;

    open spec fn deep_view(&self) -> SourceFileView {
        SourceFileView { path: self.path@, content: self.content@ }
    }
}

impl View for SourceFile {
    type V = SourceFileView;

    open spec fn view(&self) -> SourceFileView {
        self.deep_view()
    }
}

/// The extension of the files that are scanned.
pub const SOURCE_EXTENSION: &'static str = "rs";

/// Whether a path names a source file: its file name has the extension `rs`.
pub open spec fn is_source_path(path: Seq<char>) -> bool {
    extension(file_name(path)) == Some(SOURCE_EXTENSION@)
}

/// Whether `path` names a file that `scan_source_code` scans.
pub fn is_source_file(path: &str) -> (scanned: bool)
    ensures
        scanned == is_source_path(path@),
{
    has_extension(path, SOURCE_EXTENSION)
}

/// Whether some entry of `keys` has the key `key`.
pub open spec fn has_key(keys: Seq<UsedKeyView>, key: Seq<char>) -> bool {
    exists|j: int| 0 <= j < keys.len() && (#[trigger] keys[j]).key == key
}

/// `keys` without the entries whose key an earlier entry has: of each key the first entry
/// stays, and the entries that stay keep their order.
pub open spec fn dedup_first(keys: Seq<UsedKeyView>) -> Seq<UsedKeyView>
    decreases keys.len(),
{
    if keys.len() == 0 {
        Seq::empty()
    } else if has_key(keys.drop_last(), keys.last().key) {
        dedup_first(keys.drop_last())
    } else {
        dedup_first(keys.drop_last()).push(keys.last())
    }
}

/// Whether every source file among `files` can be scanned.
pub open spec fn sources_ok(files: Seq<SourceFileView>) -> bool {
    forall|i: int|
        0 <= i < files.len() && is_source_path((#[trigger] files[i]).path) ==> scan_ok(
            lines_of(files[i].content),
        )
}

/// The keys that one file uses: all of `scan_keys` for a source file, nothing for another.
pub open spec fn file_keys(file: SourceFileView) -> Seq<UsedKeyView> {
    if is_source_path(file.path) {
        scan_keys(lines_of(file.content), file.path, lines_of(file.content).len() as int)
    } else {
        Seq::empty()
    }
}

/// The keys that the first `count` files use, file after file, duplicates included.
pub open spec fn sources_keys(files: Seq<SourceFileView>, count: int) -> Seq<UsedKeyView>
    decreases count,
{
    if count <= 0 {
        Seq::empty()
    } else {
        sources_keys(files, count - 1) + file_keys(files[count - 1])
    }
}

/// A copy of `key`.
pub fn copy_used_key(key: &UsedKey) -> (copy: UsedKey)
    ensures
        copy.deep_view() == key.deep_view(),
{
    UsedKey {
        key: key.key.clone(),
        is_literal: key.is_literal,
        file_path: key.file_path.clone(),
        line_number: key.line_number,
    }
}

/// Drops every entry whose key an earlier entry has.
pub fn dedup_used_keys(keys: &Vec<UsedKey>) -> (unique: Vec<UsedKey>)
    ensures
        unique.deep_view() == dedup_first(keys.deep_view()),
{
    let ghost all = keys.deep_view();
    let mut unique: Vec<UsedKey> = Vec::new();
    let mut seen = StringHashSet::new();
    let mut i: usize = 0;
    while i < keys.len()
        invariant
            i <= keys.len(),
            all == keys.deep_view(),
            unique.deep_view() == dedup_first(all.take(i as int)),
            forall|key: Seq<char>| seen@.contains(key) <==> has_key(all.take(i as int), key),
        decreases keys.len() - i,
    {
        let ghost done = all.take(i as int);
        let ghost next = all.take(i + 1);
        proof {
            assert(next.drop_last() == done);
            assert(next.last() == keys@[i as int].deep_view());
        }
        let fresh = !seen.contains(keys[i].key.as_str());
        if fresh {
            seen.insert(keys[i].key.clone());
            let ghost before = unique.deep_view();
            unique.push(copy_used_key(&keys[i]));
            assert(unique.deep_view() =~= before.push(next.last()));
        }
        proof {
            assert forall|key: Seq<char>| seen@.contains(key) <==> has_key(next, key) by {
                if has_key(next, key) {
                    let j = choose|j: int| 0 <= j < next.len() && (#[trigger] next[j]).key == key;
                    if j < i {
                        assert(done[j] == next[j]);
                    }
                }
                if has_key(done, key) {
                    let j = choose|j: int| 0 <= j < done.len() && (#[trigger] done[j]).key == key;
                    assert(done[j] == next[j]);
                }
                if key == next.last().key {
                    assert(next[i as int].key == key);
                }
            }
        }
        i += 1;
    }
    proof {
        assert(all.take(keys.len() as int) == all);
    }
    unique
}

/// Scans the source files among `files` and returns the keys that they use, each key once.
///
/// A file is scanned where its path has the extension `rs`. Entries are deduplicated by key
/// alone: of the entries with one key the first stays, whatever file, line or kind a later one
/// has, and the entries that stay keep the order in which they were found. The scan fails
/// exactly when a pattern that it needs does not compile.
pub fn scan_source_code(files: &Vec<SourceFile>) -> (result: Result<Vec<UsedKey>, AuditError>)
    ensures
        result is Ok <==> sources_ok(files.deep_view()),
        result matches Ok(keys) ==> keys.deep_view() == dedup_first(
            sources_keys(files.deep_view(), files.len() as int),
        ),
        result matches Err(error) ==> error is Pattern,
{
    let mut found: Vec<UsedKey> = Vec::new();
    let mut i: usize = 0;
    while i < files.len()
        invariant
            i <= files.len(),
            found.deep_view() == sources_keys(files.deep_view(), i as int),
            forall|j: int|
                0 <= j < i && is_source_path((#[trigger] files.deep_view()[j]).path) ==> scan_ok(
                    lines_of(files.deep_view()[j].content),
                ),
        decreases files.len() - i,
    {
        let file = &files[i];
        assert(files.deep_view()[i as int] == file.deep_view());
        if is_source_file(file.path.as_str()) {
            match scan_file_content(file.content.as_str(), file.path.as_str(), &mut found) {
                Ok(()) => {},
                Err(error) => {
                    return Err(error);
                },
            }
        }
        i += 1;
    }
    Ok(dedup_used_keys(&found))
}

} // verus!
