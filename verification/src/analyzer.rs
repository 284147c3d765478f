//! Compares the keys that the source uses with the keys that the catalogs define.

use crate::config::Config;
use crate::parser::{
    collect_languages, languages_of, last_definition, mark_last_definitions, DefinedKey,
    DefinedKeyView,
};
use crate::pattern::{pattern_compiles, pattern_matches, search};
use crate::scanner::{UsedKey, UsedKeyView};
use crate::text::{
    contains, contains_text, option_view, same_string, starts_with, widen, widen_placeholders,
};
use vstd::hash_set::StringHashSet;
use vstd::prelude::*;

verus! {

broadcast use vstd::string::group_string_axioms;

/// A key that a catalog defines and the source does not use.
#[derive(Debug, Clone)]
pub struct UnusedKey {
    /// The translation key.
    pub key: String,
    /// The language of the catalog.
    pub language: String,
    /// The text that the catalog gives the key.
    pub value: String,
    /// The file that defines the key.
    pub file_path: String,
}

/// The mathematical value of an `UnusedKey`.
pub struct UnusedKeyView {
    pub key: Seq<char>,
    pub language: Seq<char>,
    pub value: Seq<char>,
    pub file_path: Seq<char>,
}

impl DeepView for UnusedKey {
    type V = UnusedKeyView;

    open spec fn deep_view(&self) -> UnusedKeyView {
        UnusedKeyView {
            key: self.key@,
            language: self.language@,
            value: self.value@,
            file_path: self.file_path@,
        }
    }
}

impl View for UnusedKey {
    type V = UnusedKeyView;

    open spec fn view(&self) -> UnusedKeyView {
        self.deep_view()
    }
}

/// A key that the source uses as a literal and that some language does not define.
#[derive(Debug, Clone)]
pub struct MissingKey {
    /// The translation key.
    pub key: String,
    /// The languages that lack the key.
    pub missing_languages: Vec<String>,
    /// The file that uses the key.
    pub file_path: String,
    /// The line that uses the key, counted from 1.
    pub line_number: usize,
}

/// The mathematical value of a `MissingKey`.
pub struct MissingKeyView {
    pub key: Seq<char>,
    pub missing_languages: Seq<Seq<char>>,
    pub file_path: Seq<char>,
    pub line_number: usize,
}

impl DeepView for MissingKey {
    type V = MissingKeyView;

    open spec fn deep_view(&self) -> MissingKeyView {
        MissingKeyView {
            key: self.key@,
            missing_languages: self.missing_languages.deep_view(),
            file_path: self.file_path@,
            line_number: self.line_number,
        }
    }
}

impl View for MissingKey {
    type V = MissingKeyView;

    open spec fn view(&self) -> MissingKeyView {
        self.deep_view()
    }
}

/// A key that the source builds at run time.
#[derive(Debug, Clone)]
pub struct DynamicKey {
    /// The value bound to the variable that the call names, or the format pattern with its
    /// placeholders.
    pub pattern: String,
    /// The file that uses the key.
    pub file_path: String,
    /// The line that uses the key, counted from 1.
    pub line_number: usize,
}

/// The mathematical value of a `DynamicKey`.
pub struct DynamicKeyView {
    pub pattern: Seq<char>,
    pub file_path: Seq<char>,
    pub line_number: usize,
}

impl DeepView for DynamicKey {
    type V = DynamicKeyView;

    open spec fn deep_view(&self) -> DynamicKeyView {
        DynamicKeyView {
            pattern: self.pattern@,
            file_path: self.file_path@,
            line_number: self.line_number,
        }
    }
}

impl View for DynamicKey {
    type V = DynamicKeyView;

    open spec fn view(&self) -> DynamicKeyView {
        self.deep_view()
    }
}

/// The unused keys of one language.
#[derive(Debug, Clone)]
pub struct LanguageUnused {
    /// The language.
    pub language: String,
    /// Its unused keys, in the order of their definitions.
    pub keys: Vec<UnusedKey>,
}

/// The mathematical value of a `LanguageUnused`.
pub struct LanguageUnusedView {
    pub language: Seq<char>,
    pub keys: Seq<UnusedKeyView>,
}

impl DeepView for LanguageUnused {
    type V = LanguageUnusedView;

    open spec fn deep_view(&self) -> LanguageUnusedView {
        LanguageUnusedView { language: self.language@, keys: self.keys.deep_view() }
    }
}

impl View for LanguageUnused {
    type V = LanguageUnusedView;

    open spec fn view(&self) -> LanguageUnusedView {
        self.deep_view()
    }
}

/// What an analysis finds.
#[derive(Debug, Clone)]
pub struct AnalysisResult {
    /// The unused keys, language by language; a language without unused keys has no entry.
    pub unused_keys: Vec<LanguageUnused>,
    /// The literal keys of the source that some language lacks.
    pub missing_keys: Vec<MissingKey>,
    /// The keys that the source builds at run time.
    pub dynamic_keys: Vec<DynamicKey>,
    /// The share of the defined keys that are unused, in hundredths of a percent, rounded down.
    pub unused_basis_points: u64,
    /// How many keys the catalogs define, all languages together.
    pub total_keys: usize,
    /// How many of them are unused.
    pub total_unused: usize,
    /// How many entries `missing_keys` has.
    pub total_missing: usize,
    /// How many entries `dynamic_keys` has.
    pub total_dynamic: usize,
}

/// The mathematical value of an `AnalysisResult`.
pub struct AnalysisResultView {
    pub unused_keys: Seq<LanguageUnusedView>,
    pub missing_keys: Seq<MissingKeyView>,
    pub dynamic_keys: Seq<DynamicKeyView>,
    pub unused_basis_points: int,
    pub total_keys: int,
    pub total_unused: int,
    pub total_missing: int,
    pub total_dynamic: int,
}

impl DeepView for AnalysisResult {
    type V = AnalysisResultView;

    open spec fn deep_view(&self) -> AnalysisResultView {
        AnalysisResultView {
            unused_keys: self.unused_keys.deep_view(),
            missing_keys: self.missing_keys.deep_view(),
            dynamic_keys: self.dynamic_keys.deep_view(),
            unused_basis_points: self.unused_basis_points as int,
            total_keys: self.total_keys as int,
            total_unused: self.total_unused as int,
            total_missing: self.total_missing as int,
            total_dynamic: self.total_dynamic as int,
        }
    }
}

impl View for AnalysisResult {
    type V = AnalysisResultView;

    open spec fn view(&self) -> AnalysisResultView {
        self.deep_view()
    }
}

/// The marker of a placeholder in a dynamic key.
pub const PLACEHOLDER: &'static str = "{}";

/// Whether the source uses `key` as a literal.
pub open spec fn literal_used(used: Seq<UsedKeyView>, key: Seq<char>) -> bool {
    exists|j: int| 0 <= j < used.len() && (#[trigger] used[j]).is_literal && used[j].key == key
}

/// The dynamic key that stands for a use that is not literal.
pub open spec fn dynamic_entry(used: UsedKeyView) -> DynamicKeyView {
    DynamicKeyView {
        pattern: used.key,
        file_path: used.file_path,
        line_number: used.line_number,
    }
}

/// The uses that are not literal, in order, as dynamic keys.
pub open spec fn dynamic_keys_of(used: Seq<UsedKeyView>) -> Seq<DynamicKeyView>
    decreases used.len(),
{
    if used.len() == 0 {
        Seq::empty()
    } else if used.last().is_literal {
        dynamic_keys_of(used.drop_last())
    } else {
        dynamic_keys_of(used.drop_last()).push(dynamic_entry(used.last()))
    }
}

/// Whether `language` defines `key`.
pub open spec fn defines(defined: Seq<DefinedKeyView>, language: Seq<char>, key: Seq<char>) -> bool {
    exists|j: int|
        0 <= j < defined.len() && (#[trigger] defined[j]).language == language && defined[j].key
            == key
}

/// Whether the ignore pattern keeps `key` from counting as unused. A pattern that does not
/// compile ignores nothing.
pub open spec fn ignored(ignore: Option<Seq<char>>, key: Seq<char>) -> bool {
    match ignore {
        Some(pattern) => pattern_compiles(pattern) && pattern_matches(pattern, key),
        None => false,
    }
}

/// Whether the dynamic key `pattern` may stand for `key`: `key` begins with `pattern`, or
/// `pattern` holds a placeholder and, with each placeholder widened to one or more characters,
/// matches somewhere in `key`.
pub open spec fn covers(pattern: Seq<char>, key: Seq<char>) -> bool {
    ||| pattern.is_prefix_of(key)
    ||| {
        &&& contains(pattern, PLACEHOLDER@)
        &&& pattern_compiles(widen_placeholders(pattern))
        &&& pattern_matches(widen_placeholders(pattern), key)
    }
}

/// Whether some use that is not literal may stand for `key`.
pub open spec fn covered(used: Seq<UsedKeyView>, key: Seq<char>) -> bool {
    exists|j: int| 0 <= j < used.len() && !(#[trigger] used[j]).is_literal && covers(used[j].key, key)
}

/// Whether definition `index` is unused: it is the last of its key in its language, the ignore
/// pattern does not match its key, the source does not use the key as a literal, and no dynamic
/// key may stand for it.
pub open spec fn is_unused(
    used: Seq<UsedKeyView>,
    defined: Seq<DefinedKeyView>,
    ignore: Option<Seq<char>>,
    index: int,
) -> bool {
    &&& last_definition(defined, index)
    &&& !ignored(ignore, defined[index].key)
    &&& !literal_used(used, defined[index].key)
    &&& !covered(used, defined[index].key)
}

/// The unused key that stands for a definition.
pub open spec fn unused_entry(definition: DefinedKeyView) -> UnusedKeyView {
    UnusedKeyView {
        key: definition.key,
        language: definition.language,
        value: definition.value,
        file_path: definition.file_path,
    }
}

/// The unused keys of `language` among the first `count` definitions, in order.
pub open spec fn unused_of_language(
    used: Seq<UsedKeyView>,
    defined: Seq<DefinedKeyView>,
    ignore: Option<Seq<char>>,
    language: Seq<char>,
    count: int,
) -> Seq<UnusedKeyView>
    decreases count,
{
    if count <= 0 {
        Seq::empty()
    } else {
        let head = unused_of_language(used, defined, ignore, language, count - 1);
        if defined[count - 1].language == language && is_unused(used, defined, ignore, count - 1) {
            head.push(unused_entry(defined[count - 1]))
        } else {
            head
        }
    }
}

/// The unused keys of the first `count` of `languages`, one entry for each language that has
/// any.
pub open spec fn unused_groups(
    used: Seq<UsedKeyView>,
    defined: Seq<DefinedKeyView>,
    ignore: Option<Seq<char>>,
    languages: Seq<Seq<char>>,
    count: int,
) -> Seq<LanguageUnusedView>
    decreases count,
{
    if count <= 0 {
        Seq::empty()
    } else {
        let head = unused_groups(used, defined, ignore, languages, count - 1);
        let language = languages[count - 1];
        let keys = unused_of_language(used, defined, ignore, language, defined.len() as int);
        if keys.len() > 0 {
            head.push(LanguageUnusedView { language, keys })
        } else {
            head
        }
    }
}

/// How many of the first `count` definitions are unused.
pub open spec fn count_unused(
    used: Seq<UsedKeyView>,
    defined: Seq<DefinedKeyView>,
    ignore: Option<Seq<char>>,
    count: int,
) -> int
    decreases count,
{
    if count <= 0 {
        0
    } else if is_unused(used, defined, ignore, count - 1) {
        count_unused(used, defined, ignore, count - 1) + 1
    } else {
        count_unused(used, defined, ignore, count - 1)
    }
}

/// Those of the first `count` of `languages` that do not define `key`, in order.
pub open spec fn missing_languages(
    defined: Seq<DefinedKeyView>,
    languages: Seq<Seq<char>>,
    key: Seq<char>,
    count: int,
) -> Seq<Seq<char>>
    decreases count,
{
    if count <= 0 {
        Seq::empty()
    } else {
        let head = missing_languages(defined, languages, key, count - 1);
        if defines(defined, languages[count - 1], key) {
            head
        } else {
            head.push(languages[count - 1])
        }
    }
}

/// The languages that lack `key`.
pub open spec fn languages_without(defined: Seq<DefinedKeyView>, key: Seq<char>) -> Seq<Seq<char>> {
    missing_languages(defined, languages_of(defined), key, languages_of(defined).len() as int)
}

/// The missing keys among the first `count` uses: one entry for each literal use whose key
/// some language lacks, in order.
pub open spec fn missing_keys_of(
    used: Seq<UsedKeyView>,
    defined: Seq<DefinedKeyView>,
    count: int,
) -> Seq<MissingKeyView>
    decreases count,
{
    if count <= 0 {
        Seq::empty()
    } else {
        let head = missing_keys_of(used, defined, count - 1);
        let entry = used[count - 1];
        let lacking = languages_without(defined, entry.key);
        if entry.is_literal && lacking.len() > 0 {
            head.push(
                MissingKeyView {
                    key: entry.key,
                    missing_languages: lacking,
                    file_path: entry.file_path,
                    line_number: entry.line_number,
                },
            )
        } else {
            head
        }
    }
}

/// `part` of `whole` in hundredths of a percent, rounded down; 0 where `whole` is 0.
pub open spec fn basis_points(part: int, whole: int) -> int {
    if whole <= 0 {
        0
    } else {
        part * 10000 / whole
    }
}

/// What the analysis of `used` against `defined` finds.
pub open spec fn analysis(
    used: Seq<UsedKeyView>,
    defined: Seq<DefinedKeyView>,
    ignore: Option<Seq<char>>,
) -> AnalysisResultView {
    let total_unused = count_unused(used, defined, ignore, defined.len() as int);
    let languages = languages_of(defined);
    AnalysisResultView {
        unused_keys: unused_groups(used, defined, ignore, languages, languages.len() as int),
        missing_keys: missing_keys_of(used, defined, used.len() as int),
        dynamic_keys: dynamic_keys_of(used),
        unused_basis_points: basis_points(total_unused, defined.len() as int),
        total_keys: defined.len() as int,
        total_unused,
        total_missing: missing_keys_of(used, defined, used.len() as int).len() as int,
        total_dynamic: dynamic_keys_of(used).len() as int,
    }
}

/// `part` of `whole` in hundredths of a percent, rounded down; 0 where `whole` is 0. Where
/// `part` is no more than `whole` the result is no more than 10000, which is 100 percent.
pub fn unused_basis_points(total_unused: usize, total_keys: usize) -> (share: u128)
    ensures
        share == basis_points(total_unused as int, total_keys as int),
        total_keys == 0 ==> share == 0,
        total_unused <= total_keys ==> 0 <= share <= 10000,
{
    if total_keys == 0 {
        0
    } else {
        let scaled: u128 = (total_unused as u128) * 10000;
        proof {
            let part = total_unused as int;
            let whole = total_keys as int;
            if part <= whole {
                assert(part * 10000 <= whole * 10000) by (nonlinear_arith)
                    requires
                        part <= whole,
                ;
                assert(part * 10000 / whole <= 10000) by (nonlinear_arith)
                    requires
                        whole > 0,
                        0 <= part * 10000 <= whole * 10000,
                ;
            }
            assert(0 <= part * 10000 / whole) by (nonlinear_arith)
                requires
                    whole > 0,
                    0 <= part,
            ;
        }
        scaled / (total_keys as u128)
    }
}

/// The set of the keys that the source uses as literals.
fn literal_key_set(used_keys: &Vec<UsedKey>) -> (literals: StringHashSet)
    ensures
        forall|key: Seq<char>| literals@.contains(key) <==> literal_used(used_keys.deep_view(), key),
{
    let ghost used = used_keys.deep_view();
    let mut literals = StringHashSet::new();
    let mut i: usize = 0;
    while i < used_keys.len()
        invariant
            i <= used_keys.len(),
            used == used_keys.deep_view(),
            forall|key: Seq<char>| literals@.contains(key) <==> literal_used(used.take(i as int), key),
        decreases used_keys.len() - i,
    {
        let ghost done = used.take(i as int);
        let ghost next = used.take(i + 1);
        if used_keys[i].is_literal {
            literals.insert(used_keys[i].key.clone());
        }
        proof {
            assert(next[i as int] == used_keys@[i as int].deep_view());
            assert forall|key: Seq<char>| literals@.contains(key) <==> literal_used(next, key) by {
                if literal_used(next, key) {
                    let j = choose|j: int|
                        0 <= j < next.len() && (#[trigger] next[j]).is_literal && next[j].key == key;
                    if j < i {
                        assert(done[j] == next[j]);
                    }
                }
                if literal_used(done, key) {
                    let j = choose|j: int|
                        0 <= j < done.len() && (#[trigger] done[j]).is_literal && done[j].key == key;
                    assert(done[j] == next[j]);
                }
            }
        }
        i += 1;
    }
    proof {
        assert(used.take(used_keys.len() as int) == used);
    }
    literals
}

/// The uses that are not literal, as dynamic keys.
fn collect_dynamic_keys(used_keys: &Vec<UsedKey>) -> (dynamic: Vec<DynamicKey>)
    ensures
        dynamic.deep_view() == dynamic_keys_of(used_keys.deep_view()),
{
    let ghost used = used_keys.deep_view();
    let mut dynamic: Vec<DynamicKey> = Vec::new();
    let mut i: usize = 0;
    while i < used_keys.len()
        invariant
            i <= used_keys.len(),
            used == used_keys.deep_view(),
            dynamic.deep_view() == dynamic_keys_of(used.take(i as int)),
        decreases used_keys.len() - i,
    {
        proof {
            assert(used.take(i + 1).drop_last() == used.take(i as int));
            assert(used.take(i + 1).last() == used_keys@[i as int].deep_view());
        }
        let entry = &used_keys[i];
        if !entry.is_literal {
            let ghost before = dynamic.deep_view();
            dynamic.push(
                DynamicKey {
                    pattern: entry.key.clone(),
                    file_path: entry.file_path.clone(),
                    line_number: entry.line_number,
                },
            );
            assert(dynamic.deep_view() =~= before.push(dynamic_entry(used.take(i + 1).last())));
        }
        i += 1;
    }
    proof {
        assert(used.take(used_keys.len() as int) == used);
    }
    dynamic
}

/// Whether the ignore pattern keeps `key` from counting as unused.
fn is_ignored(ignore_pattern: &Option<String>, key: &str) -> (hit: bool)
    ensures
        hit == ignored(option_view(*ignore_pattern), key@),
{
    match ignore_pattern {
        Some(pattern) => match search(pattern.as_str(), key) {
            Ok(hit) => hit,
            Err(_) => false,
        },
        None => false,
    }
}

/// Whether the dynamic key `pattern` may stand for `key`.
fn pattern_covers(pattern: &str, key: &str) -> (hit: bool)
    ensures
        hit == covers(pattern@, key@),
{
    if starts_with(key, pattern) {
        return true;
    }
    if !contains_text(pattern, PLACEHOLDER) {
        return false;
    }
    let widened = widen(pattern);
    match search(widened.as_str(), key) {
        Ok(hit) => hit,
        Err(_) => false,
    }
}

/// Whether some use that is not literal may stand for `key`.
fn is_covered(used_keys: &Vec<UsedKey>, key: &str) -> (hit: bool)
    ensures
        hit == covered(used_keys.deep_view(), key@),
{
    let ghost used = used_keys.deep_view();
    let mut j: usize = 0;
    while j < used_keys.len()
        invariant
            j <= used_keys.len(),
            used == used_keys.deep_view(),
            forall|k: int| 0 <= k < j ==> !(!(#[trigger] used[k]).is_literal && covers(used[k].key, key@)),
        decreases used_keys.len() - j,
    {
        let entry = &used_keys[j];
        if !entry.is_literal && pattern_covers(entry.key.as_str(), key) {
            assert(!used[j as int].is_literal && covers(used[j as int].key, key@));
            return true;
        }
        j += 1;
    }
    false
}

/// For each definition, whether it is unused; and how many are.
fn mark_unused(
    used_keys: &Vec<UsedKey>,
    defined_keys: &Vec<DefinedKey>,
    ignore_pattern: &Option<String>,
) -> (marks: (Vec<bool>, usize))
    ensures
        marks.0.len() == defined_keys.len(),
        forall|k: int|
            0 <= k < defined_keys.len() ==> marks.0@[k] == is_unused(
                used_keys.deep_view(),
                defined_keys.deep_view(),
                option_view(*ignore_pattern),
                k,
            ),
        marks.1 == count_unused(
            used_keys.deep_view(),
            defined_keys.deep_view(),
            option_view(*ignore_pattern),
            defined_keys.len() as int,
        ),
        marks.1 <= defined_keys.len(),
{
    let ghost used = used_keys.deep_view();
    let ghost defined = defined_keys.deep_view();
    let ghost ignore = option_view(*ignore_pattern);
    let literals = literal_key_set(used_keys);
    let last = mark_last_definitions(defined_keys);
    let mut flags: Vec<bool> = Vec::new();
    let mut total: usize = 0;
    let mut i: usize = 0;
    while i < defined_keys.len()
        invariant
            i <= defined_keys.len(),
            used == used_keys.deep_view(),
            defined == defined_keys.deep_view(),
            ignore == option_view(*ignore_pattern),
            forall|key: Seq<char>| literals@.contains(key) <==> literal_used(used, key),
            last.len() == defined_keys.len(),
            forall|k: int| 0 <= k < last.len() ==> last@[k] == last_definition(defined, k),
            flags.len() == i,
            forall|k: int| 0 <= k < i ==> flags@[k] == is_unused(used, defined, ignore, k),
            total == count_unused(used, defined, ignore, i as int),
            total <= i,
        decreases defined_keys.len() - i,
    {
        let key = defined_keys[i].key.as_str();
        assert(key@ == defined[i as int].key);
        let unused = last[i] && !is_ignored(ignore_pattern, key)
            && !literals.contains(key) && !is_covered(used_keys, key);
        flags.push(unused);
        if unused {
            total += 1;
        }
        i += 1;
    }
    (flags, total)
}

/// The unused keys of `language`, in the order of their definitions.
fn collect_unused_of_language(
    used_keys: &Vec<UsedKey>,
    defined_keys: &Vec<DefinedKey>,
    ignore_pattern: &Option<String>,
    flags: &Vec<bool>,
    language: &String,
) -> (keys: Vec<UnusedKey>)
    requires
        flags.len() == defined_keys.len(),
        forall|k: int|
            0 <= k < defined_keys.len() ==> flags@[k] == is_unused(
                used_keys.deep_view(),
                defined_keys.deep_view(),
                option_view(*ignore_pattern),
                k,
            ),
    ensures
        keys.deep_view() == unused_of_language(
            used_keys.deep_view(),
            defined_keys.deep_view(),
            option_view(*ignore_pattern),
            language@,
            defined_keys.len() as int,
        ),
{
    let ghost used = used_keys.deep_view();
    let ghost defined = defined_keys.deep_view();
    let ghost ignore = option_view(*ignore_pattern);
    let mut keys: Vec<UnusedKey> = Vec::new();
    let mut i: usize = 0;
    while i < defined_keys.len()
        invariant
            i <= defined_keys.len(),
            used == used_keys.deep_view(),
            defined == defined_keys.deep_view(),
            ignore == option_view(*ignore_pattern),
            flags.len() == defined_keys.len(),
            forall|k: int|
                0 <= k < defined_keys.len() ==> flags@[k] == is_unused(used, defined, ignore, k),
            keys.deep_view() == unused_of_language(used, defined, ignore, language@, i as int),
        decreases defined_keys.len() - i,
    {
        let entry = &defined_keys[i];
        assert(defined[i as int] == entry.deep_view());
        if flags[i] && same_string(&entry.language, language) {
            let ghost before = keys.deep_view();
            keys.push(
                UnusedKey {
                    key: entry.key.clone(),
                    language: entry.language.clone(),
                    value: entry.value.clone(),
                    file_path: entry.file_path.clone(),
                },
            );
            assert(keys.deep_view() =~= before.push(unused_entry(defined[i as int])));
        }
        i += 1;
    }
    keys
}

/// The unused keys of each language that has any.
fn collect_unused_groups(
    used_keys: &Vec<UsedKey>,
    defined_keys: &Vec<DefinedKey>,
    ignore_pattern: &Option<String>,
    flags: &Vec<bool>,
    languages: &Vec<String>,
) -> (groups: Vec<LanguageUnused>)
    requires
        flags.len() == defined_keys.len(),
        forall|k: int|
            0 <= k < defined_keys.len() ==> flags@[k] == is_unused(
                used_keys.deep_view(),
                defined_keys.deep_view(),
                option_view(*ignore_pattern),
                k,
            ),
    ensures
        groups.deep_view() == unused_groups(
            used_keys.deep_view(),
            defined_keys.deep_view(),
            option_view(*ignore_pattern),
            languages.deep_view(),
            languages.len() as int,
        ),
{
    let ghost used = used_keys.deep_view();
    let ghost defined = defined_keys.deep_view();
    let ghost ignore = option_view(*ignore_pattern);
    let mut groups: Vec<LanguageUnused> = Vec::new();
    let mut g: usize = 0;
    while g < languages.len()
        invariant
            g <= languages.len(),
            used == used_keys.deep_view(),
            defined == defined_keys.deep_view(),
            ignore == option_view(*ignore_pattern),
            flags.len() == defined_keys.len(),
            forall|k: int|
                0 <= k < defined_keys.len() ==> flags@[k] == is_unused(used, defined, ignore, k),
            groups.deep_view() == unused_groups(used, defined, ignore, languages.deep_view(), g as int),
        decreases languages.len() - g,
    {
        let language = &languages[g];
        assert(languages.deep_view()[g as int] == language@);
        let keys = collect_unused_of_language(
            used_keys,
            defined_keys,
            ignore_pattern,
            flags,
            language,
        );
        if keys.len() > 0 {
            let ghost before = groups.deep_view();
            let ghost entry = LanguageUnusedView { language: language@, keys: keys.deep_view() };
            groups.push(LanguageUnused { language: language.clone(), keys });
            assert(groups.deep_view() =~= before.push(entry));
        }
        g += 1;
    }
    groups
}

/// The set of the keys that `language` defines.
fn language_keys(defined_keys: &Vec<DefinedKey>, language: &String) -> (keys: StringHashSet)
    ensures
        forall|key: Seq<char>| keys@.contains(key) <==> defines(defined_keys.deep_view(), language@, key),
{
    let ghost defined = defined_keys.deep_view();
    let mut keys = StringHashSet::new();
    let mut i: usize = 0;
    while i < defined_keys.len()
        invariant
            i <= defined_keys.len(),
            defined == defined_keys.deep_view(),
            forall|key: Seq<char>| keys@.contains(key) <==> defines(defined.take(i as int), language@, key),
        decreases defined_keys.len() - i,
    {
        let ghost done = defined.take(i as int);
        let ghost next = defined.take(i + 1);
        let entry = &defined_keys[i];
        if same_string(&entry.language, language) {
            keys.insert(entry.key.clone());
        }
        proof {
            assert(next[i as int] == entry.deep_view());
            assert forall|key: Seq<char>| keys@.contains(key) <==> defines(next, language@, key) by {
                if defines(next, language@, key) {
                    let j = choose|j: int|
                        0 <= j < next.len() && (#[trigger] next[j]).language == language@
                            && next[j].key == key;
                    if j < i {
                        assert(done[j] == next[j]);
                    }
                }
                if defines(done, language@, key) {
                    let j = choose|j: int|
                        0 <= j < done.len() && (#[trigger] done[j]).language == language@
                            && done[j].key == key;
                    assert(done[j] == next[j]);
                }
            }
        }
        i += 1;
    }
    proof {
        assert(defined.take(defined_keys.len() as int) == defined);
    }
    keys
}

/// For each of `languages`, the set of the keys that it defines.
fn languages_keys(defined_keys: &Vec<DefinedKey>, languages: &Vec<String>) -> (sets: Vec<StringHashSet>)
    ensures
        sets.len() == languages.len(),
        forall|g: int, key: Seq<char>|
            0 <= g < sets.len() ==> (#[trigger] sets@[g]@.contains(key) <==> defines(
                defined_keys.deep_view(),
                languages.deep_view()[g],
                key,
            )),
{
    let mut sets: Vec<StringHashSet> = Vec::new();
    let mut g: usize = 0;
    while g < languages.len()
        invariant
            g <= languages.len(),
            sets.len() == g,
            forall|h: int, key: Seq<char>|
                0 <= h < g ==> (#[trigger] sets@[h]@.contains(key) <==> defines(
                    defined_keys.deep_view(),
                    languages.deep_view()[h],
                    key,
                )),
        decreases languages.len() - g,
    {
        let language = &languages[g];
        assert(languages.deep_view()[g as int] == language@);
        let keys = language_keys(defined_keys, language);
        sets.push(keys);
        g += 1;
    }
    sets
}

/// Those of `languages` that do not define `key`, in order.
fn collect_missing_languages(
    defined_keys: &Vec<DefinedKey>,
    languages: &Vec<String>,
    sets: &Vec<StringHashSet>,
    key: &String,
) -> (lacking: Vec<String>)
    requires
        sets.len() == languages.len(),
        forall|g: int, key: Seq<char>|
            0 <= g < sets.len() ==> (#[trigger] sets@[g]@.contains(key) <==> defines(
                defined_keys.deep_view(),
                languages.deep_view()[g],
                key,
            )),
    ensures
        lacking.deep_view() == missing_languages(
            defined_keys.deep_view(),
            languages.deep_view(),
            key@,
            languages.len() as int,
        ),
{
    let ghost defined = defined_keys.deep_view();
    let mut lacking: Vec<String> = Vec::new();
    let mut g: usize = 0;
    while g < languages.len()
        invariant
            g <= languages.len(),
            defined == defined_keys.deep_view(),
            sets.len() == languages.len(),
            forall|h: int, key: Seq<char>|
                0 <= h < sets.len() ==> (#[trigger] sets@[h]@.contains(key) <==> defines(
                    defined,
                    languages.deep_view()[h],
                    key,
                )),
            lacking.deep_view() == missing_languages(defined, languages.deep_view(), key@, g as int),
        decreases languages.len() - g,
    {
        let language = &languages[g];
        assert(languages.deep_view()[g as int] == language@);
        let found = sets[g].contains(key.as_str());
        assert(found == sets@[g as int]@.contains(key@));
        if !found {
            let ghost before = lacking.deep_view();
            lacking.push(language.clone());
            assert(lacking.deep_view() =~= before.push(language@));
        }
        g += 1;
    }
    lacking
}

/// One entry for each literal use whose key some language lacks.
fn collect_missing_keys(
    used_keys: &Vec<UsedKey>,
    defined_keys: &Vec<DefinedKey>,
    languages: &Vec<String>,
) -> (missing: Vec<MissingKey>)
    requires
        languages.deep_view() == languages_of(defined_keys.deep_view()),
    ensures
        missing.deep_view() == missing_keys_of(
            used_keys.deep_view(),
            defined_keys.deep_view(),
            used_keys.len() as int,
        ),
{
    let ghost used = used_keys.deep_view();
    let ghost defined = defined_keys.deep_view();
    let sets = languages_keys(defined_keys, languages);
    let mut missing: Vec<MissingKey> = Vec::new();
    let mut i: usize = 0;
    while i < used_keys.len()
        invariant
            i <= used_keys.len(),
            used == used_keys.deep_view(),
            defined == defined_keys.deep_view(),
            languages.deep_view() == languages_of(defined),
            sets.len() == languages.len(),
            forall|g: int, key: Seq<char>|
                0 <= g < sets.len() ==> (#[trigger] sets@[g]@.contains(key) <==> defines(
                    defined,
                    languages.deep_view()[g],
                    key,
                )),
            missing.deep_view() == missing_keys_of(used, defined, i as int),
        decreases used_keys.len() - i,
    {
        let entry = &used_keys[i];
        assert(used[i as int] == entry.deep_view());
        if entry.is_literal {
            let lacking = collect_missing_languages(defined_keys, languages, &sets, &entry.key);
            if lacking.len() > 0 {
                let ghost before = missing.deep_view();
                let ghost added = MissingKeyView {
                    key: entry.key@,
                    missing_languages: lacking.deep_view(),
                    file_path: entry.file_path@,
                    line_number: entry.line_number,
                };
                missing.push(
                    MissingKey {
                        key: entry.key.clone(),
                        missing_languages: lacking,
                        file_path: entry.file_path.clone(),
                        line_number: entry.line_number,
                    },
                );
                assert(missing.deep_view() =~= before.push(added));
            }
        }
        i += 1;
    }
    missing
}

/// Every unused key of a language is defined by that language and is not used as a literal.
pub proof fn lemma_unused_of_language(
    used: Seq<UsedKeyView>,
    defined: Seq<DefinedKeyView>,
    ignore: Option<Seq<char>>,
    language: Seq<char>,
    count: int,
)
    requires
        count <= defined.len(),
    ensures
        forall|k: int|
            #![trigger unused_of_language(used, defined, ignore, language, count)[k]]
            0 <= k < unused_of_language(used, defined, ignore, language, count).len() ==> {
                let entry = unused_of_language(used, defined, ignore, language, count)[k];
                &&& entry.language == language
                &&& defines(defined, language, entry.key)
                &&& !literal_used(used, entry.key)
                &&& !ignored(ignore, entry.key)
                &&& !covered(used, entry.key)
            },
    decreases count,
{
    if count > 0 {
        lemma_unused_of_language(used, defined, ignore, language, count - 1);
        let head = unused_of_language(used, defined, ignore, language, count - 1);
        let all = unused_of_language(used, defined, ignore, language, count);
        assert forall|k: int| 0 <= k < all.len() implies {
            let entry = #[trigger] all[k];
            &&& entry.language == language
            &&& defines(defined, language, entry.key)
            &&& !literal_used(used, entry.key)
            &&& !ignored(ignore, entry.key)
            &&& !covered(used, entry.key)
        } by {
            if k < head.len() {
                assert(all[k] == head[k]);
            } else {
                assert(all[k] == unused_entry(defined[count - 1]));
                assert(defined[count - 1].language == language);
            }
        }
    }
}

/// Every language that a missing key names lacks the key.
pub proof fn lemma_missing_languages(
    defined: Seq<DefinedKeyView>,
    languages: Seq<Seq<char>>,
    key: Seq<char>,
    count: int,
)
    requires
        count <= languages.len(),
    ensures
        forall|k: int|
            #![trigger missing_languages(defined, languages, key, count)[k]]
            0 <= k < missing_languages(defined, languages, key, count).len() ==> !defines(
                defined,
                missing_languages(defined, languages, key, count)[k],
                key,
            ),
    decreases count,
{
    if count > 0 {
        lemma_missing_languages(defined, languages, key, count - 1);
        let head = missing_languages(defined, languages, key, count - 1);
        let all = missing_languages(defined, languages, key, count);
        assert forall|k: int| 0 <= k < all.len() implies !defines(defined, #[trigger] all[k], key) by {
            if k < head.len() {
                assert(all[k] == head[k]);
            }
        }
    }
}

/// Whether an entry of the unused keys belongs to its group: it has the group's language, that
/// language defines its key, and the source does not use the key as a literal.
pub open spec fn unused_entry_ok(
    used: Seq<UsedKeyView>,
    defined: Seq<DefinedKeyView>,
    group: LanguageUnusedView,
    k: int,
) -> bool {
    &&& group.keys[k].language == group.language
    &&& defines(defined, group.language, group.keys[k].key)
    &&& !literal_used(used, group.keys[k].key)
}

/// Whether a missing key is one: the source uses it as a literal, and each language that it
/// names lacks it.
pub open spec fn missing_entry_ok(
    used: Seq<UsedKeyView>,
    defined: Seq<DefinedKeyView>,
    entry: MissingKeyView,
) -> bool {
    &&& literal_used(used, entry.key)
    &&& entry.missing_languages.len() > 0
    &&& forall|l: int|
        0 <= l < entry.missing_languages.len() ==> !defines(
            defined,
            #[trigger] entry.missing_languages[l],
            entry.key,
        )
}

/// Every group of unused keys holds unused keys of its own language only.
pub proof fn lemma_unused_groups(
    used: Seq<UsedKeyView>,
    defined: Seq<DefinedKeyView>,
    ignore: Option<Seq<char>>,
    languages: Seq<Seq<char>>,
    count: int,
)
    requires
        count <= languages.len(),
    ensures
        forall|g: int, k: int|
            #![trigger unused_groups(used, defined, ignore, languages, count)[g].keys[k]]
            0 <= g < unused_groups(used, defined, ignore, languages, count).len() && 0 <= k
                < unused_groups(used, defined, ignore, languages, count)[g].keys.len()
                ==> unused_entry_ok(
                used,
                defined,
                unused_groups(used, defined, ignore, languages, count)[g],
                k,
            ),
        forall|g: int|
            0 <= g < unused_groups(used, defined, ignore, languages, count).len() ==> (
            #[trigger] unused_groups(used, defined, ignore, languages, count)[g]).keys.len() > 0,
    decreases count,
{
    if count > 0 {
        lemma_unused_groups(used, defined, ignore, languages, count - 1);
        let head = unused_groups(used, defined, ignore, languages, count - 1);
        let all = unused_groups(used, defined, ignore, languages, count);
        let language = languages[count - 1];
        lemma_unused_of_language(used, defined, ignore, language, defined.len() as int);
        assert forall|g: int, k: int| 0 <= g < all.len() && 0 <= k < all[g].keys.len() implies unused_entry_ok(
            used,
            defined,
            all[g],
            k,
        ) by {
            if g < head.len() {
                assert(all[g] == head[g]);
                assert(unused_entry_ok(used, defined, head[g], k));
            }
        }
        assert forall|g: int| 0 <= g < all.len() implies (#[trigger] all[g]).keys.len() > 0 by {
            if g < head.len() {
                assert(all[g] == head[g]);
            }
        }
    }
}

/// Every missing key is used as a literal and lacked by each language that it names.
pub proof fn lemma_missing_keys(used: Seq<UsedKeyView>, defined: Seq<DefinedKeyView>, count: int)
    requires
        count <= used.len(),
    ensures
        forall|m: int|
            0 <= m < missing_keys_of(used, defined, count).len() ==> missing_entry_ok(
                used,
                defined,
                #[trigger] missing_keys_of(used, defined, count)[m],
            ),
    decreases count,
{
    if count > 0 {
        lemma_missing_keys(used, defined, count - 1);
        let head = missing_keys_of(used, defined, count - 1);
        let all = missing_keys_of(used, defined, count);
        let languages = languages_of(defined);
        lemma_missing_languages(defined, languages, used[count - 1].key, languages.len() as int);
        assert forall|m: int| 0 <= m < all.len() implies missing_entry_ok(
            used,
            defined,
            #[trigger] all[m],
        ) by {
            if m < head.len() {
                assert(all[m] == head[m]);
            } else {
                assert(used[count - 1].is_literal);
            }
        }
    }
}

/// No more definitions are unused than there are.
pub proof fn lemma_count_unused(
    used: Seq<UsedKeyView>,
    defined: Seq<DefinedKeyView>,
    ignore: Option<Seq<char>>,
    count: int,
)
    requires
        0 <= count,
    ensures
        0 <= count_unused(used, defined, ignore, count) <= count,
    decreases count,
{
    if count > 0 {
        lemma_count_unused(used, defined, ignore, count - 1);
    }
}

/// The partition that an analysis makes. No key that the source uses as a literal is among the
/// unused keys, of any language, and every unused key is defined by the language under which it
/// stands. Every missing key is used as a literal by the source, and is defined by none of the
/// languages that it names. So no key is at once unused in a language and missing from it.
pub proof fn lemma_analysis_partition(
    used: Seq<UsedKeyView>,
    defined: Seq<DefinedKeyView>,
    ignore: Option<Seq<char>>,
)
    ensures
        forall|g: int, k: int|
            #![trigger analysis(used, defined, ignore).unused_keys[g].keys[k]]
            0 <= g < analysis(used, defined, ignore).unused_keys.len() && 0 <= k < analysis(
                used,
                defined,
                ignore,
            ).unused_keys[g].keys.len() ==> unused_entry_ok(
                used,
                defined,
                analysis(used, defined, ignore).unused_keys[g],
                k,
            ),
        forall|m: int|
            0 <= m < analysis(used, defined, ignore).missing_keys.len() ==> missing_entry_ok(
                used,
                defined,
                #[trigger] analysis(used, defined, ignore).missing_keys[m],
            ),
        forall|g: int, k: int, m: int, l: int|
            #![trigger analysis(used, defined, ignore).unused_keys[g].keys[k], analysis(used, defined, ignore).missing_keys[m].missing_languages[l]]
            0 <= g < analysis(used, defined, ignore).unused_keys.len() && 0 <= k < analysis(
                used,
                defined,
                ignore,
            ).unused_keys[g].keys.len() && 0 <= m < analysis(used, defined, ignore).missing_keys.len()
                && 0 <= l < analysis(used, defined, ignore).missing_keys[m].missing_languages.len()
                ==> !(analysis(used, defined, ignore).unused_keys[g].keys[k].key == analysis(
                used,
                defined,
                ignore,
            ).missing_keys[m].key && analysis(used, defined, ignore).unused_keys[g].language
                == analysis(used, defined, ignore).missing_keys[m].missing_languages[l]),
{
    let languages = languages_of(defined);
    lemma_unused_groups(used, defined, ignore, languages, languages.len() as int);
    lemma_missing_keys(used, defined, used.len() as int);
    let found = analysis(used, defined, ignore);
    assert forall|g: int, k: int, m: int, l: int|
        0 <= g < found.unused_keys.len() && 0 <= k < found.unused_keys[g].keys.len() && 0 <= m
            < found.missing_keys.len() && 0 <= l
            < found.missing_keys[m].missing_languages.len() implies !(
    #[trigger] found.unused_keys[g].keys[k].key == found.missing_keys[m].key
        && found.unused_keys[g].language
        == #[trigger] found.missing_keys[m].missing_languages[l]) by {
        assert(unused_entry_ok(used, defined, found.unused_keys[g], k));
        assert(missing_entry_ok(used, defined, found.missing_keys[m]));
    }
}

/// The bounds of the share of unused keys. An analysis counts no more unused keys than there
/// are keys; the share lies between 0 and 100 percent, and is 0 where no key is defined.
pub proof fn lemma_analysis_share(
    used: Seq<UsedKeyView>,
    defined: Seq<DefinedKeyView>,
    ignore: Option<Seq<char>>,
)
    ensures
        0 <= analysis(used, defined, ignore).total_unused <= analysis(used, defined, ignore).total_keys,
        0 <= analysis(used, defined, ignore).unused_basis_points <= 10000,
        analysis(used, defined, ignore).total_keys == 0 ==> analysis(
            used,
            defined,
            ignore,
        ).unused_basis_points == 0,
{
    lemma_count_unused(used, defined, ignore, defined.len() as int);
    lemma_basis_points(
        count_unused(used, defined, ignore, defined.len() as int),
        defined.len() as int,
    );
}

/// A part of a whole is between 0 and 100 percent of it, and 0 percent of nothing.
pub proof fn lemma_basis_points(part: int, whole: int)
    requires
        0 <= part <= whole,
    ensures
        0 <= basis_points(part, whole) <= 10000,
        whole == 0 ==> basis_points(part, whole) == 0,
{
    if whole > 0 {
        assert(part * 10000 <= whole * 10000) by (nonlinear_arith)
            requires
                part <= whole,
        ;
        assert(0 <= part * 10000 / whole <= 10000) by (nonlinear_arith)
            requires
                whole > 0,
                0 <= part * 10000 <= whole * 10000,
        ;
    }
}

/// Analyses the keys that the source uses against the keys that the catalogs define.
///
/// A definition is unused where it is the last of its key in its language and its key is
/// neither matched by `config.ignore_pattern`, nor used as a literal, nor covered by a dynamic
/// key. The unused keys stand language by language, the languages in the order in which the
/// definitions first name them, the keys in the order of their definitions. Each literal use
/// whose key some language lacks gives one missing key, in the order of the uses. The total of
/// keys counts every definition, of every language: the share of unused keys is taken of that.
/// An ignore pattern that does not compile ignores nothing.
pub fn analyze(used_keys: &Vec<UsedKey>, defined_keys: &Vec<DefinedKey>, config: &Config) -> (result:
    AnalysisResult)
    ensures
        result.deep_view() == analysis(
            used_keys.deep_view(),
            defined_keys.deep_view(),
            option_view(config.ignore_pattern),
        ),
        result.total_unused <= result.total_keys,
        result.unused_basis_points <= 10000,
        result.total_keys == 0 ==> result.unused_basis_points == 0,
        forall|g: int, k: int|
            #![trigger result.deep_view().unused_keys[g].keys[k]]
            0 <= g < result.deep_view().unused_keys.len() && 0 <= k
                < result.deep_view().unused_keys[g].keys.len() ==> unused_entry_ok(
                used_keys.deep_view(),
                defined_keys.deep_view(),
                result.deep_view().unused_keys[g],
                k,
            ),
        forall|m: int|
            0 <= m < result.deep_view().missing_keys.len() ==> missing_entry_ok(
                used_keys.deep_view(),
                defined_keys.deep_view(),
                #[trigger] result.deep_view().missing_keys[m],
            ),
{
    let dynamic_keys = collect_dynamic_keys(used_keys);
    let languages = collect_languages(defined_keys);
    let (flags, total_unused) = mark_unused(used_keys, defined_keys, &config.ignore_pattern);
    let unused_keys = collect_unused_groups(
        used_keys,
        defined_keys,
        &config.ignore_pattern,
        &flags,
        &languages,
    );
    let missing_keys = collect_missing_keys(used_keys, defined_keys, &languages);
    let total_keys = defined_keys.len();
    let share = unused_basis_points(total_unused, total_keys);
    let total_missing = missing_keys.len();
    let total_dynamic = dynamic_keys.len();
    proof {
        lemma_analysis_partition(
            used_keys.deep_view(),
            defined_keys.deep_view(),
            option_view(config.ignore_pattern),
        );
    }
    AnalysisResult {
        unused_keys,
        missing_keys,
        dynamic_keys,
        unused_basis_points: share as u64,
        total_keys,
        total_unused,
        total_missing,
        total_dynamic,
    }
}

impl AnalysisResult {
    /// Whether the share of unused keys is above `threshold_basis_points`, a share in
    /// hundredths of a percent. The shares are compared exactly, without rounding: 1 unused
    /// key of 3 is above 3333 and not above 3334.
    pub fn exceeds_threshold(&self, threshold_basis_points: i64) -> (exceeded: bool)
        ensures
            exceeded == share_exceeds(
                self.total_unused as int,
                self.total_keys as int,
                threshold_basis_points as int,
            ),
    {
        if self.total_keys == 0 {
            return threshold_basis_points < 0;
        }
        if threshold_basis_points < 0 {
            assert(self.total_unused * 10000 >= 0 > threshold_basis_points * self.total_keys)
                by (nonlinear_arith)
                requires
                    self.total_unused >= 0,
                    self.total_keys > 0,
                    threshold_basis_points < 0,
            ;
            return true;
        }
        assert(threshold_basis_points * self.total_keys <= 0x7fff_ffff_ffff_ffff
            * 0xffff_ffff_ffff_ffff) by (nonlinear_arith)
            requires
                0 <= threshold_basis_points <= 0x7fff_ffff_ffff_ffff,
                0 <= self.total_keys <= 0xffff_ffff_ffff_ffff,
        ;
        let unused: u128 = (self.total_unused as u128) * 10000;
        let limit: u128 = (threshold_basis_points as u128) * (self.total_keys as u128);
        unused > limit
    }
}

/// Whether `unused` of `total` keys is a share above `threshold` hundredths of a percent. Of
/// no keys the share is 0.
pub open spec fn share_exceeds(unused: int, total: int, threshold: int) -> bool {
    if total <= 0 {
        0 > threshold
    } else {
        unused * 10000 > threshold * total
    }
}

} // verus!
