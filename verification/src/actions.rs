//! Rewrites catalogs: to the keys that the source uses, or to one order of keys for all files.

use crate::config::{join_path, join_paths, Config};
use crate::error::{AuditError, Failure};
use crate::flat::FlatCatalog;
use crate::parser::{
    config_definitions, file_content, parse_translation_files, write_translation_file, CatalogFile,
    CatalogFileView, DefinedKey, DefinedKeyView,
};
use crate::analyzer::{analysis, analyze, share_exceeds, AnalysisResult};
use crate::pattern::{first_groups, pattern_compiles, pattern_groups};
use crate::scanner::{
    dedup_first, is_source_file, is_source_path, scan_source_code, sources_keys, sources_ok,
    SourceFile, SourceFileView, UsedKey, UsedKeyView,
};
use crate::text::{option_view, same_string};
use vstd::hash_set::StringHashSet;
use vstd::prelude::*;

verus! {

broadcast use vstd::string::group_string_axioms;

/// A catalog file as the definitions name it: its language and its path.
#[derive(Debug, Clone)]
pub struct CatalogGroup {
    pub language: String,
    pub file_path: String,
}

/// The mathematical value of a `CatalogGroup`.
pub struct CatalogGroupView {
    pub language: Seq<char>,
    pub file_path: Seq<char>,
}

impl DeepView for CatalogGroup {
    type V = CatalogGroupView;

    open spec fn deep_view(&self) -> CatalogGroupView {
        CatalogGroupView { language: self.language@, file_path: self.file_path@ }
    }
}

impl View for CatalogGroup {
    type V = CatalogGroupView;

    open spec fn view(&self) -> CatalogGroupView {
        self.deep_view()
    }
}

/// The file of a definition.
pub open spec fn group_of(definition: DefinedKeyView) -> CatalogGroupView {
    CatalogGroupView { language: definition.language, file_path: definition.file_path }
}

/// The files of the definitions, each once, in the order in which they first occur.
pub open spec fn groups_of(defined: Seq<DefinedKeyView>) -> Seq<CatalogGroupView>
    decreases defined.len(),
{
    if defined.len() == 0 {
        Seq::empty()
    } else if groups_of(defined.drop_last()).contains(group_of(defined.last())) {
        groups_of(defined.drop_last())
    } else {
        groups_of(defined.drop_last()).push(group_of(defined.last()))
    }
}

/// The map of the file `group` as the first `count` definitions give it: each key of the file
/// with the text of its last definition.
pub open spec fn group_map(defined: Seq<DefinedKeyView>, group: CatalogGroupView, count: int) -> Map<
    Seq<char>,
    Seq<char>,
>
    decreases count,
{
    if count <= 0 {
        Map::empty()
    } else if group_of(defined[count - 1]) == group {
        group_map(defined, group, count - 1).insert(defined[count - 1].key, defined[count - 1].value)
    } else {
        group_map(defined, group, count - 1)
    }
}

/// The map of the file `group`.
pub open spec fn file_map(defined: Seq<DefinedKeyView>, group: CatalogGroupView) -> Map<
    Seq<char>,
    Seq<char>,
> {
    group_map(defined, group, defined.len() as int)
}

/// The strings of a list, as a set.
pub open spec fn key_set(keys: Seq<Seq<char>>) -> Set<Seq<char>> {
    Set::new(|key: Seq<char>| keys.contains(key))
}

/// A map with the keys `master`: each with the text that `file` gives it, or with the empty
/// text where `file` lacks it.
pub open spec fn align(master: Seq<Seq<char>>, file: Map<Seq<char>, Seq<char>>) -> Map<
    Seq<char>,
    Seq<char>,
> {
    Map::new(
        |key: Seq<char>| master.contains(key),
        |key: Seq<char>|
            if file.dom().contains(key) {
                file[key]
            } else {
                Seq::empty()
            },
    )
}

/// The file that is written for `group` with the entries of `map`, below the project's root;
/// a failure where its content cannot be made.
pub open spec fn group_output(
    project_path: Seq<char>,
    group: CatalogGroupView,
    map: Map<Seq<char>, Seq<char>>,
) -> Result<CatalogFileView, Failure> {
    match file_content(group.file_path, map) {
        Ok(content) => Ok(CatalogFileView { path: join_path(project_path, group.file_path), content }),
        Err(failure) => Err(failure),
    }
}

/// The files that are written for the first `count` of `groups`, where `maps` gives the
/// entries of each; the failure of the first of them whose content cannot be made.
pub open spec fn outputs(
    project_path: Seq<char>,
    groups: Seq<CatalogGroupView>,
    maps: spec_fn(CatalogGroupView) -> Map<Seq<char>, Seq<char>>,
    count: int,
) -> Result<Seq<CatalogFileView>, Failure>
    decreases count,
{
    if count <= 0 {
        Ok(Seq::empty())
    } else {
        match outputs(project_path, groups, maps, count - 1) {
            Ok(head) => match group_output(
                project_path,
                groups[count - 1],
                maps(groups[count - 1]),
            ) {
                Ok(last) => Ok(head.push(last)),
                Err(failure) => Err(failure),
            },
            Err(failure) => Err(failure),
        }
    }
}

/// Once the files up to `failed` cannot be made, no longer list of them can.
pub proof fn lemma_outputs_fail(
    project_path: Seq<char>,
    groups: Seq<CatalogGroupView>,
    maps: spec_fn(CatalogGroupView) -> Map<Seq<char>, Seq<char>>,
    failed: int,
    count: int,
)
    requires
        failed <= count,
        outputs(project_path, groups, maps, failed) is Err,
    ensures
        outputs(project_path, groups, maps, count) == outputs(project_path, groups, maps, failed),
    decreases count - failed,
{
    if failed < count {
        lemma_outputs_fail(project_path, groups, maps, failed, count - 1);
    }
}

/// The files that extraction writes for `defined`: each file with those of its entries whose
/// key is in `used`.
pub open spec fn extracted(
    project_path: Seq<char>,
    defined: Seq<DefinedKeyView>,
    used: Set<Seq<char>>,
) -> Result<Seq<CatalogFileView>, Failure> {
    outputs(
        project_path,
        groups_of(defined),
        |group: CatalogGroupView| file_map(defined, group).restrict(used),
        groups_of(defined).len() as int,
    )
}

/// The files that formatting writes for `defined`: each file with the keys `master`, aligned.
pub open spec fn formatted(
    project_path: Seq<char>,
    defined: Seq<DefinedKeyView>,
    master: Seq<Seq<char>>,
) -> Result<Seq<CatalogFileView>, Failure> {
    outputs(
        project_path,
        groups_of(defined),
        |group: CatalogGroupView| align(master, file_map(defined, group)),
        groups_of(defined).len() as int,
    )
}

/// Whether `groups` holds `group`.
fn has_group(groups: &Vec<CatalogGroup>, language: &String, file_path: &String) -> (found: bool)
    ensures
        found == groups.deep_view().contains(
            CatalogGroupView { language: language@, file_path: file_path@ },
        ),
{
    let ghost wanted = CatalogGroupView { language: language@, file_path: file_path@ };
    let mut i: usize = 0;
    while i < groups.len()
        invariant
            i <= groups.len(),
            wanted == (CatalogGroupView { language: language@, file_path: file_path@ }),
            forall|j: int| 0 <= j < i ==> groups.deep_view()[j] != wanted,
        decreases groups.len() - i,
    {
        if same_string(&groups[i].language, language) && same_string(&groups[i].file_path, file_path) {
            assert(groups.deep_view()[i as int] == wanted);
            return true;
        }
        i += 1;
    }
    false
}

/// The files of the definitions, each once, in the order in which they first occur.
pub fn collect_groups(defined_keys: &Vec<DefinedKey>) -> (groups: Vec<CatalogGroup>)
    ensures
        groups.deep_view() == groups_of(defined_keys.deep_view()),
{
    let ghost defined = defined_keys.deep_view();
    let mut groups: Vec<CatalogGroup> = Vec::new();
    let mut i: usize = 0;
    while i < defined_keys.len()
        invariant
            i <= defined_keys.len(),
            defined == defined_keys.deep_view(),
            groups.deep_view() == groups_of(defined.take(i as int)),
        decreases defined_keys.len() - i,
    {
        proof {
            assert(defined.take(i + 1).drop_last() == defined.take(i as int));
            assert(defined.take(i + 1).last() == defined_keys@[i as int].deep_view());
        }
        let entry = &defined_keys[i];
        if !has_group(&groups, &entry.language, &entry.file_path) {
            let ghost before = groups.deep_view();
            groups.push(
                CatalogGroup { language: entry.language.clone(), file_path: entry.file_path.clone() },
            );
            assert(groups.deep_view() =~= before.push(group_of(defined.take(i + 1).last())));
        }
        i += 1;
    }
    proof {
        assert(defined.take(defined_keys.len() as int) == defined);
    }
    groups
}

/// The set of the strings of `keys`.
pub fn collect_key_set(keys: &Vec<String>) -> (set: StringHashSet)
    ensures
        set@ == key_set(keys.deep_view()),
{
    let ghost all = keys.deep_view();
    let mut set = StringHashSet::new();
    let mut i: usize = 0;
    while i < keys.len()
        invariant
            i <= keys.len(),
            all == keys.deep_view(),
            set@ == key_set(all.take(i as int)),
        decreases keys.len() - i,
    {
        let ghost done = all.take(i as int);
        let ghost next = all.take(i + 1);
        set.insert(keys[i].clone());
        proof {
            assert(next[i as int] == keys@[i as int]@);
            assert forall|key: Seq<char>| next.contains(key) <==> done.contains(key) || key
                == keys@[i as int]@ by {
                if next.contains(key) {
                    let j = choose|j: int| 0 <= j < next.len() && next[j] == key;
                    if j < i {
                        assert(done[j] == key);
                    }
                }
                if done.contains(key) {
                    let j = choose|j: int| 0 <= j < done.len() && done[j] == key;
                    assert(next[j] == key);
                }
            }
            assert(set@ =~= key_set(next));
        }
        i += 1;
    }
    proof {
        assert(all.take(keys.len() as int) == all);
    }
    set
}

/// The entries of the file `group` whose key is in `used`.
pub fn extract_group(defined_keys: &Vec<DefinedKey>, group: &CatalogGroup, used: &StringHashSet) -> (kept:
    FlatCatalog)
    ensures
        kept.map() == file_map(defined_keys.deep_view(), group.deep_view()).restrict(used@),
{
    let ghost defined = defined_keys.deep_view();
    let mut kept = FlatCatalog::new();
    assert(kept.map() =~= group_map(defined, group.deep_view(), 0).restrict(used@));
    let mut i: usize = 0;
    while i < defined_keys.len()
        invariant
            i <= defined_keys.len(),
            defined == defined_keys.deep_view(),
            kept.map() == group_map(defined, group.deep_view(), i as int).restrict(used@),
        decreases defined_keys.len() - i,
    {
        let entry = &defined_keys[i];
        assert(defined[i as int] == entry.deep_view());
        let ghost before = group_map(defined, group.deep_view(), i as int);
        if same_string(&entry.language, &group.language) && same_string(
            &entry.file_path,
            &group.file_path,
        ) {
            if used.contains(entry.key.as_str()) {
                kept.insert(entry.key.clone(), entry.value.clone());
            }
            assert(kept.map() =~= before.insert(entry.key@, entry.value@).restrict(used@));
        }
        i += 1;
    }
    kept
}

/// The entries of the file `group`.
pub fn collect_group(defined_keys: &Vec<DefinedKey>, group: &CatalogGroup) -> (all: FlatCatalog)
    ensures
        all.map() == file_map(defined_keys.deep_view(), group.deep_view()),
{
    let ghost defined = defined_keys.deep_view();
    let mut all = FlatCatalog::new();
    let mut i: usize = 0;
    while i < defined_keys.len()
        invariant
            i <= defined_keys.len(),
            defined == defined_keys.deep_view(),
            all.map() == group_map(defined, group.deep_view(), i as int),
        decreases defined_keys.len() - i,
    {
        let entry = &defined_keys[i];
        assert(defined[i as int] == entry.deep_view());
        if same_string(&entry.language, &group.language) && same_string(
            &entry.file_path,
            &group.file_path,
        ) {
            all.insert(entry.key.clone(), entry.value.clone());
        }
        i += 1;
    }
    all
}

/// A catalog with the keys `master`, each with the text that `file` gives it or with the empty
/// text.
pub fn align_keys(master: &Vec<String>, file: &FlatCatalog) -> (aligned: FlatCatalog)
    ensures
        aligned.map() == align(master.deep_view(), file.map()),
{
    let ghost keys = master.deep_view();
    let mut aligned = FlatCatalog::new();
    assert(aligned.map() =~= align(keys.take(0), file.map()));
    let mut i: usize = 0;
    while i < master.len()
        invariant
            i <= master.len(),
            keys == master.deep_view(),
            aligned.map() == align(keys.take(i as int), file.map()),
        decreases master.len() - i,
    {
        let key = &master[i];
        let value = match file.get(key) {
            Some(text) => text.clone(),
            None => String::new(),
        };
        let ghost done = keys.take(i as int);
        let ghost next = keys.take(i + 1);
        let ghost before = aligned.map();
        aligned.insert(key.clone(), value);
        proof {
            assert(next[i as int] == key@);
            assert forall|q: Seq<char>| next.contains(q) <==> done.contains(q) || q == key@ by {
                if next.contains(q) {
                    let j = choose|j: int| 0 <= j < next.len() && next[j] == q;
                    if j < i {
                        assert(done[j] == q);
                    }
                }
                if done.contains(q) {
                    let j = choose|j: int| 0 <= j < done.len() && done[j] == q;
                    assert(next[j] == q);
                }
            }
            assert(aligned.map() =~= align(next, file.map()));
        }
        i += 1;
    }
    proof {
        assert(keys.take(master.len() as int) == keys);
    }
    aligned
}

/// The file that is written for `group` with the entries of `keys`.
pub fn write_group(project_path: &str, group: &CatalogGroup, keys: &FlatCatalog) -> (result: Result<
    CatalogFile,
    AuditError,
>)
    ensures
        match result {
            Ok(file) => group_output(project_path@, group.deep_view(), keys.map()) == Ok::<
                CatalogFileView,
                Failure,
            >(file.deep_view()),
            Err(error) => group_output(project_path@, group.deep_view(), keys.map()) == Err::<
                CatalogFileView,
                Failure,
            >(error.deep_view()),
        },
{
    match write_translation_file(group.file_path.as_str(), keys) {
        Ok(content) => Ok(
            CatalogFile { path: join_paths(project_path, group.file_path.as_str()), content },
        ),
        Err(error) => Err(error),
    }
}

/// Makes, for each file that `defined_keys` names, its content with only the entries whose key
/// is among `used_literal_keys`.
///
/// The files come in the order in which the definitions first name them, each with its path
/// below `project_path`. Keys that the source builds at run time do not count: an entry stays
/// only where its key is used as a literal. The call fails at the first file whose content
/// cannot be made.
pub fn extract_definitions(
    project_path: &str,
    defined_keys: &Vec<DefinedKey>,
    used_literal_keys: &Vec<String>,
) -> (result: Result<Vec<CatalogFile>, AuditError>)
    ensures
        match result {
            Ok(files) => extracted(
                project_path@,
                defined_keys.deep_view(),
                key_set(used_literal_keys.deep_view()),
            ) == Ok::<Seq<CatalogFileView>, Failure>(files.deep_view()),
            Err(error) => extracted(
                project_path@,
                defined_keys.deep_view(),
                key_set(used_literal_keys.deep_view()),
            ) == Err::<Seq<CatalogFileView>, Failure>(error.deep_view()),
        },
{
    let groups = collect_groups(defined_keys);
    let used = collect_key_set(used_literal_keys);
    let ghost defined = defined_keys.deep_view();
    let ghost maps = |group: CatalogGroupView| file_map(defined, group).restrict(used@);
    let mut files: Vec<CatalogFile> = Vec::new();
    assert(files.deep_view() =~= Seq::<CatalogFileView>::empty());
    let mut g: usize = 0;
    while g < groups.len()
        invariant
            g <= groups.len(),
            defined == defined_keys.deep_view(),
            groups.deep_view() == groups_of(defined),
            used@ == key_set(used_literal_keys.deep_view()),
            maps == |group: CatalogGroupView| file_map(defined, group).restrict(used@),
            outputs(project_path@, groups.deep_view(), maps, g as int) == Ok::<
                Seq<CatalogFileView>,
                Failure,
            >(files.deep_view()),
        decreases groups.len() - g,
    {
        let group = &groups[g];
        assert(groups.deep_view()[g as int] == group.deep_view());
        let kept = extract_group(defined_keys, group, &used);
        assert(kept.map() == maps(group.deep_view()));
        match write_group(project_path, group, &kept) {
            Ok(file) => {
                let ghost before = files.deep_view();
                files.push(file);
                assert(files.deep_view() =~= before.push(file.deep_view()));
            },
            Err(error) => {
                proof {
                    lemma_outputs_fail(
                        project_path@,
                        groups.deep_view(),
                        maps,
                        g + 1,
                        groups.len() as int,
                    );
                }
                return Err(error);
            },
        }
        g += 1;
    }
    Ok(files)
}

/// Makes, for each file that `defined_keys` names, its content with the keys `master_key_set`:
/// each key with the text that the file gives it, or with the empty text where the file lacks
/// it.
///
/// Every file gets the same keys in the same order, whatever it held before. The files come in
/// the order in which the definitions first name them, each with its path below
/// `project_path`. The call fails at the first file whose content cannot be made.
pub fn format_definitions(
    project_path: &str,
    defined_keys: &Vec<DefinedKey>,
    master_key_set: &Vec<String>,
) -> (result: Result<Vec<CatalogFile>, AuditError>)
    ensures
        match result {
            Ok(files) => formatted(project_path@, defined_keys.deep_view(), master_key_set.deep_view())
                == Ok::<Seq<CatalogFileView>, Failure>(files.deep_view()),
            Err(error) => formatted(
                project_path@,
                defined_keys.deep_view(),
                master_key_set.deep_view(),
            ) == Err::<Seq<CatalogFileView>, Failure>(error.deep_view()),
        },
{
    let groups = collect_groups(defined_keys);
    let ghost defined = defined_keys.deep_view();
    let ghost master = master_key_set.deep_view();
    let ghost maps = |group: CatalogGroupView| align(master, file_map(defined, group));
    let mut files: Vec<CatalogFile> = Vec::new();
    assert(files.deep_view() =~= Seq::<CatalogFileView>::empty());
    let mut g: usize = 0;
    while g < groups.len()
        invariant
            g <= groups.len(),
            defined == defined_keys.deep_view(),
            master == master_key_set.deep_view(),
            groups.deep_view() == groups_of(defined),
            maps == |group: CatalogGroupView| align(master, file_map(defined, group)),
            outputs(project_path@, groups.deep_view(), maps, g as int) == Ok::<
                Seq<CatalogFileView>,
                Failure,
            >(files.deep_view()),
        decreases groups.len() - g,
    {
        let group = &groups[g];
        assert(groups.deep_view()[g as int] == group.deep_view());
        let all = collect_group(defined_keys, group);
        let aligned = align_keys(master_key_set, &all);
        assert(aligned.map() == maps(group.deep_view()));
        match write_group(project_path, group, &aligned) {
            Ok(file) => {
                let ghost before = files.deep_view();
                files.push(file);
                assert(files.deep_view() =~= before.push(file.deep_view()));
            },
            Err(error) => {
                proof {
                    lemma_outputs_fail(
                        project_path@,
                        groups.deep_view(),
                        maps,
                        g + 1,
                        groups.len() as int,
                    );
                }
                return Err(error);
            },
        }
        g += 1;
    }
    Ok(files)
}

/// The files that extraction writes for the catalog files `files`.
pub open spec fn extract_result(config: Config, files: Seq<CatalogFileView>, used: Seq<Seq<char>>) -> Result<
    Seq<CatalogFileView>,
    Failure,
> {
    match config_definitions(config, files) {
        Ok(defined) => extracted(config.project_path@, defined, key_set(used)),
        Err(failure) => Err(failure),
    }
}

/// The files that formatting writes for the catalog files `files`.
pub open spec fn format_result(config: Config, files: Seq<CatalogFileView>, master: Seq<Seq<char>>) -> Result<
    Seq<CatalogFileView>,
    Failure,
> {
    match config_definitions(config, files) {
        Ok(defined) => formatted(config.project_path@, defined, master),
        Err(failure) => Err(failure),
    }
}

/// Reads the catalog files among `files` and makes the new content of each: only the entries
/// whose key is among `used_literal_keys`.
///
/// Nothing is written here: the result holds, for each catalog file, the path to write to and
/// the content to write. The call fails where a file cannot be read or a content cannot be
/// made, and then yields no content at all.
pub fn extract_keys(config: &Config, files: &Vec<CatalogFile>, used_literal_keys: &Vec<String>) -> (result:
    Result<Vec<CatalogFile>, AuditError>)
    ensures
        match result {
            Ok(written) => extract_result(*config, files.deep_view(), used_literal_keys.deep_view())
                == Ok::<Seq<CatalogFileView>, Failure>(written.deep_view()),
            Err(error) => extract_result(*config, files.deep_view(), used_literal_keys.deep_view())
                == Err::<Seq<CatalogFileView>, Failure>(error.deep_view()),
        },
{
    let defined_keys = match parse_translation_files(config, files) {
        Ok(defined_keys) => defined_keys,
        Err(error) => {
            return Err(error);
        },
    };
    extract_definitions(config.project_path.as_str(), &defined_keys, used_literal_keys)
}

/// Reads the catalog files among `files` and makes the new content of each: the keys
/// `master_key_set`, in one order for all files, with an empty text where a file lacks a key.
///
/// Nothing is written here: the result holds, for each catalog file, the path to write to and
/// the content to write. The call fails where a file cannot be read or a content cannot be
/// made, and then yields no content at all.
pub fn format_keys(config: &Config, files: &Vec<CatalogFile>, master_key_set: &Vec<String>) -> (result:
    Result<Vec<CatalogFile>, AuditError>)
    ensures
        match result {
            Ok(written) => format_result(*config, files.deep_view(), master_key_set.deep_view())
                == Ok::<Seq<CatalogFileView>, Failure>(written.deep_view()),
            Err(error) => format_result(*config, files.deep_view(), master_key_set.deep_view())
                == Err::<Seq<CatalogFileView>, Failure>(error.deep_view()),
        },
{
    let defined_keys = match parse_translation_files(config, files) {
        Ok(defined_keys) => defined_keys,
        Err(error) => {
            return Err(error);
        },
    };
    format_definitions(config.project_path.as_str(), &defined_keys, master_key_set)
}

/// Aligning the keys of an aligned file changes nothing: a second formatting with the same
/// master keys finds every key there with the text that the first gave it.
pub proof fn lemma_align_idempotent(master: Seq<Seq<char>>, file: Map<Seq<char>, Seq<char>>)
    ensures
        align(master, align(master, file)) == align(master, file),
{
    assert(align(master, align(master, file)) =~= align(master, file));
}

/// The keys of an aligned file are the master keys, whatever the file held and in whatever
/// order and how often the master keys are given.
pub proof fn lemma_align_keys(
    master: Seq<Seq<char>>,
    other: Seq<Seq<char>>,
    file: Map<Seq<char>, Seq<char>>,
)
    requires
        key_set(master) == key_set(other),
    ensures
        align(master, file).dom() == key_set(master),
        align(master, file) == align(other, file),
{
    assert(align(master, file).dom() =~= key_set(master));
    assert forall|key: Seq<char>| master.contains(key) <==> other.contains(key) by {
        assert(key_set(master).contains(key) == master.contains(key));
        assert(key_set(other).contains(key) == other.contains(key));
    }
    assert(align(master, file) =~= align(other, file));
}

/// The files that are written depend on the entries of each file alone.
pub proof fn lemma_outputs_same(
    project_path: Seq<char>,
    groups: Seq<CatalogGroupView>,
    first: spec_fn(CatalogGroupView) -> Map<Seq<char>, Seq<char>>,
    second: spec_fn(CatalogGroupView) -> Map<Seq<char>, Seq<char>>,
    count: int,
)
    requires
        count <= groups.len(),
        forall|i: int| 0 <= i < count ==> first(#[trigger] groups[i]) == second(groups[i]),
    ensures
        outputs(project_path, groups, first, count) == outputs(project_path, groups, second, count),
    decreases count,
{
    if count > 0 {
        lemma_outputs_same(project_path, groups, first, second, count - 1);
        assert(first(groups[count - 1]) == second(groups[count - 1]));
    }
}

/// Formatting twice is formatting once.
///
/// Let `second` be the definitions that are read back after `first` was formatted with the keys
/// `master`: the same files, each with the entries that the formatting gave it. Then
/// formatting `second` with the same keys makes every file with the content that it has.
pub proof fn lemma_format_idempotent(
    project_path: Seq<char>,
    first: Seq<DefinedKeyView>,
    second: Seq<DefinedKeyView>,
    master: Seq<Seq<char>>,
)
    requires
        groups_of(second) == groups_of(first),
        forall|i: int|
            0 <= i < groups_of(first).len() ==> file_map(second, #[trigger] groups_of(first)[i])
                == align(master, file_map(first, groups_of(first)[i])),
    ensures
        formatted(project_path, second, master) == formatted(project_path, first, master),
{
    let groups = groups_of(first);
    let once = |group: CatalogGroupView| align(master, file_map(first, group));
    let twice = |group: CatalogGroupView| align(master, file_map(second, group));
    assert forall|i: int| 0 <= i < groups.len() implies twice(#[trigger] groups[i]) == once(
        groups[i],
    ) by {
        lemma_align_idempotent(master, file_map(first, groups[i]));
    }
    lemma_outputs_same(project_path, groups, twice, once, groups.len() as int);
}

/// `rust_i18n::i18n!("path" ..)` or `i18n!("path" ..)`: the first group is the path of the
/// catalogs.
pub const CATALOG_CALL: &'static str = "(?:rust_i18n::)?i18n!\\s*\\(\\s*\"([^\"]+)";

/// The path that the first call `i18n!("path")` of a source text names.
pub open spec fn named_catalogs(content: Seq<char>) -> Option<Seq<char>> {
    let groups = pattern_groups(CATALOG_CALL@, content);
    if groups.len() > 0 {
        groups[0]
    } else {
        None
    }
}

/// The path that the first of the first `count` files to name one names. Only source files
/// count.
pub open spec fn first_named_catalogs(files: Seq<SourceFileView>, count: int) -> Option<Seq<char>>
    decreases count,
{
    if count <= 0 {
        None
    } else if first_named_catalogs(files, count - 1) is Some {
        first_named_catalogs(files, count - 1)
    } else if is_source_path(files[count - 1].path) {
        named_catalogs(files[count - 1].content)
    } else {
        None
    }
}

/// Whether one of the first `count` files is a source file.
pub open spec fn has_source(files: Seq<SourceFileView>, count: int) -> bool {
    exists|i: int| 0 <= i < count && is_source_path((#[trigger] files[i]).path)
}

/// What the first file names is what any longer list of the files names first.
pub proof fn lemma_first_named(files: Seq<SourceFileView>, found: int, count: int)
    requires
        found <= count,
        first_named_catalogs(files, found) is Some,
    ensures
        first_named_catalogs(files, count) == first_named_catalogs(files, found),
    decreases count - found,
{
    if found < count {
        lemma_first_named(files, found, count - 1);
    }
}

/// Looks in the source files among `sources`, in order, for a call `i18n!("path")`, which
/// names the directory of the catalogs.
///
/// The search ends at the first file that holds such a call. It fails exactly when there is a
/// source file to search and the pattern of the call does not compile.
pub fn detect_locales_dir(sources: &Vec<SourceFile>) -> (result: Result<Option<String>, AuditError>)
    ensures
        result is Ok <==> (has_source(sources.deep_view(), sources.len() as int) ==> pattern_compiles(
            CATALOG_CALL@,
        )),
        result matches Ok(found) ==> option_view(found) == first_named_catalogs(
            sources.deep_view(),
            sources.len() as int,
        ),
        result matches Err(error) ==> error.deep_view() == (Failure::Pattern { pattern: CATALOG_CALL@ }),
{
    let ghost files = sources.deep_view();
    let mut i: usize = 0;
    while i < sources.len()
        invariant
            i <= sources.len(),
            files == sources.deep_view(),
            first_named_catalogs(files, i as int) is None,
            has_source(files, i as int) ==> pattern_compiles(CATALOG_CALL@),
        decreases sources.len() - i,
    {
        let file = &sources[i];
        assert(files[i as int] == file.deep_view());
        if is_source_file(file.path.as_str()) {
            let groups = match first_groups(CATALOG_CALL, file.content.as_str()) {
                Ok(groups) => groups,
                Err(message) => {
                    assert(has_source(files, sources.len() as int));
                    return Err(
                        AuditError::Pattern { pattern: CATALOG_CALL.to_owned(), message },
                    );
                },
            };
            if groups.len() > 0 {
                assert(groups.deep_view()[0] == groups@[0].deep_view());
                match &groups[0] {
                    Some(path) => {
                        proof {
                            lemma_first_named(files, i + 1, sources.len() as int);
                        }
                        return Ok(Some(path.clone()));
                    },
                    None => {},
                }
            }
        }
        proof {
            if has_source(files, i + 1) {
                let j = choose|j: int| 0 <= j < i + 1 && is_source_path((#[trigger] files[j]).path);
                if j < i {
                    assert(has_source(files, i as int));
                }
            }
        }
        i += 1;
    }
    Ok(None)
}

/// Sets the directory of the catalogs to the one that the source names in a call
/// `i18n!("path")`, if it names one.
///
/// The configuration stays as it is where no source file holds such a call, and where the
/// search fails.
pub fn adjust_locales_path(config: &mut Config, sources: &Vec<SourceFile>) -> (result: Result<
    (),
    AuditError,
>)
    ensures
        result is Ok <==> (has_source(sources.deep_view(), sources.len() as int) ==> pattern_compiles(
            CATALOG_CALL@,
        )),
        final(config).locales_dir@ == match (
            result,
            first_named_catalogs(sources.deep_view(), sources.len() as int),
        ) {
            (Ok(()), Some(path)) => path,
            _ => old(config).locales_dir@,
        },
        final(config).project_path == old(config).project_path,
        final(config).src_dir == old(config).src_dir,
        final(config).threshold_basis_points == old(config).threshold_basis_points,
        final(config).ignore_pattern == old(config).ignore_pattern,
        final(config).ignore_todo_files == old(config).ignore_todo_files,
        final(config).verbose == old(config).verbose,
        result matches Err(error) ==> error.deep_view() == (Failure::Pattern { pattern: CATALOG_CALL@ }),
{
    match detect_locales_dir(sources) {
        Ok(Some(path)) => {
            config.locales_dir = path;
            Ok(())
        },
        Ok(None) => Ok(()),
        Err(error) => Err(error),
    }
}

/// The keys of the literal uses, in order.
pub open spec fn literal_keys_of(used: Seq<UsedKeyView>) -> Seq<Seq<char>>
    decreases used.len(),
{
    if used.len() == 0 {
        Seq::empty()
    } else if used.last().is_literal {
        literal_keys_of(used.drop_last()).push(used.last().key)
    } else {
        literal_keys_of(used.drop_last())
    }
}

/// The keys that `used_keys` uses as literals, in order.
pub fn literal_keys(used_keys: &Vec<UsedKey>) -> (keys: Vec<String>)
    ensures
        keys.deep_view() == literal_keys_of(used_keys.deep_view()),
{
    let ghost used = used_keys.deep_view();
    let mut keys: Vec<String> = Vec::new();
    let mut i: usize = 0;
    while i < used_keys.len()
        invariant
            i <= used_keys.len(),
            used == used_keys.deep_view(),
            keys.deep_view() == literal_keys_of(used.take(i as int)),
        decreases used_keys.len() - i,
    {
        proof {
            assert(used.take(i + 1).drop_last() == used.take(i as int));
            assert(used.take(i + 1).last() == used_keys@[i as int].deep_view());
        }
        if used_keys[i].is_literal {
            let ghost before = keys.deep_view();
            keys.push(used_keys[i].key.clone());
            assert(keys.deep_view() =~= before.push(used_keys@[i as int].key@));
        }
        i += 1;
    }
    proof {
        assert(used.take(used_keys.len() as int) == used);
    }
    keys
}

/// The keys that the source files among `sources` use, or `None` where they cannot be scanned.
pub open spec fn scanned(sources: Seq<SourceFileView>) -> Option<Seq<UsedKeyView>> {
    if sources_ok(sources) {
        Some(dedup_first(sources_keys(sources, sources.len() as int)))
    } else {
        None
    }
}

/// What an audit finds, and whether it finds more unused keys than the threshold allows.
#[derive(Debug)]
pub struct AuditOutcome {
    pub result: AnalysisResult,
    pub threshold_exceeded: bool,
}

/// Audits the catalogs against the source: scans `sources`, reads `catalogs`, and analyses the
/// keys of the one against the keys of the other.
///
/// The threshold is exceeded where the share of unused keys among all defined keys is above
/// `config.threshold_basis_points`. That is no failure: the outcome holds the whole result.
/// The call fails where the source cannot be scanned or a catalog cannot be read.
pub fn run_audit_command(config: &Config, sources: &Vec<SourceFile>, catalogs: &Vec<CatalogFile>) -> (result:
    Result<AuditOutcome, AuditError>)
    ensures
        match result {
            Ok(outcome) => {
                &&& scanned(sources.deep_view()) is Some
                &&& config_definitions(*config, catalogs.deep_view()) is Ok
                &&& outcome.result.deep_view() == analysis(
                    scanned(sources.deep_view())->0,
                    config_definitions(*config, catalogs.deep_view())->Ok_0,
                    option_view(config.ignore_pattern),
                )
                &&& outcome.threshold_exceeded == share_exceeds(
                    outcome.result.total_unused as int,
                    outcome.result.total_keys as int,
                    config.threshold_basis_points as int,
                )
            },
            Err(error) => if scanned(sources.deep_view()) is None {
                error is Pattern
            } else {
                config_definitions(*config, catalogs.deep_view()) == Err::<
                    Seq<DefinedKeyView>,
                    Failure,
                >(error.deep_view())
            },
        },
{
    let used_keys = match scan_source_code(sources) {
        Ok(used_keys) => used_keys,
        Err(error) => {
            return Err(error);
        },
    };
    let defined_keys = match parse_translation_files(config, catalogs) {
        Ok(defined_keys) => defined_keys,
        Err(error) => {
            return Err(error);
        },
    };
    let result = analyze(&used_keys, &defined_keys, config);
    let threshold_exceeded = result.exceeds_threshold(config.threshold_basis_points);
    Ok(AuditOutcome { result, threshold_exceeded })
}

/// Rewrites the catalogs to the keys that the source uses as literals: scans `sources`, reads
/// `catalogs`, and makes the new content of each catalog file.
pub fn run_extract_command(config: &Config, sources: &Vec<SourceFile>, catalogs: &Vec<CatalogFile>) -> (result:
    Result<Vec<CatalogFile>, AuditError>)
    ensures
        match result {
            Ok(written) => scanned(sources.deep_view()) is Some && extract_result(
                *config,
                catalogs.deep_view(),
                literal_keys_of(scanned(sources.deep_view())->0),
            ) == Ok::<Seq<CatalogFileView>, Failure>(written.deep_view()),
            Err(error) => if scanned(sources.deep_view()) is None {
                error is Pattern
            } else {
                extract_result(
                    *config,
                    catalogs.deep_view(),
                    literal_keys_of(scanned(sources.deep_view())->0),
                ) == Err::<Seq<CatalogFileView>, Failure>(error.deep_view())
            },
        },
{
    let used_keys = match scan_source_code(sources) {
        Ok(used_keys) => used_keys,
        Err(error) => {
            return Err(error);
        },
    };
    let used_literal_keys = literal_keys(&used_keys);
    extract_keys(config, catalogs, &used_literal_keys)
}

/// Brings the catalogs to the keys that the source uses as literals, in one order for all
/// files: scans `sources`, reads `catalogs`, and makes the new content of each catalog file.
pub fn run_format_command(config: &Config, sources: &Vec<SourceFile>, catalogs: &Vec<CatalogFile>) -> (result:
    Result<Vec<CatalogFile>, AuditError>)
    ensures
        match result {
            Ok(written) => scanned(sources.deep_view()) is Some && format_result(
                *config,
                catalogs.deep_view(),
                literal_keys_of(scanned(sources.deep_view())->0),
            ) == Ok::<Seq<CatalogFileView>, Failure>(written.deep_view()),
            Err(error) => if scanned(sources.deep_view()) is None {
                error is Pattern
            } else {
                format_result(
                    *config,
                    catalogs.deep_view(),
                    literal_keys_of(scanned(sources.deep_view())->0),
                ) == Err::<Seq<CatalogFileView>, Failure>(error.deep_view())
            },
        },
{
    let used_keys = match scan_source_code(sources) {
        Ok(used_keys) => used_keys,
        Err(error) => {
            return Err(error);
        },
    };
    let master_key_set = literal_keys(&used_keys);
    format_keys(config, catalogs, &master_key_set)
}

} // verus!
