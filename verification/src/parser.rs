//! Reads and writes translation catalogs.

use crate::catalog::{
    fields_of, flatten_field, flatten_fields, join_key, CatalogEntry, CatalogValue, Field, FlatPair,
    Node,
};
use crate::catalog::{unflatten, unflatten_pairs};
use crate::codec::{
    all_named, json_document, json_text, parse_json_text, parse_toml_text, parse_yaml_text,
    render_json, render_toml, render_yaml, toml_document, toml_text, yaml_document, yaml_text,
};
use crate::flat::{listing, FlatCatalog};
use crate::config::{join_path, Config};
use crate::error::{AuditError, Failure};
use crate::paths::{
    components, extension, file_name, file_stem, is_list_prefix, make_relative, name_parts,
    path_components, relative_path,
};
use crate::text::{from_range, same_text, to_chars};
use crate::text::same_string;
use vstd::hash_set::StringHashSet;
use vstd::prelude::*;
use vstd::string::StringExecFns;

verus! {

broadcast use vstd::string::group_string_axioms;

/// One entry of a catalog file: a leaf of its tree, under the dot-joined path that leads to it.
#[derive(Debug, Clone)]
pub struct DefinedKey {
    /// The translation key: the names on the path to the leaf, joined by `.`.
    pub key: String,
    /// The language of the file.
    pub language: String,
    /// The text of the leaf.
    pub value: String,
    /// The file that holds the entry.
    pub file_path: String,
}

/// The mathematical value of a `DefinedKey`.
pub struct DefinedKeyView {
    pub key: Seq<char>,
    pub language: Seq<char>,
    pub value: Seq<char>,
    pub file_path: Seq<char>,
}

impl DeepView for DefinedKey {
    type V = DefinedKeyView;

    open spec fn deep_view(&self) -> DefinedKeyView {
        DefinedKeyView {
            key: self.key@,
            language: self.language@,
            value: self.value@,
            file_path: self.file_path@,
        }
    }
}

impl View for DefinedKey {
    type V = DefinedKeyView;

    open spec fn view(&self) -> DefinedKeyView {
        self.deep_view()
    }
}

/// The definition that a flat entry gives in the file `file_path` of `language`.
pub open spec fn definition(pair: FlatPair, language: Seq<char>, file_path: Seq<char>) -> DefinedKeyView {
    DefinedKeyView { key: pair.key, language, value: pair.value, file_path }
}

/// The definitions that flat entries give in the file `file_path` of `language`, in order.
pub open spec fn definitions(pairs: Seq<FlatPair>, language: Seq<char>, file_path: Seq<char>) -> Seq<
    DefinedKeyView,
> {
    Seq::new(pairs.len(), |i: int| definition(pairs[i], language, file_path))
}

/// The key of the entry `name` below the path `prefix`.
pub fn join_name(prefix: &str, name: &str) -> (key: String)
    ensures
        key@ == join_key(prefix@, name@),
{
    if prefix.is_empty() {
        name.to_owned()
    } else {
        let mut key = prefix.to_owned();
        proof {
            reveal_strlit(".");
        }
        key.append(".");
        key.append(name);
        assert(key@ =~= prefix@ + seq!['.'] + name@);
        key
    }
}

/// Appends to `defined_keys` the flat entries of the table `map`, which stands below the path
/// `prefix` in the file `file_path` of `language`.
///
/// The entries come in the order of the table; a table among them gives its own entries, under
/// its name joined to the prefix by `.`, where a leaf gives one entry. An entry without a name
/// gives nothing, nor does what stands below it.
pub fn extract_keys_from_map(
    map: &Vec<CatalogEntry>,
    prefix: &str,
    language: &str,
    file_path: &str,
    defined_keys: &mut Vec<DefinedKey>,
)
    ensures
        final(defined_keys).deep_view() == old(defined_keys).deep_view() + definitions(
            flatten_fields(prefix@, fields_of(map@), map.len() as int),
            language@,
            file_path@,
        ),
    decreases map,
{
    let ghost fields = fields_of(map@);
    let mut i: usize = 0;
    while i < map.len()
        invariant
            i <= map.len(),
            fields == fields_of(map@),
            defined_keys.deep_view() == old(defined_keys).deep_view() + definitions(
                flatten_fields(prefix@, fields, i as int),
                language@,
                file_path@,
            ),
        decreases map.len() - i,
    {
        let entry = &map[i];
        let ghost before = defined_keys.deep_view();
        let ghost head = flatten_fields(prefix@, fields, i as int);
        let ghost added = flatten_field(prefix@, fields[i as int]);
        assert(fields[i as int] == crate::catalog::field_of(map@[i as int]));
        match &entry.name {
            None => {},
            Some(name) => {
                let key = join_name(prefix, name.as_str());
                match &entry.value {
                    CatalogValue::Text(value) => {
                        defined_keys.push(
                            DefinedKey {
                                key,
                                language: language.to_owned(),
                                value: value.clone(),
                                file_path: file_path.to_owned(),
                            },
                        );
                        assert(defined_keys.deep_view() =~= before + definitions(
                            added,
                            language@,
                            file_path@,
                        ));
                    },
                    CatalogValue::Table(nested) => {
                        extract_keys_from_map(nested, key.as_str(), language, file_path, defined_keys);
                    },
                }
            },
        }
        proof {
            assert(definitions(head + added, language@, file_path@) =~= definitions(
                head,
                language@,
                file_path@,
            ) + definitions(added, language@, file_path@));
        }
        i += 1;
    }
}

/// Whether two definitions give the same key to the same language.
pub open spec fn same_definition(a: DefinedKeyView, b: DefinedKeyView) -> bool {
    a.language == b.language && a.key == b.key
}

/// Whether no later definition gives the key of definition `index` to its language again. Of
/// the definitions of one key in one language only the last counts.
pub open spec fn last_definition(defined: Seq<DefinedKeyView>, index: int) -> bool {
    forall|j: int| index < j < defined.len() ==> !same_definition(defined[index], #[trigger] defined[j])
}

/// The languages of the definitions, each once, in the order in which they first occur.
pub open spec fn languages_of(defined: Seq<DefinedKeyView>) -> Seq<Seq<char>>
    decreases defined.len(),
{
    if defined.len() == 0 {
        Seq::empty()
    } else if languages_of(defined.drop_last()).contains(defined.last().language) {
        languages_of(defined.drop_last())
    } else {
        languages_of(defined.drop_last()).push(defined.last().language)
    }
}

/// Whether `list` holds `text`.
pub fn list_contains(list: &Vec<String>, text: &String) -> (found: bool)
    ensures
        found == list.deep_view().contains(text@),
{
    let mut i: usize = 0;
    while i < list.len()
        invariant
            i <= list.len(),
            forall|j: int| 0 <= j < i ==> list.deep_view()[j] != text@,
        decreases list.len() - i,
    {
        if same_string(&list[i], text) {
            assert(list.deep_view()[i as int] == text@);
            return true;
        }
        i += 1;
    }
    false
}

/// The languages of the definitions, each once, in the order in which they first occur.
pub fn collect_languages(defined_keys: &Vec<DefinedKey>) -> (languages: Vec<String>)
    ensures
        languages.deep_view() == languages_of(defined_keys.deep_view()),
{
    let ghost defined = defined_keys.deep_view();
    let mut languages: Vec<String> = Vec::new();
    let mut i: usize = 0;
    while i < defined_keys.len()
        invariant
            i <= defined_keys.len(),
            defined == defined_keys.deep_view(),
            languages.deep_view() == languages_of(defined.take(i as int)),
        decreases defined_keys.len() - i,
    {
        proof {
            assert(defined.take(i + 1).drop_last() == defined.take(i as int));
            assert(defined.take(i + 1).last() == defined_keys@[i as int].deep_view());
        }
        if !list_contains(&languages, &defined_keys[i].language) {
            let ghost before = languages.deep_view();
            languages.push(defined_keys[i].language.clone());
            assert(languages.deep_view() =~= before.push(defined_keys@[i as int].language@));
        }
        i += 1;
    }
    proof {
        assert(defined.take(defined_keys.len() as int) == defined);
    }
    languages
}

/// Every language of a definition is among the languages of the definitions.
pub proof fn lemma_languages_complete(defined: Seq<DefinedKeyView>, index: int)
    requires
        0 <= index < defined.len(),
    ensures
        languages_of(defined).contains(defined[index].language),
    decreases defined.len(),
{
    let head = languages_of(defined.drop_last());
    let all = languages_of(defined);
    if index < defined.len() - 1 {
        lemma_languages_complete(defined.drop_last(), index);
        assert(defined.drop_last()[index] == defined[index]);
        let at = choose|at: int| 0 <= at < head.len() && head[at] == defined[index].language;
        assert(all[at] == defined[index].language);
    } else if head.contains(defined.last().language) {
    } else {
        assert(all[all.len() - 1] == defined.last().language);
    }
}

/// Whether a later definition, from `from` on, gives `key` to `language`.
pub open spec fn defined_from(
    defined: Seq<DefinedKeyView>,
    from: int,
    language: Seq<char>,
    key: Seq<char>,
) -> bool {
    exists|j: int|
        from <= j < defined.len() && (#[trigger] defined[j]).language == language && defined[j].key
            == key
}

/// A definition is given again from `from - 1` on where it is given again from `from` on or
/// stands at `from - 1`.
pub proof fn lemma_defined_from_step(
    defined: Seq<DefinedKeyView>,
    from: int,
    language: Seq<char>,
    key: Seq<char>,
)
    requires
        0 < from <= defined.len(),
    ensures
        defined_from(defined, from - 1, language, key) <==> defined_from(defined, from, language, key)
            || (defined[from - 1].language == language && defined[from - 1].key == key),
{
    if defined_from(defined, from - 1, language, key) {
        let j = choose|j: int|
            from - 1 <= j < defined.len() && (#[trigger] defined[j]).language == language
                && defined[j].key == key;
        if j >= from {
            assert(defined[j].language == language && defined[j].key == key);
        }
    }
    if defined_from(defined, from, language, key) {
        let j = choose|j: int|
            from <= j < defined.len() && (#[trigger] defined[j]).language == language && defined[j].key
                == key;
        assert(defined[j].language == language && defined[j].key == key);
    }
    if defined[from - 1].language == language && defined[from - 1].key == key {
        assert(defined[from - 1].language == language && defined[from - 1].key == key);
    }
}

/// A definition is the last of its key in its language where the key is not given to the
/// language again behind it.
pub proof fn lemma_last_by_rest(defined: Seq<DefinedKeyView>, index: int)
    requires
        0 <= index < defined.len(),
    ensures
        last_definition(defined, index) <==> !defined_from(
            defined,
            index + 1,
            defined[index].language,
            defined[index].key,
        ),
{
    let language = defined[index].language;
    let key = defined[index].key;
    if defined_from(defined, index + 1, language, key) {
        let j = choose|j: int|
            index + 1 <= j < defined.len() && (#[trigger] defined[j]).language == language
                && defined[j].key == key;
        assert(same_definition(defined[index], defined[j]));
    }
    if !last_definition(defined, index) {
        let j = choose|j: int|
            index < j < defined.len() && same_definition(defined[index], #[trigger] defined[j]);
        assert(defined[j].language == language && defined[j].key == key);
    }
}

/// Marks each definition of `language`: whether it is the last of its key in the language.
fn mark_language(defined_keys: &Vec<DefinedKey>, language: &String, marks: &mut Vec<bool>)
    requires
        old(marks).len() == defined_keys.len(),
    ensures
        final(marks).len() == defined_keys.len(),
        forall|j: int|
            0 <= j < defined_keys.len() ==> #[trigger] final(marks)@[j] == if defined_keys.deep_view()[j].language
                == language@ {
                last_definition(defined_keys.deep_view(), j)
            } else {
                old(marks)@[j]
            },
{
    let ghost defined = defined_keys.deep_view();
    let ghost before = marks@;
    let mut seen = StringHashSet::new();
    let mut i: usize = defined_keys.len();
    while i > 0
        invariant
            i <= defined_keys.len(),
            defined == defined_keys.deep_view(),
            marks.len() == defined_keys.len(),
            before.len() == defined_keys.len(),
            forall|key: Seq<char>| seen@.contains(key) <==> defined_from(defined, i as int, language@, key),
            forall|j: int|
                i <= j < defined.len() ==> #[trigger] marks@[j] == if defined[j].language == language@ {
                    last_definition(defined, j)
                } else {
                    before[j]
                },
            forall|j: int| 0 <= j < i ==> #[trigger] marks@[j] == before[j],
        decreases i,
    {
        let entry = &defined_keys[i - 1];
        assert(defined[i - 1] == entry.deep_view());
        let ghost old_seen = seen@;
        if same_string(&entry.language, language) {
            let fresh = !seen.contains(entry.key.as_str());
            proof {
                lemma_last_by_rest(defined, i - 1);
            }
            marks.set(i - 1, fresh);
            seen.insert(entry.key.clone());
        }
        proof {
            assert forall|key: Seq<char>| seen@.contains(key) <==> defined_from(
                defined,
                i - 1,
                language@,
                key,
            ) by {
                lemma_defined_from_step(defined, i as int, language@, key);
                assert(old_seen.contains(key) <==> defined_from(defined, i as int, language@, key));
            }
        }
        i -= 1;
    }
}

/// For each definition, whether it is the last of its key in its language.
pub fn mark_last_definitions(defined_keys: &Vec<DefinedKey>) -> (marks: Vec<bool>)
    ensures
        marks.len() == defined_keys.len(),
        forall|i: int|
            0 <= i < defined_keys.len() ==> marks@[i] == last_definition(defined_keys.deep_view(), i),
{
    let ghost defined = defined_keys.deep_view();
    let languages = collect_languages(defined_keys);
    let mut marks: Vec<bool> = Vec::new();
    while marks.len() < defined_keys.len()
        invariant
            marks.len() <= defined_keys.len(),
        decreases defined_keys.len() - marks.len(),
    {
        marks.push(false);
    }
    let mut g: usize = 0;
    while g < languages.len()
        invariant
            g <= languages.len(),
            defined == defined_keys.deep_view(),
            marks.len() == defined_keys.len(),
            forall|i: int, h: int|
                #![trigger marks@[i], languages.deep_view()[h]]
                0 <= i < defined.len() && 0 <= h < g && defined[i].language == languages.deep_view()[h]
                    ==> marks@[i] == last_definition(defined, i),
        decreases languages.len() - g,
    {
        let language = &languages[g];
        assert(languages.deep_view()[g as int] == language@);
        mark_language(defined_keys, language, &mut marks);
        g += 1;
    }
    proof {
        assert forall|i: int| 0 <= i < defined_keys.len() implies marks@[i] == last_definition(
            defined,
            i,
        ) by {
            lemma_languages_complete(defined, i);
            let h = choose|h: int|
                0 <= h < languages.deep_view().len() && languages.deep_view()[h]
                    == defined[i].language;
            assert(languages.deep_view()[h] == defined[i].language);
        }
    }
    marks
}

/// The definitions among the first `count` that are the last of their key in their language, in
/// order. Where a file gives a key twice, the later entry stands for the key.
pub open spec fn keep_last(defined: Seq<DefinedKeyView>, count: int) -> Seq<DefinedKeyView>
    decreases count,
{
    if count <= 0 {
        Seq::empty()
    } else if last_definition(defined, count - 1) {
        keep_last(defined, count - 1).push(defined[count - 1])
    } else {
        keep_last(defined, count - 1)
    }
}

/// A copy of `key`.
pub fn copy_defined_key(key: &DefinedKey) -> (copy: DefinedKey)
    ensures
        copy.deep_view() == key.deep_view(),
{
    DefinedKey {
        key: key.key.clone(),
        language: key.language.clone(),
        value: key.value.clone(),
        file_path: key.file_path.clone(),
    }
}

/// Appends to `defined_keys` those of `found` that are the last of their key in their language.
pub fn append_last_definitions(found: &Vec<DefinedKey>, defined_keys: &mut Vec<DefinedKey>)
    ensures
        final(defined_keys).deep_view() == old(defined_keys).deep_view() + keep_last(
            found.deep_view(),
            found.len() as int,
        ),
{
    let last = mark_last_definitions(found);
    let mut i: usize = 0;
    while i < found.len()
        invariant
            i <= found.len(),
            last.len() == found.len(),
            forall|k: int| 0 <= k < last.len() ==> last@[k] == last_definition(found.deep_view(), k),
            defined_keys.deep_view() == old(defined_keys).deep_view() + keep_last(
                found.deep_view(),
                i as int,
            ),
        decreases found.len() - i,
    {
        if last[i] {
            let ghost before = defined_keys.deep_view();
            defined_keys.push(copy_defined_key(&found[i]));
            assert(defined_keys.deep_view() =~= before.push(found.deep_view()[i as int]));
        }
        i += 1;
    }
}

/// How many of the first `count` fields have a name.
pub open spec fn named_count(fields: Seq<Field>, count: int) -> int
    decreases count,
{
    if count <= 0 {
        0
    } else if fields[count - 1].name is Some {
        named_count(fields, count - 1) + 1
    } else {
        named_count(fields, count - 1)
    }
}

/// The index of the last of the first `count` fields that has a name, or -1.
pub open spec fn last_named(fields: Seq<Field>, count: int) -> int
    decreases count,
{
    if count <= 0 {
        -1
    } else if fields[count - 1].name is Some {
        count - 1
    } else {
        last_named(fields, count - 1)
    }
}

/// Whether a table does nothing but wrap the catalog of `language`: exactly one of its fields
/// has a name, and that name is the language.
pub open spec fn is_language_wrapper(fields: Seq<Field>, language: Seq<char>) -> bool {
    &&& named_count(fields, fields.len() as int) == 1
    &&& fields[last_named(fields, fields.len() as int)].name == Some(language)
}

/// The flat entries of a catalog whose top level holds `fields`. Where the top level only wraps
/// the catalog of `language`, the entries are those of the table below the wrapper, and there
/// are none where no table stands there.
pub open spec fn catalog_pairs(fields: Seq<Field>, language: Seq<char>) -> Seq<FlatPair> {
    if is_language_wrapper(fields, language) {
        match fields[last_named(fields, fields.len() as int)].value {
            Node::Table(inner) => flatten_fields(Seq::empty(), inner, inner.len() as int),
            Node::Leaf(_) => Seq::empty(),
        }
    } else {
        flatten_fields(Seq::empty(), fields, fields.len() as int)
    }
}

/// The definitions of a catalog file whose tree is `root`, or the failure of a root that is no
/// table.
pub open spec fn catalog_definitions(root: Node, language: Seq<char>, file_path: Seq<char>) -> Result<
    Seq<DefinedKeyView>,
    Failure,
> {
    match root {
        Node::Table(fields) => {
            let all = definitions(catalog_pairs(fields, language), language, file_path);
            Ok(keep_last(all, all.len() as int))
        },
        Node::Leaf(_) => Err(Failure::RootNotTable { file_path }),
    }
}

/// `last_named` is the index of a field with a name wherever some field has one.
pub proof fn lemma_last_named(fields: Seq<Field>, count: int)
    requires
        0 <= count <= fields.len(),
    ensures
        named_count(fields, count) >= 0,
        named_count(fields, count) > 0 ==> 0 <= last_named(fields, count) < count && fields[last_named(
            fields,
            count,
        )].name is Some,
        named_count(fields, count) == 0 ==> last_named(fields, count) == -1,
    decreases count,
{
    if count > 0 {
        lemma_last_named(fields, count - 1);
    }
}

/// Appends to `defined_keys` the definitions of the catalog whose tree is `root`, read from the
/// file `file_path` of `language`.
///
/// A top level that only wraps the catalog under the language's name is seen through. Of two
/// entries with one key the later stays. The call fails, with `defined_keys` unchanged, exactly
/// when the root is no table.
pub fn extract_catalog(
    root: &CatalogValue,
    language: &str,
    file_path: &str,
    defined_keys: &mut Vec<DefinedKey>,
) -> (result: Result<(), AuditError>)
    ensures
        match result {
            Ok(()) => catalog_definitions(root.deep_view(), language@, file_path@) is Ok
                && final(defined_keys).deep_view() == old(defined_keys).deep_view()
                + catalog_definitions(root.deep_view(), language@, file_path@)->Ok_0,
            Err(error) => catalog_definitions(root.deep_view(), language@, file_path@) == Err::<
                Seq<DefinedKeyView>,
                Failure,
            >(error.deep_view()) && final(defined_keys)@ == old(defined_keys)@,
        },
{
    let map = match root {
        CatalogValue::Table(map) => map,
        CatalogValue::Text(_) => {
            return Err(AuditError::RootNotTable { file_path: file_path.to_owned() });
        },
    };
    let ghost fields = fields_of(map@);
    let mut named: usize = 0;
    let mut last: usize = 0;
    let mut i: usize = 0;
    while i < map.len()
        invariant
            i <= map.len(),
            fields == fields_of(map@),
            named == named_count(fields, i as int),
            named <= i,
            named > 0 ==> last == last_named(fields, i as int),
        decreases map.len() - i,
    {
        assert(fields[i as int] == crate::catalog::field_of(map@[i as int]));
        if map[i].name.is_some() {
            named += 1;
            last = i;
        }
        i += 1;
    }
    proof {
        lemma_last_named(fields, map.len() as int);
    }
    let mut found: Vec<DefinedKey> = Vec::new();
    let wrapped = named == 1 && match &map[last].name {
        Some(name) => crate::text::same_text(name.as_str(), language),
        None => false,
    };
    proof {
        if named == 1 {
            assert(fields[last as int] == crate::catalog::field_of(map@[last as int]));
        }
        assert(wrapped == is_language_wrapper(fields, language@));
    }
    if wrapped {
        match &map[last].value {
            CatalogValue::Table(inner) => {
                extract_keys_from_map(inner, "", language, file_path, &mut found);
            },
            CatalogValue::Text(_) => {},
        }
    } else {
        extract_keys_from_map(map, "", language, file_path, &mut found);
    }
    proof {
        reveal_strlit("");
        assert(""@ =~= Seq::<char>::empty());
        assert(found.deep_view() =~= definitions(
            catalog_pairs(fields, language@),
            language@,
            file_path@,
        ));
    }
    append_last_definitions(&found, defined_keys);
    Ok(())
}

/// The formats in which a catalog file is read and written.
#[derive(Debug, Clone, Copy, PartialEq, Eq, Structural)]
pub enum CatalogFormat {
    Yaml,
    Json,
    Toml,
}

/// The format that a file extension names: `yml` and `yaml` name YAML, `json` JSON and `toml`
/// TOML.
pub open spec fn format_of(extension: Option<Seq<char>>) -> Option<CatalogFormat> {
    match extension {
        Some(text) => if text == "yml"@ || text == "yaml"@ {
            Some(CatalogFormat::Yaml)
        } else if text == "json"@ {
            Some(CatalogFormat::Json)
        } else if text == "toml"@ {
            Some(CatalogFormat::Toml)
        } else {
            None
        },
        None => None,
    }
}

/// The extension of the file name of `path`, if it has one.
pub fn path_extension(path: &str) -> (found: Option<String>)
    ensures
        crate::text::option_view(found) == extension(file_name(path@)),
{
    let chars = to_chars(path);
    let parts = name_parts(&chars);
    match parts.extension_start {
        Some(start) => {
            assert(chars@.subrange(start as int, chars.len() as int) =~= chars@.skip(start as int));
            Some(from_range(&chars, start, chars.len()))
        },
        None => None,
    }
}

/// The format that the extension of `path` names, if it names one.
pub fn catalog_format(path: &str) -> (format: Option<CatalogFormat>)
    ensures
        format == format_of(extension(file_name(path@))),
{
    match path_extension(path) {
        Some(text) => {
            let text = text.as_str();
            if same_text(text, "yml") || same_text(text, "yaml") {
                Some(CatalogFormat::Yaml)
            } else if same_text(text, "json") {
                Some(CatalogFormat::Json)
            } else if same_text(text, "toml") {
                Some(CatalogFormat::Toml)
            } else {
                None
            }
        },
        None => None,
    }
}

/// Whether a character is `letter`, a small letter, or its capital.
pub open spec fn is_letter(c: char, letter: char) -> bool {
    c == letter || c as int + 32 == letter as int
}

/// Whether a file name starts with "todo", in small or capital letters.
pub open spec fn is_todo_name(name: Seq<char>) -> bool {
    &&& name.len() >= 4
    &&& is_letter(name[0], 't')
    &&& is_letter(name[1], 'o')
    &&& is_letter(name[2], 'd')
    &&& is_letter(name[3], 'o')
}

/// Whether `path` names a catalog file that is read: its extension names a format, and its name
/// does not start with "todo" where such files are to be skipped.
pub open spec fn is_catalog_path(path: Seq<char>, ignore_todo_files: bool) -> bool {
    &&& format_of(extension(file_name(path))) is Some
    &&& !(ignore_todo_files && is_todo_name(file_name(path)))
}

/// Whether `path` names a catalog file that `parse_translation_files` reads.
pub fn is_catalog_file(path: &str, ignore_todo_files: bool) -> (read: bool)
    ensures
        read == is_catalog_path(path@, ignore_todo_files),
{
    if catalog_format(path).is_none() {
        return false;
    }
    if !ignore_todo_files {
        return true;
    }
    let chars = to_chars(path);
    let parts = name_parts(&chars);
    let start = parts.name_start;
    let ghost name = file_name(path@);
    if chars.len() - start < 4 {
        return true;
    }
    assert(name[0] == chars@[start as int] && name[1] == chars@[start + 1] && name[2] == chars@[
        start + 2] && name[3] == chars@[start + 3]);
    let todo = (chars[start] == 't' || chars[start] == 'T') && (chars[start + 1] == 'o'
        || chars[start + 1] == 'O') && (chars[start + 2] == 'd' || chars[start + 2] == 'D') && (
    chars[start + 3] == 'o' || chars[start + 3] == 'O');
    !todo
}

/// The language of a file where neither its name nor its directory tells one.
pub const UNKNOWN_LANGUAGE: &'static str = "unknown";

/// The most characters that a language code has.
pub const LANGUAGE_CODE_LENGTH: usize = 5;

/// Whether a name can be a language code: it has between 1 and 5 characters and no `.`.
pub open spec fn is_language_code(name: Seq<char>) -> bool {
    1 <= name.len() <= LANGUAGE_CODE_LENGTH && !name.contains('.')
}

/// The name of the directory that holds the file `path`, where that directory lies below
/// `locales_path`.
pub open spec fn parent_below(path: Seq<char>, locales_path: Seq<char>) -> Option<Seq<char>> {
    let parts = components(path);
    let root = components(locales_path);
    if parts.len() >= 1 && root.is_prefix_of(parts.drop_last()) && parts.len() - 1 > root.len() {
        Some(parts[parts.len() - 2])
    } else {
        None
    }
}

/// The language of the catalog file `path` below the directory `locales_path`: the stem of the
/// file's name where that can be a language code, else the name of the directory that holds
/// the file, where that directory lies below `locales_path` and its name can be a language
/// code, else `unknown`.
pub open spec fn language_of(path: Seq<char>, locales_path: Seq<char>) -> Seq<char> {
    if is_language_code(file_stem(file_name(path))) {
        file_stem(file_name(path))
    } else {
        match parent_below(path, locales_path) {
            Some(name) => if is_language_code(name) {
                name
            } else {
                UNKNOWN_LANGUAGE@
            },
            None => UNKNOWN_LANGUAGE@,
        }
    }
}

/// Whether `name` can be a language code.
pub fn can_be_language(name: &str) -> (fits: bool)
    ensures
        fits == is_language_code(name@),
{
    let chars = to_chars(name);
    if chars.len() < 1 || chars.len() > LANGUAGE_CODE_LENGTH {
        return false;
    }
    let mut i: usize = 0;
    while i < chars.len()
        invariant
            i <= chars.len(),
            chars@ == name@,
            forall|j: int| 0 <= j < i ==> chars@[j] != '.',
        decreases chars.len() - i,
    {
        if chars[i] == '.' {
            return false;
        }
        i += 1;
    }
    true
}

/// Infers the language of the catalog file `path`, which was found below the directory
/// `locales_path`.
///
/// A file named by a language code, such as `en.yml`, has that language. Any other file has the
/// language that names the directory in which it lies, such as `en/messages.yml`, if that
/// directory lies below `locales_path`. Where neither can be a language code, the language is
/// `unknown`.
pub fn extract_language_from_path(path: &str, locales_path: &str) -> (language: String)
    ensures
        language@ == language_of(path@, locales_path@),
{
    let chars = to_chars(path);
    let parts = name_parts(&chars);
    let stem = from_range(&chars, parts.name_start, parts.stem_end);
    if can_be_language(stem.as_str()) {
        return stem;
    }
    let pieces = path_components(path);
    let root = path_components(locales_path);
    if pieces.len() >= 1 {
        let mut parent = pieces;
        let ghost all = parent.deep_view();
        parent.pop();
        assert(parent.deep_view() =~= all.drop_last());
        if is_list_prefix(&root, &parent) && parent.len() > root.len() {
            let name = &parent[parent.len() - 1];
            assert(name@ == all[all.len() - 2]);
            if can_be_language(name.as_str()) {
                return name.clone();
            }
        }
    }
    UNKNOWN_LANGUAGE.to_owned()
}

/// A catalog file that was read: its path as it was found, and its text.
#[derive(Debug, Clone)]
pub struct CatalogFile {
    pub path: String,
    pub content: String,
}

/// The mathematical value of a `CatalogFile`.
pub struct CatalogFileView {
    pub path: Seq<char>,
    pub content: Seq<char>,
}

impl DeepView for CatalogFile {
    type V = CatalogFileView;

    open spec fn deep_view(&self) -> CatalogFileView {
        CatalogFileView { path: self.path@, content: self.content@ }
    }
}

impl View for CatalogFile {
    type V = CatalogFileView;

    open spec fn view(&self) -> CatalogFileView {
        self.deep_view()
    }
}

/// The tree that a text holds in a format, or `None` where the text is malformed.
pub open spec fn document(format: CatalogFormat, content: Seq<char>) -> Option<Node> {
    match format {
        CatalogFormat::Yaml => yaml_document(content),
        CatalogFormat::Json => json_document(content),
        CatalogFormat::Toml => toml_document(content),
    }
}

/// The definitions of a catalog text in a format, or the failure of a text that is malformed or
/// whose root is no table.
pub open spec fn text_definitions(
    format: CatalogFormat,
    content: Seq<char>,
    language: Seq<char>,
    file_path: Seq<char>,
) -> Result<Seq<DefinedKeyView>, Failure> {
    match document(format, content) {
        Some(root) => catalog_definitions(root, language, file_path),
        None => Err(Failure::Parse { file_path }),
    }
}

/// Whether `result` is what reading a catalog text gives: the definitions appended on success;
/// on failure nothing changed, with a parse error for a malformed text and a root error for a
/// root that is no table.
pub open spec fn parse_outcome(
    result: Result<(), AuditError>,
    format: CatalogFormat,
    content: Seq<char>,
    language: Seq<char>,
    file_path: Seq<char>,
    before: Seq<DefinedKeyView>,
    after: Seq<DefinedKeyView>,
) -> bool {
    match result {
        Ok(()) => text_definitions(format, content, language, file_path) is Ok && after == before
            + text_definitions(format, content, language, file_path)->Ok_0,
        Err(error) => after == before && text_definitions(format, content, language, file_path)
            == Err::<Seq<DefinedKeyView>, Failure>(error.deep_view()),
    }
}

/// Appends the definitions of a tree that was read, or turns the failure to read it into the
/// library's error.
pub fn extract_parsed(
    parsed: Result<CatalogValue, String>,
    language: &str,
    file_path: &str,
    defined_keys: &mut Vec<DefinedKey>,
) -> (result: Result<(), AuditError>)
    ensures
        match (parsed, result) {
            (Ok(root), Ok(())) => catalog_definitions(root.deep_view(), language@, file_path@)
                is Ok && final(defined_keys).deep_view() == old(defined_keys).deep_view()
                + catalog_definitions(root.deep_view(), language@, file_path@)->Ok_0,
            (Ok(root), Err(error)) => catalog_definitions(root.deep_view(), language@, file_path@)
                == Err::<Seq<DefinedKeyView>, Failure>(error.deep_view()) && final(defined_keys)@
                == old(defined_keys)@,
            (Err(_), Ok(())) => false,
            (Err(_), Err(error)) => final(defined_keys)@ == old(defined_keys)@ && error.deep_view()
                == (Failure::Parse { file_path: file_path@ }),
        },
{
    match parsed {
        Ok(root) => extract_catalog(&root, language, file_path, defined_keys),
        Err(message) => Err(AuditError::Parse { file_path: file_path.to_owned(), message }),
    }
}

/// Reads the YAML text `content` of the file `file_path` of `language` and appends its
/// definitions to `defined_keys`.
pub fn parse_yaml(content: &str, language: &str, file_path: &str, defined_keys: &mut Vec<DefinedKey>) -> (result:
    Result<(), AuditError>)
    ensures
        parse_outcome(
            result,
            CatalogFormat::Yaml,
            content@,
            language@,
            file_path@,
            old(defined_keys).deep_view(),
            final(defined_keys).deep_view(),
        ),
{
    extract_parsed(parse_yaml_text(content), language, file_path, defined_keys)
}

/// Reads the JSON text `content` of the file `file_path` of `language` and appends its
/// definitions to `defined_keys`.
pub fn parse_json(content: &str, language: &str, file_path: &str, defined_keys: &mut Vec<DefinedKey>) -> (result:
    Result<(), AuditError>)
    ensures
        parse_outcome(
            result,
            CatalogFormat::Json,
            content@,
            language@,
            file_path@,
            old(defined_keys).deep_view(),
            final(defined_keys).deep_view(),
        ),
{
    extract_parsed(parse_json_text(content), language, file_path, defined_keys)
}

/// Reads the TOML text `content` of the file `file_path` of `language` and appends its
/// definitions to `defined_keys`.
pub fn parse_toml(content: &str, language: &str, file_path: &str, defined_keys: &mut Vec<DefinedKey>) -> (result:
    Result<(), AuditError>)
    ensures
        parse_outcome(
            result,
            CatalogFormat::Toml,
            content@,
            language@,
            file_path@,
            old(defined_keys).deep_view(),
            final(defined_keys).deep_view(),
        ),
{
    extract_parsed(parse_toml_text(content), language, file_path, defined_keys)
}

/// The definitions of one file as `parse_translation_files` reads it: none for a file that is
/// no catalog file, a failure for a catalog file that cannot be read.
pub open spec fn file_definitions(
    file: CatalogFileView,
    project_path: Seq<char>,
    locales_path: Seq<char>,
    ignore_todo_files: bool,
) -> Result<Seq<DefinedKeyView>, Failure> {
    if is_catalog_path(file.path, ignore_todo_files) {
        text_definitions(
            format_of(extension(file_name(file.path)))->0,
            file.content,
            language_of(file.path, locales_path),
            relative_path(file.path, project_path),
        )
    } else {
        Ok(Seq::empty())
    }
}

/// The definitions of the first `count` files, file after file, or the failure of the first of
/// them that cannot be read.
pub open spec fn files_definitions(
    files: Seq<CatalogFileView>,
    project_path: Seq<char>,
    locales_path: Seq<char>,
    ignore_todo_files: bool,
    count: int,
) -> Result<Seq<DefinedKeyView>, Failure>
    decreases count,
{
    if count <= 0 {
        Ok(Seq::empty())
    } else {
        match files_definitions(files, project_path, locales_path, ignore_todo_files, count - 1) {
            Ok(head) => match file_definitions(
                files[count - 1],
                project_path,
                locales_path,
                ignore_todo_files,
            ) {
                Ok(last) => Ok(head + last),
                Err(failure) => Err(failure),
            },
            Err(failure) => Err(failure),
        }
    }
}

/// The definitions that a configuration reads from `files`.
pub open spec fn config_definitions(config: Config, files: Seq<CatalogFileView>) -> Result<
    Seq<DefinedKeyView>,
    Failure,
> {
    files_definitions(
        files,
        config.project_path@,
        join_path(config.project_path@, config.locales_dir@),
        config.ignore_todo_files,
        files.len() as int,
    )
}

/// Reads the catalog files among `files` and returns the keys that they define, file after
/// file.
///
/// A file is read where its extension names a format and, if `config.ignore_todo_files` is
/// set, its name does not start with "todo". Its language is inferred from its path below the
/// catalog directory, and its definitions carry its path as seen from the project's root. The
/// call fails at the first file that is malformed or whose root is no table.
pub fn parse_translation_files(config: &Config, files: &Vec<CatalogFile>) -> (result: Result<
    Vec<DefinedKey>,
    AuditError,
>)
    ensures
        match result {
            Ok(defined) => config_definitions(*config, files.deep_view()) == Ok::<
                Seq<DefinedKeyView>,
                Failure,
            >(defined.deep_view()),
            Err(error) => config_definitions(*config, files.deep_view()) == Err::<
                Seq<DefinedKeyView>,
                Failure,
            >(error.deep_view()),
        },
{
    let locales_path = config.locales_path();
    let ghost project = config.project_path@;
    let ghost locales = locales_path@;
    let ghost all = files.deep_view();
    let mut defined_keys: Vec<DefinedKey> = Vec::new();
    assert(defined_keys.deep_view() =~= Seq::<DefinedKeyView>::empty());
    let mut i: usize = 0;
    while i < files.len()
        invariant
            i <= files.len(),
            all == files.deep_view(),
            project == config.project_path@,
            locales == locales_path@,
            locales == join_path(config.project_path@, config.locales_dir@),
            files_definitions(all, project, locales, config.ignore_todo_files, i as int) == Ok::<
                Seq<DefinedKeyView>,
                Failure,
            >(defined_keys.deep_view()),
        decreases files.len() - i,
    {
        let file = &files[i];
        assert(all[i as int] == file.deep_view());
        let path = file.path.as_str();
        if is_catalog_file(path, config.ignore_todo_files) {
            let language = extract_language_from_path(path, locales_path.as_str());
            let relative = make_relative(path, config.project_path.as_str());
            let content = file.content.as_str();
            let outcome = match catalog_format(path) {
                Some(CatalogFormat::Yaml) => parse_yaml(
                    content,
                    language.as_str(),
                    relative.as_str(),
                    &mut defined_keys,
                ),
                Some(CatalogFormat::Json) => parse_json(
                    content,
                    language.as_str(),
                    relative.as_str(),
                    &mut defined_keys,
                ),
                Some(CatalogFormat::Toml) => parse_toml(
                    content,
                    language.as_str(),
                    relative.as_str(),
                    &mut defined_keys,
                ),
                None => Ok(()),
            };
            match outcome {
                Ok(()) => {},
                Err(error) => {
                    proof {
                        lemma_files_definitions_fail(
                            all,
                            project,
                            locales,
                            config.ignore_todo_files,
                            i + 1,
                            files.len() as int,
                        );
                    }
                    return Err(error);
                },
            }
        } else {
            assert(defined_keys.deep_view() + Seq::<DefinedKeyView>::empty()
                =~= defined_keys.deep_view());
        }
        i += 1;
    }
    Ok(defined_keys)
}

/// Once the files up to `failed` cannot be read, no longer list of them can.
pub proof fn lemma_files_definitions_fail(
    files: Seq<CatalogFileView>,
    project_path: Seq<char>,
    locales_path: Seq<char>,
    ignore_todo_files: bool,
    failed: int,
    count: int,
)
    requires
        failed <= count,
        files_definitions(files, project_path, locales_path, ignore_todo_files, failed) is Err,
    ensures
        files_definitions(files, project_path, locales_path, ignore_todo_files, count)
            == files_definitions(files, project_path, locales_path, ignore_todo_files, failed),
    decreases count - failed,
{
    if failed < count {
        lemma_files_definitions_fail(
            files,
            project_path,
            locales_path,
            ignore_todo_files,
            failed,
            count - 1,
        );
    }
}

/// The text that stands for a tree in a format, or `None` where the tree cannot be written in
/// it.
pub open spec fn rendered(format: CatalogFormat, tree: Node) -> Option<Seq<char>> {
    match format {
        CatalogFormat::Yaml => yaml_text(tree),
        CatalogFormat::Json => json_text(tree),
        CatalogFormat::Toml => toml_text(tree),
    }
}

/// The tree of a flat catalog that holds `pairs` in the order of their keys.
pub open spec fn tree_of(pairs: Seq<FlatPair>) -> Node {
    Node::Table(unflatten_pairs(pairs, pairs.len() as int))
}

/// The content of the catalog file `file_path` that holds the entries of `map`: the tree of the
/// entries, written in the format that the extension of the path names. A failure where the
/// extension names no format, with the extension, or where the tree cannot be written, with the
/// path.
pub open spec fn file_content(file_path: Seq<char>, map: Map<Seq<char>, Seq<char>>) -> Result<
    Seq<char>,
    Failure,
> {
    match format_of(extension(file_name(file_path))) {
        Some(format) => match rendered(format, tree_of(listing(map))) {
            Some(content) => Ok(content),
            None => Err(Failure::Render { file_path }),
        },
        None => Err(
            Failure::UnsupportedExtension {
                extension: match extension(file_name(file_path)) {
                    Some(text) => text,
                    None => Seq::empty(),
                },
            },
        ),
    }
}

/// Writes `tree` in `format`, for the file `file_path`.
pub fn render_tree(format: CatalogFormat, tree: &CatalogValue, file_path: &str) -> (result: Result<
    String,
    AuditError,
>)
    requires
        all_named(tree.deep_view()),
    ensures
        match result {
            Ok(content) => rendered(format, tree.deep_view()) == Some(content@),
            Err(error) => rendered(format, tree.deep_view()) is None && error.deep_view() == (
            Failure::Render { file_path: file_path@ }),
        },
{
    let text = match format {
        CatalogFormat::Yaml => render_yaml(tree),
        CatalogFormat::Json => render_json(tree),
        CatalogFormat::Toml => render_toml(tree),
    };
    match text {
        Ok(content) => Ok(content),
        Err(message) => Err(AuditError::Render { file_path: file_path.to_owned(), message }),
    }
}

/// Makes the content of the catalog file `file_path` that holds the entries of `keys`.
///
/// The entries are brought into a tree, each key giving the path of its text, and the tree is
/// written in the format that the extension of `file_path` names. The tables of the tree hold
/// their fields in the order of their names, and every leaf is a text. The call fails with the
/// extension where it names no format, and with the file where the tree cannot be written.
pub fn write_translation_file(file_path: &str, keys: &FlatCatalog) -> (result: Result<
    String,
    AuditError,
>)
    ensures
        match result {
            Ok(content) => file_content(file_path@, keys.map()) == Ok::<Seq<char>, Failure>(
                content@,
            ),
            Err(error) => file_content(file_path@, keys.map()) == Err::<Seq<char>, Failure>(
                error.deep_view(),
            ),
        },
{
    let list = keys.entries();
    match catalog_format(file_path) {
        Some(format) => {
            let tree = unflatten(keys);
            render_tree(format, &tree, file_path)
        },
        None => {
            let extension = match path_extension(file_path) {
                Some(text) => text,
                None => String::new(),
            };
            Err(AuditError::UnsupportedExtension { extension })
        },
    }
}

} // verus!
