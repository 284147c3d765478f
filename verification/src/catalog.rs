//! The tree of a catalog and its flat form.
//!
//! A catalog file holds a tree: tables of named entries, with text at the leaves. Flattening
//! turns the tree into a list of entries, each under the names on its path joined by `.`.

use crate::flat::{lex_less, lex_lt, FlatCatalog};
use crate::text::{same_string, split, split_text};
use vstd::prelude::*;

verus! {

broadcast use vstd::string::group_string_axioms;

/// A value of a catalog file: a text, or a table of named values.
///
/// A leaf that is no string in its file (a number, a boolean, a list) is held as the text that
/// stands for it.
#[derive(Debug)]
pub enum CatalogValue {
    Text(String),
    Table(Vec<CatalogEntry>),
}

/// An entry of a table. An entry whose name in the file is no string has no name here.
#[derive(Debug)]
pub struct CatalogEntry {
    pub name: Option<String>,
    pub value: CatalogValue,
}

/// The mathematical value of a `CatalogValue`.
pub enum Node {
    Leaf(Seq<char>),
    Table(Seq<Field>),
}

/// The mathematical value of a `CatalogEntry`.
pub struct Field {
    pub name: Option<Seq<char>>,
    pub value: Node,
}

/// The mathematical value of a catalog value.
pub open spec fn node_of(value: CatalogValue) -> Node
    decreases value,
{
    match value {
        CatalogValue::Text(text) => Node::Leaf(text@),
        CatalogValue::Table(entries) => Node::Table(fields_of(entries@)),
    }
}

/// The mathematical value of a list of entries.
pub open spec fn fields_of(entries: Seq<CatalogEntry>) -> Seq<Field>
    decreases entries,
{
    Seq::new(
        entries.len(),
        |i: int|
            if 0 <= i < entries.len() {
                field_of(entries[i])
            } else {
                arbitrary()
            },
    )
}

/// The mathematical value of an entry.
pub open spec fn field_of(entry: CatalogEntry) -> Field
    decreases entry,
{
    Field {
        name: match entry.name {
            Some(name) => Some(name@),
            None => None,
        },
        value: node_of(entry.value),
    }
}

impl DeepView for CatalogValue {
    type V = Node;

    open spec fn deep_view(&self) -> Node {
        node_of(*self)
    }
}

impl View for CatalogValue {
    type V = Node;

    open spec fn view(&self) -> Node {
        node_of(*self)
    }
}

impl DeepView for CatalogEntry {
    type V = Field;

    open spec fn deep_view(&self) -> Field {
        field_of(*self)
    }
}

impl View for CatalogEntry {
    type V = Field;

    open spec fn view(&self) -> Field {
        field_of(*self)
    }
}

/// An entry of a flat catalog: a key and its text.
pub struct FlatPair {
    pub key: Seq<char>,
    pub value: Seq<char>,
}

/// The key of the entry `name` below the path `prefix`.
pub open spec fn join_key(prefix: Seq<char>, name: Seq<char>) -> Seq<char> {
    if prefix.len() == 0 {
        name
    } else {
        prefix + seq!['.'] + name
    }
}

/// The flat entries of one field below `prefix`: the field itself where it is a leaf, the
/// entries of its fields where it is a table, nothing where it has no name.
pub open spec fn flatten_field(prefix: Seq<char>, field: Field) -> Seq<FlatPair>
    decreases field, 0int,
{
    match field.name {
        None => Seq::empty(),
        Some(name) => match field.value {
            Node::Leaf(value) => seq![FlatPair { key: join_key(prefix, name), value }],
            Node::Table(fields) => flatten_fields(join_key(prefix, name), fields, fields.len() as int),
        },
    }
}

/// The flat entries of the first `count` of `fields` below `prefix`, field after field.
pub open spec fn flatten_fields(prefix: Seq<char>, fields: Seq<Field>, count: int) -> Seq<FlatPair>
    decreases fields, count,
{
    if count <= 0 || count > fields.len() {
        Seq::empty()
    } else {
        flatten_fields(prefix, fields, count - 1) + flatten_field(prefix, fields[count - 1])
    }
}

/// The index of the first of `fields` with the name `name`, or -1 where none has it.
pub open spec fn find_name(fields: Seq<Field>, name: Seq<char>) -> int
    decreases fields.len(),
{
    if fields.len() == 0 {
        -1
    } else if find_name(fields.drop_last(), name) >= 0 {
        find_name(fields.drop_last(), name)
    } else if fields.last().name == Some(name) {
        fields.len() - 1
    } else {
        -1
    }
}

/// How many of `fields` have a name that stands before `name` in the order of strings: the
/// index at which a field of that name is put into a table that is in order.
pub open spec fn slot(fields: Seq<Field>, name: Seq<char>) -> int
    decreases fields.len(),
{
    if fields.len() == 0 {
        0
    } else if fields.last().name is Some && lex_lt(fields.last().name->0, name) {
        slot(fields.drop_last(), name) + 1
    } else {
        slot(fields.drop_last(), name)
    }
}

/// `find_name` and `slot` give indices of the list.
pub proof fn lemma_find_slot(fields: Seq<Field>, name: Seq<char>)
    ensures
        -1 <= find_name(fields, name) < fields.len(),
        find_name(fields, name) >= 0 ==> fields[find_name(fields, name)].name == Some(name),
        find_name(fields, name) < 0 ==> forall|i: int|
            0 <= i < fields.len() ==> (#[trigger] fields[i]).name != Some(name),
        0 <= slot(fields, name) <= fields.len(),
    decreases fields.len(),
{
    if fields.len() > 0 {
        lemma_find_slot(fields.drop_last(), name);
        if find_name(fields, name) < 0 {
            assert forall|i: int| 0 <= i < fields.len() implies (#[trigger] fields[i]).name != Some(
                name,
            ) by {
                if i < fields.len() - 1 {
                    assert(fields.drop_last()[i] == fields[i]);
                }
            }
        }
    }
}

/// The leaf `name` with the text `value`.
pub open spec fn leaf_field(name: Seq<char>, value: Seq<char>) -> Field {
    Field { name: Some(name), value: Node::Leaf(value) }
}

/// The table `name` with the fields `fields`.
pub open spec fn table_field(name: Seq<char>, fields: Seq<Field>) -> Field {
    Field { name: Some(name), value: Node::Table(fields) }
}

/// The table `fields` with the text `value` put at the end of the path `path`.
///
/// Each name of the path but the last leads into the table of that name, which is made where
/// the name is new; the last name gets a leaf with the text, in place of what it had. A new
/// field takes its place in the order of the names. Where a name on the way is taken by a
/// leaf, the way is blocked and the table stays as it is.
pub open spec fn insert_path(fields: Seq<Field>, path: Seq<Seq<char>>, value: Seq<char>) -> Seq<Field>
    decreases path.len(),
{
    if path.len() == 0 {
        fields
    } else {
        let name = path[0];
        let at = find_name(fields, name);
        if path.len() == 1 {
            if at >= 0 {
                fields.update(at, leaf_field(name, value))
            } else {
                fields.insert(slot(fields, name), leaf_field(name, value))
            }
        } else if at >= 0 {
            match fields[at].value {
                Node::Table(inner) => fields.update(
                    at,
                    table_field(name, insert_path(inner, path.skip(1), value)),
                ),
                Node::Leaf(_) => fields,
            }
        } else {
            fields.insert(
                slot(fields, name),
                table_field(name, insert_path(Seq::empty(), path.skip(1), value)),
            )
        }
    }
}

/// The table built from the first `count` of `pairs`: each entry in turn is put at the path
/// that its key names, the names of the path being the pieces of the key between its dots.
pub open spec fn unflatten_pairs(pairs: Seq<FlatPair>, count: int) -> Seq<Field>
    decreases count,
{
    if count <= 0 {
        Seq::empty()
    } else {
        insert_path(
            unflatten_pairs(pairs, count - 1),
            split(pairs[count - 1].key, '.'),
            pairs[count - 1].value,
        )
    }
}

/// Whether every one of `fields` has a name, and every field below them.
pub open spec fn fields_named(fields: Seq<Field>) -> bool {
    crate::codec::all_named(Node::Table(fields))
}

/// Putting a text at a path keeps every field named.
pub proof fn lemma_insert_path_named(fields: Seq<Field>, path: Seq<Seq<char>>, value: Seq<char>)
    requires
        fields_named(fields),
    ensures
        fields_named(insert_path(fields, path, value)),
    decreases path.len(),
{
    if path.len() > 0 {
        let name = path[0];
        let at = find_name(fields, name);
        let after = insert_path(fields, path, value);
        lemma_find_slot(fields, name);
        let at_slot = slot(fields, name);
        if path.len() > 1 {
            if at >= 0 {
                match fields[at].value {
                    Node::Table(inner) => {
                        assert(crate::codec::all_named(fields[at].value));
                        lemma_insert_path_named(inner, path.skip(1), value);
                    },
                    Node::Leaf(_) => {},
                }
            } else {
                lemma_insert_path_named(Seq::empty(), path.skip(1), value);
            }
        }
        assert forall|i: int| 0 <= i < after.len() implies (#[trigger] after[i]).name is Some
            && crate::codec::all_named(after[i].value) by {
            if at >= 0 {
                if i != at {
                    assert(after[i] == fields[i]);
                }
            } else if i < at_slot {
                assert(after[i] == fields[i]);
            } else if i > at_slot {
                assert(after[i] == fields[i - 1]);
            }
        }
    }
}

/// The table built from flat entries has every field named.
pub proof fn lemma_unflatten_named(pairs: Seq<FlatPair>, count: int)
    ensures
        fields_named(unflatten_pairs(pairs, count)),
    decreases count,
{
    if count > 0 {
        lemma_unflatten_named(pairs, count - 1);
        lemma_insert_path_named(
            unflatten_pairs(pairs, count - 1),
            split(pairs[count - 1].key, '.'),
            pairs[count - 1].value,
        );
    }
}

/// The index of the first of `entries` with the name `name`, if one has it.
pub fn find_entry(entries: &Vec<CatalogEntry>, name: &String) -> (found: Option<usize>)
    ensures
        match found {
            Some(index) => index as int == find_name(fields_of(entries@), name@),
            None => find_name(fields_of(entries@), name@) == -1,
        },
{
    let ghost fields = fields_of(entries@);
    let mut i: usize = 0;
    while i < entries.len()
        invariant
            i <= entries.len(),
            fields == fields_of(entries@),
            find_name(fields.take(i as int), name@) == -1,
        decreases entries.len() - i,
    {
        proof {
            assert(fields.take(i + 1).drop_last() == fields.take(i as int));
            assert(fields.take(i + 1).last() == field_of(entries@[i as int]));
        }
        let hit = match &entries[i].name {
            Some(other) => same_string(other, name),
            None => false,
        };
        if hit {
            proof {
                lemma_find_name_prefix(fields, name@, i + 1);
            }
            return Some(i);
        }
        i += 1;
    }
    proof {
        assert(fields.take(entries.len() as int) == fields);
    }
    None
}

/// What `find_name` finds among the first fields of a list it finds in the whole list.
pub proof fn lemma_find_name_prefix(fields: Seq<Field>, name: Seq<char>, count: int)
    requires
        0 <= count <= fields.len(),
        find_name(fields.take(count), name) >= 0,
    ensures
        find_name(fields, name) == find_name(fields.take(count), name),
    decreases fields.len() - count,
{
    if count < fields.len() {
        assert(fields.take(count + 1).drop_last() == fields.take(count));
        lemma_find_name_prefix(fields, name, count + 1);
    } else {
        assert(fields.take(count) == fields);
    }
}

/// How many of `entries` have a name that stands before `name`.
pub fn find_slot(entries: &Vec<CatalogEntry>, name: &String) -> (at: usize)
    ensures
        at as int == slot(fields_of(entries@), name@),
        at <= entries.len(),
{
    let ghost fields = fields_of(entries@);
    let mut at: usize = 0;
    let mut i: usize = 0;
    while i < entries.len()
        invariant
            i <= entries.len(),
            fields == fields_of(entries@),
            at as int == slot(fields.take(i as int), name@),
            at <= i,
        decreases entries.len() - i,
    {
        proof {
            assert(fields.take(i + 1).drop_last() == fields.take(i as int));
            assert(fields.take(i + 1).last() == field_of(entries@[i as int]));
        }
        let before = match &entries[i].name {
            Some(other) => lex_less(other.as_str(), name.as_str()),
            None => false,
        };
        if before {
            at += 1;
        }
        i += 1;
    }
    proof {
        assert(fields.take(entries.len() as int) == fields);
    }
    at
}

/// Puts the text `value` at the end of the path `path[depth..]` in the table `entries`.
pub fn put_at_path(entries: Vec<CatalogEntry>, path: &Vec<String>, depth: usize, value: String) -> (result:
    Vec<CatalogEntry>)
    requires
        depth < path.len(),
    ensures
        fields_of(result@) == insert_path(
            fields_of(entries@),
            path.deep_view().skip(depth as int),
            value@,
        ),
    decreases path.len() - depth,
{
    let ghost fields = fields_of(entries@);
    let ghost rest = path.deep_view().skip(depth as int);
    let name = &path[depth];
    assert(rest[0] == name@);
    assert(rest.skip(1) =~= path.deep_view().skip(depth + 1));
    proof {
        lemma_find_slot(fields, name@);
    }
    let mut entries = entries;
    let found = find_entry(&entries, name);
    if depth + 1 == path.len() {
        let leaf = CatalogEntry { name: Some(name.clone()), value: CatalogValue::Text(value) };
        match found {
            Some(at) => {
                entries.set(at, leaf);
                assert(fields_of(entries@) =~= fields.update(at as int, field_of(leaf)));
            },
            None => {
                let at = find_slot(&entries, name);
                entries.insert(at, leaf);
                assert(fields_of(entries@) =~= fields.insert(at as int, field_of(leaf)));
            },
        }
        entries
    } else {
        match found {
            Some(at) => {
                let entry = entries.remove(at);
                assert(field_of(entry) == fields[at as int]);
                match entry.value {
                    CatalogValue::Table(inner) => {
                        let nested = put_at_path(inner, path, depth + 1, value);
                        let table = CatalogEntry {
                            name: Some(name.clone()),
                            value: CatalogValue::Table(nested),
                        };
                        entries.insert(at, table);
                        assert(fields_of(entries@) =~= fields.update(at as int, field_of(table)));
                        entries
                    },
                    CatalogValue::Text(text) => {
                        let kept = CatalogEntry { name: entry.name, value: CatalogValue::Text(text) };
                        entries.insert(at, kept);
                        assert(fields_of(entries@) =~= fields);
                        entries
                    },
                }
            },
            None => {
                let at = find_slot(&entries, name);
                let nested = put_at_path(Vec::new(), path, depth + 1, value);
                assert(fields_of(Seq::<CatalogEntry>::empty()) =~= Seq::<Field>::empty());
                let table = CatalogEntry {
                    name: Some(name.clone()),
                    value: CatalogValue::Table(nested),
                };
                entries.insert(at, table);
                assert(fields_of(entries@) =~= fields.insert(at as int, field_of(table)));
                entries
            },
        }
    }
}

/// Builds the tree of a flat catalog: each entry, in the order of the keys, is put at the path
/// that its key names.
///
/// The tables of the tree hold their fields in the order of their names, every field has a
/// name and every leaf is a text. An entry whose path is blocked by a leaf, as `a.b` is by `a`,
/// is left out.
pub fn unflatten(keys: &FlatCatalog) -> (tree: CatalogValue)
    ensures
        tree.deep_view() == Node::Table(unflatten_pairs(keys.pairs(), keys.pairs().len() as int)),
        crate::codec::all_named(tree.deep_view()),
{
    let list = keys.entries();
    let ghost pairs = keys.pairs();
    let mut entries: Vec<CatalogEntry> = Vec::new();
    assert(fields_of(entries@) =~= Seq::<Field>::empty());
    let mut i: usize = 0;
    while i < list.len()
        invariant
            i <= list.len(),
            list.deep_view() == pairs,
            fields_of(entries@) == unflatten_pairs(pairs, i as int),
        decreases list.len() - i,
    {
        let entry = &list[i];
        assert(pairs[i as int] == entry.deep_view());
        let path = split_text(entry.key.as_str(), '.');
        proof {
            crate::text::lemma_split_nonempty(entry.key@, '.');
            assert(path.deep_view().skip(0) =~= path.deep_view());
        }
        entries = put_at_path(entries, &path, 0, entry.value.clone());
        i += 1;
    }
    proof {
        lemma_unflatten_named(pairs, pairs.len() as int);
    }
    CatalogValue::Table(entries)
}

} // verus!
