//! Flattening undoes unflattening.
//!
//! A flat catalog that is brought into a tree and flattened again gives the same map of keys
//! to texts, as long as its keys can stand side by side in a tree: no key begins with a dot,
//! and no key is another key followed by a dot and more.

use crate::catalog::{
    find_name, flatten_field, flatten_fields, insert_path, join_key, leaf_field, lemma_find_slot,
    slot, table_field, unflatten_pairs, Field, FlatPair, Node,
};
use crate::flat::{has_pair, lemma_pairs_map_dom, lemma_pairs_map_same, pairs_map};
use crate::text::{join, lemma_join_concat, lemma_join_split, lemma_split_nonempty, split};
use vstd::prelude::*;

verus! {

/// Whether a table is tidy: each of its fields has a name, no two of them have the same name,
/// and every table below is tidy.
pub open spec fn tidy(fields: Seq<Field>) -> bool
    decreases fields,
{
    &&& forall|i: int|
        0 <= i < fields.len() ==> (#[trigger] fields[i]).name is Some && (match fields[i].value {
            Node::Table(inner) => tidy(inner),
            Node::Leaf(_) => true,
        })
    &&& forall|i: int, j: int|
        0 <= i < j < fields.len() ==> (#[trigger] fields[i]).name != (#[trigger] fields[j]).name
}

/// The text of the leaf at the end of the path `path`, if a leaf stands there.
pub open spec fn leaf_at(fields: Seq<Field>, path: Seq<Seq<char>>) -> Option<Seq<char>>
    decreases path.len(),
{
    if path.len() == 0 {
        None
    } else {
        let at = find_name(fields, path[0]);
        if at < 0 || at >= fields.len() {
            None
        } else {
            match fields[at].value {
                Node::Leaf(value) => if path.len() == 1 {
                    Some(value)
                } else {
                    None
                },
                Node::Table(inner) => if path.len() == 1 {
                    None
                } else {
                    leaf_at(inner, path.skip(1))
                },
            }
        }
    }
}

/// Whether a table stands at the end of the path `path`.
pub open spec fn table_at(fields: Seq<Field>, path: Seq<Seq<char>>) -> bool
    decreases path.len(),
{
    if path.len() == 0 {
        false
    } else {
        let at = find_name(fields, path[0]);
        if at < 0 || at >= fields.len() {
            false
        } else {
            match fields[at].value {
                Node::Leaf(_) => false,
                Node::Table(inner) => if path.len() == 1 {
                    true
                } else {
                    table_at(inner, path.skip(1))
                },
            }
        }
    }
}

/// Whether `short` holds the first names of `long`, and fewer.
pub open spec fn proper_prefix(short: Seq<Seq<char>>, long: Seq<Seq<char>>) -> bool {
    0 < short.len() < long.len() && long.take(short.len() as int) == short
}

/// In a table whose names differ, a name is found at the index of the field that has it.
pub proof fn lemma_find_at(fields: Seq<Field>, index: int)
    requires
        0 <= index < fields.len(),
        fields[index].name is Some,
        forall|i: int, j: int|
            0 <= i < j < fields.len() ==> (#[trigger] fields[i]).name != (#[trigger] fields[j]).name,
    ensures
        find_name(fields, fields[index].name->0) == index,
    decreases fields.len(),
{
    let name = fields[index].name->0;
    let head = fields.drop_last();
    lemma_find_slot(head, name);
    if index < fields.len() - 1 {
        assert(head[index] == fields[index]);
        assert forall|i: int, j: int| 0 <= i < j < head.len() implies (#[trigger] head[i]).name != (
        #[trigger] head[j]).name by {
            assert(head[i] == fields[i] && head[j] == fields[j]);
        }
        lemma_find_at(head, index);
    } else {
        if find_name(head, name) >= 0 {
            let i = find_name(head, name);
            assert(head[i] == fields[i]);
            assert(fields[i].name != fields[index].name);
        }
    }
}

/// Where a name is found after a field was put in the place of another of the same name.
pub proof fn lemma_find_update(fields: Seq<Field>, at: int, field: Field, name: Seq<char>)
    requires
        0 <= at < fields.len(),
        field.name == fields[at].name,
    ensures
        find_name(fields.update(at, field), name) == find_name(fields, name),
    decreases fields.len(),
{
    let after = fields.update(at, field);
    if at < fields.len() - 1 {
        assert(after.drop_last() =~= fields.drop_last().update(at, field));
        lemma_find_update(fields.drop_last(), at, field, name);
    } else {
        assert(after.drop_last() =~= fields.drop_last());
    }
}

/// Where a name is found after a field of a new name was put in.
pub proof fn lemma_find_insert(fields: Seq<Field>, at: int, field: Field, name: Seq<char>)
    requires
        0 <= at <= fields.len(),
        field.name is Some,
        forall|i: int| 0 <= i < fields.len() ==> (#[trigger] fields[i]).name != field.name,
        forall|i: int, j: int|
            0 <= i < j < fields.len() ==> (#[trigger] fields[i]).name != (#[trigger] fields[j]).name,
        forall|i: int| 0 <= i < fields.len() ==> (#[trigger] fields[i]).name is Some,
    ensures
        Some(name) == field.name ==> find_name(fields.insert(at, field), name) == at,
        Some(name) != field.name ==> {
            let before = find_name(fields, name);
            let after = find_name(fields.insert(at, field), name);
            &&& before < 0 ==> after < 0
            &&& 0 <= before < at ==> after == before
            &&& before >= at ==> after == before + 1
        },
{
    let all = fields.insert(at, field);
    assert forall|i: int, j: int| 0 <= i < j < all.len() implies (#[trigger] all[i]).name != (
    #[trigger] all[j]).name by {
        if i < at && j < at {
            assert(all[i] == fields[i] && all[j] == fields[j]);
        } else if i < at && j > at {
            assert(all[i] == fields[i] && all[j] == fields[j - 1]);
        } else if i > at {
            assert(all[i] == fields[i - 1] && all[j] == fields[j - 1]);
        } else if i == at {
            assert(all[j] == fields[j - 1]);
        } else {
            assert(all[i] == fields[i]);
        }
    }
    lemma_find_slot(fields, name);
    lemma_find_slot(all, name);
    if Some(name) == field.name {
        assert(all[at] == field);
        lemma_find_at(all, at);
    } else {
        let before = find_name(fields, name);
        let after = find_name(all, name);
        if before >= 0 {
            let moved = if before < at {
                before
            } else {
                before + 1
            };
            assert(all[moved] == fields[before]);
            lemma_find_at(all, moved);
        } else if after >= 0 {
            if after < at {
                assert(all[after] == fields[after]);
            } else if after > at {
                assert(all[after] == fields[after - 1]);
            }
        }
    }
}

/// Putting a text at a path keeps a table tidy.
pub proof fn lemma_insert_tidy(fields: Seq<Field>, path: Seq<Seq<char>>, value: Seq<char>)
    requires
        tidy(fields),
    ensures
        tidy(insert_path(fields, path, value)),
    decreases path.len(),
{
    if path.len() > 0 {
        let name = path[0];
        let at = find_name(fields, name);
        let to = slot(fields, name);
        let after = insert_path(fields, path, value);
        lemma_find_slot(fields, name);
        let added = if path.len() == 1 {
            leaf_field(name, value)
        } else if at >= 0 {
            match fields[at].value {
                Node::Table(inner) => {
                    lemma_insert_tidy(inner, path.skip(1), value);
                    table_field(name, insert_path(inner, path.skip(1), value))
                },
                Node::Leaf(_) => fields[at],
            }
        } else {
            assert(tidy(Seq::<Field>::empty()));
            lemma_insert_tidy(Seq::empty(), path.skip(1), value);
            table_field(name, insert_path(Seq::empty(), path.skip(1), value))
        };
        if at >= 0 {
            assert(after =~= fields.update(at, added));
            assert forall|i: int| 0 <= i < after.len() implies (#[trigger] after[i]).name is Some
                && (match after[i].value {
                Node::Table(inner) => tidy(inner),
                Node::Leaf(_) => true,
            }) by {
                if i != at {
                    assert(after[i] == fields[i]);
                }
            }
            assert forall|i: int, j: int| 0 <= i < j < after.len() implies (#[trigger] after[i]).name
                != (#[trigger] after[j]).name by {
                assert(after[i].name == fields[i].name && after[j].name == fields[j].name);
            }
        } else {
            assert(after =~= fields.insert(to, added));
            assert forall|i: int| 0 <= i < after.len() implies (#[trigger] after[i]).name is Some
                && (match after[i].value {
                Node::Table(inner) => tidy(inner),
                Node::Leaf(_) => true,
            }) by {
                if i < to {
                    assert(after[i] == fields[i]);
                } else if i > to {
                    assert(after[i] == fields[i - 1]);
                }
            }
            assert forall|i: int, j: int| 0 <= i < j < after.len() implies (#[trigger] after[i]).name
                != (#[trigger] after[j]).name by {
                if i < to && j < to {
                    assert(after[i] == fields[i] && after[j] == fields[j]);
                } else if i < to && j > to {
                    assert(after[i] == fields[i] && after[j] == fields[j - 1]);
                } else if i > to {
                    assert(after[i] == fields[i - 1] && after[j] == fields[j - 1]);
                } else if i == to {
                    assert(after[j] == fields[j - 1]);
                } else {
                    assert(after[i] == fields[i]);
                }
            }
        }
    }
}

/// Whether a text can be put at `path` without a loss: no leaf stands on the way, so the way is
/// not blocked, and no table stands at its end, so nothing is put away.
pub open spec fn clean(fields: Seq<Field>, path: Seq<Seq<char>>) -> bool {
    &&& forall|m: int| 1 <= m < path.len() ==> leaf_at(fields, #[trigger] path.take(m)) is None
    &&& !table_at(fields, path)
}

/// What putting a text at a path changes: the leaf at that path and the tables on the way to
/// it, and nothing else.
pub proof fn lemma_insert_effect(
    fields: Seq<Field>,
    path: Seq<Seq<char>>,
    value: Seq<char>,
    other: Seq<Seq<char>>,
)
    requires
        tidy(fields),
        path.len() >= 1,
        other.len() >= 1,
        clean(fields, path),
    ensures
        leaf_at(insert_path(fields, path, value), other) == if other == path {
            Some(value)
        } else {
            leaf_at(fields, other)
        },
        table_at(insert_path(fields, path, value), other) == (table_at(fields, other)
            || proper_prefix(other, path)),
    decreases path.len(),
{
    let name = path[0];
    let at = find_name(fields, name);
    let to = slot(fields, name);
    let after = insert_path(fields, path, value);
    lemma_find_slot(fields, name);
    lemma_find_slot(fields, other[0]);
    assert(path.take(1) =~= seq![name]);
    if other.len() == 1 {
        assert(other =~= seq![other[0]]);
    }
    if path.len() == 1 {
        assert(path =~= seq![name]);
    }
    if at >= 0 {
        let inner_fields: Seq<Field> = match fields[at].value {
            Node::Table(inner) => inner,
            Node::Leaf(_) => Seq::empty(),
        };
        if path.len() > 1 {
            assert(leaf_at(fields, path.take(1)) is None);
            assert(fields[at].value is Table);
            assert forall|m: int| 1 <= m < path.skip(1).len() implies leaf_at(
                inner_fields,
                #[trigger] path.skip(1).take(m),
            ) is None by {
                assert(path.take(m + 1).skip(1) =~= path.skip(1).take(m));
                assert(path.take(m + 1)[0] == name);
                assert(leaf_at(fields, path.take(m + 1)) is None);
            }
            assert(clean(inner_fields, path.skip(1)));
        }
        let added = if path.len() == 1 {
            leaf_field(name, value)
        } else {
            table_field(name, insert_path(inner_fields, path.skip(1), value))
        };
        assert(after =~= fields.update(at, added));
        lemma_find_update(fields, at, added, other[0]);
        if other[0] == name {
            if path.len() > 1 && other.len() > 1 {
                lemma_insert_effect(inner_fields, path.skip(1), value, other.skip(1));
                if other.skip(1) == path.skip(1) {
                    assert(other =~= seq![other[0]] + other.skip(1));
                    assert(path =~= seq![path[0]] + path.skip(1));
                }
                if proper_prefix(other.skip(1), path.skip(1)) {
                    assert(path.take(other.len() as int) =~= seq![name] + path.skip(1).take(
                        other.len() - 1,
                    ));
                    assert(other =~= seq![name] + other.skip(1));
                }
                if proper_prefix(other, path) {
                    assert(path.skip(1).take(other.len() - 1) =~= path.take(
                        other.len() as int,
                    ).skip(1));
                }
            }
        } else {
            let found = find_name(fields, other[0]);
            if found >= 0 {
                assert(found != at);
                assert(after[found] == fields[found]);
            }
            if proper_prefix(other, path) {
                assert(path.take(other.len() as int)[0] == other[0]);
            }
        }
    } else {
        let added = if path.len() == 1 {
            leaf_field(name, value)
        } else {
            table_field(name, insert_path(Seq::empty(), path.skip(1), value))
        };
        assert(after =~= fields.insert(to, added));
        lemma_find_insert(fields, to, added, other[0]);
        if other[0] == name {
            assert(after[to] == added);
            if path.len() > 1 && other.len() > 1 {
                assert(tidy(Seq::<Field>::empty()));
                assert(clean(Seq::<Field>::empty(), path.skip(1)));
                lemma_insert_effect(Seq::empty(), path.skip(1), value, other.skip(1));
                if other.skip(1) == path.skip(1) {
                    assert(other =~= seq![other[0]] + other.skip(1));
                    assert(path =~= seq![path[0]] + path.skip(1));
                }
                if proper_prefix(other.skip(1), path.skip(1)) {
                    assert(path.take(other.len() as int) =~= seq![name] + path.skip(1).take(
                        other.len() - 1,
                    ));
                    assert(other =~= seq![name] + other.skip(1));
                }
                if proper_prefix(other, path) {
                    assert(path.skip(1).take(other.len() - 1) =~= path.take(
                        other.len() as int,
                    ).skip(1));
                }
            }
        } else {
            let found = find_name(fields, other[0]);
            if found >= 0 {
                let moved = if found < to {
                    found
                } else {
                    found + 1
                };
                assert(after[moved] == fields[found]);
            }
            if proper_prefix(other, path) {
                assert(path.take(other.len() as int)[0] == other[0]);
            }
        }
    }
}

/// A leaf of a tree with the names on the way to it.
pub struct PathPair {
    pub path: Seq<Seq<char>>,
    pub value: Seq<char>,
}

/// The paths of `pairs`, each behind the name `name`.
pub open spec fn below(name: Seq<char>, pairs: Seq<PathPair>) -> Seq<PathPair> {
    Seq::new(
        pairs.len(),
        |i: int| PathPair { path: seq![name] + pairs[i].path, value: pairs[i].value },
    )
}

/// The leaves of one field with their paths: what `flatten_field` gives, before the names are
/// joined.
pub open spec fn paths_field(field: Field) -> Seq<PathPair>
    decreases field, 0int,
{
    match field.name {
        None => Seq::empty(),
        Some(name) => match field.value {
            Node::Leaf(value) => seq![PathPair { path: seq![name], value }],
            Node::Table(fields) => below(name, paths_fields(fields, fields.len() as int)),
        },
    }
}

/// The leaves of the first `count` fields with their paths.
pub open spec fn paths_fields(fields: Seq<Field>, count: int) -> Seq<PathPair>
    decreases fields, count,
{
    if count <= 0 || count > fields.len() {
        Seq::empty()
    } else {
        paths_fields(fields, count - 1) + paths_field(fields[count - 1])
    }
}

/// The key of the leaf at the path `path` below `prefix`.
pub open spec fn key_of(prefix: Seq<char>, path: Seq<Seq<char>>) -> Seq<char>
    decreases path.len(),
{
    if path.len() == 0 {
        prefix
    } else {
        key_of(join_key(prefix, path[0]), path.skip(1))
    }
}

/// The leaves `pairs` under their keys below `prefix`.
pub open spec fn keyed(prefix: Seq<char>, pairs: Seq<PathPair>) -> Seq<FlatPair> {
    Seq::new(
        pairs.len(),
        |i: int| FlatPair { key: key_of(prefix, pairs[i].path), value: pairs[i].value },
    )
}

/// Flattening a field joins the names on the paths of its leaves.
pub proof fn lemma_flatten_field_keyed(prefix: Seq<char>, field: Field)
    ensures
        flatten_field(prefix, field) == keyed(prefix, paths_field(field)),
    decreases field, 0int,
{
    match field.name {
        None => {
            assert(flatten_field(prefix, field) =~= keyed(prefix, paths_field(field)));
        },
        Some(name) => match field.value {
            Node::Leaf(value) => {
                let single = seq![name];
                assert(single.skip(1).len() == 0);
                assert(key_of(join_key(prefix, name), single.skip(1)) == join_key(prefix, name));
                assert(key_of(prefix, single) == join_key(prefix, name));
                assert(flatten_field(prefix, field) =~= keyed(prefix, paths_field(field)));
            },
            Node::Table(fields) => {
                lemma_flatten_fields_keyed(join_key(prefix, name), fields, fields.len() as int);
                let inner = paths_fields(fields, fields.len() as int);
                assert forall|i: int| 0 <= i < inner.len() implies key_of(
                    prefix,
                    #[trigger] below(name, inner)[i].path,
                ) == key_of(join_key(prefix, name), inner[i].path) by {
                    assert((seq![name] + inner[i].path).skip(1) =~= inner[i].path);
                }
                assert(keyed(prefix, below(name, inner)) =~= keyed(join_key(prefix, name), inner));
            },
        },
    }
}

/// Flattening fields joins the names on the paths of their leaves.
pub proof fn lemma_flatten_fields_keyed(prefix: Seq<char>, fields: Seq<Field>, count: int)
    ensures
        flatten_fields(prefix, fields, count) == keyed(prefix, paths_fields(fields, count)),
    decreases fields, count,
{
    if count <= 0 || count > fields.len() {
        assert(flatten_fields(prefix, fields, count) =~= keyed(prefix, paths_fields(fields, count)));
    } else {
        lemma_flatten_fields_keyed(prefix, fields, count - 1);
        lemma_flatten_field_keyed(prefix, fields[count - 1]);
        assert(keyed(prefix, paths_fields(fields, count - 1) + paths_field(fields[count - 1]))
            =~= keyed(prefix, paths_fields(fields, count - 1)) + keyed(
            prefix,
            paths_field(fields[count - 1]),
        ));
    }
}

/// Whether `pairs` holds a leaf with the path `path`.
pub open spec fn has_path(pairs: Seq<PathPair>, path: Seq<Seq<char>>) -> bool {
    exists|i: int| 0 <= i < pairs.len() && (#[trigger] pairs[i]).path == path
}

/// Every leaf that the paths of a field of a tidy table list stands in the table, at its path.
pub proof fn lemma_paths_field_sound(fields: Seq<Field>, index: int)
    requires
        tidy(fields),
        0 <= index < fields.len(),
    ensures
        forall|i: int|
            0 <= i < paths_field(fields[index]).len() ==> {
                let pair = #[trigger] paths_field(fields[index])[i];
                pair.path.len() >= 1 && leaf_at(fields, pair.path) == Some(pair.value)
            },
    decreases fields, 0int,
{
    let field = fields[index];
    let name = field.name->0;
    lemma_find_at(fields, index);
    match field.value {
        Node::Leaf(value) => {},
        Node::Table(inner) => {
            lemma_paths_fields_sound(inner, inner.len() as int);
            let list = paths_fields(inner, inner.len() as int);
            assert forall|i: int| 0 <= i < paths_field(field).len() implies {
                let pair = #[trigger] paths_field(field)[i];
                pair.path.len() >= 1 && leaf_at(fields, pair.path) == Some(pair.value)
            } by {
                let pair = paths_field(field)[i];
                assert(pair.path == seq![name] + list[i].path);
                assert(pair.path.skip(1) =~= list[i].path);
                assert(list[i].path.len() >= 1);
            }
        },
    }
}

/// Every leaf that the paths of a tidy table list stands in the table, at its path.
pub proof fn lemma_paths_fields_sound(fields: Seq<Field>, count: int)
    requires
        tidy(fields),
        count <= fields.len(),
    ensures
        forall|i: int|
            0 <= i < paths_fields(fields, count).len() ==> {
                let pair = #[trigger] paths_fields(fields, count)[i];
                pair.path.len() >= 1 && leaf_at(fields, pair.path) == Some(pair.value)
            },
    decreases fields, count,
{
    if count > 0 {
        lemma_paths_fields_sound(fields, count - 1);
        lemma_paths_field_sound(fields, count - 1);
        let head = paths_fields(fields, count - 1);
        let last = paths_field(fields[count - 1]);
        assert forall|i: int| 0 <= i < paths_fields(fields, count).len() implies {
            let pair = #[trigger] paths_fields(fields, count)[i];
            pair.path.len() >= 1 && leaf_at(fields, pair.path) == Some(pair.value)
        } by {
            if i < head.len() {
                assert(paths_fields(fields, count)[i] == head[i]);
            } else {
                assert(paths_fields(fields, count)[i] == last[i - head.len()]);
            }
        }
    }
}

/// The paths of a field are among the paths of the fields up to it and beyond.
pub proof fn lemma_paths_of_field(fields: Seq<Field>, index: int, count: int, path: Seq<Seq<char>>)
    requires
        0 <= index < count <= fields.len(),
        has_path(paths_field(fields[index]), path),
    ensures
        has_path(paths_fields(fields, count), path),
    decreases count,
{
    let head = paths_fields(fields, count - 1);
    let last = paths_field(fields[count - 1]);
    let all = paths_fields(fields, count);
    if index < count - 1 {
        lemma_paths_of_field(fields, index, count - 1, path);
        let i = choose|i: int| 0 <= i < head.len() && (#[trigger] head[i]).path == path;
        assert(all[i] == head[i]);
    } else {
        let i = choose|i: int| 0 <= i < last.len() && (#[trigger] last[i]).path == path;
        assert(all[head.len() + i] == last[i]);
    }
}

/// Every leaf of a tidy table is among its paths.
pub proof fn lemma_paths_complete(fields: Seq<Field>, path: Seq<Seq<char>>)
    requires
        tidy(fields),
        leaf_at(fields, path) is Some,
    ensures
        has_path(paths_fields(fields, fields.len() as int), path),
    decreases path.len(),
{
    let at = find_name(fields, path[0]);
    lemma_find_slot(fields, path[0]);
    let field = fields[at];
    match field.value {
        Node::Leaf(value) => {
            assert(path =~= seq![path[0]]);
            assert(paths_field(field)[0].path == path);
        },
        Node::Table(inner) => {
            lemma_paths_complete(inner, path.skip(1));
            let list = paths_fields(inner, inner.len() as int);
            let i = choose|i: int| 0 <= i < list.len() && (#[trigger] list[i]).path == path.skip(1);
            assert(paths_field(field)[i].path =~= path);
        },
    }
    lemma_paths_of_field(fields, at, fields.len() as int, path);
}

/// Below a prefix that is not empty, the key of a path is the prefix, a dot, and the names of
/// the path joined by dots.
pub proof fn lemma_key_of_prefix(prefix: Seq<char>, path: Seq<Seq<char>>)
    requires
        prefix.len() > 0,
        path.len() >= 1,
    ensures
        key_of(prefix, path) == prefix + seq!['.'] + join(path, '.'),
    decreases path.len(),
{
    let next = join_key(prefix, path[0]);
    if path.len() == 1 {
        assert(path.skip(1).len() == 0);
        assert(key_of(next, path.skip(1)) == next);
    } else {
        lemma_key_of_prefix(next, path.skip(1));
        assert(path =~= seq![path[0]] + path.skip(1));
        lemma_join_concat(seq![path[0]], path.skip(1), '.');
        assert(join(seq![path[0]], '.') == path[0]);
        assert(key_of(prefix, path) =~= prefix + seq!['.'] + join(path, '.'));
    }
}

/// At the top of a tree, the key of a path is its names joined by dots, unless the path begins
/// with an empty name and goes on.
pub proof fn lemma_key_of_top(path: Seq<Seq<char>>)
    requires
        path.len() >= 1,
        path.len() == 1 || path[0].len() > 0,
    ensures
        key_of(Seq::empty(), path) == join(path, '.'),
{
    let next = join_key(Seq::empty(), path[0]);
    assert(next == path[0]);
    if path.len() == 1 {
        assert(path.skip(1).len() == 0);
        assert(key_of(next, path.skip(1)) == next);
    } else {
        lemma_key_of_prefix(next, path.skip(1));
        assert(path =~= seq![path[0]] + path.skip(1));
        lemma_join_concat(seq![path[0]], path.skip(1), '.');
        assert(join(seq![path[0]], '.') == path[0]);
    }
}

/// A key whose first piece is empty and not its only piece begins with a dot.
pub proof fn lemma_leading_dot(key: Seq<char>)
    requires
        split(key, '.').len() >= 2,
        split(key, '.')[0].len() == 0,
    ensures
        key.len() > 0 && key[0] == '.',
{
    let pieces = split(key, '.');
    lemma_join_split(key, '.');
    assert(pieces =~= seq![pieces[0]] + pieces.skip(1));
    lemma_join_concat(seq![pieces[0]], pieces.skip(1), '.');
    assert(join(seq![pieces[0]], '.') == pieces[0]);
    assert(key =~= pieces[0] + seq!['.'] + join(pieces.skip(1), '.'));
}

/// Whether the key `long` is the key `short`, a dot, and more.
pub open spec fn extends(long: Seq<char>, short: Seq<char>) -> bool {
    (short + seq!['.']).is_prefix_of(long)
}

/// A key whose pieces begin with all the pieces of another key extends that key.
pub proof fn lemma_prefix_extends(short: Seq<char>, long: Seq<char>)
    requires
        proper_prefix(split(short, '.'), split(long, '.')),
    ensures
        extends(long, short),
{
    let first = split(short, '.');
    let all = split(long, '.');
    let rest = all.skip(first.len() as int);
    lemma_join_split(short, '.');
    lemma_join_split(long, '.');
    assert(all =~= all.take(first.len() as int) + rest);
    lemma_join_concat(first, rest, '.');
    assert(long =~= short + seq!['.'] + join(rest, '.'));
    assert(long.subrange(0, (short + seq!['.']).len() as int) =~= short + seq!['.']);
}

/// Whether the keys of `pairs` can stand side by side in a tree: none begins with a dot, and
/// none is another of them followed by a dot and more.
pub open spec fn round_trip_safe(pairs: Seq<FlatPair>) -> bool {
    &&& forall|i: int|
        0 <= i < pairs.len() ==> !((#[trigger] pairs[i]).key.len() > 0 && pairs[i].key[0] == '.')
    &&& forall|i: int, j: int|
        0 <= i < pairs.len() && 0 <= j < pairs.len() ==> !extends(
            (#[trigger] pairs[j]).key,
            (#[trigger] pairs[i]).key,
        )
}

/// The text that the first `count` of `pairs` give the path `path`: that of the last of them
/// whose key has the pieces of the path.
pub open spec fn path_value(pairs: Seq<FlatPair>, count: int, path: Seq<Seq<char>>) -> Option<
    Seq<char>,
>
    decreases count,
{
    if count <= 0 {
        None
    } else if split(pairs[count - 1].key, '.') == path {
        Some(pairs[count - 1].value)
    } else {
        path_value(pairs, count - 1, path)
    }
}

/// A path has a text exactly where one of the keys has its pieces.
pub proof fn lemma_path_value(pairs: Seq<FlatPair>, count: int, path: Seq<Seq<char>>)
    requires
        count <= pairs.len(),
    ensures
        path_value(pairs, count, path) is Some <==> exists|j: int|
            0 <= j < count && split((#[trigger] pairs[j]).key, '.') == path,
    decreases count,
{
    if count > 0 {
        lemma_path_value(pairs, count - 1, path);
        if path_value(pairs, count, path) is Some {
            if split(pairs[count - 1].key, '.') == path {
                assert(split(pairs[count - 1].key, '.') == path);
            } else {
                let j = choose|j: int|
                    0 <= j < count - 1 && split((#[trigger] pairs[j]).key, '.') == path;
                assert(split(pairs[j].key, '.') == path);
            }
        }
    }
}

/// The tree built from keys that can stand side by side is tidy, holds at each path the text
/// that the keys give the path, and has a table only on the way to a key.
pub proof fn lemma_unflatten_shape(pairs: Seq<FlatPair>, count: int)
    requires
        round_trip_safe(pairs),
        0 <= count <= pairs.len(),
    ensures
        tidy(unflatten_pairs(pairs, count)),
        forall|path: Seq<Seq<char>>|
            path.len() >= 1 ==> #[trigger] leaf_at(unflatten_pairs(pairs, count), path)
                == path_value(pairs, count, path),
        forall|path: Seq<Seq<char>>| #[trigger]
            table_at(unflatten_pairs(pairs, count), path) ==> exists|j: int|
                0 <= j < count && proper_prefix(path, split((#[trigger] pairs[j]).key, '.')),
    decreases count,
{
    let tree = unflatten_pairs(pairs, count);
    if count == 0 {
        assert(tidy(tree));
        assert forall|path: Seq<Seq<char>>| path.len() >= 1 implies #[trigger] leaf_at(tree, path)
            == path_value(pairs, count, path) by {
            lemma_find_slot(tree, path[0]);
        }
        assert forall|path: Seq<Seq<char>>| #[trigger] table_at(tree, path) implies exists|j: int|
            0 <= j < count && proper_prefix(path, split((#[trigger] pairs[j]).key, '.')) by {
            if path.len() > 0 {
                lemma_find_slot(tree, path[0]);
            }
        }
    } else {
        let before = unflatten_pairs(pairs, count - 1);
        let key = pairs[count - 1].key;
        let value = pairs[count - 1].value;
        let way = split(key, '.');
        lemma_unflatten_shape(pairs, count - 1);
        lemma_split_nonempty(key, '.');
        lemma_insert_tidy(before, way, value);
        assert forall|m: int| 1 <= m < way.len() implies leaf_at(before, #[trigger] way.take(m))
            is None by {
            let part = way.take(m);
            if leaf_at(before, part) is Some {
                assert(path_value(pairs, count - 1, part) is Some);
                lemma_path_value(pairs, count - 1, part);
                let j = choose|j: int|
                    0 <= j < count - 1 && split((#[trigger] pairs[j]).key, '.') == part;
                lemma_prefix_extends(pairs[j].key, key);
                assert(extends(pairs[count - 1].key, pairs[j].key));
            }
        }
        if table_at(before, way) {
            let j = choose|j: int|
                0 <= j < count - 1 && proper_prefix(way, split((#[trigger] pairs[j]).key, '.'));
            lemma_prefix_extends(key, pairs[j].key);
            assert(extends(pairs[j].key, pairs[count - 1].key));
        }
        assert(clean(before, way));
        assert forall|path: Seq<Seq<char>>| path.len() >= 1 implies #[trigger] leaf_at(tree, path)
            == path_value(pairs, count, path) by {
            lemma_insert_effect(before, way, value, path);
        }
        assert forall|path: Seq<Seq<char>>| #[trigger] table_at(tree, path) implies exists|j: int|
            0 <= j < count && proper_prefix(path, split((#[trigger] pairs[j]).key, '.')) by {
            assert(path.len() >= 1);
            lemma_insert_effect(before, way, value, path);
            if table_at(before, path) {
                let j = choose|j: int|
                    0 <= j < count - 1 && proper_prefix(
                        path,
                        split((#[trigger] pairs[j]).key, '.'),
                    );
                assert(proper_prefix(path, split(pairs[j].key, '.')));
            } else {
                assert(proper_prefix(path, split(pairs[count - 1].key, '.')));
            }
        }
    }
}

/// The map of the first `count` entries gives a key the text that the entries give the path
/// of its pieces.
pub proof fn lemma_path_value_map(pairs: Seq<FlatPair>, count: int, key: Seq<char>)
    requires
        0 <= count <= pairs.len(),
    ensures
        pairs_map(pairs.take(count)).dom().contains(key) <==> path_value(
            pairs,
            count,
            split(key, '.'),
        ) is Some,
        pairs_map(pairs.take(count)).dom().contains(key) ==> pairs_map(pairs.take(count))[key]
            == path_value(pairs, count, split(key, '.'))->0,
    decreases count,
{
    if count > 0 {
        lemma_path_value_map(pairs, count - 1, key);
        assert(pairs.take(count).drop_last() =~= pairs.take(count - 1));
        assert(pairs.take(count).last() == pairs[count - 1]);
        lemma_join_split(key, '.');
        lemma_join_split(pairs[count - 1].key, '.');
    }
}

/// Flattening the tree of a flat catalog gives the catalog back.
///
/// Let the keys of `pairs` be such that they can stand side by side in a tree: none begins with
/// a dot, and none is another of them followed by a dot and more. Then the tree that
/// unflattening builds from `pairs`, flattened from its root, stands for the same map of keys
/// to texts as `pairs`, however deep the keys go.
pub proof fn lemma_round_trip(pairs: Seq<FlatPair>)
    requires
        round_trip_safe(pairs),
    ensures
        pairs_map(
            flatten_fields(
                Seq::empty(),
                unflatten_pairs(pairs, pairs.len() as int),
                unflatten_pairs(pairs, pairs.len() as int).len() as int,
            ),
        ) == pairs_map(pairs),
{
    let count = pairs.len() as int;
    let tree = unflatten_pairs(pairs, count);
    let leaves = paths_fields(tree, tree.len() as int);
    let flat = flatten_fields(Seq::empty(), tree, tree.len() as int);
    lemma_unflatten_shape(pairs, count);
    lemma_flatten_fields_keyed(Seq::empty(), tree, tree.len() as int);
    lemma_paths_fields_sound(tree, tree.len() as int);
    lemma_pairs_map_dom(flat);
    lemma_pairs_map_dom(pairs);
    assert(pairs.take(count) =~= pairs);
    // Each leaf of the tree stands under the key that put it there.
    assert forall|i: int| 0 <= i < flat.len() implies has_pair(pairs, (#[trigger] flat[i]).key)
        && path_value(pairs, count, split(flat[i].key, '.')) == Some(flat[i].value) by {
        let leaf = leaves[i];
        assert(leaf_at(tree, leaf.path) == Some(leaf.value));
        assert(path_value(pairs, count, leaf.path) == Some(leaf.value));
        lemma_path_value(pairs, count, leaf.path);
        let j = choose|j: int| 0 <= j < count && split((#[trigger] pairs[j]).key, '.') == leaf.path;
        let key = pairs[j].key;
        lemma_split_nonempty(key, '.');
        lemma_join_split(key, '.');
        if leaf.path.len() >= 2 && leaf.path[0].len() == 0 {
            lemma_leading_dot(key);
        }
        lemma_key_of_top(leaf.path);
        assert(flat[i].key == key);
    }
    let left = pairs_map(flat);
    let right = pairs_map(pairs);
    assert forall|key: Seq<char>| left.dom().contains(key) <==> right.dom().contains(key) by {
        if left.dom().contains(key) {
            assert(has_pair(flat, key));
            let i = choose|i: int| 0 <= i < flat.len() && (#[trigger] flat[i]).key == key;
            assert(has_pair(pairs, flat[i].key));
        }
        if right.dom().contains(key) {
            assert(has_pair(pairs, key));
            let j = choose|j: int| 0 <= j < pairs.len() && (#[trigger] pairs[j]).key == key;
            let way = split(key, '.');
            lemma_split_nonempty(key, '.');
            lemma_path_value(pairs, count, way);
            assert(split(pairs[j].key, '.') == way);
            assert(path_value(pairs, count, way) is Some);
            assert(leaf_at(tree, way) == path_value(pairs, count, way));
            lemma_paths_complete(tree, way);
            let i = choose|i: int| 0 <= i < leaves.len() && (#[trigger] leaves[i]).path == way;
            lemma_join_split(key, '.');
            if way.len() >= 2 && way[0].len() == 0 {
                lemma_leading_dot(key);
            }
            lemma_key_of_top(way);
            assert(flat[i].key == key);
            assert(has_pair(flat, key));
        }
    }
    assert forall|key: Seq<char>| left.dom().contains(key) implies #[trigger] left[key]
        == right[key] by {
        lemma_path_value_map(pairs, count, key);
        let value = path_value(pairs, count, split(key, '.'))->0;
        assert(has_pair(flat, key));
        assert forall|i: int| 0 <= i < flat.len() && (#[trigger] flat[i]).key == key implies flat[i].value
            == value by {
            assert(path_value(pairs, count, split(flat[i].key, '.')) == Some(flat[i].value));
        }
        lemma_pairs_map_same(flat, key, value);
    }
    assert(left =~= right);
}

/// Reading back the tree of a flat catalog gives the catalog back, unless the tree looks like
/// the wrapper of a language: as `lemma_round_trip`, for a tree that is read as a catalog of
/// `language`.
pub proof fn lemma_round_trip_catalog(pairs: Seq<FlatPair>, language: Seq<char>)
    requires
        round_trip_safe(pairs),
        !crate::parser::is_language_wrapper(unflatten_pairs(pairs, pairs.len() as int), language),
    ensures
        pairs_map(
            crate::parser::catalog_pairs(unflatten_pairs(pairs, pairs.len() as int), language),
        ) == pairs_map(pairs),
{
    lemma_round_trip(pairs);
}

} // verus!
