//! The flat form of a catalog: a map from keys to texts, kept in the order of its keys.

use crate::catalog::FlatPair;
use crate::text::same_string;
use vstd::prelude::*;
use vstd::std_specs::iter::IteratorSpec;

verus! {

broadcast use vstd::string::group_string_axioms;

/// Whether `a` stands before `b` in the order of strings: at the first index at which the two
/// differ, `a` ends or has the character with the smaller code.
pub open spec fn lex_lt(a: Seq<char>, b: Seq<char>) -> bool
    decreases a.len(),
{
    if b.len() == 0 {
        false
    } else if a.len() == 0 {
        true
    } else if a[0] != b[0] {
        (a[0] as u32) < (b[0] as u32)
    } else {
        lex_lt(a.skip(1), b.skip(1))
    }
}

/// Whether `a` stands before `b` in the order of strings.
pub fn lex_less(a: &str, b: &str) -> (less: bool)
    ensures
        less == lex_lt(a@, b@),
{
    let mut left = a.chars();
    let mut right = b.chars();
    let ghost mut rest_a = a@;
    let ghost mut rest_b = b@;
    loop
        invariant
            left.remaining() == rest_a,
            right.remaining() == rest_b,
            lex_lt(a@, b@) == lex_lt(rest_a, rest_b),
        decreases rest_a.len(),
    {
        let y = right.next();
        let x = left.next();
        match (x, y) {
            (_, None) => {
                return false;
            },
            (None, Some(_)) => {
                return true;
            },
            (Some(c), Some(d)) => {
                if c != d {
                    return (c as u32) < (d as u32);
                }
                proof {
                    rest_a = rest_a.skip(1);
                    rest_b = rest_b.skip(1);
                }
            },
        }
    }
}

/// No string stands before itself.
pub proof fn lemma_lex_irreflexive(a: Seq<char>)
    ensures
        !lex_lt(a, a),
    decreases a.len(),
{
    if a.len() > 0 {
        lemma_lex_irreflexive(a.skip(1));
    }
}

/// The order of strings is transitive.
pub proof fn lemma_lex_transitive(a: Seq<char>, b: Seq<char>, c: Seq<char>)
    requires
        lex_lt(a, b),
        lex_lt(b, c),
    ensures
        lex_lt(a, c),
    decreases a.len(),
{
    if a.len() > 0 && b.len() > 0 && c.len() > 0 && a[0] == b[0] && b[0] == c[0] {
        lemma_lex_transitive(a.skip(1), b.skip(1), c.skip(1));
    }
}

/// Two characters with one code are one character.
pub proof fn lemma_char_code(c: char, d: char)
    ensures
        c as u32 == d as u32 ==> c == d,
{
    assert(c as u32 as char == c);
    assert(d as u32 as char == d);
}

/// Of two different strings one stands before the other.
pub proof fn lemma_lex_total(a: Seq<char>, b: Seq<char>)
    ensures
        lex_lt(a, b) || lex_lt(b, a) || a == b,
        !(lex_lt(a, b) && lex_lt(b, a)),
    decreases a.len(),
{
    if a.len() > 0 && b.len() > 0 {
        lemma_char_code(a[0], b[0]);
        if a[0] == b[0] {
            lemma_lex_total(a.skip(1), b.skip(1));
            if a.skip(1) == b.skip(1) {
                assert(a =~= seq![a[0]] + a.skip(1));
                assert(b =~= seq![b[0]] + b.skip(1));
            }
        }
    } else if a.len() == 0 && b.len() == 0 {
        assert(a =~= b);
    }
}

/// Whether the keys of `pairs` rise strictly: each stands before all that follow.
pub open spec fn sorted(pairs: Seq<FlatPair>) -> bool {
    forall|i: int, j: int|
        0 <= i < j < pairs.len() ==> lex_lt((#[trigger] pairs[i]).key, (#[trigger] pairs[j]).key)
}

/// Whether some entry of `pairs` has the key `key`.
pub open spec fn has_pair(pairs: Seq<FlatPair>, key: Seq<char>) -> bool {
    exists|i: int| 0 <= i < pairs.len() && (#[trigger] pairs[i]).key == key
}

/// The map that a list of entries stands for: each key with the text of its last entry.
pub open spec fn pairs_map(pairs: Seq<FlatPair>) -> Map<Seq<char>, Seq<char>>
    decreases pairs.len(),
{
    if pairs.len() == 0 {
        Map::empty()
    } else {
        pairs_map(pairs.drop_last()).insert(pairs.last().key, pairs.last().value)
    }
}

/// The keys of the map of a list are the keys of its entries.
pub proof fn lemma_pairs_map_dom(pairs: Seq<FlatPair>)
    ensures
        forall|key: Seq<char>| pairs_map(pairs).dom().contains(key) <==> has_pair(pairs, key),
    decreases pairs.len(),
{
    if pairs.len() > 0 {
        let head = pairs.drop_last();
        lemma_pairs_map_dom(head);
        assert forall|key: Seq<char>| pairs_map(pairs).dom().contains(key) <==> has_pair(
            pairs,
            key,
        ) by {
            if has_pair(pairs, key) {
                let i = choose|i: int| 0 <= i < pairs.len() && (#[trigger] pairs[i]).key == key;
                if i < pairs.len() - 1 {
                    assert(head[i].key == key);
                }
            }
            if has_pair(head, key) {
                let i = choose|i: int| 0 <= i < head.len() && (#[trigger] head[i]).key == key;
                assert(pairs[i].key == key);
            }
            if key == pairs.last().key {
                assert(pairs[pairs.len() - 1].key == key);
            }
        }
    }
}

/// In a list whose keys differ from each other, the map gives each key the text of its entry.
pub proof fn lemma_pairs_map_value(pairs: Seq<FlatPair>, index: int)
    requires
        0 <= index < pairs.len(),
        forall|i: int, j: int|
            0 <= i < j < pairs.len() ==> (#[trigger] pairs[i]).key != (#[trigger] pairs[j]).key,
    ensures
        pairs_map(pairs).dom().contains(pairs[index].key),
        pairs_map(pairs)[pairs[index].key] == pairs[index].value,
    decreases pairs.len(),
{
    let head = pairs.drop_last();
    if index < pairs.len() - 1 {
        assert forall|i: int, j: int| 0 <= i < j < head.len() implies (#[trigger] head[i]).key != (
        #[trigger] head[j]).key by {
            assert(head[i] == pairs[i] && head[j] == pairs[j]);
        }
        lemma_pairs_map_value(head, index);
        assert(head[index] == pairs[index]);
        assert(pairs[index].key != pairs[pairs.len() - 1].key);
    }
}

/// The keys of a sorted list differ from each other.
pub proof fn lemma_sorted_distinct(pairs: Seq<FlatPair>)
    requires
        sorted(pairs),
    ensures
        forall|i: int, j: int|
            0 <= i < j < pairs.len() ==> (#[trigger] pairs[i]).key != (#[trigger] pairs[j]).key,
{
    assert forall|i: int, j: int| 0 <= i < j < pairs.len() implies (#[trigger] pairs[i]).key != (
    #[trigger] pairs[j]).key by {
        lemma_lex_irreflexive(pairs[i].key);
    }
}

/// Where every entry of a key has one text, the map gives the key that text.
pub proof fn lemma_pairs_map_same(pairs: Seq<FlatPair>, key: Seq<char>, value: Seq<char>)
    requires
        has_pair(pairs, key),
        forall|i: int| 0 <= i < pairs.len() && (#[trigger] pairs[i]).key == key ==> pairs[i].value == value,
    ensures
        pairs_map(pairs).dom().contains(key),
        pairs_map(pairs)[key] == value,
    decreases pairs.len(),
{
    let head = pairs.drop_last();
    if pairs.last().key != key {
        let i = choose|i: int| 0 <= i < pairs.len() && (#[trigger] pairs[i]).key == key;
        assert(head[i].key == key);
        assert forall|i: int| 0 <= i < head.len() && (#[trigger] head[i]).key == key implies head[i].value
            == value by {
            assert(head[i] == pairs[i]);
        }
        lemma_pairs_map_same(head, key, value);
    } else {
        assert(pairs[pairs.len() - 1].key == key);
    }
}

/// Whether the keys of `pairs` differ from each other.
pub open spec fn distinct(pairs: Seq<FlatPair>) -> bool {
    forall|i: int, j: int|
        0 <= i < j < pairs.len() ==> (#[trigger] pairs[i]).key != (#[trigger] pairs[j]).key
}

/// A list that holds the entries of another and one entry more, or one entry changed, stands
/// for the map of the other with that entry put in.
pub proof fn lemma_pairs_map_insert(
    before: Seq<FlatPair>,
    after: Seq<FlatPair>,
    key: Seq<char>,
    value: Seq<char>,
)
    requires
        distinct(before),
        distinct(after),
        forall|q: Seq<char>| has_pair(after, q) <==> has_pair(before, q) || q == key,
        forall|i: int| 0 <= i < after.len() && (#[trigger] after[i]).key == key ==> after[i].value == value,
        forall|i: int, j: int|
            0 <= i < after.len() && 0 <= j < before.len() && (#[trigger] after[i]).key == (
            #[trigger] before[j]).key && after[i].key != key ==> after[i].value == before[j].value,
    ensures
        pairs_map(after) == pairs_map(before).insert(key, value),
{
    lemma_pairs_map_dom(before);
    lemma_pairs_map_dom(after);
    let left = pairs_map(after);
    let right = pairs_map(before).insert(key, value);
    assert forall|q: Seq<char>| left.dom().contains(q) <==> right.dom().contains(q) by {
        assert(has_pair(after, q) <==> has_pair(before, q) || q == key);
    }
    assert forall|q: Seq<char>| left.dom().contains(q) implies #[trigger] left[q] == right[q] by {
        assert(has_pair(after, q));
        assert(has_pair(after, q) <==> has_pair(before, q) || q == key);
        let i = choose|i: int| 0 <= i < after.len() && (#[trigger] after[i]).key == q;
        lemma_pairs_map_value(after, i);
        if q != key {
            let j = choose|j: int| 0 <= j < before.len() && (#[trigger] before[j]).key == q;
            lemma_pairs_map_value(before, j);
        }
    }
    assert(left =~= right);
}

/// The map of a list with distinct keys, without the last entry's key, is the map of the list
/// without its last entry.
pub proof fn lemma_pairs_map_drop_last(pairs: Seq<FlatPair>)
    requires
        pairs.len() > 0,
        distinct(pairs),
    ensures
        pairs_map(pairs.drop_last()) == pairs_map(pairs).remove(pairs.last().key),
{
    let head = pairs.drop_last();
    lemma_pairs_map_dom(head);
    assert(!has_pair(head, pairs.last().key)) by {
        if has_pair(head, pairs.last().key) {
            let i = choose|i: int| 0 <= i < head.len() && (#[trigger] head[i]).key == pairs.last().key;
            assert(pairs[i].key == pairs[pairs.len() - 1].key);
        }
    }
    assert(pairs_map(head) =~= pairs_map(pairs).remove(pairs.last().key));
}

/// Two sorted lists that stand for one map are one list: the entries of a map have one order.
pub proof fn lemma_listing_unique(first: Seq<FlatPair>, second: Seq<FlatPair>)
    requires
        sorted(first),
        sorted(second),
        pairs_map(first) == pairs_map(second),
    ensures
        first == second,
    decreases first.len(),
{
    lemma_pairs_map_dom(first);
    lemma_pairs_map_dom(second);
    lemma_sorted_distinct(first);
    lemma_sorted_distinct(second);
    if first.len() == 0 {
        if second.len() > 0 {
            assert(second[0].key == second[0].key);
            assert(has_pair(second, second[0].key));
            assert(pairs_map(first).dom().contains(second[0].key));
        }
        assert(first =~= second);
    } else if second.len() == 0 {
        assert(has_pair(first, first[0].key));
        assert(pairs_map(second).dom().contains(first[0].key));
    } else {
        let a = first.last();
        let b = second.last();
        assert(has_pair(first, a.key));
        assert(has_pair(second, a.key));
        assert(has_pair(second, b.key));
        assert(has_pair(first, b.key));
        let i = choose|i: int| 0 <= i < second.len() && (#[trigger] second[i]).key == a.key;
        let j = choose|j: int| 0 <= j < first.len() && (#[trigger] first[j]).key == b.key;
        lemma_lex_total(a.key, b.key);
        if i < second.len() - 1 {
            assert(lex_lt(second[i].key, second[second.len() - 1].key));
        }
        if j < first.len() - 1 {
            assert(lex_lt(first[j].key, first[first.len() - 1].key));
        }
        assert(a.key == b.key);
        lemma_pairs_map_value(first, first.len() - 1);
        lemma_pairs_map_value(second, second.len() - 1);
        assert(a == b);
        lemma_pairs_map_drop_last(first);
        lemma_pairs_map_drop_last(second);
        assert forall|x: int, y: int| 0 <= x < y < first.drop_last().len() implies lex_lt(
            (#[trigger] first.drop_last()[x]).key,
            (#[trigger] first.drop_last()[y]).key,
        ) by {
            assert(first.drop_last()[x] == first[x] && first.drop_last()[y] == first[y]);
        }
        assert forall|x: int, y: int| 0 <= x < y < second.drop_last().len() implies lex_lt(
            (#[trigger] second.drop_last()[x]).key,
            (#[trigger] second.drop_last()[y]).key,
        ) by {
            assert(second.drop_last()[x] == second[x] && second.drop_last()[y] == second[y]);
        }
        lemma_listing_unique(first.drop_last(), second.drop_last());
        assert(first =~= first.drop_last().push(a));
        assert(second =~= second.drop_last().push(b));
    }
}

/// Whether `pairs` lists the entries of `map` in the order of their keys.
pub open spec fn is_listing(pairs: Seq<FlatPair>, map: Map<Seq<char>, Seq<char>>) -> bool {
    sorted(pairs) && pairs_map(pairs) == map
}

/// The entries of `map` in the order of their keys, where the map is finite.
pub open spec fn listing(map: Map<Seq<char>, Seq<char>>) -> Seq<FlatPair> {
    choose|pairs: Seq<FlatPair>| is_listing(pairs, map)
}

/// A sorted list is the listing of its map.
pub proof fn lemma_listing(pairs: Seq<FlatPair>)
    requires
        sorted(pairs),
    ensures
        listing(pairs_map(pairs)) == pairs,
{
    assert(is_listing(pairs, pairs_map(pairs)));
    lemma_listing_unique(listing(pairs_map(pairs)), pairs);
}

/// An entry of a flat catalog.
#[derive(Debug, Clone)]
pub struct FlatEntry {
    pub key: String,
    pub value: String,
}

impl DeepView for FlatEntry {
    type V = FlatPair;

    open spec fn deep_view(&self) -> FlatPair {
        FlatPair { key: self.key@, value: self.value@ }
    }
}

impl View for FlatEntry {
    type V = FlatPair;

    open spec fn view(&self) -> FlatPair {
        self.deep_view()
    }
}

/// A flat catalog: a map from keys to texts whose entries are held in the order of their keys.
///
/// The order is that of the keys as strings, character by character, so the entries of a
/// catalog do not depend on the order in which they were put in.
#[derive(Debug)]
pub struct FlatCatalog {
    entries: Vec<FlatEntry>,
}

impl FlatCatalog {
    /// The entries stand in the strict order of their keys.
    #[verifier::type_invariant]
    spec fn well_formed(self) -> bool {
        sorted(self.entries.deep_view())
    }

    /// The entries, in the order of their keys.
    pub closed spec fn pairs(self) -> Seq<FlatPair> {
        self.entries.deep_view()
    }

    /// The map that the catalog stands for.
    pub open spec fn map(self) -> Map<Seq<char>, Seq<char>> {
        pairs_map(self.pairs())
    }

    /// A catalog without entries.
    pub fn new() -> (catalog: Self)
        ensures
            catalog.pairs() == Seq::<FlatPair>::empty(),
            catalog.map() == Map::<Seq<char>, Seq<char>>::empty(),
    {
        let catalog = FlatCatalog { entries: Vec::new() };
        assert(catalog.entries.deep_view() =~= Seq::<FlatPair>::empty());
        catalog
    }

    /// The entries, in the order of their keys.
    pub fn entries(&self) -> (list: &Vec<FlatEntry>)
        ensures
            list.deep_view() == self.pairs(),
            sorted(self.pairs()),
            self.pairs() == listing(self.map()),
    {
        proof {
            use_type_invariant(self);
            lemma_listing(self.pairs());
        }
        &self.entries
    }

    /// How many entries the catalog has.
    pub fn len(&self) -> (count: usize)
        ensures
            count == self.pairs().len(),
    {
        self.entries.len()
    }

    /// The index of the entry with the key `key`, if there is one.
    pub fn position(&self, key: &String) -> (found: Option<usize>)
        ensures
            match found {
                Some(index) => index < self.pairs().len() && self.pairs()[index as int].key == key@,
                None => !has_pair(self.pairs(), key@),
            },
    {
        let mut i: usize = 0;
        while i < self.entries.len()
            invariant
                i <= self.entries.len(),
                forall|j: int| 0 <= j < i ==> self.entries.deep_view()[j].key != key@,
            decreases self.entries.len() - i,
        {
            if same_string(&self.entries[i].key, key) {
                return Some(i);
            }
            i += 1;
        }
        None
    }

    /// The text of the key `key`, if the catalog has the key.
    pub fn get(&self, key: &String) -> (found: Option<&String>)
        ensures
            match found {
                Some(value) => self.map().dom().contains(key@) && self.map()[key@] == value@,
                None => !self.map().dom().contains(key@),
            },
    {
        proof {
            use_type_invariant(self);
            lemma_pairs_map_dom(self.pairs());
            lemma_sorted_distinct(self.pairs());
        }
        match self.position(key) {
            Some(index) => {
                proof {
                    lemma_pairs_map_value(self.pairs(), index as int);
                }
                Some(&self.entries[index].value)
            },
            None => None,
        }
    }

    /// Puts the entry of `key` with the text `value` in, in place of the entry that the key may
    /// have had.
    pub fn insert(&mut self, key: String, value: String)
        ensures
            final(self).map() == old(self).map().insert(key@, value@),
            sorted(final(self).pairs()),
    {
        proof {
            use_type_invariant(&*self);
        }
        let mut taken = FlatCatalog::new();
        std::mem::swap(self, &mut taken);
        let mut entries = taken.entries;
        let ghost before = entries.deep_view();
        let mut pos: usize = entries.len();
        while pos > 0 && lex_less(key.as_str(), entries[pos - 1].key.as_str())
            invariant
                pos <= entries.len(),
                entries.deep_view() == before,
                forall|j: int| pos <= j < before.len() ==> lex_lt(key@, (#[trigger] before[j]).key),
            decreases pos,
        {
            pos -= 1;
        }
        let replace = pos > 0 && same_string(&entries[pos - 1].key, &key);
        let ghost added = FlatPair { key: key@, value: value@ };
        if replace {
            entries.set(pos - 1, FlatEntry { key, value });
        } else {
            entries.insert(pos, FlatEntry { key, value });
        }
        proof {
            let after = entries.deep_view();
            if replace {
                assert(after =~= before.update(pos - 1, added));
                assert forall|i: int, j: int| 0 <= i < j < after.len() implies lex_lt(
                    (#[trigger] after[i]).key,
                    (#[trigger] after[j]).key,
                ) by {
                    assert(after[i].key == before[i].key && after[j].key == before[j].key);
                }
            } else {
                assert(after =~= before.insert(pos as int, added));
                if pos > 0 {
                    lemma_lex_total(added.key, before[pos - 1].key);
                }
                assert forall|i: int, j: int| 0 <= i < j < after.len() implies lex_lt(
                    (#[trigger] after[i]).key,
                    (#[trigger] after[j]).key,
                ) by {
                    if j < pos {
                        assert(after[i] == before[i] && after[j] == before[j]);
                    } else if j == pos {
                        assert(after[i] == before[i]);
                        if i < pos - 1 {
                            lemma_lex_transitive(before[i].key, before[pos - 1].key, added.key);
                        }
                    } else if i < pos {
                        assert(after[i] == before[i] && after[j] == before[j - 1]);
                    } else if i == pos {
                        assert(after[j] == before[j - 1]);
                    } else {
                        assert(after[i] == before[i - 1] && after[j] == before[j - 1]);
                    }
                }
            }
            lemma_sorted_distinct(before);
            lemma_sorted_distinct(after);
            assert forall|q: Seq<char>| has_pair(after, q) <==> has_pair(before, q) || q
                == added.key by {
                if has_pair(after, q) && q != added.key {
                    let i = choose|i: int| 0 <= i < after.len() && (#[trigger] after[i]).key == q;
                    if replace {
                        assert(before[i].key == q);
                    } else if i < pos {
                        assert(before[i].key == q);
                    } else {
                        assert(before[i - 1].key == q);
                    }
                }
                if has_pair(before, q) {
                    let j = choose|j: int| 0 <= j < before.len() && (#[trigger] before[j]).key == q;
                    if replace {
                        assert(after[j].key == q);
                    } else if j < pos {
                        assert(after[j].key == q);
                    } else {
                        assert(after[j + 1].key == q);
                    }
                }
                if q == added.key {
                    if replace {
                        assert(after[pos - 1].key == q);
                    } else {
                        assert(after[pos as int].key == q);
                    }
                }
            }
            assert forall|i: int, j: int|
                0 <= i < after.len() && 0 <= j < before.len() && (#[trigger] after[i]).key == (
                #[trigger] before[j]).key && after[i].key != added.key implies after[i].value
                == before[j].value by {
                if replace {
                    assert(after[i] == before[i]);
                    if i != j {
                        assert(before[i].key != before[j].key);
                    }
                } else if i < pos {
                    assert(after[i] == before[i]);
                    if i != j {
                        assert(before[i].key != before[j].key);
                    }
                } else {
                    assert(after[i] == before[i - 1]);
                    if i - 1 != j {
                        assert(before[i - 1].key != before[j].key);
                    }
                }
            }
            assert forall|i: int| 0 <= i < after.len() && (#[trigger] after[i]).key
                == added.key implies after[i].value == added.value by {
                if replace {
                    if i != pos - 1 {
                        assert(after[i].key != after[pos - 1].key);
                    }
                } else {
                    if i != pos {
                        assert(after[i].key != after[pos as int].key);
                    }
                }
            }
            lemma_pairs_map_insert(before, after, added.key, added.value);
        }
        *self = FlatCatalog { entries };
    }
}

} // verus!
