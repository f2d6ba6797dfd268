//! Schema objects, attribute maps and morphisms.

use vstd::prelude::*;

verus! {

/// Whether some entry of `entries` has the key `key`.
pub open spec fn has_key(entries: Seq<(Seq<char>, Seq<char>)>, key: Seq<char>) -> bool {
    exists|i: int| 0 <= i < entries.len() && (#[trigger] entries[i]).0 == key
}

/// The position of an entry of `entries` with the key `key`.
/// It is the only one where the keys are distinct.
pub open spec fn key_position(entries: Seq<(Seq<char>, Seq<char>)>, key: Seq<char>) -> int {
    choose|i: int| 0 <= i < entries.len() && (#[trigger] entries[i]).0 == key
}

/// The value that `entries` gives to `key`, if it has that key.
pub open spec fn lookup(entries: Seq<(Seq<char>, Seq<char>)>, key: Seq<char>) -> Option<Seq<char>> {
    if has_key(entries, key) {
        Some(entries[key_position(entries, key)].1)
    } else {
        None
    }
}

/// No two entries of `entries` have the same key.
pub open spec fn keys_distinct(entries: Seq<(Seq<char>, Seq<char>)>) -> bool {
    forall|i: int, j: int|
        0 <= i < j < entries.len() ==> (#[trigger] entries[i]).0 != (#[trigger] entries[j]).0
}

/// What `insert` makes of `entries`: the entry with the key `key` gets the
/// value `value` and keeps its place, or a new entry goes to the end.
pub open spec fn insert_entry(
    entries: Seq<(Seq<char>, Seq<char>)>,
    key: Seq<char>,
    value: Seq<char>,
) -> Seq<(Seq<char>, Seq<char>)> {
    if has_key(entries, key) {
        entries.update(key_position(entries, key), (key, value))
    } else {
        entries.push((key, value))
    }
}

/// The views of the entries of an attribute map, in order.
pub open spec fn entries_view(entries: Seq<(String, String)>) -> Seq<(Seq<char>, Seq<char>)> {
    Seq::new(entries.len(), |i: int| (entries[i].0@, entries[i].1@))
}

/// A renaming of attributes: source attribute names, each with the target
/// attribute name it becomes. The entries keep the order in which their keys
/// were first inserted, and no key occurs twice.
#[derive(Debug, PartialEq, Eq)]
pub struct AttributeMap {
    pub(crate) entries: Vec<(String, String)>,
}

impl View for AttributeMap {
    type V = Seq<(Seq<char>, Seq<char>)>;

    closed spec fn view(&self) -> Seq<(Seq<char>, Seq<char>)> {
        entries_view(self.entries@)
    }
}

impl AttributeMap {
    #[verifier::type_invariant]
    pub closed spec fn well_formed(&self) -> bool {
        keys_distinct(entries_view(self.entries@))
    }

    /// An attribute map without entries.
    pub fn new() -> (map: Self)
        ensures
            map@ == Seq::<(Seq<char>, Seq<char>)>::empty(),
    {
        let map = AttributeMap { entries: Vec::new() };
        assert(map@ =~= Seq::<(Seq<char>, Seq<char>)>::empty());
        map
    }

    /// The number of entries. Their keys are distinct.
    pub fn len(&self) -> (n: usize)
        ensures
            n == self@.len(),
            keys_distinct(self@),
    {
        proof {
            use_type_invariant(self);
        }
        self.entries.len()
    }

    /// The attribute map with the entries `entries`, whose keys are distinct.
    pub(crate) fn from_entries(entries: Vec<(String, String)>) -> (map: Self)
        requires
            keys_distinct(entries_view(entries@)),
        ensures
            map@ == entries_view(entries@),
    {
        AttributeMap { entries }
    }

    /// A copy of the entries, in order.
    pub fn to_entries(&self) -> (entries: Vec<(String, String)>)
        ensures
            entries_view(entries@) == self@,
            keys_distinct(self@),
    {
        proof {
            use_type_invariant(self);
        }
        clone_entries(&self.entries)
    }

    /// The position of the entry with the key `key`, if there is one.
    pub fn position(&self, key: &String) -> (found: Option<usize>)
        ensures
            found is Some <==> has_key(self@, key@),
            found matches Some(i) ==> i < self@.len() && self@[i as int].0 == key@ && i
                == key_position(self@, key@),
            keys_distinct(self@),
    {
        proof {
            use_type_invariant(self);
        }
        let mut i: usize = 0;
        while i < self.entries.len()
            invariant
                i <= self.entries.len(),
                keys_distinct(self@),
                forall|j: int| 0 <= j < i ==> (#[trigger] self@[j]).0 != key@,
            decreases self.entries.len() - i,
        {
            if self.entries[i].0 == *key {
                assert(self@[i as int].0 == key@);
                return Some(i);
            }
            i += 1;
        }
        None
    }

    /// The target name that the map gives to the source attribute `key`.
    pub fn get(&self, key: &String) -> (value: Option<&String>)
        ensures
            value is Some <==> has_key(self@, key@),
            value matches Some(v) ==> lookup(self@, key@) == Some(v@),
            keys_distinct(self@),
    {
        match self.position(key) {
            Some(i) => Some(&self.entries[i].1),
            None => None,
        }
    }

    /// Gives the source attribute `key` the target name `value`. A key that
    /// the map already has keeps its place and hands back its former value.
    pub fn insert(&mut self, key: String, value: String) -> (former: Option<String>)
        ensures
            final(self)@ == insert_entry(old(self)@, key@, value@),
            former is Some <==> has_key(old(self)@, key@),
            former matches Some(v) ==> lookup(old(self)@, key@) == Some(v@),
    {
        proof {
            use_type_invariant(&*self);
        }
        let found = self.position(&key);
        let mut entries: Vec<(String, String)> = Vec::new();
        std::mem::swap(&mut entries, &mut self.entries);
        let ghost before = entries_view(entries@);
        let former = match found {
            Some(i) => {
                let mut slot = (key, value);
                let ghost kv = (slot.0@, slot.1@);
                std::mem::swap(&mut slot, &mut entries[i]);
                assert(entries_view(entries@) =~= before.update(i as int, kv));
                Some(slot.1)
            },
            None => {
                let ghost kv = (key@, value@);
                entries.push((key, value));
                assert(entries_view(entries@) =~= before.push(kv));
                None
            },
        };
        self.entries = entries;
        former
    }
}

impl Clone for AttributeMap {
    fn clone(&self) -> (copy: Self)
        ensures
            copy@ == self@,
    {
        proof {
            use_type_invariant(self);
        }
        AttributeMap { entries: clone_entries(&self.entries) }
    }
}

/// A copy of `entries`.
pub(crate) fn clone_entries(entries: &Vec<(String, String)>) -> (copy: Vec<(String, String)>)
    ensures
        copy@ == entries@,
{
    let mut copy: Vec<(String, String)> = Vec::new();
    let mut i: usize = 0;
    while i < entries.len()
        invariant
            i <= entries.len(),
            copy@.len() == i,
            forall|j: int| 0 <= j < i ==> copy@[j] == entries@[j],
        decreases entries.len() - i,
    {
        copy.push((entries[i].0.clone(), entries[i].1.clone()));
        i += 1;
    }
    assert(copy@ =~= entries@);
    copy
}

/// The views of a sequence of names.
pub open spec fn names_view(names: Seq<String>) -> Seq<Seq<char>> {
    Seq::new(names.len(), |i: int| names[i]@)
}

/// A copy of `names`.
pub(crate) fn clone_names(names: &Vec<String>) -> (copy: Vec<String>)
    ensures
        copy@ == names@,
{
    let mut copy: Vec<String> = Vec::new();
    let mut i: usize = 0;
    while i < names.len()
        invariant
            i <= names.len(),
            copy@.len() == i,
            forall|j: int| 0 <= j < i ==> copy@[j] == names@[j],
        decreases names.len() - i,
    {
        copy.push(names[i].clone());
        i += 1;
    }
    assert(copy@ =~= names@);
    copy
}

/// One version of a schema: its name and the attributes it declares, in order.
#[derive(Debug, PartialEq, Eq)]
pub struct SchemaObject {
    pub name: String,
    pub attributes: Vec<String>,
}

/// The mathematical value of a `SchemaObject`.
pub struct ObjectView {
    pub name: Seq<char>,
    pub attributes: Seq<Seq<char>>,
}

impl View for SchemaObject {
    type V = ObjectView;

    open spec fn view(&self) -> ObjectView {
        ObjectView { name: self.name@, attributes: names_view(self.attributes@) }
    }
}

impl Clone for SchemaObject {
    fn clone(&self) -> (copy: Self)
        ensures
            copy@ == self@,
    {
        SchemaObject { name: self.name.clone(), attributes: clone_names(&self.attributes) }
    }
}

/// A declared, directed renaming of the attributes of the schema `source`
/// into attributes of the schema `target`.
#[derive(Debug, PartialEq, Eq)]
pub struct SchemaMorphism {
    pub source: String,
    pub target: String,
    pub attribute_map: AttributeMap,
}

/// The mathematical value of a `SchemaMorphism`.
pub struct MorphismView {
    pub source: Seq<char>,
    pub target: Seq<char>,
    pub attribute_map: Seq<(Seq<char>, Seq<char>)>,
}

impl View for SchemaMorphism {
    type V = MorphismView;

    open spec fn view(&self) -> MorphismView {
        MorphismView {
            source: self.source@,
            target: self.target@,
            attribute_map: self.attribute_map@,
        }
    }
}

impl Clone for SchemaMorphism {
    fn clone(&self) -> (copy: Self)
        ensures
            copy@ == self@,
    {
        SchemaMorphism {
            source: self.source.clone(),
            target: self.target.clone(),
            attribute_map: self.attribute_map.clone(),
        }
    }
}

/// The views of a sequence of morphisms.
pub open spec fn morphisms_view(morphisms: Seq<SchemaMorphism>) -> Seq<MorphismView> {
    Seq::new(morphisms.len(), |i: int| morphisms[i]@)
}

} // verus!
