//! The schema category: its objects by name and its morphisms in the order
//! in which they were added.

use vstd::prelude::*;
use crate::error::{ErrorView, TransformError};
use crate::resolver::{
    best_chain, chain_morphisms, chosen_chain, lemma_best_chain_unique, lemma_chain_positions,
    positions_view, reachable, shortest_chain,
};
use crate::schema::{
    morphisms_view, MorphismView, ObjectView, SchemaMorphism, SchemaObject,
};

verus! {

/// The views of a sequence of objects.
pub open spec fn objects_view(objects: Seq<SchemaObject>) -> Seq<ObjectView> {
    Seq::new(objects.len(), |i: int| objects[i]@)
}

/// Whether one of `objects` has the name `name`.
pub open spec fn has_name(objects: Seq<ObjectView>, name: Seq<char>) -> bool {
    exists|i: int| 0 <= i < objects.len() && (#[trigger] objects[i]).name == name
}

/// The position of an object of that name among `objects`.
pub open spec fn name_position(objects: Seq<ObjectView>, name: Seq<char>) -> int {
    choose|i: int| 0 <= i < objects.len() && (#[trigger] objects[i]).name == name
}

/// No two of `objects` have the same name.
pub open spec fn names_distinct(objects: Seq<ObjectView>) -> bool {
    forall|i: int, j: int|
        0 <= i < j < objects.len() ==> (#[trigger] objects[i]).name != (#[trigger] objects[j]).name
}

/// The objects by their names.
pub open spec fn object_map(objects: Seq<ObjectView>) -> Map<Seq<char>, ObjectView> {
    Map::new(|name: Seq<char>| has_name(objects, name), |name: Seq<char>| objects[name_position(objects, name)])
}

/// Both ends of each of `morphisms` are names of `objects`.
pub open spec fn ends_registered(objects: Seq<ObjectView>, morphisms: Seq<MorphismView>) -> bool {
    forall|k: int|
        0 <= k < morphisms.len() ==> has_name(objects, (#[trigger] morphisms[k]).source) && has_name(
            objects,
            morphisms[k].target,
        )
}

/// The morphisms of `morphisms` that leave from the schema `name`, in order.
pub open spec fn outgoing(morphisms: Seq<MorphismView>, name: Seq<char>) -> Seq<MorphismView>
    decreases morphisms.len(),
{
    if morphisms.len() == 0 {
        Seq::empty()
    } else if morphisms.last().source == name {
        outgoing(morphisms.drop_last(), name).push(morphisms.last())
    } else {
        outgoing(morphisms.drop_last(), name)
    }
}

/// The views of morphisms held by reference.
pub open spec fn borrowed_view(morphisms: Seq<&SchemaMorphism>) -> Seq<MorphismView> {
    Seq::new(morphisms.len(), |i: int| morphisms[i]@)
}

/// The mathematical value of a `SchemaCategory`.
pub struct CategoryView {
    /// The schema objects by name.
    pub objects: Map<Seq<char>, ObjectView>,
    /// The morphisms in the order in which they were added.
    pub morphisms: Seq<MorphismView>,
}

impl CategoryView {
    /// Both ends of every morphism are names of objects of the category.
    pub open spec fn closed_under_morphisms(self) -> bool {
        forall|k: int|
            0 <= k < self.morphisms.len() ==> self.objects.contains_key(
                (#[trigger] self.morphisms[k]).source,
            ) && self.objects.contains_key(self.morphisms[k].target)
    }

    /// Every object is kept under its own name.
    pub open spec fn keyed_by_name(self) -> bool {
        forall|name: Seq<char>| #[trigger]
            self.objects.contains_key(name) ==> self.objects[name].name == name
    }

    /// What holds of every category: objects are kept under their names, and
    /// morphisms join objects of the category.
    pub open spec fn well_formed(self) -> bool {
        self.keyed_by_name() && self.closed_under_morphisms()
    }
}

proof fn lemma_view_well_formed(objects: Seq<ObjectView>, morphisms: Seq<MorphismView>)
    requires
        names_distinct(objects),
        ends_registered(objects, morphisms),
    ensures
        (CategoryView { objects: object_map(objects), morphisms }).well_formed(),
{
    let view = CategoryView { objects: object_map(objects), morphisms };
    assert forall|k: int| 0 <= k < morphisms.len() implies view.objects.contains_key(
        (#[trigger] view.morphisms[k]).source,
    ) && view.objects.contains_key(view.morphisms[k].target) by {
        assert(has_name(objects, morphisms[k].source));
        assert(has_name(objects, morphisms[k].target));
    }
}

/// A directed multigraph of schemas: schema objects, found by name, and the
/// morphisms declared between them. Morphisms are never merged: two of them
/// may join the same pair of objects.
#[derive(Debug)]
pub struct SchemaCategory {
    objects: Vec<SchemaObject>,
    morphisms: Vec<SchemaMorphism>,
}

impl View for SchemaCategory {
    type V = CategoryView;

    closed spec fn view(&self) -> CategoryView {
        CategoryView {
            objects: object_map(objects_view(self.objects@)),
            morphisms: morphisms_view(self.morphisms@),
        }
    }
}

impl SchemaCategory {
    #[verifier::type_invariant]
    pub closed spec fn well_formed(&self) -> bool {
        &&& names_distinct(objects_view(self.objects@))
        &&& ends_registered(objects_view(self.objects@), morphisms_view(self.morphisms@))
    }

    /// A category without objects or morphisms.
    pub fn new() -> (category: Self)
        ensures
            category@.objects == Map::<Seq<char>, ObjectView>::empty(),
            category@.morphisms == Seq::<MorphismView>::empty(),
            category@.well_formed(),
    {
        let category = SchemaCategory { objects: Vec::new(), morphisms: Vec::new() };
        proof {
            lemma_view_well_formed(
                objects_view(category.objects@),
                morphisms_view(category.morphisms@),
            );
        }
        assert(category@.objects =~= Map::<Seq<char>, ObjectView>::empty());
        assert(category@.morphisms =~= Seq::<MorphismView>::empty());
        category
    }

    /// The position of the object called `name`, if the category holds one.
    fn object_position(&self, name: &String) -> (found: Option<usize>)
        ensures
            found is Some <==> self@.objects.contains_key(name@),
            found matches Some(i) ==> i < self.objects@.len() && self.objects@[i as int]@.name
                == name@ && self@.objects[name@] == self.objects@[i as int]@,
            names_distinct(objects_view(self.objects@)),
    {
        proof {
            use_type_invariant(self);
        }
        let ghost views = objects_view(self.objects@);
        let mut i: usize = 0;
        while i < self.objects.len()
            invariant
                i <= self.objects.len(),
                views == objects_view(self.objects@),
                names_distinct(views),
                forall|j: int| 0 <= j < i ==> (#[trigger] views[j]).name != name@,
            decreases self.objects.len() - i,
        {
            if self.objects[i].name == *name {
                assert(views[i as int].name == name@);
                return Some(i);
            }
            i += 1;
        }
        None
    }

    /// Whether the category holds an object called `name`.
    pub fn has_object(&self, name: &str) -> (found: bool)
        ensures
            found == self@.objects.contains_key(name@),
    {
        let key = name.to_owned();
        self.object_position(&key).is_some()
    }

    /// The object called `name`, if the category holds one.
    pub fn get_object(&self, name: &str) -> (found: Option<&SchemaObject>)
        ensures
            found is Some <==> self@.objects.contains_key(name@),
            found matches Some(object) ==> object@ == self@.objects[name@] && object@.name == name@,
    {
        let key = name.to_owned();
        match self.object_position(&key) {
            Some(i) => Some(&self.objects[i]),
            None => None,
        }
    }

    /// Puts `obj` into the category under its name. An object that was there
    /// under that name is replaced.
    pub fn add_object(&mut self, obj: SchemaObject)
        ensures
            final(self)@.objects == old(self)@.objects.insert(obj.name@, obj@),
            final(self)@.morphisms == old(self)@.morphisms,
            final(self)@.well_formed(),
    {
        proof {
            use_type_invariant(&*self);
        }
        let found = self.object_position(&obj.name);
        let mut morphisms: Vec<SchemaMorphism> = Vec::new();
        std::mem::swap(&mut morphisms, &mut self.morphisms);
        let mut objects: Vec<SchemaObject> = Vec::new();
        std::mem::swap(&mut objects, &mut self.objects);
        let ghost before = objects_view(objects@);
        let ghost added = obj@;
        match found {
            Some(i) => {
                let mut slot = obj;
                std::mem::swap(&mut slot, &mut objects[i]);
                assert(objects_view(objects@) =~= before.update(i as int, added));
            },
            None => {
                objects.push(obj);
                assert(objects_view(objects@) =~= before.push(added));
            },
        }
        let ghost after = objects_view(objects@);
        proof {
            assert forall|name: Seq<char>| has_name(after, name) <==> (name == added.name
                || has_name(before, name)) by {
                if has_name(after, name) {
                    let j = name_position(after, name);
                    if after[j].name != added.name {
                        assert(before[j].name == name);
                    }
                }
                if has_name(before, name) {
                    let j = name_position(before, name);
                    assert(after[j].name == name);
                }
                if name == added.name {
                    match found {
                        Some(i) => {
                            assert(after[i as int].name == name);
                        },
                        None => {
                            assert(after[before.len() as int].name == name);
                        },
                    }
                }
            }
            assert forall|a: int, b: int| 0 <= a < b < after.len() implies (#[trigger] after[a]).name
                != (#[trigger] after[b]).name by {
                match found {
                    Some(i) => {
                        assert(before[i as int].name == added.name);
                        assert(before[a].name != before[b].name);
                    },
                    None => {
                        if b < before.len() {
                            assert(before[a].name != before[b].name);
                        } else {
                            assert(before[a].name != added.name);
                        }
                    },
                }
            }
            assert forall|name: Seq<char>| has_name(after, name) implies #[trigger] object_map(after)[name]
                == old(self)@.objects.insert(added.name, added)[name] by {
                let j = name_position(after, name);
                if name != added.name {
                    assert(before[j].name == name);
                    assert(before[name_position(before, name)].name == name);
                } else {
                    match found {
                        Some(i) => {
                            assert(after[i as int].name == name);
                        },
                        None => {
                            assert(after[before.len() as int].name == name);
                        },
                    }
                }
            }
            assert(object_map(after) =~= old(self)@.objects.insert(added.name, added));
            assert(ends_registered(after, morphisms_view(morphisms@))) by {
                assert forall|k: int| 0 <= k < morphisms@.len() implies has_name(
                    after,
                    (#[trigger] morphisms_view(morphisms@)[k]).source,
                ) && has_name(after, morphisms_view(morphisms@)[k].target) by {
                    assert(has_name(before, morphisms_view(morphisms@)[k].source));
                    assert(has_name(before, morphisms_view(morphisms@)[k].target));
                }
            }
        }
        self.objects = objects;
        self.morphisms = morphisms;
        proof {
            lemma_view_well_formed(objects_view(self.objects@), morphisms_view(self.morphisms@));
        }
    }

    /// Puts `obj` into the category unless an object of its name is there.
    pub fn add_object_strict(&mut self, obj: SchemaObject) -> (outcome: Result<(), TransformError>)
        ensures
            final(self)@.morphisms == old(self)@.morphisms,
            outcome is Err <==> old(self)@.objects.contains_key(obj.name@),
            outcome matches Err(e) ==> e@ == (ErrorView::DuplicateObject { name: obj.name@ })
                && final(self)@ == old(self)@,
            outcome is Ok ==> final(self)@.objects == old(self)@.objects.insert(obj.name@, obj@),
            final(self)@.well_formed(),
    {
        proof {
            use_type_invariant(&*self);
            lemma_view_well_formed(objects_view(self.objects@), morphisms_view(self.morphisms@));
        }
        if self.object_position(&obj.name).is_some() {
            Err(TransformError::DuplicateObject { name: obj.name })
        } else {
            self.add_object(obj);
            Ok(())
        }
    }

    /// Appends `morph` to the morphisms, provided that the category holds
    /// both its source and its target. The source is looked up first.
    pub fn add_morphism(&mut self, morph: SchemaMorphism) -> (outcome: Result<(), TransformError>)
        ensures
            final(self)@.objects == old(self)@.objects,
            outcome is Err <==> !(old(self)@.objects.contains_key(morph.source@) && old(
                self,
            )@.objects.contains_key(morph.target@)),
            outcome matches Err(e) ==> final(self)@ == old(self)@ && e@ == (ErrorView::UnknownObject {
                name: if old(self)@.objects.contains_key(morph.source@) {
                    morph.target@
                } else {
                    morph.source@
                },
            }),
            outcome is Ok ==> final(self)@.morphisms == old(self)@.morphisms.push(morph@),
            final(self)@.well_formed(),
    {
        proof {
            use_type_invariant(&*self);
            lemma_view_well_formed(objects_view(self.objects@), morphisms_view(self.morphisms@));
        }
        if self.object_position(&morph.source).is_none() {
            return Err(TransformError::UnknownObject { name: morph.source });
        }
        if self.object_position(&morph.target).is_none() {
            return Err(TransformError::UnknownObject { name: morph.target });
        }
        let mut morphisms: Vec<SchemaMorphism> = Vec::new();
        std::mem::swap(&mut morphisms, &mut self.morphisms);
        let ghost before = morphisms_view(morphisms@);
        let ghost added = morph@;
        morphisms.push(morph);
        assert(morphisms_view(morphisms@) =~= before.push(added));
        self.morphisms = morphisms;
        proof {
            use_type_invariant(&*self);
            lemma_view_well_formed(objects_view(self.objects@), morphisms_view(self.morphisms@));
        }
        Ok(())
    }

    /// The morphisms that leave from the schema `name`, in the order in
    /// which they were added.
    pub fn morphisms_from(&self, name: &str) -> (found: Vec<&SchemaMorphism>)
        ensures
            borrowed_view(found@) == outgoing(self@.morphisms, name@),
    {
        let key = name.to_owned();
        let ghost ms = morphisms_view(self.morphisms@);
        let mut found: Vec<&SchemaMorphism> = Vec::new();
        let mut i: usize = 0;
        assert(borrowed_view(found@) =~= outgoing(ms.take(0), name@));
        while i < self.morphisms.len()
            invariant
                i <= self.morphisms.len(),
                key@ == name@,
                ms == morphisms_view(self.morphisms@),
                borrowed_view(found@) == outgoing(ms.take(i as int), name@),
            decreases self.morphisms.len() - i,
        {
            assert(ms.take(i + 1).drop_last() =~= ms.take(i as int));
            assert(ms.take(i + 1).last() == ms[i as int]);
            if self.morphisms[i].source == key {
                let ghost before = borrowed_view(found@);
                found.push(&self.morphisms[i]);
                assert(borrowed_view(found@) =~= before.push(ms[i as int]));
            }
            i += 1;
        }
        assert(ms.take(self.morphisms.len() as int) =~= ms);
        found
    }

    /// The chain of morphisms that migrates `start` to `end`, as the
    /// positions of its morphisms: the shortest chain, and among the shortest
    /// the one whose morphisms were added first. From a schema to itself the
    /// chain is empty. `None` where no chain leads from `start` to `end`.
    pub fn resolve_chain(&self, start: &str, end: &str) -> (found: Option<Vec<usize>>)
        ensures
            found is Some <==> reachable(self@.morphisms, start@, end@),
            found matches Some(chain) ==> positions_view(chain@) == chosen_chain(
                self@.morphisms,
                start@,
                end@,
            ) && best_chain(self@.morphisms, start@, end@, positions_view(chain@)),
            start@ == end@ ==> found is Some && found->0@.len() == 0,
    {
        let from = start.to_owned();
        let to = end.to_owned();
        let found = shortest_chain(&self.morphisms, &from, &to);
        proof {
            if found is Some {
                let ms = self@.morphisms;
                lemma_best_chain_unique(
                    ms,
                    start@,
                    end@,
                    positions_view(found->0@),
                    chosen_chain(ms, start@, end@),
                );
            }
        }
        found
    }

    /// The chain of morphisms that migrates `start` to `end`, as copies of
    /// its morphisms in order, or `NoPathFound` where there is none.
    pub fn find_morphism_chain(&self, start: &str, end: &str) -> (found: Result<
        Vec<SchemaMorphism>,
        TransformError,
    >)
        ensures
            found is Ok <==> reachable(self@.morphisms, start@, end@),
            found matches Ok(chain) ==> morphisms_view(chain@) == chain_morphisms(
                self@.morphisms,
                chosen_chain(self@.morphisms, start@, end@),
            ) && best_chain(
                self@.morphisms,
                start@,
                end@,
                chosen_chain(self@.morphisms, start@, end@),
            ),
            found matches Err(e) ==> e@ == (ErrorView::NoPathFound { start: start@, end: end@ }),
            start@ == end@ ==> found is Ok && found->Ok_0@.len() == 0,
    {
        match self.resolve_chain(start, end) {
            None => Err(TransformError::NoPathFound { start: start.to_owned(), end: end.to_owned() }),
            Some(positions) => {
                let ghost ms = morphisms_view(self.morphisms@);
                let ghost p = positions_view(positions@);
                proof {
                    lemma_chain_positions(ms, start@, p);
                }
                let mut chain: Vec<SchemaMorphism> = Vec::new();
                let mut i: usize = 0;
                while i < positions.len()
                    invariant
                        i <= positions.len(),
                        ms == morphisms_view(self.morphisms@),
                        p == positions_view(positions@),
                        forall|j: int| 0 <= j < p.len() ==> 0 <= #[trigger] p[j] < ms.len(),
                        chain@.len() == i,
                        forall|j: int| 0 <= j < i ==> (#[trigger] chain@[j])@ == ms[p[j]],
                    decreases positions.len() - i,
                {
                    assert(0 <= p[i as int] < ms.len());
                    chain.push(self.morphisms[positions[i]].clone());
                    i += 1;
                }
                assert(morphisms_view(chain@) =~= chain_morphisms(ms, p));
                Ok(chain)
            },
        }
    }

    /// The number of morphisms. Each of them joins objects of the category.
    pub fn morphism_count(&self) -> (n: usize)
        ensures
            n == self@.morphisms.len(),
            self@.well_formed(),
    {
        proof {
            use_type_invariant(self);
            lemma_view_well_formed(objects_view(self.objects@), morphisms_view(self.morphisms@));
        }
        self.morphisms.len()
    }
}

} // verus!
