//! The transform engine: it resolves a chain, composes it, and renames the
//! fields of a record through the composed map.
//!
//! Only the fields that the composed map knows reach the result. The others
//! are left out.

use vstd::prelude::*;
use crate::category::{CategoryView, SchemaCategory};
use crate::composer::{
    compose_chain, composed_entries, composition_conflicts, composition_diagnostics,
    targets_distinct, ComposedMap,
};
use crate::error::{diagnostics_view, Diagnostic, DiagnosticView, ErrorView, TransformError};
use crate::json::{map_entries, map_fields, object_value, value_object};
use crate::resolver::{chain_morphisms, chosen_chain, reachable};
use crate::schema::{has_key, key_position, keys_distinct, lookup, MorphismView};

verus! {

/// What becomes of the fields `fields`, taken one after the other, when the
/// map `entries` renames them: a field whose key the map knows goes under its
/// target into the record, in place of what was there, and any other field
/// is left out.
pub open spec fn poured<V>(entries: Seq<(Seq<char>, Seq<char>)>, fields: Seq<(Seq<char>, V)>) -> Map<
    Seq<char>,
    V,
>
    decreases fields.len(),
{
    if fields.len() == 0 {
        Map::empty()
    } else {
        let rest = poured(entries, fields.drop_last());
        match lookup(entries, fields.last().0) {
            Some(target) => rest.insert(target, fields.last().1),
            None => rest,
        }
    }
}

/// The position of an entry of `entries` with the target `target`.
/// It is the only one where the targets are distinct.
pub open spec fn target_position(entries: Seq<(Seq<char>, Seq<char>)>, target: Seq<char>) -> int {
    choose|i: int| 0 <= i < entries.len() && (#[trigger] entries[i]).1 == target
}

/// The record `record` renamed through the map `entries`, whose targets are
/// distinct: under each target stands the value that the record has under
/// the key of that target, where it has one.
pub open spec fn renamed<V>(entries: Seq<(Seq<char>, Seq<char>)>, record: Map<Seq<char>, V>) -> Map<
    Seq<char>,
    V,
> {
    Map::new(
        |target: Seq<char>|
            exists|i: int|
                0 <= i < entries.len() && (#[trigger] entries[i]).1 == target && record.contains_key(
                    entries[i].0,
                ),
        |target: Seq<char>| record[entries[target_position(entries, target)].0],
    )
}

/// `fields` lists the record `record`: each of its fields once, in some order.
pub open spec fn lists<V>(fields: Seq<(Seq<char>, V)>, record: Map<Seq<char>, V>) -> bool {
    &&& forall|i: int|
        0 <= i < fields.len() ==> record.contains_key((#[trigger] fields[i]).0) && record[fields[i].0]
            == fields[i].1
    &&& forall|i: int, j: int|
        0 <= i < j < fields.len() ==> (#[trigger] fields[i]).0 != (#[trigger] fields[j]).0
    &&& forall|key: Seq<char>| #[trigger]
        record.contains_key(key) ==> exists|i: int|
            0 <= i < fields.len() && (#[trigger] fields[i]).0 == key
}

/// What pouring distinct fields through `entries` gives, target by target.
proof fn lemma_poured_fields<V>(entries: Seq<(Seq<char>, Seq<char>)>, fields: Seq<(Seq<char>, V)>)
    requires
        keys_distinct(entries),
        targets_distinct(entries),
        forall|i: int, j: int|
            0 <= i < j < fields.len() ==> (#[trigger] fields[i]).0 != (#[trigger] fields[j]).0,
    ensures
        forall|target: Seq<char>| #[trigger]
            poured(entries, fields).contains_key(target) <==> exists|j: int|
                0 <= j < fields.len() && lookup(entries, (#[trigger] fields[j]).0) == Some(target),
        forall|j: int|
            0 <= j < fields.len() && lookup(entries, (#[trigger] fields[j]).0) is Some ==> poured(
                entries,
                fields,
            )[lookup(entries, fields[j].0)->0] == fields[j].1,
    decreases fields.len(),
{
    if fields.len() > 0 {
        let front = fields.drop_last();
        let last = fields.last();
        let n = front.len() as int;
        lemma_poured_fields(entries, front);
        let rest = poured(entries, front);
        let out = poured(entries, fields);
        assert forall|target: Seq<char>| #[trigger]
            out.contains_key(target) <==> exists|j: int|
                0 <= j < fields.len() && lookup(entries, (#[trigger] fields[j]).0) == Some(
                    target,
                ) by {
            if out.contains_key(target) {
                if rest.contains_key(target) {
                    let j = choose|j: int|
                        0 <= j < front.len() && lookup(entries, (#[trigger] front[j]).0) == Some(
                            target,
                        );
                    assert(fields[j] == front[j]);
                } else {
                    assert(lookup(entries, fields[n].0) == Some(target));
                }
            }
            if exists|j: int|
                0 <= j < fields.len() && lookup(entries, (#[trigger] fields[j]).0) == Some(target) {
                let j = choose|j: int|
                    0 <= j < fields.len() && lookup(entries, (#[trigger] fields[j]).0) == Some(
                        target,
                    );
                if j < n {
                    assert(front[j] == fields[j]);
                    assert(rest.contains_key(target));
                }
            }
        }
        assert forall|j: int|
            0 <= j < fields.len() && lookup(
                entries,
                (#[trigger] fields[j]).0,
            ) is Some implies out[lookup(entries, fields[j].0)->0] == fields[j].1 by {
            if j < n {
                assert(front[j] == fields[j]);
                if lookup(entries, last.0) is Some {
                    let a = key_position(entries, fields[j].0);
                    let b = key_position(entries, last.0);
                    assert(entries[a].0 != entries[b].0) by {
                        assert(fields[j].0 != fields[n].0);
                    }
                    assert(entries[a].1 != entries[b].1);
                }
            }
        }
    }
}

/// Pouring the fields of a record, in any order, through a map with
/// distinct keys and distinct targets gives the record renamed.
pub proof fn lemma_poured_is_renamed<V>(
    entries: Seq<(Seq<char>, Seq<char>)>,
    fields: Seq<(Seq<char>, V)>,
    record: Map<Seq<char>, V>,
)
    requires
        keys_distinct(entries),
        targets_distinct(entries),
        lists(fields, record),
    ensures
        poured(entries, fields) == renamed(entries, record),
{
    lemma_poured_fields(entries, fields);
    let out = poured(entries, fields);
    let want = renamed(entries, record);
    assert forall|target: Seq<char>| out.contains_key(target) <==> want.contains_key(target) by {
        if out.contains_key(target) {
            let j = choose|j: int|
                0 <= j < fields.len() && lookup(entries, (#[trigger] fields[j]).0) == Some(target);
            let a = key_position(entries, fields[j].0);
            assert(entries[a].1 == target && record.contains_key(entries[a].0));
        }
        if want.contains_key(target) {
            let a = choose|i: int|
                0 <= i < entries.len() && (#[trigger] entries[i]).1 == target && record.contains_key(
                    entries[i].0,
                );
            let j = choose|j: int| 0 <= j < fields.len() && (#[trigger] fields[j]).0 == entries[a].0;
            assert(has_key(entries, fields[j].0));
            let b = key_position(entries, fields[j].0);
            assert(a == b);
            assert(lookup(entries, fields[j].0) == Some(target));
        }
    }
    assert forall|target: Seq<char>| out.contains_key(target) implies out[target] == want[target] by {
        let j = choose|j: int|
            0 <= j < fields.len() && lookup(entries, (#[trigger] fields[j]).0) == Some(target);
        let a = key_position(entries, fields[j].0);
        let c = target_position(entries, target);
        assert(entries[a].1 == target);
        assert(a == c);
    }
    assert(out =~= want);
}

/// The fields handed out by a JSON object map, as keys and values.
pub open spec fn fields_view(fields: Seq<(&String, &serde_json::Value)>) -> Seq<
    (Seq<char>, serde_json::Value),
> {
    Seq::new(fields.len(), |i: int| (fields[i].0@, *fields[i].1))
}

/// The record that a JSON value holds: its fields where it is an object,
/// none where it is anything else.
pub open spec fn record_of(value: serde_json::Value) -> Map<Seq<char>, serde_json::Value> {
    match value_object(value) {
        Some(map) => map_fields(map),
        None => Map::empty(),
    }
}

/// Renames `fields`, one after the other, through `composed` into a new
/// JSON object map. The values are copied.
pub fn rename_fields(composed: &ComposedMap, fields: &Vec<(&String, &serde_json::Value)>) -> (out:
    serde_json::Map<String, serde_json::Value>)
    ensures
        map_fields(out) == poured(composed@.entries, fields_view(fields@)),
{
    let ghost entries = composed@.entries;
    let ghost fv = fields_view(fields@);
    let mut out = serde_json::Map::new();
    let mut i: usize = 0;
    assert(map_fields(out) =~= poured(entries, fv.take(0)));
    while i < fields.len()
        invariant
            i <= fields.len(),
            entries == composed@.entries,
            fv == fields_view(fields@),
            map_fields(out) == poured(entries, fv.take(i as int)),
        decreases fields.len() - i,
    {
        assert(fv.take(i + 1).drop_last() =~= fv.take(i as int));
        assert(fv.take(i + 1).last() == fv[i as int]);
        let (key, value) = fields[i];
        match composed.target_of(key) {
            Some(target) => {
                out.insert(target.clone(), value.clone());
            },
            None => {},
        }
        i += 1;
    }
    assert(fv.take(fields.len() as int) =~= fv);
    out
}

/// The mathematical value of a `TransformEngine`.
pub struct EngineView {
    /// The category that the engine migrates in.
    pub category: CategoryView,
    /// Whether a conflict of composition is an error.
    pub strict: bool,
}

/// The morphisms of the chain by which `category` migrates `source` to `target`.
pub open spec fn chain_for(category: CategoryView, source: Seq<char>, target: Seq<char>) -> Seq<
    MorphismView,
> {
    chain_morphisms(category.morphisms, chosen_chain(category.morphisms, source, target))
}

/// The composed map by which `category` migrates `source` to `target`.
pub open spec fn effective_map(category: CategoryView, source: Seq<char>, target: Seq<char>) -> Seq<
    (Seq<char>, Seq<char>),
> {
    composed_entries(chain_for(category, source, target), category.objects[source].attributes)
}

/// Why the engine refuses to migrate `source` to `target`, if it does: an
/// unknown schema, the source before the target, then the lack of a chain,
/// then, in strict mode, the first conflict of the composition.
pub open spec fn refusal(engine: EngineView, source: Seq<char>, target: Seq<char>) -> Option<
    ErrorView,
> {
    let category = engine.category;
    let found = composition_conflicts(
        chain_for(category, source, target),
        category.objects[source].attributes,
    );
    if !category.objects.contains_key(source) {
        Some(ErrorView::UnknownObject { name: source })
    } else if !category.objects.contains_key(target) {
        Some(ErrorView::UnknownObject { name: target })
    } else if !reachable(category.morphisms, source, target) {
        Some(ErrorView::NoPathFound { start: source, end: target })
    } else if engine.strict && found.len() > 0 {
        Some(ErrorView::CompositionConflict { target_attribute: found[0].0, candidates: found[0].1 })
    } else {
        None
    }
}

/// The record `record` of the schema `source` migrated to the schema `target`.
pub open spec fn migrated<V>(
    category: CategoryView,
    record: Map<Seq<char>, V>,
    source: Seq<char>,
    target: Seq<char>,
) -> Map<Seq<char>, V> {
    renamed(effective_map(category, source, target), record)
}

/// The diagnostics of the migration of `source` to `target`.
pub open spec fn findings(category: CategoryView, source: Seq<char>, target: Seq<char>) -> Seq<
    DiagnosticView,
> {
    composition_diagnostics(chain_for(category, source, target), category.objects[source].attributes)
}

/// The outcome of the migration of `record` from `source` to `target`:
/// the migrated record with the diagnostics, or the reason of the refusal.
pub open spec fn transform_outcome<V>(
    engine: EngineView,
    record: Map<Seq<char>, V>,
    source: Seq<char>,
    target: Seq<char>,
) -> Result<(Map<Seq<char>, V>, Seq<DiagnosticView>), ErrorView> {
    match refusal(engine, source, target) {
        Some(e) => Err(e),
        None => Ok(
            (
                migrated(engine.category, record, source, target),
                findings(engine.category, source, target),
            ),
        ),
    }
}

/// What a result of `TransformEngine::transform_data` stands for: the
/// record of the JSON value with the diagnostics, or the error.
pub open spec fn outcome_view(
    outcome: Result<(serde_json::Value, Vec<Diagnostic>), TransformError>,
) -> Result<(Map<Seq<char>, serde_json::Value>, Seq<DiagnosticView>), ErrorView> {
    match outcome {
        Ok(done) => Ok((record_of(done.0), diagnostics_view(done.1@))),
        Err(e) => Err(e@),
    }
}

/// Migrates records between the schemas of one category.
#[derive(Debug)]
pub struct TransformEngine {
    schema_cat: SchemaCategory,
    strict: bool,
}

impl View for TransformEngine {
    type V = EngineView;

    closed spec fn view(&self) -> EngineView {
        EngineView { category: self.schema_cat@, strict: self.strict }
    }
}

impl TransformEngine {
    /// An engine on `cat` that reports conflicts of composition as diagnostics.
    pub fn new(cat: SchemaCategory) -> (engine: Self)
        ensures
            engine@.category == cat@,
            !engine@.strict,
    {
        TransformEngine { schema_cat: cat, strict: false }
    }

    /// An engine on `cat` for which a conflict of composition is an error.
    pub fn new_strict(cat: SchemaCategory) -> (engine: Self)
        ensures
            engine@.category == cat@,
            engine@.strict,
    {
        TransformEngine { schema_cat: cat, strict: true }
    }

    /// The category of the engine.
    pub fn category(&self) -> (category: &SchemaCategory)
        ensures
            category@ == self@.category,
    {
        &self.schema_cat
    }

    /// Whether a conflict of composition is an error.
    pub fn is_strict(&self) -> (strict: bool)
        ensures
            strict == self@.strict,
    {
        self.strict
    }

    /// Migrates `source_data`, a record of the schema `source`, to the
    /// schema `target`.
    ///
    /// The result is a JSON object with the fields of `source_data` that the
    /// composed map of the chain from `source` to `target` knows, each under
    /// its target name, and the diagnostics of the composition. A value that
    /// is no object has no fields, so its result is the empty object.
    pub fn transform_data(&self, source_data: &serde_json::Value, source: &str, target: &str) -> (outcome:
        Result<(serde_json::Value, Vec<Diagnostic>), TransformError>)
        ensures
            outcome_view(outcome) == transform_outcome(
                self@,
                record_of(*source_data),
                source@,
                target@,
            ),
            outcome matches Ok(done) ==> value_object(done.0) is Some,
    {
        let source_object = match self.schema_cat.get_object(source) {
            Some(object) => object,
            None => {
                return Err(TransformError::UnknownObject { name: source.to_owned() });
            },
        };
        if !self.schema_cat.has_object(target) {
            return Err(TransformError::UnknownObject { name: target.to_owned() });
        }
        let chain = match self.schema_cat.find_morphism_chain(source, target) {
            Ok(chain) => chain,
            Err(e) => {
                return Err(e);
            },
        };
        let (composed, diagnostics) = match compose_chain(&chain, source_object, self.strict) {
            Ok(done) => done,
            Err(e) => {
                return Err(e);
            },
        };
        let fields = match source_data.as_object() {
            Some(map) => map_entries(map),
            None => Vec::new(),
        };
        let out = rename_fields(&composed, &fields);
        proof {
            let record = record_of(*source_data);
            let fv = fields_view(fields@);
            assert(lists(fv, record)) by {
                assert forall|key: Seq<char>| #[trigger] record.contains_key(key) implies exists|
                    i: int,
                |
                    0 <= i < fv.len() && (#[trigger] fv[i]).0 == key by {
                    let i = choose|i: int|
                        0 <= i < fields@.len() && (#[trigger] fields@[i]).0@ == key;
                    assert(fv[i].0 == key);
                }
            }
            lemma_poured_is_renamed(composed@.entries, fv, record);
        }
        Ok((object_value(out), diagnostics))
    }
}

} // verus!
