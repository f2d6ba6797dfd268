//! Laws of the library: what holds of every category, chain and record.

use vstd::prelude::*;
use crate::composer::{
    composed_entries, composition_conflicts, composition_diagnostics, conflict_at, conflict_reports,
    conflicts, dropped, drops, first_for_target, identity_entries, kept, keys_within,
    lemma_identity_settled, lemma_kept_distinct, lemma_rewrite_keys, rewrite, rewritten, sources_of,
    targets_distinct, unsettled,
};
use crate::engine::{
    chain_for, effective_map, findings, lemma_poured_is_renamed, lists, migrated, poured, refusal,
    renamed, target_position, transform_outcome, EngineView,
};
use crate::error::{DiagnosticView, ErrorView};
use crate::resolver::{lemma_chain_to_itself, reachable};
use crate::schema::{has_key, key_position, keys_distinct, lookup, MorphismView};

verus! {

/// Where no chain of morphisms leads from the schema `a` to the schema `b`,
/// both of the category, the migration from `a` to `b` is refused with
/// `NoPathFound`, whatever the record and the mode.
pub proof fn lemma_no_path_is_refused(engine: EngineView, a: Seq<char>, b: Seq<char>)
    requires
        engine.category.objects.contains_key(a),
        engine.category.objects.contains_key(b),
        !reachable(engine.category.morphisms, a, b),
    ensures
        refusal(engine, a, b) == Some(ErrorView::NoPathFound { start: a, end: b }),
{
}

/// A migration has one outcome: what `TransformEngine::transform_data`
/// returns for a category, a mode, a record and two schemas is the same at
/// every call, record, diagnostics and error alike.
pub proof fn lemma_transform_deterministic<V>(
    engine: EngineView,
    record: Map<Seq<char>, V>,
    source: Seq<char>,
    target: Seq<char>,
    first: Result<(Map<Seq<char>, V>, Seq<DiagnosticView>), ErrorView>,
    second: Result<(Map<Seq<char>, V>, Seq<DiagnosticView>), ErrorView>,
)
    requires
        first == transform_outcome(engine, record, source, target),
        second == transform_outcome(engine, record, source, target),
    ensures
        first == second,
{
}

/// The order in which a record hands out its fields does not show in the
/// renamed record.
pub proof fn lemma_field_order_is_immaterial<V>(
    entries: Seq<(Seq<char>, Seq<char>)>,
    record: Map<Seq<char>, V>,
    first: Seq<(Seq<char>, V)>,
    second: Seq<(Seq<char>, V)>,
)
    requires
        keys_distinct(entries),
        targets_distinct(entries),
        lists(first, record),
        lists(second, record),
    ensures
        poured(entries, first) == poured(entries, second),
{
    lemma_poured_is_renamed(entries, first, record);
    lemma_poured_is_renamed(entries, second, record);
}

/// Where no entry with the target `target` is among `entries`, the target has no sources.
pub proof fn lemma_no_sources(entries: Seq<(Seq<char>, Seq<char>)>, target: Seq<char>)
    requires
        forall|i: int| 0 <= i < entries.len() ==> (#[trigger] entries[i]).1 != target,
    ensures
        sources_of(entries, target).len() == 0,
    decreases entries.len(),
{
    if entries.len() > 0 {
        let front = entries.drop_last();
        assert forall|i: int| 0 <= i < front.len() implies (#[trigger] front[i]).1 != target by {
            assert(front[i] == entries[i]);
        }
        lemma_no_sources(front, target);
        assert(entries[entries.len() - 1].1 != target);
    }
}

/// With distinct targets no target has two sources.
pub proof fn lemma_single_source(entries: Seq<(Seq<char>, Seq<char>)>, target: Seq<char>)
    requires
        targets_distinct(entries),
    ensures
        sources_of(entries, target).len() <= 1,
    decreases entries.len(),
{
    if entries.len() > 0 {
        let front = entries.drop_last();
        assert forall|i: int, j: int| 0 <= i < j < front.len() implies (#[trigger] front[i]).1 != (
        #[trigger] front[j]).1 by {
            assert(front[i] == entries[i]);
            assert(front[j] == entries[j]);
        }
        if entries.last().1 == target {
            assert forall|i: int| 0 <= i < front.len() implies (#[trigger] front[i]).1 != target by {
                assert(front[i] == entries[i]);
                assert(entries[i].1 != entries[entries.len() - 1].1);
            }
            lemma_no_sources(front, target);
        } else {
            lemma_single_source(front, target);
        }
    }
}

/// A map with distinct targets is kept whole and has no conflicts.
pub proof fn lemma_settled_is_kept(entries: Seq<(Seq<char>, Seq<char>)>, n: int)
    requires
        targets_distinct(entries),
        0 <= n <= entries.len(),
    ensures
        kept(entries, n) == entries.take(n),
        conflicts(entries, n).len() == 0,
    decreases n,
{
    if n > 0 {
        lemma_settled_is_kept(entries, n - 1);
        lemma_single_source(entries, entries[n - 1].1);
        assert(first_for_target(entries, n - 1)) by {
            assert forall|j: int| 0 <= j < n - 1 implies (#[trigger] entries[j]).1 != entries[n
                - 1].1 by {}
        }
        assert(entries.take(n) =~= entries.take(n - 1).push(entries[n - 1]));
    } else {
        assert(entries.take(n) =~= Seq::empty());
    }
}

/// The migration of a record from a schema to itself is its projection
/// onto the attributes that the schema declares, without diagnostics and in
/// either mode.
pub proof fn lemma_identity_projects<V>(engine: EngineView, record: Map<Seq<char>, V>, a: Seq<char>)
    requires
        engine.category.objects.contains_key(a),
    ensures
        refusal(engine, a, a) is None,
        migrated(engine.category, record, a, a) == record.restrict(
            engine.category.objects[a].attributes.to_set(),
        ),
        findings(engine.category, a, a) == Seq::<DiagnosticView>::empty(),
{
    let category = engine.category;
    let attributes = category.objects[a].attributes;
    lemma_chain_to_itself(category.morphisms, a);
    let chain = chain_for(category, a, a);
    assert(chain =~= Seq::<MorphismView>::empty());
    let entries = identity_entries(attributes);
    assert(unsettled(chain, attributes) == entries);
    lemma_identity_settled(attributes);
    assert(targets_distinct(entries)) by {
        assert forall|i: int, j: int| 0 <= i < j < entries.len() implies (#[trigger] entries[i]).1
            != (#[trigger] entries[j]).1 by {
            assert(entries[i].0 != entries[j].0);
        }
    }
    lemma_settled_is_kept(entries, entries.len() as int);
    assert(entries.take(entries.len() as int) =~= entries);
    assert(findings(category, a, a) =~= Seq::<DiagnosticView>::empty());
    let out = renamed(entries, record);
    let want = record.restrict(attributes.to_set());
    assert forall|key: Seq<char>| out.contains_key(key) <==> want.contains_key(key) by {
        if out.contains_key(key) {
            let i = choose|i: int|
                0 <= i < entries.len() && (#[trigger] entries[i]).1 == key && record.contains_key(
                    entries[i].0,
                );
            assert(has_key(entries, entries[i].0));
        }
        if want.contains_key(key) {
            assert(attributes.contains(key));
            assert(has_key(entries, key));
            let i = key_position(entries, key);
            assert(entries[i].1 == key);
        }
    }
    assert forall|key: Seq<char>| out.contains_key(key) implies out[key] == want[key] by {
        let i = target_position(entries, key);
        assert(entries[i].0 == entries[i].1);
    }
    assert(out =~= want);
}

/// Every morphism of `chain` has an attribute map with distinct keys, as
/// every `AttributeMap` has.
pub open spec fn maps_valid(chain: Seq<MorphismView>) -> bool {
    forall|i: int| 0 <= i < chain.len() ==> keys_distinct((#[trigger] chain[i]).attribute_map)
}

/// `report` says that the chain lost the source attribute `key`.
pub open spec fn reports_drop_of(report: DiagnosticView, key: Seq<char>) -> bool {
    report matches DiagnosticView::DroppedAttribute { source_attribute, .. } && source_attribute
        == key
}

/// How many of `reports` say that the chain lost the source attribute `key`.
pub open spec fn drop_count(reports: Seq<DiagnosticView>, key: Seq<char>) -> nat
    decreases reports.len(),
{
    if reports.len() == 0 {
        0
    } else {
        drop_count(reports.drop_last(), key) + if reports_drop_of(reports.last(), key) {
            1nat
        } else {
            0nat
        }
    }
}

/// The reports of two sequences count together.
pub proof fn lemma_drop_count_concat(a: Seq<DiagnosticView>, b: Seq<DiagnosticView>, key: Seq<char>)
    ensures
        drop_count(a + b, key) == drop_count(a, key) + drop_count(b, key),
    decreases b.len(),
{
    if b.len() == 0 {
        assert(a + b =~= a);
    } else {
        assert((a + b).drop_last() =~= a + b.drop_last());
        assert((a + b).last() == b.last());
        lemma_drop_count_concat(a, b.drop_last(), key);
    }
}

/// No report of a conflict reports a dropped attribute.
pub proof fn lemma_conflicts_drop_nothing(found: Seq<(Seq<char>, Seq<Seq<char>>)>, key: Seq<char>)
    ensures
        drop_count(conflict_reports(found), key) == 0,
    decreases found.len(),
{
    if found.len() > 0 {
        assert(conflict_reports(found).drop_last() =~= conflict_reports(found.drop_last()));
        lemma_conflicts_drop_nothing(found.drop_last(), key);
    }
}

/// One morphism reports the loss of `key` once if it drops the entry of
/// `key` from the running map, and not at all if it does not.
pub proof fn lemma_dropped_step(
    running: Seq<(Seq<char>, Seq<char>)>,
    next: Seq<(Seq<char>, Seq<char>)>,
    step: int,
    key: Seq<char>,
)
    requires
        keys_distinct(running),
    ensures
        drop_count(dropped(running, next, step), key) == (if has_key(running, key) && !has_key(
            rewrite(running, next),
            key,
        ) {
            1nat
        } else {
            0nat
        }),
    decreases running.len(),
{
    if running.len() > 0 {
        let front = running.drop_last();
        let last = running.last();
        let n = front.len() as int;
        assert(running[n] == last);
        assert forall|i: int, j: int| 0 <= i < j < front.len() implies (#[trigger] front[i]).0 != (
        #[trigger] front[j]).0 by {
            assert(front[i] == running[i]);
            assert(front[j] == running[j]);
        }
        lemma_dropped_step(front, next, step, key);
        lemma_rewrite_keys(front, next);
        let rest = rewrite(front, next);
        let out = rewrite(running, next);
        assert(has_key(running, key) <==> (has_key(front, key) || last.0 == key)) by {
            if has_key(running, key) {
                let i = key_position(running, key);
                if i < n {
                    assert(front[i].0 == key);
                }
            }
            if has_key(front, key) {
                let i = key_position(front, key);
                assert(running[i].0 == key);
            }
        }
        if last.0 == key {
            assert(!has_key(front, key)) by {
                if has_key(front, key) {
                    let i = key_position(front, key);
                    assert(running[i].0 == running[n].0);
                }
            }
        }
        match lookup(next, last.1) {
            Some(target) => {
                assert(out == rest.push((last.0, target)));
                assert(has_key(out, key) <==> (has_key(rest, key) || last.0 == key)) by {
                    if has_key(out, key) {
                        let i = key_position(out, key);
                        if i < rest.len() {
                            assert(rest[i].0 == key);
                        }
                    }
                    if has_key(rest, key) {
                        let i = key_position(rest, key);
                        assert(out[i].0 == key);
                    }
                    if last.0 == key {
                        assert(out[rest.len() as int].0 == key);
                    }
                }
            },
            None => {
                let reports = dropped(running, next, step);
                assert(reports.drop_last() =~= dropped(front, next, step));
            },
        }
    }
}

/// Along a chain the loss of a source attribute is reported once if the
/// chain loses it, and not at all if the chain carries it to the end or never
/// had it. The chain adds no keys and keeps them distinct.
pub proof fn lemma_drops_counted(chain: Seq<MorphismView>, key: Seq<char>)
    requires
        chain.len() > 0,
        maps_valid(chain),
    ensures
        keys_distinct(rewritten(chain)),
        keys_within(rewritten(chain), chain[0].attribute_map),
        drop_count(drops(chain), key) == (if has_key(chain[0].attribute_map, key) && !has_key(
            rewritten(chain),
            key,
        ) {
            1nat
        } else {
            0nat
        }),
    decreases chain.len(),
{
    if chain.len() > 1 {
        let front = chain.drop_last();
        let last = chain.last();
        assert(front[0] == chain[0]);
        assert forall|i: int| 0 <= i < front.len() implies keys_distinct(
            (#[trigger] front[i]).attribute_map,
        ) by {
            assert(front[i] == chain[i]);
        }
        lemma_drops_counted(front, key);
        let running = rewritten(front);
        lemma_rewrite_keys(running, last.attribute_map);
        lemma_dropped_step(running, last.attribute_map, chain.len() - 1, key);
        lemma_drop_count_concat(
            drops(front),
            dropped(running, last.attribute_map, chain.len() - 1),
            key,
        );
    }
}

/// The running map before conflicts are settled has distinct keys.
pub proof fn lemma_unsettled_keys(chain: Seq<MorphismView>, attributes: Seq<Seq<char>>)
    requires
        maps_valid(chain),
    ensures
        keys_distinct(unsettled(chain, attributes)),
{
    if chain.len() == 0 {
        lemma_identity_settled(attributes);
    } else {
        lemma_drops_counted(chain, Seq::empty());
    }
}

/// A source attribute of the first morphism that the chain does not carry
/// to its end is not in the composed map, its loss is reported by exactly one
/// diagnostic, and the migrated record is the same with or without a field
/// of its name.
pub proof fn lemma_dropped_field<V>(
    chain: Seq<MorphismView>,
    attributes: Seq<Seq<char>>,
    record: Map<Seq<char>, V>,
    key: Seq<char>,
)
    requires
        chain.len() > 0,
        maps_valid(chain),
        has_key(chain[0].attribute_map, key),
        !has_key(rewritten(chain), key),
    ensures
        !has_key(composed_entries(chain, attributes), key),
        drop_count(composition_diagnostics(chain, attributes), key) == 1,
        renamed(composed_entries(chain, attributes), record) == renamed(
            composed_entries(chain, attributes),
            record.remove(key),
        ),
{
    let raw = unsettled(chain, attributes);
    let composed = composed_entries(chain, attributes);
    lemma_drops_counted(chain, key);
    lemma_kept_distinct(raw, raw.len() as int);
    assert(!has_key(composed, key)) by {
        if has_key(composed, key) {
            let a = key_position(composed, key);
            let j = choose|j: int| 0 <= j < raw.len() && #[trigger] raw[j] == composed[a];
            assert(raw[j].0 == key);
        }
    }
    lemma_conflicts_drop_nothing(composition_conflicts(chain, attributes), key);
    lemma_drop_count_concat(
        drops(chain),
        conflict_reports(composition_conflicts(chain, attributes)),
        key,
    );
    lemma_absent_key_is_ignored(composed, record, key);
}

/// A field whose key the map does not know does not reach the renamed record.
pub proof fn lemma_absent_key_is_ignored<V>(
    entries: Seq<(Seq<char>, Seq<char>)>,
    record: Map<Seq<char>, V>,
    key: Seq<char>,
)
    requires
        !has_key(entries, key),
    ensures
        renamed(entries, record) == renamed(entries, record.remove(key)),
{
    let with = renamed(entries, record);
    let without = renamed(entries, record.remove(key));
    assert forall|target: Seq<char>| with.contains_key(target) <==> without.contains_key(
        target,
    ) by {
        if with.contains_key(target) {
            let i = choose|i: int|
                0 <= i < entries.len() && (#[trigger] entries[i]).1 == target && record.contains_key(
                    entries[i].0,
                );
            assert(entries[i].0 != key);
            assert(record.remove(key).contains_key(entries[i].0));
        }
        if without.contains_key(target) {
            let i = choose|i: int|
                0 <= i < entries.len() && (#[trigger] entries[i]).1 == target && record.remove(
                    key,
                ).contains_key(entries[i].0);
            assert(record.contains_key(entries[i].0));
        }
    }
    assert forall|target: Seq<char>| with.contains_key(target) implies with[target]
        == without[target] by {
        let i = target_position(entries, target);
        assert(entries[i].0 != key);
    }
    assert(with =~= without);
}

/// Two maps hold the same pairs of key and target.
pub open spec fn same_mapping(
    first: Seq<(Seq<char>, Seq<char>)>,
    second: Seq<(Seq<char>, Seq<char>)>,
) -> bool {
    forall|pair: (Seq<char>, Seq<char>)| first.contains(pair) <==> second.contains(pair)
}

/// Maps with the same pairs rename every record alike, in whatever order
/// they hold their pairs.
pub proof fn lemma_same_mapping_same_record<V>(
    first: Seq<(Seq<char>, Seq<char>)>,
    second: Seq<(Seq<char>, Seq<char>)>,
    record: Map<Seq<char>, V>,
)
    requires
        targets_distinct(first),
        targets_distinct(second),
        same_mapping(first, second),
    ensures
        renamed(first, record) == renamed(second, record),
{
    let one = renamed(first, record);
    let two = renamed(second, record);
    assert forall|target: Seq<char>| one.contains_key(target) <==> two.contains_key(target) by {
        if one.contains_key(target) {
            let i = choose|i: int|
                0 <= i < first.len() && (#[trigger] first[i]).1 == target && record.contains_key(
                    first[i].0,
                );
            assert(first.contains(first[i]));
            let j = choose|j: int| 0 <= j < second.len() && second[j] == first[i];
            assert(second[j].1 == target && record.contains_key(second[j].0));
        }
        if two.contains_key(target) {
            let i = choose|i: int|
                0 <= i < second.len() && (#[trigger] second[i]).1 == target && record.contains_key(
                    second[i].0,
                );
            assert(second.contains(second[i]));
            let j = choose|j: int| 0 <= j < first.len() && first[j] == second[i];
            assert(first[j].1 == target && record.contains_key(first[j].0));
        }
    }
    assert forall|target: Seq<char>| one.contains_key(target) implies one[target] == two[target] by {
        let a = target_position(first, target);
        let b = target_position(second, target);
        assert(two.contains_key(target));
        let w = choose|i: int|
            0 <= i < second.len() && (#[trigger] second[i]).1 == target && record.contains_key(
                second[i].0,
            );
        assert(second[b].1 == target);
        assert(first.contains(first[a]));
        let j = choose|j: int| 0 <= j < second.len() && second[j] == first[a];
        assert(second[j].1 == second[b].1);
        assert(j == b);
    }
    assert(one =~= two);
}

/// Two chains out of one schema whose composed maps hold the same pairs,
/// such as a direct morphism and a chain of two that agree on the net
/// renaming, migrate every record to the same record.
pub proof fn lemma_agreeing_chains_migrate_alike<V>(
    direct: Seq<MorphismView>,
    stepwise: Seq<MorphismView>,
    attributes: Seq<Seq<char>>,
    record: Map<Seq<char>, V>,
)
    requires
        maps_valid(direct),
        maps_valid(stepwise),
        same_mapping(composed_entries(direct, attributes), composed_entries(stepwise, attributes)),
    ensures
        renamed(composed_entries(direct, attributes), record) == renamed(
            composed_entries(stepwise, attributes),
            record,
        ),
{
    let one = unsettled(direct, attributes);
    let two = unsettled(stepwise, attributes);
    lemma_unsettled_keys(direct, attributes);
    lemma_unsettled_keys(stepwise, attributes);
    lemma_kept_distinct(one, one.len() as int);
    lemma_kept_distinct(two, two.len() as int);
    lemma_same_mapping_same_record(
        composed_entries(direct, attributes),
        composed_entries(stepwise, attributes),
        record,
    );
}

/// `entry` is one of the first `n` entries of `entries` and the first for its target.
pub open spec fn is_first_entry(
    entries: Seq<(Seq<char>, Seq<char>)>,
    n: int,
    entry: (Seq<char>, Seq<char>),
) -> bool {
    exists|b: int| 0 <= b < n && first_for_target(entries, b) && #[trigger] entries[b] == entry
}

/// Each entry that is the first for its target is kept, and each kept
/// entry is the first for its target.
pub proof fn lemma_kept_are_first(entries: Seq<(Seq<char>, Seq<char>)>, n: int)
    requires
        0 <= n <= entries.len(),
    ensures
        forall|a: int|
            0 <= a < n && first_for_target(entries, a) ==> kept(entries, n).contains(
                #[trigger] entries[a],
            ),
        forall|x: int|
            0 <= x < kept(entries, n).len() ==> is_first_entry(
                entries,
                n,
                #[trigger] kept(entries, n)[x],
            ),
    decreases n,
{
    if n > 0 {
        lemma_kept_are_first(entries, n - 1);
        let rest = kept(entries, n - 1);
        let out = kept(entries, n);
        assert forall|a: int| 0 <= a < n && first_for_target(entries, a) implies out.contains(
            #[trigger] entries[a],
        ) by {
            if a < n - 1 {
                let x = choose|x: int| 0 <= x < rest.len() && rest[x] == entries[a];
                assert(out[x] == entries[a]);
            } else {
                assert(out[rest.len() as int] == entries[a]);
            }
        }
        assert forall|x: int| 0 <= x < out.len() implies is_first_entry(
            entries,
            n,
            #[trigger] out[x],
        ) by {
            if x < rest.len() {
                assert(is_first_entry(entries, n - 1, rest[x]));
                let b = choose|b: int|
                    0 <= b < n - 1 && first_for_target(entries, b) && #[trigger] entries[b]
                        == rest[x];
                assert(entries[b] == out[x]);
            } else {
                assert(entries[n - 1] == out[x]);
            }
        }
    }
}

/// Each conflict that starts before place `n` is among the conflicts found.
pub proof fn lemma_conflict_is_found(entries: Seq<(Seq<char>, Seq<char>)>, n: int, a: int)
    requires
        0 <= a < n <= entries.len(),
        conflict_at(entries, a),
    ensures
        conflicts(entries, n).contains((entries[a].1, sources_of(entries, entries[a].1))),
    decreases n,
{
    let out = conflicts(entries, n);
    let rest = conflicts(entries, n - 1);
    if a < n - 1 {
        lemma_conflict_is_found(entries, n - 1, a);
        let c = choose|c: int|
            0 <= c < rest.len() && rest[c] == (entries[a].1, sources_of(entries, entries[a].1));
        assert(out[c] == rest[c]);
    } else {
        assert(out[rest.len() as int] == (entries[a].1, sources_of(entries, entries[a].1)));
    }
}

/// The sources of a target begin with the key of the first entry for it.
pub proof fn lemma_first_source(entries: Seq<(Seq<char>, Seq<char>)>, i: int)
    requires
        0 <= i < entries.len(),
        first_for_target(entries, i),
    ensures
        sources_of(entries, entries[i].1).len() >= 1,
        sources_of(entries, entries[i].1)[0] == entries[i].0,
    decreases entries.len(),
{
    let front = entries.drop_last();
    let target = entries[i].1;
    if i == entries.len() - 1 {
        assert forall|k: int| 0 <= k < front.len() implies (#[trigger] front[k]).1 != target by {
            assert(front[k] == entries[k]);
        }
        lemma_no_sources(front, target);
    } else {
        assert(front[i] == entries[i]);
        assert(first_for_target(front, i)) by {
            assert forall|k: int| 0 <= k < i implies (#[trigger] front[k]).1 != front[i].1 by {
                assert(front[k] == entries[k]);
            }
        }
        lemma_first_source(front, i);
    }
}

/// The key of every entry with the target `target` is among its sources.
pub proof fn lemma_source_listed(entries: Seq<(Seq<char>, Seq<char>)>, j: int)
    requires
        0 <= j < entries.len(),
    ensures
        sources_of(entries, entries[j].1).contains(entries[j].0),
    decreases entries.len(),
{
    let front = entries.drop_last();
    let target = entries[j].1;
    let out = sources_of(entries, target);
    if j == entries.len() - 1 {
        assert(out[out.len() - 1] == entries[j].0);
    } else {
        assert(front[j] == entries[j]);
        lemma_source_listed(front, j);
        let rest = sources_of(front, target);
        let x = choose|x: int| 0 <= x < rest.len() && rest[x] == entries[j].0;
        assert(out[x] == rest[x]);
    }
}

/// Two entries with one target make two sources.
pub proof fn lemma_two_sources(entries: Seq<(Seq<char>, Seq<char>)>, i: int, j: int)
    requires
        0 <= i < j < entries.len(),
        entries[i].1 == entries[j].1,
    ensures
        sources_of(entries, entries[i].1).len() >= 2,
    decreases entries.len(),
{
    let front = entries.drop_last();
    assert(front[i] == entries[i]);
    if j == entries.len() - 1 {
        lemma_source_listed(front, i);
    } else {
        assert(front[j] == entries[j]);
        lemma_two_sources(front, i, j);
    }
}

/// Where two source attributes end up as one target, the composed map
/// keeps the first of them and not the second, and the conflicts name the
/// target with all its sources, the kept one first.
pub proof fn lemma_conflict_keeps_first(entries: Seq<(Seq<char>, Seq<char>)>, i: int, j: int)
    requires
        keys_distinct(entries),
        0 <= i < j < entries.len(),
        entries[i].1 == entries[j].1,
        first_for_target(entries, i),
    ensures
        lookup(kept(entries, entries.len() as int), entries[i].0) == Some(entries[i].1),
        !has_key(kept(entries, entries.len() as int), entries[j].0),
        conflicts(entries, entries.len() as int).contains(
            (entries[i].1, sources_of(entries, entries[i].1)),
        ),
        sources_of(entries, entries[i].1).len() >= 2,
        sources_of(entries, entries[i].1)[0] == entries[i].0,
        sources_of(entries, entries[i].1).contains(entries[j].0),
{
    let n = entries.len() as int;
    let out = kept(entries, n);
    lemma_kept_are_first(entries, n);
    lemma_kept_distinct(entries, n);
    lemma_first_source(entries, i);
    lemma_source_listed(entries, j);
    lemma_two_sources(entries, i, j);
    lemma_conflict_is_found(entries, n, i);
    assert(out.contains(entries[i]));
    let x = choose|x: int| 0 <= x < out.len() && out[x] == entries[i];
    assert(out[x].0 == entries[i].0);
    assert(has_key(out, entries[i].0));
    assert(key_position(out, entries[i].0) == x);
    if has_key(out, entries[j].0) {
        let y = key_position(out, entries[j].0);
        assert(is_first_entry(entries, n, out[y]));
        let b = choose|b: int|
            0 <= b < n && first_for_target(entries, b) && #[trigger] entries[b] == out[y];
        assert(entries[b].0 == entries[j].0);
        assert(b == j);
        assert(entries[i].1 != entries[j].1);
    }
}

/// Where two source attributes `first` and `second`, in this order in the
/// running map, end up as one target, a strict engine refuses the migration
/// with `CompositionConflict`. An engine that is not strict puts the value
/// of `first` under the target, leaves `second` out of the composed map, and
/// reports a conflict on the target with both attributes among the
/// candidates.
pub proof fn lemma_conflict_outcome<V>(
    engine: EngineView,
    record: Map<Seq<char>, V>,
    source: Seq<char>,
    target: Seq<char>,
    i: int,
    j: int,
)
    requires
        engine.category.objects.contains_key(source),
        engine.category.objects.contains_key(target),
        reachable(engine.category.morphisms, source, target),
        maps_valid(chain_for(engine.category, source, target)),
        0 <= i < j < unsettled(
            chain_for(engine.category, source, target),
            engine.category.objects[source].attributes,
        ).len(),
        first_for_target(
            unsettled(
                chain_for(engine.category, source, target),
                engine.category.objects[source].attributes,
            ),
            i,
        ),
        unsettled(
            chain_for(engine.category, source, target),
            engine.category.objects[source].attributes,
        )[i].1 == unsettled(
            chain_for(engine.category, source, target),
            engine.category.objects[source].attributes,
        )[j].1,
    ensures
        ({
            let raw = unsettled(
                chain_for(engine.category, source, target),
                engine.category.objects[source].attributes,
            );
            let found = composition_conflicts(
                chain_for(engine.category, source, target),
                engine.category.objects[source].attributes,
            );
            let reports = findings(engine.category, source, target);
            &&& engine.strict ==> refusal(engine, source, target) == Some(
                ErrorView::CompositionConflict {
                    target_attribute: found[0].0,
                    candidates: found[0].1,
                },
            )
            &&& !engine.strict ==> refusal(engine, source, target) is None
            &&& lookup(effective_map(engine.category, source, target), raw[i].0) == Some(raw[i].1)
            &&& !has_key(effective_map(engine.category, source, target), raw[j].0)
            &&& record.contains_key(raw[i].0) ==> migrated(
                engine.category,
                record,
                source,
                target,
            ).contains_key(raw[i].1) && migrated(engine.category, record, source, target)[raw[i].1]
                == record[raw[i].0]
            &&& reports.contains(
                DiagnosticView::CompositionConflict {
                    target_attribute: raw[i].1,
                    candidates: sources_of(raw, raw[i].1),
                },
            )
            &&& sources_of(raw, raw[i].1)[0] == raw[i].0
            &&& sources_of(raw, raw[i].1).contains(raw[j].0)
        }),
{
    let category = engine.category;
    let chain = chain_for(category, source, target);
    let attributes = category.objects[source].attributes;
    let raw = unsettled(chain, attributes);
    let n = raw.len() as int;
    let composed = effective_map(category, source, target);
    let found = composition_conflicts(chain, attributes);
    lemma_unsettled_keys(chain, attributes);
    lemma_conflict_keeps_first(raw, i, j);
    lemma_kept_distinct(raw, n);
    let c = choose|c: int| 0 <= c < found.len() && found[c] == (raw[i].1, sources_of(raw, raw[i].1));
    let reports = findings(category, source, target);
    let report = DiagnosticView::CompositionConflict {
        target_attribute: raw[i].1,
        candidates: sources_of(raw, raw[i].1),
    };
    assert(conflict_reports(found)[c] == report);
    assert(reports[drops(chain).len() + c] == report);
    if record.contains_key(raw[i].0) {
        let x = key_position(composed, raw[i].0);
        assert(composed[x].1 == raw[i].1 && record.contains_key(composed[x].0));
        assert(target_position(composed, raw[i].1) == x);
    }
}

/// With distinct keys, each entry is what the map gives to its key.
pub proof fn lemma_lookup_entry(entries: Seq<(Seq<char>, Seq<char>)>, i: int)
    requires
        keys_distinct(entries),
        0 <= i < entries.len(),
    ensures
        lookup(entries, entries[i].0) == Some(entries[i].1),
{
    assert(has_key(entries, entries[i].0));
    assert(key_position(entries, entries[i].0) == i);
}

/// The running map after a morphism looks a key up as the running map
/// before it does, and then the morphism.
pub proof fn lemma_rewrite_lookup(
    running: Seq<(Seq<char>, Seq<char>)>,
    next: Seq<(Seq<char>, Seq<char>)>,
    key: Seq<char>,
)
    requires
        keys_distinct(running),
    ensures
        lookup(rewrite(running, next), key) == (match lookup(running, key) {
            Some(middle) => lookup(next, middle),
            None => None,
        }),
    decreases running.len(),
{
    let out = rewrite(running, next);
    lemma_rewrite_keys(running, next);
    if running.len() > 0 {
        let front = running.drop_last();
        let last = running.last();
        let n = front.len() as int;
        assert(running[n] == last);
        assert forall|i: int, j: int| 0 <= i < j < front.len() implies (#[trigger] front[i]).0 != (
        #[trigger] front[j]).0 by {
            assert(front[i] == running[i]);
            assert(front[j] == running[j]);
        }
        lemma_rewrite_lookup(front, next, key);
        lemma_rewrite_keys(front, next);
        let rest = rewrite(front, next);
        if last.0 == key {
            lemma_lookup_entry(running, n);
            assert(!has_key(rest, key)) by {
                if has_key(rest, key) {
                    assert(has_key(front, key));
                    let i = key_position(front, key);
                    assert(running[i].0 == running[n].0);
                }
            }
            match lookup(next, last.1) {
                Some(target) => {
                    assert(out == rest.push((key, target)));
                    lemma_lookup_entry(out, rest.len() as int);
                },
                None => {},
            }
        } else {
            assert(has_key(running, key) <==> has_key(front, key)) by {
                if has_key(running, key) {
                    let i = key_position(running, key);
                    assert(front[i].0 == key);
                }
                if has_key(front, key) {
                    let i = key_position(front, key);
                    assert(running[i].0 == key);
                }
            }
            if has_key(front, key) {
                let i = key_position(front, key);
                assert(running[i] == front[i]);
                lemma_lookup_entry(running, i);
                lemma_lookup_entry(front, i);
            }
            assert(has_key(out, key) <==> has_key(rest, key)) by {
                if has_key(out, key) {
                    let i = key_position(out, key);
                    assert(rest[i].0 == key);
                }
                if has_key(rest, key) {
                    let i = key_position(rest, key);
                    assert(out[i].0 == key);
                }
            }
            if has_key(rest, key) {
                let i = key_position(rest, key);
                assert(out[i] == rest[i]);
                lemma_lookup_entry(out, i);
                lemma_lookup_entry(rest, i);
            }
        }
    }
}

/// Migrating through a composed map is migrating step by step: where two
/// maps each keep their keys and their targets apart, so does what the
/// second makes of the first, and it renames a record as the first map
/// followed by the second.
pub proof fn lemma_stepwise_migration<V>(
    first: Seq<(Seq<char>, Seq<char>)>,
    second: Seq<(Seq<char>, Seq<char>)>,
    record: Map<Seq<char>, V>,
)
    requires
        keys_distinct(first),
        targets_distinct(first),
        keys_distinct(second),
        targets_distinct(second),
    ensures
        keys_distinct(rewrite(first, second)),
        targets_distinct(rewrite(first, second)),
        renamed(rewrite(first, second), record) == renamed(second, renamed(first, record)),
{
    let both = rewrite(first, second);
    let middle = renamed(first, record);
    let direct = renamed(both, record);
    let stepwise = renamed(second, middle);
    lemma_rewrite_keys(first, second);
    assert forall|i: int, j: int| 0 <= i < j < both.len() implies (#[trigger] both[i]).1 != (
    #[trigger] both[j]).1 by {
        lemma_lookup_entry(both, i);
        lemma_lookup_entry(both, j);
        lemma_rewrite_lookup(first, second, both[i].0);
        lemma_rewrite_lookup(first, second, both[j].0);
        let a = key_position(first, both[i].0);
        let b = key_position(first, both[j].0);
        assert(first[a].0 != first[b].0);
        assert(first[a].1 != first[b].1);
        let c = key_position(second, first[a].1);
        let d = key_position(second, first[b].1);
        assert(second[c].0 != second[d].0);
        assert(second[c].1 != second[d].1);
    }
    assert forall|target: Seq<char>| #[trigger]
        direct.contains_key(target) implies stepwise.contains_key(target) && direct[target]
        == stepwise[target] by {
        let i = choose|i: int|
            0 <= i < both.len() && (#[trigger] both[i]).1 == target && record.contains_key(
                both[i].0,
            );
        let key = both[i].0;
        lemma_lookup_entry(both, i);
        lemma_rewrite_lookup(first, second, key);
        let a = key_position(first, key);
        let b = key_position(second, first[a].1);
        assert(first[a].1 == first[a].1 && record.contains_key(first[a].0));
        assert(middle.contains_key(first[a].1));
        assert(second[b].1 == target && middle.contains_key(second[b].0));
        assert(target_position(both, target) == i);
        assert(target_position(second, target) == b);
        assert(target_position(first, first[a].1) == a);
    }
    assert forall|target: Seq<char>| #[trigger]
        stepwise.contains_key(target) implies direct.contains_key(target) by {
        let b = choose|b: int|
            0 <= b < second.len() && (#[trigger] second[b]).1 == target && middle.contains_key(
                second[b].0,
            );
        let a = choose|a: int|
            0 <= a < first.len() && (#[trigger] first[a]).1 == second[b].0 && record.contains_key(
                first[a].0,
            );
        let key = first[a].0;
        lemma_lookup_entry(first, a);
        lemma_lookup_entry(second, b);
        lemma_rewrite_lookup(first, second, key);
        let i = key_position(both, key);
        assert(both[i].1 == target && record.contains_key(both[i].0));
    }
    assert(direct =~= stepwise);
}

/// A chain of two morphisms whose attribute maps each keep their targets
/// apart composes without conflict, and migrates a record as its first
/// morphism followed by its second.
pub proof fn lemma_two_step_chain<V>(
    first: MorphismView,
    second: MorphismView,
    attributes: Seq<Seq<char>>,
    record: Map<Seq<char>, V>,
)
    requires
        keys_distinct(first.attribute_map),
        targets_distinct(first.attribute_map),
        keys_distinct(second.attribute_map),
        targets_distinct(second.attribute_map),
    ensures
        composition_conflicts(seq![first, second], attributes).len() == 0,
        renamed(composed_entries(seq![first, second], attributes), record) == renamed(
            second.attribute_map,
            renamed(first.attribute_map, record),
        ),
{
    let chain = seq![first, second];
    assert(chain.drop_last() =~= seq![first]);
    assert(rewritten(chain.drop_last()) == first.attribute_map);
    let both = rewrite(first.attribute_map, second.attribute_map);
    assert(unsettled(chain, attributes) == both);
    lemma_stepwise_migration(first.attribute_map, second.attribute_map, record);
    lemma_settled_is_kept(both, both.len() as int);
    assert(both.take(both.len() as int) =~= both);
}

} // verus!
