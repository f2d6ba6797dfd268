//! The morphism composer: one attribute map out of a chain of morphisms.
//!
//! The running map starts as the attribute map of the first morphism. Each
//! later morphism renames the values of the running map; an entry whose
//! value the morphism does not rename is dropped and reported. At the end,
//! of several entries with the same target only the first is kept, and the
//! others are reported as a conflict.

use vstd::prelude::*;
use crate::error::{diagnostics_view, Diagnostic, DiagnosticView, ErrorView, TransformError};
use crate::schema::{
    entries_view, has_key, keys_distinct, lookup, morphisms_view, names_view, AttributeMap,
    MorphismView, SchemaMorphism, SchemaObject,
};

verus! {

/// The map that sends each of `attributes` to itself, in the order in which
/// the attributes first occur.
pub open spec fn identity_entries(attributes: Seq<Seq<char>>) -> Seq<(Seq<char>, Seq<char>)>
    decreases attributes.len(),
{
    if attributes.len() == 0 {
        Seq::empty()
    } else {
        let rest = identity_entries(attributes.drop_last());
        if has_key(rest, attributes.last()) {
            rest
        } else {
            rest.push((attributes.last(), attributes.last()))
        }
    }
}

/// The running map `running` after the morphism with the attribute map `next`:
/// each value that `next` renames is renamed, the other entries are left out.
pub open spec fn rewrite(
    running: Seq<(Seq<char>, Seq<char>)>,
    next: Seq<(Seq<char>, Seq<char>)>,
) -> Seq<(Seq<char>, Seq<char>)>
    decreases running.len(),
{
    if running.len() == 0 {
        Seq::empty()
    } else {
        let rest = rewrite(running.drop_last(), next);
        match lookup(next, running.last().1) {
            Some(target) => rest.push((running.last().0, target)),
            None => rest,
        }
    }
}

/// The reports on the entries of `running` that `next` drops, in order.
/// `step` is the place of the morphism in its chain.
pub open spec fn dropped(
    running: Seq<(Seq<char>, Seq<char>)>,
    next: Seq<(Seq<char>, Seq<char>)>,
    step: int,
) -> Seq<DiagnosticView>
    decreases running.len(),
{
    if running.len() == 0 {
        Seq::empty()
    } else {
        let rest = dropped(running.drop_last(), next, step);
        match lookup(next, running.last().1) {
            Some(target) => rest,
            None => rest.push(
                DiagnosticView::DroppedAttribute {
                    source_attribute: running.last().0,
                    attribute: running.last().1,
                    step,
                },
            ),
        }
    }
}

/// The running map at the end of the chain `chain`, which is not empty.
pub open spec fn rewritten(chain: Seq<MorphismView>) -> Seq<(Seq<char>, Seq<char>)>
    decreases chain.len(),
{
    if chain.len() == 0 {
        Seq::empty()
    } else if chain.len() == 1 {
        chain[0].attribute_map
    } else {
        rewrite(rewritten(chain.drop_last()), chain.last().attribute_map)
    }
}

/// The reports on the entries dropped along `chain`: morphism after
/// morphism, and for each morphism in the order of the running map.
pub open spec fn drops(chain: Seq<MorphismView>) -> Seq<DiagnosticView>
    decreases chain.len(),
{
    if chain.len() <= 1 {
        Seq::empty()
    } else {
        drops(chain.drop_last()) + dropped(
            rewritten(chain.drop_last()),
            chain.last().attribute_map,
            chain.len() - 1,
        )
    }
}

/// The running map before conflicts are settled: the identity on the
/// attributes of the source schema for the empty chain, else what the chain
/// makes of the attribute map of its first morphism.
pub open spec fn unsettled(chain: Seq<MorphismView>, attributes: Seq<Seq<char>>) -> Seq<
    (Seq<char>, Seq<char>),
> {
    if chain.len() == 0 {
        identity_entries(attributes)
    } else {
        rewritten(chain)
    }
}

/// No entry of `entries` before place `i` has the target of the entry at `i`.
pub open spec fn first_for_target(entries: Seq<(Seq<char>, Seq<char>)>, i: int) -> bool {
    forall|j: int| 0 <= j < i ==> (#[trigger] entries[j]).1 != entries[i].1
}

/// The keys of the entries of `entries` whose target is `target`, in order.
pub open spec fn sources_of(entries: Seq<(Seq<char>, Seq<char>)>, target: Seq<char>) -> Seq<
    Seq<char>,
>
    decreases entries.len(),
{
    if entries.len() == 0 {
        Seq::empty()
    } else if entries.last().1 == target {
        sources_of(entries.drop_last(), target).push(entries.last().0)
    } else {
        sources_of(entries.drop_last(), target)
    }
}

/// Of the first `n` entries of `entries`, those that are the first for
/// their target.
pub open spec fn kept(entries: Seq<(Seq<char>, Seq<char>)>, n: int) -> Seq<(Seq<char>, Seq<char>)>
    decreases n,
{
    if n <= 0 {
        Seq::empty()
    } else if first_for_target(entries, n - 1) {
        kept(entries, n - 1).push(entries[n - 1])
    } else {
        kept(entries, n - 1)
    }
}

/// There is a conflict at place `i`: the entry there is the first for its
/// target and not the only one.
pub open spec fn conflict_at(entries: Seq<(Seq<char>, Seq<char>)>, i: int) -> bool {
    first_for_target(entries, i) && sources_of(entries, entries[i].1).len() > 1
}

/// The conflicts among `entries` that start before place `n`: each
/// contested target with all the keys that lead to it, in the order in which
/// the targets first occur.
pub open spec fn conflicts(entries: Seq<(Seq<char>, Seq<char>)>, n: int) -> Seq<
    (Seq<char>, Seq<Seq<char>>),
>
    decreases n,
{
    if n <= 0 {
        Seq::empty()
    } else if conflict_at(entries, n - 1) {
        conflicts(entries, n - 1).push((entries[n - 1].1, sources_of(entries, entries[n - 1].1)))
    } else {
        conflicts(entries, n - 1)
    }
}

/// The conflicts as diagnostics.
pub open spec fn conflict_reports(found: Seq<(Seq<char>, Seq<Seq<char>>)>) -> Seq<DiagnosticView> {
    Seq::new(
        found.len(),
        |i: int|
            DiagnosticView::CompositionConflict {
                target_attribute: found[i].0,
                candidates: found[i].1,
            },
    )
}

/// The composed map of `chain`, which leaves from a schema that declares `attributes`.
pub open spec fn composed_entries(chain: Seq<MorphismView>, attributes: Seq<Seq<char>>) -> Seq<
    (Seq<char>, Seq<char>),
> {
    kept(unsettled(chain, attributes), unsettled(chain, attributes).len() as int)
}

/// The conflicts of the composition of `chain`.
pub open spec fn composition_conflicts(chain: Seq<MorphismView>, attributes: Seq<Seq<char>>) -> Seq<
    (Seq<char>, Seq<Seq<char>>),
> {
    conflicts(unsettled(chain, attributes), unsettled(chain, attributes).len() as int)
}

/// The diagnostics of the composition of `chain`: the dropped attributes,
/// then the conflicts.
pub open spec fn composition_diagnostics(
    chain: Seq<MorphismView>,
    attributes: Seq<Seq<char>>,
) -> Seq<DiagnosticView> {
    drops(chain) + conflict_reports(composition_conflicts(chain, attributes))
}

/// The source and the target of each morphism of `chain`.
pub open spec fn chain_steps(chain: Seq<MorphismView>) -> Seq<(Seq<char>, Seq<char>)> {
    Seq::new(chain.len(), |i: int| (chain[i].source, chain[i].target))
}

/// No two entries of `entries` have the same target.
pub open spec fn targets_distinct(entries: Seq<(Seq<char>, Seq<char>)>) -> bool {
    forall|i: int, j: int|
        0 <= i < j < entries.len() ==> (#[trigger] entries[i]).1 != (#[trigger] entries[j]).1
}

/// Each entry of `out` is one of the first `n` entries of `entries`.
pub open spec fn drawn_from(
    out: Seq<(Seq<char>, Seq<char>)>,
    entries: Seq<(Seq<char>, Seq<char>)>,
    n: int,
) -> bool {
    forall|a: int|
        0 <= a < out.len() ==> exists|j: int| 0 <= j < n && #[trigger] entries[j] == #[trigger] out[a]
}

/// Every key of `out` is a key of `entries`.
pub open spec fn keys_within(
    out: Seq<(Seq<char>, Seq<char>)>,
    entries: Seq<(Seq<char>, Seq<char>)>,
) -> bool {
    forall|key: Seq<char>| has_key(out, key) ==> has_key(entries, key)
}

/// Rewriting keeps keys apart and adds none.
pub proof fn lemma_rewrite_keys(
    running: Seq<(Seq<char>, Seq<char>)>,
    next: Seq<(Seq<char>, Seq<char>)>,
)
    requires
        keys_distinct(running),
    ensures
        keys_distinct(rewrite(running, next)),
        keys_within(rewrite(running, next), running),
    decreases running.len(),
{
    if running.len() > 0 {
        let front = running.drop_last();
        let last = running.last();
        lemma_rewrite_keys(front, next);
        let rest = rewrite(front, next);
        let out = rewrite(running, next);
        assert forall|key: Seq<char>| has_key(out, key) implies has_key(running, key) by {
            let a = choose|a: int| 0 <= a < out.len() && (#[trigger] out[a]).0 == key;
            if a < rest.len() {
                assert(rest[a].0 == key);
                assert(has_key(front, key));
                let b = choose|b: int| 0 <= b < front.len() && (#[trigger] front[b]).0 == key;
                assert(running[b].0 == key);
            } else {
                assert(running[running.len() - 1].0 == key);
            }
        }
        assert forall|i: int, j: int| 0 <= i < j < out.len() implies (#[trigger] out[i]).0 != (
        #[trigger] out[j]).0 by {
            if j < rest.len() {
                assert(rest[i].0 != rest[j].0);
            } else {
                assert(rest[i].0 == out[i].0);
                if has_key(front, last.0) {
                    let b = choose|b: int| 0 <= b < front.len() && (#[trigger] front[b]).0 == last.0;
                    assert(running[b].0 == running[running.len() - 1].0);
                }
            }
        }
    }
}

/// What is kept has its keys and its targets apart, and was there before.
pub proof fn lemma_kept_distinct(entries: Seq<(Seq<char>, Seq<char>)>, n: int)
    requires
        keys_distinct(entries),
        0 <= n <= entries.len(),
    ensures
        keys_distinct(kept(entries, n)),
        targets_distinct(kept(entries, n)),
        drawn_from(kept(entries, n), entries, n),
    decreases n,
{
    if n > 0 {
        lemma_kept_distinct(entries, n - 1);
        let rest = kept(entries, n - 1);
        let out = kept(entries, n);
        assert forall|a: int| 0 <= a < out.len() implies exists|j: int|
            0 <= j < n && #[trigger] entries[j] == #[trigger] out[a] by {
            if a < rest.len() {
                let j = choose|j: int| 0 <= j < n - 1 && #[trigger] entries[j] == rest[a];
                assert(entries[j] == out[a]);
            } else {
                assert(entries[n - 1] == out[a]);
            }
        }
        if first_for_target(entries, n - 1) {
            assert forall|i: int, j: int| 0 <= i < j < out.len() implies (#[trigger] out[i]).0 != (
            #[trigger] out[j]).0 && out[i].1 != out[j].1 by {
                if j < rest.len() {
                    assert(rest[i].0 != rest[j].0);
                    assert(rest[i].1 != rest[j].1);
                } else {
                    let b = choose|b: int| 0 <= b < n - 1 && #[trigger] entries[b] == rest[i];
                    assert(entries[b].0 != entries[n - 1].0);
                    assert(entries[b].1 != entries[n - 1].1);
                }
            }
        }
    }
}

/// The conflicts that start before `a` come first among those that start before `b`.
pub proof fn lemma_conflicts_grow(entries: Seq<(Seq<char>, Seq<char>)>, a: int, b: int)
    requires
        0 <= a <= b,
    ensures
        conflicts(entries, a).len() <= conflicts(entries, b).len(),
        forall|t: int|
            0 <= t < conflicts(entries, a).len() ==> conflicts(entries, b)[t] == conflicts(
                entries,
                a,
            )[t],
    decreases b - a,
{
    if a < b {
        lemma_conflicts_grow(entries, a, b - 1);
    }
}

/// The identity map has its keys apart and no two entries with one target.
pub proof fn lemma_identity_settled(attributes: Seq<Seq<char>>)
    ensures
        keys_distinct(identity_entries(attributes)),
        forall|i: int|
            0 <= i < identity_entries(attributes).len() ==> (#[trigger] identity_entries(
                attributes,
            )[i]).0 == identity_entries(attributes)[i].1,
        forall|key: Seq<char>|
            has_key(identity_entries(attributes), key) <==> attributes.contains(key),
    decreases attributes.len(),
{
    let out = identity_entries(attributes);
    if attributes.len() > 0 {
        let front = attributes.drop_last();
        let last = attributes.last();
        lemma_identity_settled(front);
        let rest = identity_entries(front);
        assert forall|key: Seq<char>| has_key(out, key) <==> attributes.contains(key) by {
            if has_key(out, key) {
                let a = choose|a: int| 0 <= a < out.len() && (#[trigger] out[a]).0 == key;
                if a < rest.len() {
                    assert(rest[a].0 == key);
                    assert(has_key(rest, key));
                    assert(front.contains(key));
                    let b = choose|b: int| 0 <= b < front.len() && front[b] == key;
                    assert(attributes[b] == key);
                } else {
                    assert(attributes[attributes.len() - 1] == key);
                }
            }
            if attributes.contains(key) {
                let b = choose|b: int| 0 <= b < attributes.len() && attributes[b] == key;
                if b < front.len() {
                    assert(front[b] == key);
                    assert(front.contains(key));
                    let a = choose|a: int| 0 <= a < rest.len() && (#[trigger] rest[a]).0 == key;
                    assert(out[a].0 == key);
                } else if has_key(rest, last) {
                } else {
                    assert(out[out.len() - 1].0 == key);
                }
            }
        }
        if !has_key(rest, last) {
            assert forall|i: int, j: int| 0 <= i < j < out.len() implies (#[trigger] out[i]).0 != (
            #[trigger] out[j]).0 by {
                if j < rest.len() {
                    assert(rest[i].0 != rest[j].0);
                } else {
                    assert(rest[i].0 == out[i].0);
                }
            }
        }
    } else {
        assert forall|key: Seq<char>| has_key(out, key) <==> attributes.contains(key) by {}
    }
}

/// The mathematical value of a `ComposedMap`.
pub struct ComposedView {
    /// The source attributes, each with the target attribute it becomes.
    pub entries: Seq<(Seq<char>, Seq<char>)>,
    /// The source and the target of each morphism of the chain.
    pub steps: Seq<(Seq<char>, Seq<char>)>,
}

/// The net renaming of a chain of morphisms, with the steps of the chain
/// that produced it. No two entries have the same key or the same target.
#[derive(Debug)]
pub struct ComposedMap {
    entries: AttributeMap,
    steps: Vec<(String, String)>,
}

impl View for ComposedMap {
    type V = ComposedView;

    closed spec fn view(&self) -> ComposedView {
        ComposedView { entries: self.entries@, steps: entries_view(self.steps@) }
    }
}

impl ComposedMap {
    #[verifier::type_invariant]
    pub closed spec fn well_formed(&self) -> bool {
        targets_distinct(self.entries@)
    }

    /// The number of entries. Their keys are distinct, and so are their targets.
    pub fn len(&self) -> (n: usize)
        ensures
            n == self@.entries.len(),
            keys_distinct(self@.entries),
            targets_distinct(self@.entries),
    {
        proof {
            use_type_invariant(self);
        }
        self.entries.len()
    }

    /// The target attribute that the source attribute `key` becomes.
    pub fn target_of(&self, key: &String) -> (target: Option<&String>)
        ensures
            target is Some <==> has_key(self@.entries, key@),
            target matches Some(t) ==> lookup(self@.entries, key@) == Some(t@),
            keys_distinct(self@.entries),
            targets_distinct(self@.entries),
    {
        proof {
            use_type_invariant(self);
        }
        self.entries.get(key)
    }

    /// A copy of the entries, in order.
    pub fn entries(&self) -> (entries: Vec<(String, String)>)
        ensures
            entries_view(entries@) == self@.entries,
    {
        self.entries.to_entries()
    }

    /// A copy of the steps of the chain: the source and the target of each morphism.
    pub fn steps(&self) -> (steps: Vec<(String, String)>)
        ensures
            entries_view(steps@) == self@.steps,
    {
        crate::schema::clone_entries(&self.steps)
    }
}

/// Whether some entry of `entries` has the key `key`.
fn contains_key(entries: &Vec<(String, String)>, key: &String) -> (found: bool)
    ensures
        found == has_key(entries_view(entries@), key@),
{
    let mut i: usize = 0;
    while i < entries.len()
        invariant
            i <= entries.len(),
            forall|j: int| 0 <= j < i ==> (#[trigger] entries_view(entries@)[j]).0 != key@,
        decreases entries.len() - i,
    {
        if entries[i].0 == *key {
            assert(entries_view(entries@)[i as int].0 == key@);
            return true;
        }
        i += 1;
    }
    false
}

/// The identity map on `attributes`.
fn identity_map(attributes: &Vec<String>) -> (entries: Vec<(String, String)>)
    ensures
        entries_view(entries@) == identity_entries(names_view(attributes@)),
{
    let ghost av = names_view(attributes@);
    let mut entries: Vec<(String, String)> = Vec::new();
    let mut i: usize = 0;
    assert(entries_view(entries@) =~= identity_entries(av.take(0)));
    while i < attributes.len()
        invariant
            i <= attributes.len(),
            av == names_view(attributes@),
            entries_view(entries@) == identity_entries(av.take(i as int)),
        decreases attributes.len() - i,
    {
        assert(av.take(i + 1).drop_last() =~= av.take(i as int));
        assert(av.take(i + 1).last() == attributes@[i as int]@);
        if !contains_key(&entries, &attributes[i]) {
            let ghost before = entries_view(entries@);
            entries.push((attributes[i].clone(), attributes[i].clone()));
            assert(entries_view(entries@) =~= before.push((av[i as int], av[i as int])));
        }
        i += 1;
    }
    assert(av.take(attributes.len() as int) =~= av);
    entries
}

/// Renames the values of `running` through `next` and reports what `next` drops.
fn rewrite_through(
    running: &Vec<(String, String)>,
    next: &AttributeMap,
    step: usize,
    diagnostics: &mut Vec<Diagnostic>,
) -> (out: Vec<(String, String)>)
    ensures
        entries_view(out@) == rewrite(entries_view(running@), next@),
        diagnostics_view(final(diagnostics)@) == diagnostics_view(old(diagnostics)@) + dropped(
            entries_view(running@),
            next@,
            step as int,
        ),
{
    let ghost rv = entries_view(running@);
    let ghost base = diagnostics_view(diagnostics@);
    let mut out: Vec<(String, String)> = Vec::new();
    let mut i: usize = 0;
    assert(entries_view(out@) =~= rewrite(rv.take(0), next@));
    assert(diagnostics_view(diagnostics@) =~= base + dropped(rv.take(0), next@, step as int));
    while i < running.len()
        invariant
            i <= running.len(),
            rv == entries_view(running@),
            entries_view(out@) == rewrite(rv.take(i as int), next@),
            diagnostics_view(diagnostics@) == base + dropped(rv.take(i as int), next@, step as int),
        decreases running.len() - i,
    {
        assert(rv.take(i + 1).drop_last() =~= rv.take(i as int));
        assert(rv.take(i + 1).last() == rv[i as int]);
        let ghost out_before = entries_view(out@);
        let ghost reports_before = diagnostics_view(diagnostics@);
        match next.get(&running[i].1) {
            Some(target) => {
                out.push((running[i].0.clone(), target.clone()));
                assert(entries_view(out@) =~= out_before.push((rv[i as int].0, target@)));
            },
            None => {
                let report = Diagnostic::DroppedAttribute {
                    source_attribute: running[i].0.clone(),
                    attribute: running[i].1.clone(),
                    step,
                };
                let ghost report_view = report@;
                diagnostics.push(report);
                assert(diagnostics_view(diagnostics@) =~= reports_before.push(report_view));
            },
        }
        i += 1;
    }
    assert(rv.take(running.len() as int) =~= rv);
    out
}

/// Whether no entry before place `i` has the target of the entry at `i`.
fn is_first_for_target(entries: &Vec<(String, String)>, i: usize) -> (first: bool)
    requires
        i < entries@.len(),
    ensures
        first == first_for_target(entries_view(entries@), i as int),
{
    let ghost ev = entries_view(entries@);
    let mut j: usize = 0;
    while j < i
        invariant
            j <= i < entries@.len(),
            ev == entries_view(entries@),
            forall|k: int| 0 <= k < j ==> (#[trigger] ev[k]).1 != ev[i as int].1,
        decreases i - j,
    {
        if entries[j].1 == entries[i].1 {
            assert(ev[j as int].1 == ev[i as int].1);
            return false;
        }
        j += 1;
    }
    true
}

/// The keys of the entries whose target is `target`, in order.
fn sources_with_target(entries: &Vec<(String, String)>, target: &String) -> (sources: Vec<String>)
    ensures
        names_view(sources@) == sources_of(entries_view(entries@), target@),
{
    let ghost ev = entries_view(entries@);
    let mut sources: Vec<String> = Vec::new();
    let mut i: usize = 0;
    assert(names_view(sources@) =~= sources_of(ev.take(0), target@));
    while i < entries.len()
        invariant
            i <= entries.len(),
            ev == entries_view(entries@),
            names_view(sources@) == sources_of(ev.take(i as int), target@),
        decreases entries.len() - i,
    {
        assert(ev.take(i + 1).drop_last() =~= ev.take(i as int));
        assert(ev.take(i + 1).last() == ev[i as int]);
        if entries[i].1 == *target {
            let ghost before = names_view(sources@);
            sources.push(entries[i].0.clone());
            assert(names_view(sources@) =~= before.push(ev[i as int].0));
        }
        i += 1;
    }
    assert(ev.take(entries.len() as int) =~= ev);
    sources
}

/// Keeps of `raw` the first entry for each target and reports the
/// conflicts, or fails on the first conflict where `strict` is set.
fn settle(raw: &Vec<(String, String)>, strict: bool, diagnostics: &mut Vec<Diagnostic>) -> (outcome:
    Result<Vec<(String, String)>, TransformError>)
    ensures
        outcome is Err <==> strict && conflicts(
            entries_view(raw@),
            raw@.len() as int,
        ).len() > 0,
        outcome matches Err(e) ==> e@ == (ErrorView::CompositionConflict {
            target_attribute: conflicts(entries_view(raw@), raw@.len() as int)[0].0,
            candidates: conflicts(entries_view(raw@), raw@.len() as int)[0].1,
        }),
        outcome matches Ok(settled) ==> entries_view(settled@) == kept(
            entries_view(raw@),
            raw@.len() as int,
        ) && diagnostics_view(final(diagnostics)@) == diagnostics_view(old(diagnostics)@)
            + conflict_reports(conflicts(entries_view(raw@), raw@.len() as int)),
{
    let ghost rv = entries_view(raw@);
    let ghost base = diagnostics_view(diagnostics@);
    let mut settled: Vec<(String, String)> = Vec::new();
    let mut i: usize = 0;
    assert(entries_view(settled@) =~= kept(rv, 0));
    assert(diagnostics_view(diagnostics@) =~= base + conflict_reports(conflicts(rv, 0)));
    while i < raw.len()
        invariant
            i <= raw.len(),
            rv == entries_view(raw@),
            entries_view(settled@) == kept(rv, i as int),
            diagnostics_view(diagnostics@) == base + conflict_reports(conflicts(rv, i as int)),
            strict ==> conflicts(rv, i as int).len() == 0,
        decreases raw.len() - i,
    {
        let ghost reports_before = diagnostics_view(diagnostics@);
        let ghost found_before = conflicts(rv, i as int);
        if is_first_for_target(raw, i) {
            let candidates = sources_with_target(raw, &raw[i].1);
            if candidates.len() > 1 {
                assert(conflict_at(rv, i as int));
                if strict {
                    proof {
                        lemma_conflicts_grow(rv, i + 1, raw.len() as int);
                        assert(conflicts(rv, i + 1)[0] == (rv[i as int].1, names_view(candidates@)));
                    }
                    return Err(
                        TransformError::CompositionConflict {
                            target_attribute: raw[i].1.clone(),
                            candidates,
                        },
                    );
                }
                let report = Diagnostic::CompositionConflict {
                    target_attribute: raw[i].1.clone(),
                    candidates,
                };
                let ghost report_view = report@;
                diagnostics.push(report);
                assert(diagnostics_view(diagnostics@) =~= reports_before.push(report_view));
                assert(conflict_reports(conflicts(rv, i + 1)) =~= conflict_reports(
                    found_before,
                ).push(report_view));
            }
            let ghost kept_before = entries_view(settled@);
            settled.push((raw[i].0.clone(), raw[i].1.clone()));
            assert(entries_view(settled@) =~= kept_before.push(rv[i as int]));
        }
        assert(diagnostics_view(diagnostics@) =~= base + conflict_reports(conflicts(rv, i + 1)));
        i += 1;
    }
    Ok(settled)
}

/// The source and the target of each morphism of `chain`.
fn steps_of(chain: &Vec<SchemaMorphism>) -> (steps: Vec<(String, String)>)
    ensures
        entries_view(steps@) == chain_steps(morphisms_view(chain@)),
{
    let mut steps: Vec<(String, String)> = Vec::new();
    let mut i: usize = 0;
    while i < chain.len()
        invariant
            i <= chain.len(),
            steps@.len() == i,
            forall|j: int|
                0 <= j < i ==> (#[trigger] steps@[j]).0@ == chain@[j].source@ && steps@[j].1@
                    == chain@[j].target@,
        decreases chain.len() - i,
    {
        steps.push((chain[i].source.clone(), chain[i].target.clone()));
        i += 1;
    }
    assert(entries_view(steps@) =~= chain_steps(morphisms_view(chain@)));
    steps
}

/// Composes `chain`, which leaves from the schema `source`, into one map.
///
/// The map starts as the attribute map of the first morphism, or as the
/// identity on the attributes of `source` where the chain is empty. Each
/// further morphism renames its values and drops the entries whose value it
/// does not rename. Of entries with one target the first is kept. With
/// `strict` set, the first conflict is an error. Else the conflicts follow
/// the dropped attributes in the diagnostics.
pub fn compose_chain(chain: &Vec<SchemaMorphism>, source: &SchemaObject, strict: bool) -> (outcome:
    Result<(ComposedMap, Vec<Diagnostic>), TransformError>)
    ensures
        outcome is Err <==> strict && composition_conflicts(
            morphisms_view(chain@),
            source@.attributes,
        ).len() > 0,
        outcome matches Err(e) ==> e@ == (ErrorView::CompositionConflict {
            target_attribute: composition_conflicts(
                morphisms_view(chain@),
                source@.attributes,
            )[0].0,
            candidates: composition_conflicts(morphisms_view(chain@), source@.attributes)[0].1,
        }),
        outcome matches Ok(done) ==> done.0@.entries == composed_entries(
            morphisms_view(chain@),
            source@.attributes,
        ) && done.0@.steps == chain_steps(morphisms_view(chain@)) && diagnostics_view(done.1@)
            == composition_diagnostics(morphisms_view(chain@), source@.attributes),
        outcome matches Ok(done) ==> keys_distinct(done.0@.entries) && targets_distinct(
            done.0@.entries,
        ),
{
    let ghost cv = morphisms_view(chain@);
    let ghost av = source@.attributes;
    let mut diagnostics: Vec<Diagnostic> = Vec::new();
    let mut running: Vec<(String, String)>;
    if chain.len() == 0 {
        running = identity_map(&source.attributes);
        proof {
            lemma_identity_settled(av);
            assert(diagnostics_view(diagnostics@) =~= drops(cv));
        }
    } else {
        running = chain[0].attribute_map.to_entries();
        let mut i: usize = 1;
        assert(cv.take(1)[0] == cv[0]);
        assert(diagnostics_view(diagnostics@) =~= drops(cv.take(1)));
        while i < chain.len()
            invariant
                1 <= i <= chain.len(),
                cv == morphisms_view(chain@),
                entries_view(running@) == rewritten(cv.take(i as int)),
                diagnostics_view(diagnostics@) == drops(cv.take(i as int)),
                keys_distinct(entries_view(running@)),
            decreases chain.len() - i,
        {
            assert(cv.take(i + 1).drop_last() =~= cv.take(i as int));
            assert(cv.take(i + 1).last() == cv[i as int]);
            proof {
                lemma_rewrite_keys(entries_view(running@), cv[i as int].attribute_map);
            }
            running = rewrite_through(&running, &chain[i].attribute_map, i, &mut diagnostics);
            i += 1;
        }
        assert(cv.take(chain.len() as int) =~= cv);
    }
    assert(entries_view(running@) == unsettled(cv, av));
    assert(diagnostics_view(diagnostics@) == drops(cv));
    match settle(&running, strict, &mut diagnostics) {
        Err(e) => Err(e),
        Ok(settled) => {
            proof {
                lemma_kept_distinct(unsettled(cv, av), unsettled(cv, av).len() as int);
            }
            let map = ComposedMap {
                entries: AttributeMap::from_entries(settled),
                steps: steps_of(chain),
            };
            Ok((map, diagnostics))
        },
    }
}

} // verus!
