//! The path resolver: the shortest chain of morphisms from one schema to
//! another, found breadth first.
//!
//! A chain is written as the sequence of the positions of its morphisms in
//! the category. Among the chains of least length the resolver returns the
//! one that comes first when chains are compared position by position, which
//! is the one that a breadth-first search meets first when it follows the
//! morphisms of each schema in the order in which they were added.

use vstd::prelude::*;
use vstd::set_lib::*;
use crate::schema::{morphisms_view, MorphismView, SchemaMorphism};

verus! {

/// The schema at which the chain `p` arrives when it leaves from `start`.
pub open spec fn chain_end(ms: Seq<MorphismView>, start: Seq<char>, p: Seq<int>) -> Seq<char> {
    if p.len() == 0 {
        start
    } else {
        ms[p.last()].target
    }
}

/// `p` is a chain that leaves from `start`: it is empty, or it is a chain
/// from `start` followed by a morphism whose source is where that chain
/// arrives.
pub open spec fn is_chain_from(ms: Seq<MorphismView>, start: Seq<char>, p: Seq<int>) -> bool
    decreases p.len(),
{
    p.len() == 0 || {
        &&& is_chain_from(ms, start, p.drop_last())
        &&& 0 <= p.last() < ms.len()
        &&& ms[p.last()].source == chain_end(ms, start, p.drop_last())
    }
}

/// `p` is a chain from `start` to `end`.
pub open spec fn is_chain(
    ms: Seq<MorphismView>,
    start: Seq<char>,
    end: Seq<char>,
    p: Seq<int>,
) -> bool {
    is_chain_from(ms, start, p) && chain_end(ms, start, p) == end
}

/// Some chain leads from `start` to `end`.
pub open spec fn reachable(ms: Seq<MorphismView>, start: Seq<char>, end: Seq<char>) -> bool {
    exists|p: Seq<int>| is_chain(ms, start, end, p)
}

/// `a` and `b` hold the same positions before place `k`.
pub open spec fn agree_before(a: Seq<int>, b: Seq<int>, k: int) -> bool {
    forall|j: int| 0 <= j < k ==> a[j] == b[j]
}

/// At the first place where `a` and `b` differ, `a` holds the earlier morphism.
pub open spec fn lex_less(a: Seq<int>, b: Seq<int>) -> bool {
    exists|k: int| 0 <= k < a.len() && k < b.len() && a[k] < b[k] && #[trigger] agree_before(a, b, k)
}

/// The resolver prefers `a` to `b`: `a` is shorter, or as long and earlier.
pub open spec fn before(a: Seq<int>, b: Seq<int>) -> bool {
    a.len() < b.len() || (a.len() == b.len() && lex_less(a, b))
}

/// `p` is the chain from `start` to `end` that the resolver prefers to every other.
pub open spec fn best_chain(
    ms: Seq<MorphismView>,
    start: Seq<char>,
    end: Seq<char>,
    p: Seq<int>,
) -> bool {
    &&& is_chain(ms, start, end, p)
    &&& forall|q: Seq<int>| #[trigger] is_chain(ms, start, end, q) ==> q == p || before(p, q)
}

/// The chain from `start` to `end` that the resolver returns where one exists.
pub open spec fn chosen_chain(ms: Seq<MorphismView>, start: Seq<char>, end: Seq<char>) -> Seq<int> {
    choose|p: Seq<int>| best_chain(ms, start, end, p)
}

/// The morphisms of `ms` at the positions `p`, in the order of `p`.
pub open spec fn chain_morphisms(ms: Seq<MorphismView>, p: Seq<int>) -> Seq<MorphismView> {
    Seq::new(p.len(), |i: int| ms[p[i]])
}

/// The positions in a chain as mathematical integers.
pub open spec fn positions_view(chain: Seq<usize>) -> Seq<int> {
    Seq::new(chain.len(), |i: int| chain[i] as int)
}

/// Every position in a chain is the position of a morphism.
pub proof fn lemma_chain_positions(ms: Seq<MorphismView>, start: Seq<char>, p: Seq<int>)
    requires
        is_chain_from(ms, start, p),
    ensures
        forall|j: int| 0 <= j < p.len() ==> 0 <= #[trigger] p[j] < ms.len(),
    decreases p.len(),
{
    if p.len() > 0 {
        lemma_chain_positions(ms, start, p.drop_last());
        assert forall|j: int| 0 <= j < p.len() implies 0 <= #[trigger] p[j] < ms.len() by {
            if j < p.len() - 1 {
                assert(p.drop_last()[j] == p[j]);
            }
        }
    }
}

/// Each morphism of a chain leaves from where the chain before it arrives,
/// and each beginning of a chain is a chain.
pub proof fn lemma_chain_links(ms: Seq<MorphismView>, start: Seq<char>, p: Seq<int>, i: int)
    requires
        is_chain_from(ms, start, p),
        0 <= i <= p.len(),
    ensures
        is_chain_from(ms, start, p.take(i)),
        i < p.len() ==> 0 <= p[i] < ms.len() && ms[p[i]].source == chain_end(ms, start, p.take(i)),
    decreases p.len(),
{
    if i == p.len() {
        assert(p.take(i) =~= p);
    } else {
        let front = p.drop_last();
        assert(front.take(i) =~= p.take(i));
        if i == p.len() - 1 {
            assert(front.take(i) =~= front);
        } else {
            lemma_chain_links(ms, start, front, i);
        }
    }
}

/// A chain that passes twice through one schema can be cut short: what lies
/// between the two visits can be left out.
proof fn lemma_chain_shortcut(
    ms: Seq<MorphismView>,
    start: Seq<char>,
    p: Seq<int>,
    a: int,
    b: int,
    upto: int,
)
    requires
        is_chain_from(ms, start, p),
        0 <= a < b <= upto <= p.len(),
        chain_end(ms, start, p.take(a)) == chain_end(ms, start, p.take(b)),
    ensures
        is_chain_from(ms, start, p.take(a) + p.subrange(b, upto)),
        chain_end(ms, start, p.take(a) + p.subrange(b, upto)) == chain_end(ms, start, p.take(upto)),
    decreases upto - b,
{
    let cut = p.take(a) + p.subrange(b, upto);
    if upto == b {
        assert(cut =~= p.take(a));
        lemma_chain_links(ms, start, p, a);
    } else {
        lemma_chain_shortcut(ms, start, p, a, b, upto - 1);
        lemma_chain_links(ms, start, p, upto - 1);
        let before_last = p.take(a) + p.subrange(b, upto - 1);
        assert(cut.drop_last() =~= before_last);
        assert(cut.last() == p[upto - 1]);
        assert(p.take(upto).last() == p[upto - 1]);
    }
}

/// The best chain passes through no schema twice.
pub proof fn lemma_best_chain_is_simple(
    ms: Seq<MorphismView>,
    start: Seq<char>,
    end: Seq<char>,
    p: Seq<int>,
    a: int,
    b: int,
)
    requires
        best_chain(ms, start, end, p),
        0 <= a < b <= p.len(),
    ensures
        chain_end(ms, start, p.take(a)) != chain_end(ms, start, p.take(b)),
{
    if chain_end(ms, start, p.take(a)) == chain_end(ms, start, p.take(b)) {
        let cut = p.take(a) + p.subrange(b, p.len() as int);
        lemma_chain_shortcut(ms, start, p, a, b, p.len() as int);
        assert(p.take(p.len() as int) =~= p);
        assert(is_chain(ms, start, end, cut));
        assert(cut.len() < p.len());
    }
}

/// Of two chains, at most one is preferred to the other.
pub proof fn lemma_before_asymmetric(a: Seq<int>, b: Seq<int>)
    requires
        before(a, b),
    ensures
        !before(b, a),
        a != b,
{
    if a.len() == b.len() {
        let k1 = choose|k: int|
            0 <= k < a.len() && k < b.len() && a[k] < b[k] && #[trigger] agree_before(a, b, k);
        if lex_less(b, a) {
            let k2 = choose|k: int|
                0 <= k < b.len() && k < a.len() && b[k] < a[k] && #[trigger] agree_before(b, a, k);
            if k1 < k2 {
                assert(b[k1] == a[k1]);
            } else if k2 < k1 {
                assert(a[k2] == b[k2]);
            }
        }
    }
}

/// Preference carries over from two steps to one.
pub proof fn lemma_before_transitive(a: Seq<int>, b: Seq<int>, c: Seq<int>)
    requires
        a == b || before(a, b),
        b == c || before(b, c),
    ensures
        a == c || before(a, c),
{
    if a != b && b != c && a.len() == b.len() && b.len() == c.len() {
        let k1 = choose|k: int|
            0 <= k < a.len() && k < b.len() && a[k] < b[k] && #[trigger] agree_before(a, b, k);
        let k2 = choose|k: int|
            0 <= k < b.len() && k < c.len() && b[k] < c[k] && #[trigger] agree_before(b, c, k);
        if k1 <= k2 {
            assert(k1 < k2 ==> b[k1] == c[k1]);
            assert(agree_before(a, c, k1)) by {
                assert forall|j: int| 0 <= j < k1 implies a[j] == c[j] by {
                    assert(a[j] == b[j]);
                    assert(b[j] == c[j]);
                }
            }
        } else {
            assert(a[k2] == b[k2]);
            assert(agree_before(a, c, k2)) by {
                assert forall|j: int| 0 <= j < k2 implies a[j] == c[j] by {
                    assert(a[j] == b[j]);
                    assert(b[j] == c[j]);
                }
            }
        }
    }
}

/// Only one chain can be the best one.
pub proof fn lemma_best_chain_unique(
    ms: Seq<MorphismView>,
    start: Seq<char>,
    end: Seq<char>,
    p: Seq<int>,
    q: Seq<int>,
)
    requires
        best_chain(ms, start, end, p),
        best_chain(ms, start, end, q),
    ensures
        p == q,
{
    if p != q {
        assert(before(p, q));
        assert(before(q, p));
        lemma_before_asymmetric(p, q);
    }
}

/// From a schema to itself the resolver returns the empty chain.
pub proof fn lemma_chain_to_itself(ms: Seq<MorphismView>, a: Seq<char>)
    ensures
        best_chain(ms, a, a, Seq::<int>::empty()),
        chosen_chain(ms, a, a) == Seq::<int>::empty(),
        reachable(ms, a, a),
{
    let none = Seq::<int>::empty();
    assert(is_chain(ms, a, a, none));
    assert forall|q: Seq<int>| #[trigger] is_chain(ms, a, a, q) implies q == none || before(
        none,
        q,
    ) by {
        if q.len() == 0 {
            assert(q =~= none);
        }
    }
    assert(best_chain(ms, a, a, none));
    lemma_best_chain_unique(ms, a, a, none, chosen_chain(ms, a, a));
}

proof fn lemma_lex_extend(a: Seq<int>, b: Seq<int>, x: int, y: int)
    requires
        a.len() == b.len(),
        lex_less(a, b),
    ensures
        lex_less(a.push(x), b.push(y)),
{
    let k = choose|k: int|
        0 <= k < a.len() && k < b.len() && a[k] < b[k] && #[trigger] agree_before(a, b, k);
    assert(agree_before(a.push(x), b.push(y), k)) by {
        assert forall|j: int| 0 <= j < k implies a.push(x)[j] == b.push(y)[j] by {
            assert(a[j] == b[j]);
        }
    }
    assert(a.push(x)[k] < b.push(y)[k]);
}

proof fn lemma_lex_last(a: Seq<int>, x: int, y: int)
    requires
        x < y,
    ensures
        lex_less(a.push(x), a.push(y)),
{
    let k = a.len() as int;
    assert(agree_before(a.push(x), a.push(y), k));
    assert(a.push(x)[k] < a.push(y)[k]);
}

/// What the search has found so far. `paths[j]` is the chain by which the
/// `j`-th schema was discovered and `parents[j]` is the place of the schema
/// from which it was discovered. The schemas before `head` have all their
/// morphisms followed, the one at `head` its morphisms before `edge`. `used`
/// holds the morphisms by which schemas were discovered.
struct Search {
    paths: Seq<Seq<int>>,
    parents: Seq<int>,
    used: Set<int>,
    head: int,
    edge: int,
}

/// The search has discovered the schema `name`.
spec fn discovered(
    ms: Seq<MorphismView>,
    start: Seq<char>,
    paths: Seq<Seq<int>>,
    name: Seq<char>,
) -> bool {
    exists|j: int| 0 <= j < paths.len() && chain_end(ms, start, #[trigger] paths[j]) == name
}

/// No chain from `start` to the schema where `q` arrives is preferred to `q`.
spec fn optimal(ms: Seq<MorphismView>, start: Seq<char>, q: Seq<int>) -> bool {
    forall|p: Seq<int>| #[trigger]
        is_chain_from(ms, start, p) && chain_end(ms, start, p) == chain_end(ms, start, q) ==> p
            == q || before(q, p)
}

/// Each discovered schema but the first hangs below an earlier one.
spec fn tree_shaped(s: Search) -> bool {
    &&& s.paths.len() >= 1
    &&& s.paths.len() == s.parents.len()
    &&& s.paths[0].len() == 0
    &&& 0 <= s.head <= s.paths.len()
    &&& forall|j: int|
        1 <= j < s.paths.len() ==> {
            &&& 0 <= #[trigger] s.parents[j] < j
            &&& s.parents[j] <= s.head
            &&& s.paths[j].len() >= 1
            &&& s.paths[j].drop_last() == s.paths[s.parents[j]]
            &&& (s.parents[j] == s.head ==> s.paths[j].last() < s.edge)
        }
}

/// The morphisms in `used` are as many as the schemas discovered through them.
spec fn used_counted(ms: Seq<MorphismView>, start: Seq<char>, s: Search) -> bool {
    &&& s.used.finite()
    &&& s.used.len() + 1 == s.paths.len()
    &&& forall|x: int| #[trigger]
        s.used.contains(x) ==> 0 <= x < ms.len() && discovered(ms, start, s.paths, ms[x].target)
}

/// What holds between two steps of the search for a chain to `end`.
#[verifier::opaque]
spec fn search_inv(
    ms: Seq<MorphismView>,
    start: Seq<char>,
    end: Seq<char>,
    s: Search,
) -> bool {
    &&& tree_shaped(s)
    &&& used_counted(ms, start, s)
    &&& 0 <= s.edge <= ms.len()
    &&& forall|j: int| 0 <= j < s.paths.len() ==> is_chain_from(ms, start, #[trigger] s.paths[j])
    &&& forall|j: int|
        0 <= j < s.paths.len() ==> chain_end(ms, start, #[trigger] s.paths[j]) != end
    &&& forall|i: int, j: int|
        0 <= i < j < s.paths.len() ==> chain_end(ms, start, #[trigger] s.paths[i]) != chain_end(
            ms,
            start,
            #[trigger] s.paths[j],
        )
    &&& forall|i: int, j: int|
        0 <= i < j < s.paths.len() ==> before(#[trigger] s.paths[i], #[trigger] s.paths[j])
    &&& forall|j: int| 0 <= j < s.paths.len() ==> optimal(ms, start, #[trigger] s.paths[j])
    &&& forall|i: int, m: int|
        0 <= i < s.paths.len() && 0 <= m < ms.len() && (i < s.head || (i == s.head && m < s.edge))
            && (#[trigger] ms[m]).source == chain_end(ms, start, #[trigger] s.paths[i])
            ==> discovered(ms, start, s.paths, ms[m].target)
}

/// The state in which the search sets out.
spec fn initial_search() -> Search {
    Search {
        paths: seq![Seq::<int>::empty()],
        parents: seq![0int],
        used: Set::<int>::empty(),
        head: 0,
        edge: 0,
    }
}

/// The state after the morphism at `s.edge` was passed over.
spec fn skip_edge(s: Search) -> Search {
    Search { edge: s.edge + 1, ..s }
}

/// The state after the morphism at `s.edge` led to a schema not seen before.
spec fn take_edge(s: Search) -> Search {
    Search {
        paths: s.paths.push(s.paths[s.head].push(s.edge)),
        parents: s.parents.push(s.head),
        used: s.used.insert(s.edge),
        head: s.head,
        edge: s.edge + 1,
    }
}

/// The state after all morphisms of the schema at `s.head` were followed.
spec fn next_head(s: Search) -> Search {
    Search { head: s.head + 1, edge: 0, ..s }
}

proof fn lemma_initial(ms: Seq<MorphismView>, start: Seq<char>, end: Seq<char>)
    requires
        start != end,
    ensures
        search_inv(ms, start, end, initial_search()),
{
    reveal(search_inv);
    let s = initial_search();
    assert(s.paths[0] =~= Seq::<int>::empty());
    assert(optimal(ms, start, s.paths[0])) by {
        assert forall|p: Seq<int>| #[trigger]
            is_chain_from(ms, start, p) && chain_end(ms, start, p) == chain_end(
                ms,
                start,
                s.paths[0],
            ) implies p == s.paths[0] || before(s.paths[0], p) by {
            if p.len() == 0 {
                assert(p =~= s.paths[0]);
            }
        }
    }
}

/// A chain to a schema that the search has not discovered leaves the
/// discovered schemas by a morphism that the search has yet to follow.
/// The result is the place of that morphism in `p` and the place of the
/// schema that it leaves.
proof fn lemma_frontier(
    ms: Seq<MorphismView>,
    start: Seq<char>,
    end: Seq<char>,
    s: Search,
    p: Seq<int>,
) -> (r: (int, int))
    requires
        search_inv(ms, start, end, s),
        is_chain_from(ms, start, p),
        !discovered(ms, start, s.paths, chain_end(ms, start, p)),
    ensures
        0 <= r.0 < p.len(),
        0 <= r.1 < s.paths.len(),
        is_chain_from(ms, start, p.take(r.0)),
        chain_end(ms, start, p.take(r.0)) == chain_end(ms, start, s.paths[r.1]),
        p.take(r.0) == s.paths[r.1] || before(s.paths[r.1], p.take(r.0)),
        r.1 > s.head || (r.1 == s.head && p[r.0] >= s.edge),
    decreases p.len(),
{
    reveal(search_inv);
    if p.len() == 0 {
        assert(chain_end(ms, start, s.paths[0]) == start);
        assert(false);
    }
    let q = p.drop_last();
    let m = p.last();
    assert(q =~= p.take(p.len() - 1));
    if discovered(ms, start, s.paths, chain_end(ms, start, q)) {
        let i = choose|j: int|
            0 <= j < s.paths.len() && chain_end(ms, start, #[trigger] s.paths[j]) == chain_end(
                ms,
                start,
                q,
            );
        assert(ms[m].source == chain_end(ms, start, s.paths[i]));
        assert(optimal(ms, start, s.paths[i]));
        assert(is_chain_from(ms, start, q));
        assert(q == s.paths[i] || before(s.paths[i], q));
        (p.len() - 1, i)
    } else {
        let (k, i) = lemma_frontier(ms, start, end, s, q);
        assert(q.take(k) =~= p.take(k));
        (k, i)
    }
}

/// The chain that the search is about to add is preferred to every other
/// chain to the same schema.
proof fn lemma_new_path_optimal(
    ms: Seq<MorphismView>,
    start: Seq<char>,
    end: Seq<char>,
    s: Search,
    p: Seq<int>,
)
    requires
        search_inv(ms, start, end, s),
        s.head < s.paths.len(),
        s.edge < ms.len(),
        ms[s.edge].source == chain_end(ms, start, s.paths[s.head]),
        !discovered(ms, start, s.paths, ms[s.edge].target),
        is_chain_from(ms, start, p),
        chain_end(ms, start, p) == ms[s.edge].target,
    ensures
        p == s.paths[s.head].push(s.edge) || before(s.paths[s.head].push(s.edge), p),
{
    let cur = s.paths[s.head];
    let new = cur.push(s.edge);
    let (k, i) = lemma_frontier(ms, start, end, s, p);
    let q = p.take(k);
    assert(cur == s.paths[i] || before(cur, s.paths[i])) by {
        reveal(search_inv);
    }
    lemma_before_transitive(cur, s.paths[i], q);
    if cur.len() == k && k + 1 == p.len() {
        assert(p =~= q.push(p[k]));
        if cur == q {
            assert(i == s.head) by {
                reveal(search_inv);
            }
            if p[k] == s.edge {
                assert(p =~= new);
            } else {
                lemma_lex_last(cur, s.edge, p[k]);
            }
        } else {
            lemma_lex_extend(cur, q, s.edge, p[k]);
        }
    }
}

proof fn lemma_skip_edge(ms: Seq<MorphismView>, start: Seq<char>, end: Seq<char>, s: Search)
    requires
        search_inv(ms, start, end, s),
        s.head < s.paths.len(),
        s.edge < ms.len(),
        ms[s.edge].source == chain_end(ms, start, s.paths[s.head]) ==> discovered(
            ms,
            start,
            s.paths,
            ms[s.edge].target,
        ),
    ensures
        search_inv(ms, start, end, skip_edge(s)),
{
    reveal(search_inv);
    let t = skip_edge(s);
    assert(tree_shaped(t));
    assert(used_counted(ms, start, t));
}

proof fn lemma_next_head(ms: Seq<MorphismView>, start: Seq<char>, end: Seq<char>, s: Search)
    requires
        search_inv(ms, start, end, s),
        s.head < s.paths.len(),
        s.edge == ms.len(),
    ensures
        search_inv(ms, start, end, next_head(s)),
{
    reveal(search_inv);
    let t = next_head(s);
    assert(tree_shaped(t));
    assert(used_counted(ms, start, t));
}

proof fn lemma_take_edge(ms: Seq<MorphismView>, start: Seq<char>, end: Seq<char>, s: Search)
    requires
        search_inv(ms, start, end, s),
        s.head < s.paths.len(),
        s.edge < ms.len(),
        ms[s.edge].source == chain_end(ms, start, s.paths[s.head]),
        !discovered(ms, start, s.paths, ms[s.edge].target),
        ms[s.edge].target != end,
    ensures
        search_inv(ms, start, end, take_edge(s)),
        s.paths.len() <= ms.len(),
{
    let t = take_edge(s);
    let cur = s.paths[s.head];
    let new = cur.push(s.edge);
    let n = s.paths.len() as int;
    assert(new.drop_last() =~= cur);
    assert(chain_end(ms, start, new) == ms[s.edge].target);
    assert forall|j: int| 0 <= j < n implies #[trigger] t.paths[j] == s.paths[j] by {}
    assert(t.paths[n] == new);

    assert(is_chain_from(ms, start, new)) by {
        reveal(search_inv);
    }
    assert(optimal(ms, start, new)) by {
        assert forall|p: Seq<int>| #[trigger]
            is_chain_from(ms, start, p) && chain_end(ms, start, p) == chain_end(
                ms,
                start,
                new,
            ) implies p == new || before(new, p) by {
            lemma_new_path_optimal(ms, start, end, s, p);
        }
    }
    assert forall|name: Seq<char>| discovered(ms, start, s.paths, name) implies discovered(
        ms,
        start,
        t.paths,
        name,
    ) by {
        let j = choose|j: int|
            0 <= j < s.paths.len() && chain_end(ms, start, #[trigger] s.paths[j]) == name;
        assert(chain_end(ms, start, t.paths[j]) == name);
    }
    assert(discovered(ms, start, t.paths, ms[s.edge].target)) by {
        assert(chain_end(ms, start, t.paths[n]) == ms[s.edge].target);
    }
    assert(tree_shaped(t)) by {
        reveal(search_inv);
        assert forall|j: int| 1 <= j < t.paths.len() implies {
            &&& 0 <= #[trigger] t.parents[j] < j
            &&& t.parents[j] <= t.head
            &&& t.paths[j].len() >= 1
            &&& t.paths[j].drop_last() == t.paths[t.parents[j]]
            &&& (t.parents[j] == t.head ==> t.paths[j].last() < t.edge)
        } by {
            if j < n {
                assert(t.parents[j] == s.parents[j]);
            }
        }
    }
    assert(used_counted(ms, start, t) && s.paths.len() <= ms.len()) by {
        reveal(search_inv);
        assert(!s.used.contains(s.edge));
        assert forall|x: int| #[trigger] t.used.contains(x) implies 0 <= x < ms.len()
            && discovered(ms, start, t.paths, ms[x].target) by {}
        assert(t.used.subset_of(set_int_range(0, ms.len() as int)));
        lemma_int_range(0, ms.len() as int);
        lemma_len_subset(t.used, set_int_range(0, ms.len() as int));
    }
    assert forall|i: int, j: int| 0 <= i < j < t.paths.len() implies chain_end(
        ms,
        start,
        #[trigger] t.paths[i],
    ) != chain_end(ms, start, #[trigger] t.paths[j]) by {
        reveal(search_inv);
        if j == n {
            assert(chain_end(ms, start, s.paths[i]) != ms[s.edge].target);
        }
    }
    assert forall|i: int, j: int| 0 <= i < j < t.paths.len() implies before(
        #[trigger] t.paths[i],
        #[trigger] t.paths[j],
    ) by {
        reveal(search_inv);
        if j == n {
            let a = s.paths[i];
            if i >= 1 {
                let pi = s.parents[i];
                assert(a =~= s.paths[pi].push(a.last()));
                if pi < s.head {
                    assert(before(s.paths[pi], cur));
                    if s.paths[pi].len() == cur.len() {
                        lemma_lex_extend(s.paths[pi], cur, a.last(), s.edge);
                    }
                } else {
                    lemma_lex_last(cur, a.last(), s.edge);
                }
            }
        }
    }
    assert forall|i: int, m: int|
        0 <= i < t.paths.len() && 0 <= m < ms.len() && (i < t.head || (i == t.head && m < t.edge))
            && (#[trigger] ms[m]).source == chain_end(
            ms,
            start,
            #[trigger] t.paths[i],
        ) implies discovered(ms, start, t.paths, ms[m].target) by {
        reveal(search_inv);
        if !(i == s.head && m == s.edge) {
            assert(discovered(ms, start, s.paths, ms[m].target));
        }
    }
    assert(search_inv(ms, start, end, t)) by {
        reveal(search_inv);
    }
}

/// A morphism from the schema at `s.head` to `end` completes the best chain.
proof fn lemma_found(ms: Seq<MorphismView>, start: Seq<char>, end: Seq<char>, s: Search)
    requires
        search_inv(ms, start, end, s),
        s.head < s.paths.len(),
        s.edge < ms.len(),
        ms[s.edge].source == chain_end(ms, start, s.paths[s.head]),
        ms[s.edge].target == end,
    ensures
        best_chain(ms, start, end, s.paths[s.head].push(s.edge)),
{
    let new = s.paths[s.head].push(s.edge);
    assert(new.drop_last() =~= s.paths[s.head]);
    assert(is_chain_from(ms, start, new) && !discovered(ms, start, s.paths, end)) by {
        reveal(search_inv);
    }
    assert forall|q: Seq<int>| #[trigger] is_chain(ms, start, end, q) implies q == new || before(
        new,
        q,
    ) by {
        lemma_new_path_optimal(ms, start, end, s, q);
    }
}

/// Once the morphisms of every discovered schema are followed, no chain
/// leads to `end`.
proof fn lemma_exhausted(ms: Seq<MorphismView>, start: Seq<char>, end: Seq<char>, s: Search)
    requires
        search_inv(ms, start, end, s),
        s.head == s.paths.len(),
    ensures
        !reachable(ms, start, end),
{
    assert forall|p: Seq<int>| !is_chain(ms, start, end, p) by {
        if is_chain(ms, start, end, p) {
            assert(!discovered(ms, start, s.paths, end)) by {
                reveal(search_inv);
            }
            let (k, i) = lemma_frontier(ms, start, end, s, p);
        }
    }
}

/// What the vectors of the search hold: for each discovered schema but the
/// first, the morphism that led to it and the place of the schema it left.
spec fn recorded(links: Seq<usize>, parent: Seq<usize>, s: Search) -> bool {
    &&& links.len() == s.paths.len()
    &&& parent.len() == s.paths.len()
    &&& s.paths.len() >= 1
    &&& s.paths[0].len() == 0
    &&& forall|j: int|
        1 <= j < links.len() ==> {
            &&& (#[trigger] parent[j]) < j
            &&& s.paths[j].len() >= 1
            &&& s.paths[j].last() == links[j]
            &&& s.paths[j].drop_last() == s.paths[parent[j] as int]
        }
}

proof fn lemma_recorded_take(links: Seq<usize>, parent: Seq<usize>, s: Search, edge: usize, head: usize)
    requires
        recorded(links, parent, s),
        s.head == head,
        s.edge == edge,
        head < links.len(),
    ensures
        recorded(links.push(edge), parent.push(head), take_edge(s)),
{
    let t = take_edge(s);
    let n = links.len() as int;
    let new_links = links.push(edge);
    let new_parent = parent.push(head);
    let cur = s.paths[s.head];
    assert(cur.push(s.edge).drop_last() =~= cur);
    assert(t.paths[0] == s.paths[0]);
    assert forall|j: int| 1 <= j < new_links.len() implies {
        &&& (#[trigger] new_parent[j]) < j
        &&& t.paths[j].len() >= 1
        &&& t.paths[j].last() == new_links[j]
        &&& t.paths[j].drop_last() == t.paths[new_parent[j] as int]
    } by {
        if j < n {
            assert(new_parent[j] == parent[j]);
            assert(t.paths[j] == s.paths[j]);
            assert(t.paths[parent[j] as int] == s.paths[parent[j] as int]);
        } else {
            assert(t.paths[j] == cur.push(s.edge));
            assert(t.paths[head as int] == cur);
        }
    }
}

/// Whether the search has discovered the schema `name`.
fn is_discovered(
    morphisms: &Vec<SchemaMorphism>,
    start: &String,
    links: &Vec<usize>,
    name: &String,
    Ghost(parent): Ghost<Seq<usize>>,
    Ghost(s): Ghost<Search>,
) -> (found: bool)
    requires
        recorded(links@, parent, s),
        forall|j: int| 1 <= j < links@.len() ==> (#[trigger] links@[j]) < morphisms@.len(),
    ensures
        found == discovered(morphisms_view(morphisms@), start@, s.paths, name@),
{
    let ghost ms = morphisms_view(morphisms@);
    if *start == *name {
        assert(chain_end(ms, start@, s.paths[0]) == name@);
        return true;
    }
    let mut j: usize = 1;
    while j < links.len()
        invariant
            1 <= j <= links.len(),
            ms == morphisms_view(morphisms@),
            recorded(links@, parent, s),
            forall|j: int| 1 <= j < links@.len() ==> (#[trigger] links@[j]) < morphisms@.len(),
            forall|i: int|
                0 <= i < j ==> (chain_end(ms, start@, #[trigger] s.paths[i]) != name@),
        decreases links.len() - j,
    {
        assert(parent[j as int] < j);
        if morphisms[links[j]].target == *name {
            assert(chain_end(ms, start@, s.paths[j as int]) == name@);
            return true;
        }
        j += 1;
    }
    false
}

/// The chain by which the schema at place `j` was discovered.
fn chain_to(links: &Vec<usize>, parent: &Vec<usize>, j: usize, Ghost(s): Ghost<Search>) -> (chain:
    Vec<usize>)
    requires
        recorded(links@, parent@, s),
        j < links@.len(),
    ensures
        positions_view(chain@) == s.paths[j as int],
{
    let ghost whole = s.paths[j as int];
    let mut reversed: Vec<usize> = Vec::new();
    let mut at: usize = j;
    while at != 0
        invariant
            recorded(links@, parent@, s),
            at < links@.len(),
            whole == s.paths[j as int],
            s.paths[at as int].len() + reversed@.len() == whole.len(),
            s.paths[at as int] == whole.take(s.paths[at as int].len() as int),
            forall|t: int|
                0 <= t < reversed@.len() ==> (#[trigger] reversed@[t]) as int == whole[whole.len()
                    - 1 - t],
        decreases at,
    {
        let ghost here = s.paths[at as int];
        assert(parent@[at as int] < at);
        assert(here.drop_last() =~= whole.take(here.len() - 1));
        reversed.push(links[at]);
        at = parent[at];
    }
    assert(whole =~= whole.take(whole.len() as int));
    let mut chain: Vec<usize> = Vec::new();
    let mut left: usize = reversed.len();
    while left > 0
        invariant
            left <= reversed@.len(),
            reversed@.len() == whole.len(),
            chain@.len() + left == reversed@.len(),
            forall|t: int|
                0 <= t < reversed@.len() ==> (#[trigger] reversed@[t]) as int == whole[whole.len()
                    - 1 - t],
            forall|t: int| 0 <= t < chain@.len() ==> (#[trigger] chain@[t]) as int == whole[t],
        decreases left,
    {
        left -= 1;
        chain.push(reversed[left]);
    }
    assert(positions_view(chain@) =~= whole);
    chain
}

/// The best chain of `morphisms` from `start` to `end`, as the positions of
/// its morphisms, or `None` where no chain leads there. From a schema to
/// itself the chain is empty.
pub fn shortest_chain(morphisms: &Vec<SchemaMorphism>, start: &String, end: &String) -> (found:
    Option<Vec<usize>>)
    ensures
        found is Some <==> reachable(morphisms_view(morphisms@), start@, end@),
        found matches Some(chain) ==> best_chain(
            morphisms_view(morphisms@),
            start@,
            end@,
            positions_view(chain@),
        ),
        start@ == end@ ==> found is Some && found->0@.len() == 0,
{
    let ghost ms = morphisms_view(morphisms@);
    if *start == *end {
        let chain: Vec<usize> = Vec::new();
        proof {
            lemma_chain_to_itself(ms, start@);
            assert(positions_view(chain@) =~= Seq::<int>::empty());
        }
        return Some(chain);
    }
    let mut links: Vec<usize> = Vec::new();
    let mut parent: Vec<usize> = Vec::new();
    links.push(0);
    parent.push(0);
    let ghost mut s = initial_search();
    proof {
        lemma_initial(ms, start@, end@);
    }
    let mut head: usize = 0;
    while head < links.len()
        invariant
            start@ != end@,
            ms == morphisms_view(morphisms@),
            search_inv(ms, start@, end@, s),
            recorded(links@, parent@, s),
            forall|j: int| 1 <= j < links@.len() ==> (#[trigger] links@[j]) < morphisms@.len(),
            s.head == head,
            s.edge == 0,
            head <= links@.len() <= morphisms@.len() + 1,
        decreases morphisms@.len() + 1 - head,
    {
        let mut edge: usize = 0;
        while edge < morphisms.len()
            invariant
                start@ != end@,
                ms == morphisms_view(morphisms@),
                search_inv(ms, start@, end@, s),
                recorded(links@, parent@, s),
                forall|j: int| 1 <= j < links@.len() ==> (#[trigger] links@[j]) < morphisms@.len(),
                s.head == head,
                s.edge == edge,
                head < links@.len() <= morphisms@.len() + 1,
                edge <= morphisms@.len(),
            decreases morphisms@.len() - edge,
        {
            let morphism = &morphisms[edge];
            let leaves_here = if head == 0 {
                morphism.source == *start
            } else {
                assert(parent@[head as int] < head);
                morphism.source == morphisms[links[head]].target
            };
            assert(leaves_here == (ms[edge as int].source == chain_end(
                ms,
                start@,
                s.paths[head as int],
            )));
            if leaves_here {
                if morphism.target == *end {
                    let mut chain = chain_to(&links, &parent, head, Ghost(s));
                    chain.push(edge);
                    proof {
                        lemma_found(ms, start@, end@, s);
                        assert(positions_view(chain@) =~= s.paths[head as int].push(edge as int));
                    }
                    return Some(chain);
                }
                let seen = is_discovered(
                    morphisms,
                    start,
                    &links,
                    &morphism.target,
                    Ghost(parent@),
                    Ghost(s),
                );
                if seen {
                    proof {
                        lemma_skip_edge(ms, start@, end@, s);
                        s = skip_edge(s);
                    }
                } else {
                    proof {
                        lemma_take_edge(ms, start@, end@, s);
                        lemma_recorded_take(links@, parent@, s, edge, head);
                        s = take_edge(s);
                    }
                    links.push(edge);
                    parent.push(head);
                }
            } else {
                proof {
                    lemma_skip_edge(ms, start@, end@, s);
                    s = skip_edge(s);
                }
            }
            edge += 1;
        }
        proof {
            lemma_next_head(ms, start@, end@, s);
            s = next_head(s);
        }
        head += 1;
    }
    proof {
        lemma_exhausted(ms, start@, end@, s);
    }
    None
}

} // verus!
