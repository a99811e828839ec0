use std::collections::VecDeque;
use vstd::arithmetic::power::*;
use vstd::hash_map::StringHashMap;
use vstd::prelude::*;
use vstd::set_lib::lemma_len_subset;

verus! {

/// One row of the `Directory` table as the resolution reads it: the key of the
/// directory, the key of its parent (none for a root directory) and its name.
pub type DirRow = (Seq<char>, Option<Seq<char>>, Seq<char>);

/// `p` is a path of the directory `k`: the names along a chain of rows that starts
/// at a root row and ends at a row of `k`, each row hanging below the one before.
pub open spec fn is_path(rows: Seq<DirRow>, k: Seq<char>, p: Seq<Seq<char>>) -> bool
    decreases p.len(),
{
    &&& p.len() > 0
    &&& exists|i: int|
        #![trigger rows[i]]
        0 <= i < rows.len() && rows[i].0 == k && rows[i].2 == p.last() && match rows[i].1 {
            None => p.len() == 1,
            Some(q) => is_path(rows, q, p.drop_last()),
        }
}

/// The directory `k` can be reached from a root.
pub open spec fn has_path(rows: Seq<DirRow>, k: Seq<char>) -> bool {
    exists|p: Seq<Seq<char>>| is_path(rows, k, p)
}

/// No path is longer than the table: no cycle of parents hangs below a root.
pub open spec fn paths_bounded(rows: Seq<DirRow>) -> bool {
    forall|k: Seq<char>, p: Seq<Seq<char>>| #[trigger] is_path(rows, k, p) ==> p.len() <= rows.len()
}

/// Every directory key occurs in one row only.
pub open spec fn keys_distinct(rows: Seq<DirRow>) -> bool {
    forall|i: int, j: int|
        0 <= i < rows.len() && 0 <= j < rows.len() && i != j ==> #[trigger] rows[i].0 != #[trigger] rows[j].0
}

/// The indices, in order, of the rows among the first `n` whose parent is `p`.
pub open spec fn child_rows(rows: Seq<DirRow>, p: Seq<char>, n: int) -> Seq<usize>
    decreases n,
{
    if n <= 0 {
        seq![]
    } else {
        let prev = child_rows(rows, p, n - 1);
        if rows[n - 1].1 == Some(p) {
            prev.push((n - 1) as usize)
        } else {
            prev
        }
    }
}

proof fn lemma_child_rows(rows: Seq<DirRow>, p: Seq<char>, n: int)
    requires
        0 <= n <= rows.len(),
        rows.len() <= usize::MAX,
    ensures
        child_rows(rows, p, n).len() <= n,
        forall|t: int|
            0 <= t < child_rows(rows, p, n).len() ==> {
                &&& (#[trigger] child_rows(rows, p, n)[t]) < n
                &&& rows[child_rows(rows, p, n)[t] as int].1 == Some(p)
            },
        forall|j: int|
            0 <= j < n && (#[trigger] rows[j]).1 == Some(p) ==> child_rows(rows, p, n).contains(
                j as usize,
            ),
    decreases n,
{
    if n > 0 {
        lemma_child_rows(rows, p, n - 1);
        let prev = child_rows(rows, p, n - 1);
        if rows[n - 1].1 == Some(p) {
            assert forall|j: int|
                0 <= j < n && (#[trigger] rows[j]).1 == Some(p) implies child_rows(
                rows,
                p,
                n,
            ).contains(j as usize) by {
                if j < n - 1 {
                    let t = choose|t: int| 0 <= t < prev.len() && prev[t] == j as usize;
                    assert(child_rows(rows, p, n)[t] == j as usize);
                } else {
                    assert(child_rows(rows, p, n)[prev.len() as int] == j as usize);
                }
            }
        }
    }
}

/// The length of the longest path of `k` that is at most `d` long, or 0 where `k`
/// has no such path.
pub open spec fn deepest(rows: Seq<DirRow>, k: Seq<char>, d: int) -> int
    decreases d,
{
    if d <= 0 {
        0
    } else if exists|p: Seq<Seq<char>>| #[trigger] is_path(rows, k, p) && p.len() == d {
        d
    } else {
        deepest(rows, k, d - 1)
    }
}

proof fn lemma_deepest_at_least(rows: Seq<DirRow>, k: Seq<char>, p: Seq<Seq<char>>, d: int)
    requires
        is_path(rows, k, p),
        p.len() <= d,
    ensures
        deepest(rows, k, d) >= p.len(),
    decreases d,
{
    if d > 0 && !(exists|q: Seq<Seq<char>>| #[trigger] is_path(rows, k, q) && q.len() == d) {
        lemma_deepest_at_least(rows, k, p, d - 1);
    }
}

proof fn lemma_deepest_is_length(rows: Seq<DirRow>, k: Seq<char>, d: int)
    ensures
        0 <= deepest(rows, k, d),
        d >= 0 ==> deepest(rows, k, d) <= d,
        deepest(rows, k, d) > 0 ==> exists|p: Seq<Seq<char>>|
            #[trigger] is_path(rows, k, p) && p.len() == deepest(rows, k, d),
    decreases d,
{
    if d > 0 && !(exists|q: Seq<Seq<char>>| #[trigger] is_path(rows, k, q) && q.len() == d) {
        lemma_deepest_is_length(rows, k, d - 1);
    }
}

/// A row below a reachable directory is reachable by a longer path than the
/// longest one of its parent.
proof fn lemma_child_deeper(rows: Seq<DirRow>, k: Seq<char>, j: int)
    requires
        paths_bounded(rows),
        has_path(rows, k),
        0 <= j < rows.len(),
        rows[j].1 == Some(k),
    ensures
        1 <= deepest(rows, k, rows.len() as int),
        deepest(rows, k, rows.len() as int) + 1 <= deepest(rows, rows[j].0, rows.len() as int),
        deepest(rows, rows[j].0, rows.len() as int) <= rows.len(),
{
    let n = rows.len() as int;
    let p0 = choose|p: Seq<Seq<char>>| is_path(rows, k, p);
    lemma_deepest_at_least(rows, k, p0, n);
    lemma_deepest_is_length(rows, k, n);
    let dk = deepest(rows, k, n);
    let p = choose|p: Seq<Seq<char>>| #[trigger] is_path(rows, k, p) && p.len() == dk;
    let p2 = p.push(rows[j].2);
    assert(p2.drop_last() =~= p);
    assert(is_path(rows, rows[j].0, p2));
    lemma_deepest_at_least(rows, rows[j].0, p2, n);
    lemma_deepest_is_length(rows, rows[j].0, n);
}

/// What a queued key still costs the walk: the fewer rows can hang below it, the less.
pub open spec fn key_weight(rows: Seq<DirRow>, k: Seq<char>) -> int {
    pow(rows.len() + 1int, (rows.len() + 1 - deepest(rows, k, rows.len() as int)) as nat)
}

/// The cost of a queue of keys: the sum of their weights.
pub open spec fn weight(rows: Seq<DirRow>, q: Seq<String>) -> int
    decreases q.len(),
{
    if q.len() == 0 {
        0
    } else {
        key_weight(rows, q[0]@) + weight(rows, q.drop_first())
    }
}

proof fn lemma_weight_push(rows: Seq<DirRow>, q: Seq<String>, x: String)
    ensures
        weight(rows, q.push(x)) == weight(rows, q) + key_weight(rows, x@),
        weight(rows, q) >= 0,
    decreases q.len(),
{
    broadcast use lemma_pow_positive;
    if q.len() > 0 {
        assert(q.push(x).drop_first() =~= q.drop_first().push(x));
        lemma_weight_push(rows, q.drop_first(), x);
    } else {
        assert(q.push(x).drop_first() =~= q);
    }
}

proof fn lemma_weight_nonneg(rows: Seq<DirRow>, q: Seq<String>)
    ensures
        weight(rows, q) >= 0,
    decreases q.len(),
{
    broadcast use lemma_pow_positive;
    if q.len() > 0 {
        lemma_weight_nonneg(rows, q.drop_first());
    }
}

/// `k` stands somewhere in the queue `q`.
pub open spec fn queued(q: Seq<String>, k: Seq<char>) -> bool {
    exists|i: int| 0 <= i < q.len() && (#[trigger] q[i])@ == k
}

/// Every row below `k` has its key in `m`.
pub open spec fn children_known(rows: Seq<DirRow>, m: Map<Seq<char>, Vec<String>>, k: Seq<char>) -> bool {
    forall|j: int| 0 <= j < rows.len() && (#[trigger] rows[j]).1 == Some(k) ==> m.contains_key(rows[j].0)
}

/// A set of keys that holds every root and, with a key, every key below it holds
/// every directory that has a path.
proof fn lemma_closed_holds_paths(
    rows: Seq<DirRow>,
    m: Map<Seq<char>, Vec<String>>,
    k: Seq<char>,
    p: Seq<Seq<char>>,
)
    requires
        is_path(rows, k, p),
        forall|j: int| 0 <= j < rows.len() && (#[trigger] rows[j]).1 is None ==> m.contains_key(rows[j].0),
        forall|g: Seq<char>| #[trigger] m.contains_key(g) ==> children_known(rows, m, g),
    ensures
        m.contains_key(k),
    decreases p.len(),
{
    let i = choose|i: int|
        #![trigger rows[i]]
        0 <= i < rows.len() && rows[i].0 == k && rows[i].2 == p.last() && match rows[i].1 {
            None => p.len() == 1,
            Some(q) => is_path(rows, q, p.drop_last()),
        };
    match rows[i].1 {
        None => {},
        Some(q) => {
            lemma_closed_holds_paths(rows, m, q, p.drop_last());
            assert(children_known(rows, m, q));
        },
    }
}

/// Where every key occurs in one row only, a directory has one path at most.
pub proof fn lemma_path_unique(rows: Seq<DirRow>, k: Seq<char>, p1: Seq<Seq<char>>, p2: Seq<Seq<char>>)
    requires
        keys_distinct(rows),
        is_path(rows, k, p1),
        is_path(rows, k, p2),
    ensures
        p1 == p2,
    decreases p1.len(),
{
    let i1 = choose|i: int|
        #![trigger rows[i]]
        0 <= i < rows.len() && rows[i].0 == k && rows[i].2 == p1.last() && match rows[i].1 {
            None => p1.len() == 1,
            Some(q) => is_path(rows, q, p1.drop_last()),
        };
    let i2 = choose|i: int|
        #![trigger rows[i]]
        0 <= i < rows.len() && rows[i].0 == k && rows[i].2 == p2.last() && match rows[i].1 {
            None => p2.len() == 1,
            Some(q) => is_path(rows, q, p2.drop_last()),
        };
    assert(i1 == i2);
    match rows[i1].1 {
        None => {
            assert(p1 =~= seq![p1.last()]);
            assert(p2 =~= seq![p2.last()]);
        },
        Some(q) => {
            lemma_path_unique(rows, q, p1.drop_last(), p2.drop_last());
            assert(p1 =~= p1.drop_last().push(p1.last()));
            assert(p2 =~= p2.drop_last().push(p2.last()));
        },
    }
}

/// The full path of every directory that a root reaches, each the one path that
/// it has where keys are distinct.
pub open spec fn resolution(rows: Seq<DirRow>) -> Map<Seq<char>, Seq<Seq<char>>> {
    Map::new(|k: Seq<char>| has_path(rows, k), |k: Seq<char>| choose|p: Seq<Seq<char>>| is_path(rows, k, p))
}

/// The paths resolved for each key, each path taken by its view.
pub open spec fn resolved_view(m: Map<Seq<char>, Vec<String>>) -> Map<Seq<char>, Seq<Seq<char>>> {
    m.map_values(|v: Vec<String>| v.deep_view())
}

/// A path over rows that all occur in `b` is a path over `b`.
proof fn lemma_path_in_superset(a: Seq<DirRow>, b: Seq<DirRow>, k: Seq<char>, p: Seq<Seq<char>>)
    requires
        forall|i: int| 0 <= i < a.len() ==> b.contains(#[trigger] a[i]),
        is_path(a, k, p),
    ensures
        is_path(b, k, p),
    decreases p.len(),
{
    let i = choose|i: int|
        #![trigger a[i]]
        0 <= i < a.len() && a[i].0 == k && a[i].2 == p.last() && match a[i].1 {
            None => p.len() == 1,
            Some(q) => is_path(a, q, p.drop_last()),
        };
    assert(b.contains(a[i]));
    let j = choose|j: int| 0 <= j < b.len() && b[j] == a[i];
    match a[i].1 {
        None => {},
        Some(q) => {
            lemma_path_in_superset(a, b, q, p.drop_last());
        },
    }
    assert(b[j].0 == k);
}

/// Resolving the paths does not depend on the order of the rows: two tables that
/// hold the same rows, each as often, have the same paths, the same bound on them,
/// and, where keys are distinct, the same resolution.
pub proof fn lemma_resolution_order_free(a: Seq<DirRow>, b: Seq<DirRow>)
    requires
        a.to_multiset() == b.to_multiset(),
    ensures
        forall|k: Seq<char>, p: Seq<Seq<char>>| is_path(a, k, p) <==> #[trigger] is_path(b, k, p),
        paths_bounded(a) <==> paths_bounded(b),
        keys_distinct(a) ==> resolution(a) == resolution(b),
{
    broadcast use vstd::seq_lib::group_to_multiset_ensures;

    assert forall|i: int| 0 <= i < a.len() implies b.contains(#[trigger] a[i]) by {
        assert(a.to_multiset().count(a[i]) > 0);
    }
    assert forall|i: int| 0 <= i < b.len() implies a.contains(#[trigger] b[i]) by {
        assert(b.to_multiset().count(b[i]) > 0);
    }
    assert(a.len() == b.len()) by {
        assert(a.len() == a.to_multiset().len());
        assert(b.len() == b.to_multiset().len());
    }
    assert forall|k: Seq<char>, p: Seq<Seq<char>>| is_path(a, k, p) <==> #[trigger] is_path(b, k, p) by {
        if is_path(a, k, p) {
            lemma_path_in_superset(a, b, k, p);
        }
        if is_path(b, k, p) {
            lemma_path_in_superset(b, a, k, p);
        }
    }
    if paths_bounded(a) {
        assert forall|k: Seq<char>, p: Seq<Seq<char>>| #[trigger] is_path(b, k, p) implies p.len() <= b.len() by {
            assert(is_path(a, k, p));
        }
    }
    if paths_bounded(b) {
        assert forall|k: Seq<char>, p: Seq<Seq<char>>| #[trigger] is_path(a, k, p) implies p.len() <= a.len() by {
            assert(is_path(b, k, p));
        }
    }
    if keys_distinct(a) {
        assert forall|k: Seq<char>| #[trigger] resolution(a).contains_key(k) implies resolution(
            b,
        ).contains_key(k) && resolution(a)[k] == resolution(b)[k] by {
            let pa = choose|p: Seq<Seq<char>>| is_path(a, k, p);
            assert(is_path(b, k, pa));
            let pb = choose|p: Seq<Seq<char>>| is_path(b, k, p);
            assert(is_path(a, k, pb));
            lemma_path_unique(a, k, pa, pb);
        }
        assert forall|k: Seq<char>| #[trigger] resolution(b).contains_key(k) implies resolution(
            a,
        ).contains_key(k) by {
            let pb = choose|p: Seq<Seq<char>>| is_path(b, k, p);
            assert(is_path(a, k, pb));
        }
        assert(resolution(a) =~= resolution(b));
    }
}

/// The key of each row, in the order of the rows.
pub open spec fn row_keys(rows: Seq<DirRow>) -> Seq<Seq<char>> {
    rows.map_values(|r: DirRow| r.0)
}

/// Some row gives the key `x` the parent `y`.
pub open spec fn hangs_below(rows: Seq<DirRow>, x: Seq<char>, y: Seq<char>) -> bool {
    exists|j: int| 0 <= j < rows.len() && (#[trigger] rows[j]).0 == x && rows[j].1 == Some(y)
}

/// `c` is a chain of keys in which each key hangs, by some row, below the next one.
pub open spec fn parent_chain(rows: Seq<DirRow>, c: Seq<Seq<char>>) -> bool {
    forall|t: int| 0 <= t < c.len() - 1 ==> #[trigger] hangs_below(rows, c[t], c[t + 1])
}

/// No key is its own ancestor: no chain of parents leads from a key back to itself.
pub open spec fn no_self_ancestor(rows: Seq<DirRow>) -> bool {
    forall|c: Seq<Seq<char>>| #[trigger] parent_chain(rows, c) && c.len() >= 2 ==> c[0] != c.last()
}

/// The keys met on a path of `k`, from `k` up to its root, each the key of a row.
proof fn lemma_path_chain(rows: Seq<DirRow>, k: Seq<char>, p: Seq<Seq<char>>) -> (c: Seq<Seq<char>>)
    requires
        is_path(rows, k, p),
    ensures
        c.len() == p.len(),
        c[0] == k,
        parent_chain(rows, c),
        forall|t: int| 0 <= t < c.len() ==> row_keys(rows).contains(#[trigger] c[t]),
    decreases p.len(),
{
    let i = choose|i: int|
        #![trigger rows[i]]
        0 <= i < rows.len() && rows[i].0 == k && rows[i].2 == p.last() && match rows[i].1 {
            None => p.len() == 1,
            Some(q) => is_path(rows, q, p.drop_last()),
        };
    assert(row_keys(rows)[i] == k);
    match rows[i].1 {
        None => {
            let c = seq![k];
            c
        },
        Some(q) => {
            let c1 = lemma_path_chain(rows, q, p.drop_last());
            let c = seq![k] + c1;
            assert forall|t: int| 0 <= t < c.len() - 1 implies #[trigger] hangs_below(
                rows,
                c[t],
                c[t + 1],
            ) by {
                if t == 0 {
                    assert(rows[i].0 == c[0] && rows[i].1 == Some(c[1]));
                } else {
                    assert(c[t] == c1[t - 1]);
                    assert(c[t + 1] == c1[t]);
                    let u = t - 1;
                    assert(hangs_below(rows, c1[u], c1[u + 1]));
                    assert(c1[u + 1] == c1[t]);
                }
            }
            assert forall|t: int| 0 <= t < c.len() implies row_keys(rows).contains(#[trigger] c[t]) by {
                if t > 0 {
                    assert(c[t] == c1[t - 1]);
                }
            }
            c
        },
    }
}

/// Where no key is its own ancestor, no path is longer than the table.
pub proof fn lemma_acyclic_bounded(rows: Seq<DirRow>)
    requires
        no_self_ancestor(rows),
    ensures
        paths_bounded(rows),
{
    broadcast use vstd::seq_lib::seq_to_set_is_finite;

    let ks = row_keys(rows);
    ks.lemma_cardinality_of_set();
    assert forall|k: Seq<char>, p: Seq<Seq<char>>| #[trigger] is_path(rows, k, p) implies p.len()
        <= rows.len() by {
        let c = lemma_path_chain(rows, k, p);
        if c.no_duplicates() {
            c.unique_seq_to_set();
            assert forall|x: Seq<char>| c.to_set().contains(x) implies ks.to_set().contains(x) by {
                let t = choose|t: int| 0 <= t < c.len() && c[t] == x;
                assert(ks.contains(c[t]));
            }
            lemma_len_subset(c.to_set(), ks.to_set());
        } else {
            let (i, j) = choose|i: int, j: int|
                0 <= i < c.len() && 0 <= j < c.len() && i != j && c[i] == c[j];
            let lo = if i < j { i } else { j };
            let hi = if i < j { j } else { i };
            let s = c.subrange(lo, hi + 1);
            assert forall|t: int| 0 <= t < s.len() - 1 implies #[trigger] hangs_below(
                rows,
                s[t],
                s[t + 1],
            ) by {
                assert(s[t] == c[lo + t]);
                assert(s[t + 1] == c[lo + t + 1]);
                assert(hangs_below(rows, c[lo + t], c[lo + t + 1]));
            }
            assert(parent_chain(rows, s));
            assert(s[0] == s.last());
        }
    }
}

/// A table that holds the same rows as another, each as often, keeps its keys
/// distinct and its parents free of cycles.
proof fn lemma_reordered_keeps(a: Seq<DirRow>, b: Seq<DirRow>)
    requires
        a.to_multiset() == b.to_multiset(),
        keys_distinct(a),
        no_self_ancestor(a),
    ensures
        keys_distinct(b),
        no_self_ancestor(b),
{
    broadcast use vstd::seq_lib::group_to_multiset_ensures;

    assert(a.no_duplicates()) by {
        assert forall|i: int, j: int| 0 <= i < a.len() && 0 <= j < a.len() && i != j implies a[i]
            != a[j] by {
            assert(a[i].0 != a[j].0);
        }
    }
    a.lemma_multiset_has_no_duplicates();
    b.lemma_multiset_has_no_duplicates_conv();
    assert forall|i: int| 0 <= i < b.len() implies a.contains(#[trigger] b[i]) by {
        assert(b.to_multiset().count(b[i]) > 0);
    }
    assert forall|i: int| 0 <= i < a.len() implies b.contains(#[trigger] a[i]) by {
        assert(a.to_multiset().count(a[i]) > 0);
    }
    assert forall|i: int, j: int|
        0 <= i < b.len() && 0 <= j < b.len() && i != j implies #[trigger] b[i].0 != #[trigger] b[j].0 by {
        let x = choose|x: int| 0 <= x < a.len() && a[x] == b[i];
        let y = choose|y: int| 0 <= y < a.len() && a[y] == b[j];
        assert(b[i] != b[j]);
    }
    assert forall|c: Seq<Seq<char>>| #[trigger] parent_chain(b, c) && c.len() >= 2 implies c[0]
        != c.last() by {
        lemma_chain_in_superset(b, a, c);
    }
}

/// A chain of parents over rows that all occur in `b` is a chain over `b`.
proof fn lemma_chain_in_superset(a: Seq<DirRow>, b: Seq<DirRow>, c: Seq<Seq<char>>)
    requires
        forall|i: int| 0 <= i < a.len() ==> b.contains(#[trigger] a[i]),
        parent_chain(a, c),
    ensures
        parent_chain(b, c),
{
    assert forall|t: int| 0 <= t < c.len() - 1 implies #[trigger] hangs_below(b, c[t], c[t + 1]) by {
        assert(hangs_below(a, c[t], c[t + 1]));
        let r = choose|r: int| 0 <= r < a.len() && (#[trigger] a[r]).0 == c[t] && a[r].1 == Some(c[t + 1]);
        assert(b.contains(a[r]));
        let x = choose|x: int| 0 <= x < b.len() && b[x] == a[r];
        assert(b[x].0 == c[t]);
    }
}

/// Where keys are distinct and no key is its own ancestor, resolving the paths
/// does not depend on the order of the rows: any reordering of the table has paths
/// no longer than itself, distinct keys, and the same resolution, so that children
/// may come before their parents.
pub proof fn lemma_resolution_reorder(a: Seq<DirRow>, b: Seq<DirRow>)
    requires
        a.to_multiset() == b.to_multiset(),
        keys_distinct(a),
        no_self_ancestor(a),
    ensures
        paths_bounded(a),
        paths_bounded(b),
        keys_distinct(b),
        resolution(a) == resolution(b),
{
    lemma_reordered_keeps(a, b);
    lemma_acyclic_bounded(a);
    lemma_acyclic_bounded(b);
    lemma_resolution_order_free(a, b);
}

/// Where every key occurs in one row only, the path of a directory below another
/// is the path of its parent followed by its own name.
pub proof fn lemma_path_extends_parent(rows: Seq<DirRow>, j: int, p: Seq<Seq<char>>)
    requires
        keys_distinct(rows),
        0 <= j < rows.len(),
        rows[j].1 is Some,
        is_path(rows, rows[j].1->0, p),
    ensures
        is_path(rows, rows[j].0, p.push(rows[j].2)),
        forall|q: Seq<Seq<char>>| #[trigger] is_path(rows, rows[j].0, q) ==> q == p.push(rows[j].2),
{
    let p2 = p.push(rows[j].2);
    assert(p2.drop_last() =~= p);
    assert(is_path(rows, rows[j].0, p2));
    assert forall|q: Seq<Seq<char>>| #[trigger] is_path(rows, rows[j].0, q) implies q == p2 by {
        lemma_path_unique(rows, rows[j].0, q, p2);
    }
}

/// The children recorded for `p` in the child index, none where it has no entry.
pub open spec fn kids_of(tree: Map<Seq<char>, Vec<usize>>, p: Seq<char>) -> Seq<usize> {
    if tree.contains_key(p) {
        tree[p]@
    } else {
        Seq::<usize>::empty()
    }
}

/// Builds, in one pass over the rows, the first name of every root, the queue of
/// roots in the order in which they first appear, and the children of each key.
fn collect_roots(rows: &Vec<(String, Option<String>, String)>) -> (out: (
    StringHashMap<Vec<String>>,
    VecDeque<String>,
    StringHashMap<Vec<usize>>,
))
    ensures
        forall|k: Seq<char>|
            #![trigger out.0@.contains_key(k)]
            out.0@.contains_key(k) ==> is_path(rows.deep_view(), k, out.0@[k].deep_view()),
        forall|i: int|
            0 <= i < out.1@.len() ==> out.0@.contains_key((#[trigger] out.1@[i])@),
        forall|k: Seq<char>|
            #![trigger out.0@.contains_key(k)]
            out.0@.contains_key(k) ==> exists|i: int|
                0 <= i < out.1@.len() && (#[trigger] out.1@[i])@ == k,
        forall|j: int|
            0 <= j < rows.len() && (#[trigger] rows.deep_view()[j]).1 is None
                ==> out.0@.contains_key(rows.deep_view()[j].0),
        forall|p: Seq<char>|
            #[trigger] child_rows(rows.deep_view(), p, rows.len() as int) == kids_of(out.2@, p),
{
    let ghost rv = rows.deep_view();
    let mut res: StringHashMap<Vec<String>> = StringHashMap::new();
    let mut queue: VecDeque<String> = VecDeque::new();
    let mut tree: StringHashMap<Vec<usize>> = StringHashMap::new();
    let n = rows.len();
    let mut idx: usize = 0;
    while idx < n
        invariant
            idx <= n,
            n == rows.len(),
            rv == rows.deep_view(),
            forall|k: Seq<char>|
                #![trigger res@.contains_key(k)]
                res@.contains_key(k) ==> is_path(rv, k, res@[k].deep_view()),
            forall|i: int| 0 <= i < queue@.len() ==> res@.contains_key((#[trigger] queue@[i])@),
            forall|k: Seq<char>|
                #![trigger res@.contains_key(k)]
                res@.contains_key(k) ==> exists|i: int|
                    0 <= i < queue@.len() && (#[trigger] queue@[i])@ == k,
            forall|j: int|
                0 <= j < idx && (#[trigger] rv[j]).1 is None ==> res@.contains_key(rv[j].0),
            forall|p: Seq<char>|
                #[trigger] child_rows(rv, p, idx as int) == kids_of(tree@, p),
        decreases n - idx,
    {
        let row = &rows[idx];
        assert(rv[idx as int] == (row.0@, row.1.deep_view(), row.2@));
        let ghost old_tree = tree@;
        let ghost old_res = res@;
        let ghost old_queue = queue@;
        match &row.1 {
            Some(parent) => {
                let mut kids: Vec<usize> = match tree.get(parent.as_str()) {
                    Some(v) => {
                        let c = v.clone();
                        assert(c@ =~= v@);
                        c
                    },
                    None => Vec::new(),
                };
                assert(kids@ == kids_of(old_tree, parent@));
                kids.push(idx);
                assert(rv[idx as int].1 == Some(parent@));
                assert(child_rows(rv, parent@, idx + 1) == child_rows(rv, parent@, idx as int).push(idx));
                tree.insert(parent.clone(), kids);
                assert forall|p: Seq<char>|
                    #[trigger] child_rows(rv, p, idx + 1) == kids_of(tree@, p) by {
                    assert(child_rows(rv, p, idx as int) == kids_of(old_tree, p));
                }
            },
            None => {
                if !res.contains_key(row.0.as_str()) {
                    queue.push_back(row.0.clone());
                }
                let mut path: Vec<String> = Vec::new();
                path.push(row.2.clone());
                res.insert(row.0.clone(), path);
                proof {
                    let p = res@[row.0@].deep_view();
                    assert(p =~= seq![row.2@]);
                    assert(p.last() == rv[idx as int].2);
                    assert(is_path(rv, row.0@, p));
                }
                if !tree.contains_key(row.0.as_str()) {
                    tree.insert(row.0.clone(), Vec::new());
                }
                assert forall|p: Seq<char>|
                    #[trigger] child_rows(rv, p, idx + 1) == kids_of(tree@, p) by {
                    assert(child_rows(rv, p, idx as int) == kids_of(old_tree, p));
                }
                assert forall|k: Seq<char>|
                    #![trigger res@.contains_key(k)]
                    res@.contains_key(k) implies exists|i: int|
                        0 <= i < queue@.len() && (#[trigger] queue@[i])@ == k by {
                    if k != row.0@ || old_res.contains_key(k) {
                        assert(old_res.contains_key(k));
                        let i = choose|i: int| 0 <= i < old_queue.len() && (#[trigger] old_queue[i])@ == k;
                        assert(queue@[i] == old_queue[i]);
                    } else {
                        assert(queue@[queue@.len() - 1]@ == k);
                    }
                }
            },
        }
        idx = idx + 1;
    }
    let out = (res, queue, tree);
    assert forall|k: Seq<char>|
        #![trigger out.0@.contains_key(k)]
        out.0@.contains_key(k) implies exists|i: int|
            0 <= i < out.1@.len() && (#[trigger] out.1@[i])@ == k by {
        assert(res@.contains_key(k));
        let i = choose|i: int| 0 <= i < queue@.len() && (#[trigger] queue@[i])@ == k;
        assert(out.1@[i] == queue@[i]);
    }
    out
}


/// Resolves the full path of each directory of a `Directory` table.
///
/// Each row holds a directory's key, its parent's key (none for a root) and its
/// name. A root's path is its name; the path of any other directory is its
/// parent's path followed by its own name. The walk starts at the roots, in the
/// order in which they first appear, and goes down breadth first; a directory that
/// no root reaches gets no entry.
pub fn dir_resolve(rows: &Vec<(String, Option<String>, String)>) -> (res: StringHashMap<Vec<String>>)
    requires
        paths_bounded(rows.deep_view()),
    ensures
        forall|k: Seq<char>| #[trigger] res@.contains_key(k) <==> has_path(rows.deep_view(), k),
        forall|k: Seq<char>|
            #[trigger] res@.contains_key(k) ==> is_path(rows.deep_view(), k, res@[k].deep_view()),
        keys_distinct(rows.deep_view()) ==> forall|k: Seq<char>, p: Seq<Seq<char>>|
            #[trigger] is_path(rows.deep_view(), k, p) ==> res@.contains_key(k) && res@[k].deep_view() == p,
        keys_distinct(rows.deep_view()) ==> resolved_view(res@) == resolution(rows.deep_view()),
{
    let ghost rv = rows.deep_view();
    let n = rows.len();
    let (mut res, mut queue, tree) = collect_roots(rows);
    proof {
        assert forall|g: Seq<char>| #[trigger] res@.contains_key(g) implies queued(queue@, g)
            || children_known(rv, res@, g) by {
            let i = choose|i: int| 0 <= i < queue@.len() && (#[trigger] queue@[i])@ == g;
        }
        lemma_weight_nonneg(rv, queue@);
    }
    loop
        invariant
            rv == rows.deep_view(),
            n == rows.len(),
            paths_bounded(rv),
            forall|k: Seq<char>|
                #![trigger res@.contains_key(k)]
                res@.contains_key(k) ==> is_path(rv, k, res@[k].deep_view()),
            forall|i: int| 0 <= i < queue@.len() ==> res@.contains_key((#[trigger] queue@[i])@),
            forall|j: int|
                0 <= j < n && (#[trigger] rv[j]).1 is None ==> res@.contains_key(rv[j].0),
            forall|p: Seq<char>| #[trigger] child_rows(rv, p, n as int) == kids_of(tree@, p),
            forall|g: Seq<char>|
                #[trigger] res@.contains_key(g) ==> queued(queue@, g) || children_known(rv, res@, g),
            weight(rv, queue@) >= 0,
        ensures
            forall|k: Seq<char>|
                #![trigger res@.contains_key(k)]
                res@.contains_key(k) ==> is_path(rv, k, res@[k].deep_view()),
            forall|j: int|
                0 <= j < n && (#[trigger] rv[j]).1 is None ==> res@.contains_key(rv[j].0),
            forall|g: Seq<char>| #[trigger] res@.contains_key(g) ==> children_known(rv, res@, g),
        decreases weight(rv, queue@),
    {
        let ghost before = queue@;
        match queue.pop_front() {
            None => {
                assert forall|g: Seq<char>| #[trigger] res@.contains_key(g) implies children_known(
                    rv,
                    res@,
                    g,
                ) by {
                    assert(!queued(queue@, g));
                }
                break;
            },
            Some(key) => {
                let ghost rest = queue@;
                proof {
                    assert(before.drop_first() =~= rest);
                    assert(res@.contains_key(before[0]@));
                    lemma_weight_push(rv, rest, key);
                    assert forall|g: Seq<char>|
                        #[trigger] res@.contains_key(g) implies g == key@ || queued(queue@, g)
                            || children_known(rv, res@, g) by {
                        if g != key@ && queued(before, g) {
                            let i = choose|i: int| 0 <= i < before.len() && (#[trigger] before[i])@ == g;
                            assert(queue@[i - 1] == before[i]);
                        }
                    }
                }
                if let Some(found) = res.get(key.as_str()) {
                    let base: Vec<String> = found.clone();
                    assert(base.deep_view() =~= found.deep_view());
                    let kids: Vec<usize> = match tree.get(key.as_str()) {
                        Some(v) => {
                            let c = v.clone();
                            assert(c@ =~= v@);
                            c
                        },
                        None => Vec::new(),
                    };
                    let ghost dk = deepest(rv, key@, n as int);
                    let ghost e = pow(n + 1int, (n - dk) as nat);
                    proof {
                        assert(kids@ == child_rows(rv, key@, n as int));
                        lemma_child_rows(rv, key@, n as int);
                        assert(has_path(rv, key@));
                        lemma_deepest_is_length(rv, key@, n as int);
                        let p0 = choose|p: Seq<Seq<char>>| is_path(rv, key@, p);
                        lemma_deepest_at_least(rv, key@, p0, n as int);
                        lemma_pow_positive(n + 1int, (n - dk) as nat);
                    }
                    let mut t: usize = 0;
                    while t < kids.len()
                        invariant
                            rv == rows.deep_view(),
                            n == rows.len(),
                            paths_bounded(rv),
                            forall|k: Seq<char>|
                                #![trigger res@.contains_key(k)]
                                res@.contains_key(k) ==> is_path(rv, k, res@[k].deep_view()),
                            forall|i: int|
                                0 <= i < queue@.len() ==> res@.contains_key((#[trigger] queue@[i])@),
                            forall|j: int|
                                0 <= j < n && (#[trigger] rv[j]).1 is None ==> res@.contains_key(
                                    rv[j].0,
                                ),
                            forall|p: Seq<char>|
                                #[trigger] child_rows(rv, p, n as int) == kids_of(tree@, p),
                            forall|g: Seq<char>|
                                #[trigger] res@.contains_key(g) ==> g == key@ || queued(queue@, g)
                                    || children_known(rv, res@, g),
                            is_path(rv, key@, base.deep_view()),
                            kids@ == child_rows(rv, key@, n as int),
                            kids@.len() <= n,
                            forall|u: int|
                                0 <= u < kids@.len() ==> {
                                    &&& (#[trigger] kids@[u]) < n
                                    &&& rv[kids@[u] as int].1 == Some(key@)
                                },
                            t <= kids.len(),
                            forall|u: int|
                                0 <= u < t ==> res@.contains_key(rv[(#[trigger] kids@[u]) as int].0),
                            dk == deepest(rv, key@, n as int),
                            1 <= dk <= n,
                            e == pow(n + 1int, (n - dk) as nat),
                            e > 0,
                            weight(rv, queue@) >= 0,
                            weight(rv, queue@) <= weight(rv, rest) + t * e,
                        decreases kids.len() - t,
                    {
                        let j = kids[t];
                        let row = &rows[j];
                        assert(rv[j as int] == (row.0@, row.1.deep_view(), row.2@));
                        let mut path: Vec<String> = base.clone();
                        assert(path.deep_view() =~= base.deep_view());
                        path.push(row.2.clone());
                        let ghost old_queue = queue@;
                        proof {
                            let pv = path.deep_view();
                            assert(pv =~= base.deep_view().push(row.2@));
                            assert(pv.drop_last() =~= base.deep_view());
                            assert(is_path(rv, row.0@, pv));
                            lemma_child_deeper(rv, key@, j as int);
                            let dc = deepest(rv, row.0@, n as int);
                            lemma_pow_increases((n + 1) as nat, (n + 1 - dc) as nat, (n - dk) as nat);
                            lemma_weight_push(rv, queue@, row.0);
                            assert((t + 1) * e == t * e + e) by (nonlinear_arith);
                        }
                        queue.push_back(row.0.clone());
                        res.insert(row.0.clone(), path);
                        proof {
                            lemma_weight_nonneg(rv, queue@);
                            assert forall|g: Seq<char>|
                                #[trigger] res@.contains_key(g) implies g == key@ || queued(
                                    queue@,
                                    g,
                                ) || children_known(rv, res@, g) by {
                                if g == row.0@ {
                                    assert(queue@[queue@.len() - 1]@ == g);
                                } else if g != key@ {
                                    if queued(old_queue, g) {
                                        let i = choose|i: int|
                                            0 <= i < old_queue.len() && (#[trigger] old_queue[i])@ == g;
                                        assert(queue@[i] == old_queue[i]);
                                    }
                                }
                            }
                        }
                        t = t + 1;
                    }
                    proof {
                        assert forall|j: int|
                            0 <= j < rv.len() && (#[trigger] rv[j]).1 == Some(key@) implies res@.contains_key(
                            rv[j].0,
                        ) by {
                            assert(kids@.contains(j as usize));
                            let u = choose|u: int| 0 <= u < kids@.len() && kids@[u] == j as usize;
                            assert(res@.contains_key(rv[kids@[u] as int].0));
                        }
                        assert(children_known(rv, res@, key@));
                        assert(kids@.len() * e <= n * e) by (nonlinear_arith)
                            requires
                                kids@.len() <= n,
                                e > 0,
                        ;
                        lemma_pow_adds(n + 1int, (n - dk) as nat, 1);
                        lemma_pow1(n + 1int);
                        assert(((n - dk) as nat + 1) as nat == (n + 1 - dk) as nat);
                        assert(key_weight(rv, key@) == e * (n + 1));
                        assert(n * e < e * (n + 1)) by (nonlinear_arith)
                            requires
                                e > 0,
                        ;
                    }
                }
            },
        }
    }
    proof {
        assert forall|k: Seq<char>| has_path(rv, k) implies #[trigger] res@.contains_key(k) by {
            let p = choose|p: Seq<Seq<char>>| is_path(rv, k, p);
            lemma_closed_holds_paths(rv, res@, k, p);
        }
        if keys_distinct(rv) {
            assert forall|k: Seq<char>, p: Seq<Seq<char>>|
                #[trigger] is_path(rv, k, p) implies res@.contains_key(k) && res@[k].deep_view() == p by {
                lemma_closed_holds_paths(rv, res@, k, p);
                lemma_path_unique(rv, k, p, res@[k].deep_view());
            }
            assert forall|k: Seq<char>| #[trigger] resolved_view(res@).contains_key(k) implies resolution(
                rv,
            ).contains_key(k) && resolved_view(res@)[k] == resolution(rv)[k] by {
                let p = choose|p: Seq<Seq<char>>| is_path(rv, k, p);
                lemma_path_unique(rv, k, p, res@[k].deep_view());
            }
            assert forall|k: Seq<char>| #[trigger] resolution(rv).contains_key(k) implies resolved_view(
                res@,
            ).contains_key(k) by {
                let p = choose|p: Seq<Seq<char>>| is_path(rv, k, p);
                lemma_closed_holds_paths(rv, res@, k, p);
            }
            assert(resolved_view(res@) =~= resolution(rv));
        }
    }
    res
}


/// The directory `k` has a path of `d` names.
pub open spec fn path_of_len(rows: Seq<DirRow>, k: Seq<char>, d: int) -> bool {
    exists|p: Seq<Seq<char>>| #[trigger] is_path(rows, k, p) && p.len() == d
}

proof fn lemma_path_of_len_one(rows: Seq<DirRow>, k: Seq<char>)
    ensures
        path_of_len(rows, k, 1) <==> exists|j: int|
            0 <= j < rows.len() && (#[trigger] rows[j]).0 == k && rows[j].1 is None,
{
    if path_of_len(rows, k, 1) {
        let p = choose|p: Seq<Seq<char>>| #[trigger] is_path(rows, k, p) && p.len() == 1;
        let i = choose|i: int|
            #![trigger rows[i]]
            0 <= i < rows.len() && rows[i].0 == k && rows[i].2 == p.last() && match rows[i].1 {
                None => p.len() == 1,
                Some(q) => is_path(rows, q, p.drop_last()),
            };
        assert(rows[i].1 is None);
    }
    if exists|j: int| 0 <= j < rows.len() && (#[trigger] rows[j]).0 == k && rows[j].1 is None {
        let j = choose|j: int| 0 <= j < rows.len() && (#[trigger] rows[j]).0 == k && rows[j].1 is None;
        let p = seq![rows[j].2];
        assert(is_path(rows, k, p));
    }
}

proof fn lemma_path_of_len_next(rows: Seq<DirRow>, k: Seq<char>, d: int)
    requires
        d >= 1,
    ensures
        path_of_len(rows, k, d + 1) <==> exists|j: int|
            0 <= j < rows.len() && (#[trigger] rows[j]).0 == k && rows[j].1 is Some && path_of_len(
                rows,
                rows[j].1->0,
                d,
            ),
{
    if path_of_len(rows, k, d + 1) {
        let p = choose|p: Seq<Seq<char>>| #[trigger] is_path(rows, k, p) && p.len() == d + 1;
        let i = choose|i: int|
            #![trigger rows[i]]
            0 <= i < rows.len() && rows[i].0 == k && rows[i].2 == p.last() && match rows[i].1 {
                None => p.len() == 1,
                Some(q) => is_path(rows, q, p.drop_last()),
            };
        assert(is_path(rows, rows[i].1->0, p.drop_last()));
        assert(path_of_len(rows, rows[i].1->0, d));
    }
    if exists|j: int|
        0 <= j < rows.len() && (#[trigger] rows[j]).0 == k && rows[j].1 is Some && path_of_len(
            rows,
            rows[j].1->0,
            d,
        ) {
        let j = choose|j: int|
            0 <= j < rows.len() && (#[trigger] rows[j]).0 == k && rows[j].1 is Some && path_of_len(
                rows,
                rows[j].1->0,
                d,
            );
        let q = choose|q: Seq<Seq<char>>| #[trigger] is_path(rows, rows[j].1->0, q) && q.len() == d;
        let p = q.push(rows[j].2);
        assert(p.drop_last() =~= q);
        assert(is_path(rows, k, p));
    }
}

/// Every path of `m` names or more ends in a directory whose ancestor has a path
/// of exactly `m` names.
proof fn lemma_path_truncate(rows: Seq<DirRow>, k: Seq<char>, p: Seq<Seq<char>>, m: int)
    requires
        is_path(rows, k, p),
        1 <= m <= p.len(),
    ensures
        exists|g: Seq<char>| #[trigger] path_of_len(rows, g, m),
    decreases p.len(),
{
    if m == p.len() {
        assert(path_of_len(rows, k, m));
    } else {
        let i = choose|i: int|
            #![trigger rows[i]]
            0 <= i < rows.len() && rows[i].0 == k && rows[i].2 == p.last() && match rows[i].1 {
                None => p.len() == 1,
                Some(q) => is_path(rows, q, p.drop_last()),
            };
        lemma_path_truncate(rows, rows[i].1->0, p.drop_last(), m);
    }
}

/// Tells whether resolving the paths of `rows` comes to an end: whether no path is
/// longer than the table, so that no cycle of parents hangs below a root.
pub fn resolution_terminates(rows: &Vec<(String, Option<String>, String)>) -> (b: bool)
    ensures
        b == paths_bounded(rows.deep_view()),
{
    let ghost rv = rows.deep_view();
    let n = rows.len();
    let mut level: StringHashMap<()> = StringHashMap::new();
    let mut j: usize = 0;
    while j < n
        invariant
            n == rows.len(),
            rv == rows.deep_view(),
            j <= n,
            forall|k: Seq<char>|
                #[trigger] level@.contains_key(k) <==> exists|i: int|
                    0 <= i < j && (#[trigger] rv[i]).0 == k && rv[i].1 is None,
        decreases n - j,
    {
        let row = &rows[j];
        assert(rv[j as int] == (row.0@, row.1.deep_view(), row.2@));
        let ghost old_level = level@;
        if row.1.is_none() {
            level.insert(row.0.clone(), ());
        }
        assert forall|k: Seq<char>|
            #[trigger] level@.contains_key(k) <==> exists|i: int|
                0 <= i < j + 1 && (#[trigger] rv[i]).0 == k && rv[i].1 is None by {
            if old_level.contains_key(k) {
                let i = choose|i: int| 0 <= i < j && (#[trigger] rv[i]).0 == k && rv[i].1 is None;
            }
            if exists|i: int| 0 <= i < j + 1 && (#[trigger] rv[i]).0 == k && rv[i].1 is None {
                let i = choose|i: int| 0 <= i < j + 1 && (#[trigger] rv[i]).0 == k && rv[i].1 is None;
                if i < j {
                    assert(old_level.contains_key(k));
                }
            }
        }
        j = j + 1;
    }
    assert forall|k: Seq<char>| #[trigger] level@.contains_key(k) <==> path_of_len(rv, k, 1) by {
        lemma_path_of_len_one(rv, k);
    }
    let mut t: usize = 0;
    while t < n
        invariant
            n == rows.len(),
            rv == rows.deep_view(),
            t <= n,
            forall|k: Seq<char>| #[trigger] level@.contains_key(k) <==> path_of_len(rv, k, t + 1),
        decreases n - t,
    {
        if level.is_empty() {
            proof {
                assert forall|k: Seq<char>, p: Seq<Seq<char>>|
                    #[trigger] is_path(rv, k, p) implies p.len() <= rv.len() by {
                    if p.len() >= t + 1 {
                        lemma_path_truncate(rv, k, p, t + 1);
                        let g = choose|g: Seq<char>| #[trigger] path_of_len(rv, g, t + 1);
                        assert(level@.contains_key(g));
                    }
                }
            }
            return true;
        }
        let mut next: StringHashMap<()> = StringHashMap::new();
        let mut j: usize = 0;
        while j < n
            invariant
                n == rows.len(),
                rv == rows.deep_view(),
                j <= n,
                forall|k: Seq<char>|
                    #[trigger] next@.contains_key(k) <==> exists|i: int|
                        0 <= i < j && (#[trigger] rv[i]).0 == k && rv[i].1 is Some && level@.contains_key(
                            rv[i].1->0,
                        ),
            decreases n - j,
        {
            let row = &rows[j];
            assert(rv[j as int] == (row.0@, row.1.deep_view(), row.2@));
            let ghost old_next = next@;
            match &row.1 {
                Some(parent) => {
                    if level.contains_key(parent.as_str()) {
                        next.insert(row.0.clone(), ());
                    }
                },
                None => {},
            }
            assert forall|k: Seq<char>|
                #[trigger] next@.contains_key(k) <==> exists|i: int|
                    0 <= i < j + 1 && (#[trigger] rv[i]).0 == k && rv[i].1 is Some
                        && level@.contains_key(rv[i].1->0) by {
                if old_next.contains_key(k) {
                    let i = choose|i: int|
                        0 <= i < j && (#[trigger] rv[i]).0 == k && rv[i].1 is Some && level@.contains_key(
                            rv[i].1->0,
                        );
                }
                if exists|i: int|
                    0 <= i < j + 1 && (#[trigger] rv[i]).0 == k && rv[i].1 is Some
                        && level@.contains_key(rv[i].1->0) {
                    let i = choose|i: int|
                        0 <= i < j + 1 && (#[trigger] rv[i]).0 == k && rv[i].1 is Some
                            && level@.contains_key(rv[i].1->0);
                    if i < j {
                        assert(old_next.contains_key(k));
                    }
                }
            }
            j = j + 1;
        }
        assert forall|k: Seq<char>| #[trigger] next@.contains_key(k) <==> path_of_len(rv, k, t + 2) by {
            lemma_path_of_len_next(rv, k, t + 1);
            if path_of_len(rv, k, t + 2) {
                let i = choose|i: int|
                    0 <= i < rv.len() && (#[trigger] rv[i]).0 == k && rv[i].1 is Some && path_of_len(
                        rv,
                        rv[i].1->0,
                        t + 1,
                    );
                assert(level@.contains_key(rv[i].1->0));
            }
        }
        level = next;
        t = t + 1;
    }
    let b = level.is_empty();
    proof {
        if b {
            assert forall|k: Seq<char>, p: Seq<Seq<char>>|
                #[trigger] is_path(rv, k, p) implies p.len() <= rv.len() by {
                if p.len() > rv.len() {
                    lemma_path_truncate(rv, k, p, rv.len() + 1int);
                    let g = choose|g: Seq<char>| #[trigger] path_of_len(rv, g, rv.len() + 1int);
                    assert(level@.contains_key(g));
                }
            }
        } else {
            let g = choose|g: Seq<char>| level@.contains_key(g);
            assert(path_of_len(rv, g, rv.len() + 1int));
            let p = choose|p: Seq<Seq<char>>| #[trigger] is_path(rv, g, p) && p.len() == rv.len() + 1;
        }
    }
    b
}

} // verus!
