//! The layout of the model correlation matrix, the grouping of datapoints
//! by model, and the counting of co-occurrences.

use vstd::prelude::*;
use crate::names::{position_of, views};

verus! {

/// The index pairs `(i, j)` with `j <= i < n`, row by row, each model
/// paired with itself at the end of its row:
/// `(0, 0), (1, 0), (1, 1), (2, 0), (2, 1), (2, 2), ...`.
pub open spec fn lower_triangle(n: nat) -> Seq<(int, int)>
    decreases n,
{
    if n == 0 {
        seq![]
    } else {
        lower_triangle((n - 1) as nat) + Seq::new(n, |j: int| ((n - 1) as int, j))
    }
}

/// There are `n * (n + 1) / 2` pairs, each with `j <= i < n`, none twice,
/// and every such pair is one of them.
pub proof fn lemma_lower_triangle(n: nat)
    ensures
        lower_triangle(n).len() == n * (n + 1) / 2,
        forall|k: int|
            0 <= k < lower_triangle(n).len() ==> 0 <= (#[trigger] lower_triangle(n)[k]).1 <= lower_triangle(n)[k].0 < n,
        forall|k: int, l: int|
            0 <= k < l < lower_triangle(n).len() ==> #[trigger] lower_triangle(n)[k] != #[trigger] lower_triangle(n)[l],
        forall|i: int, j: int| 0 <= j <= i < n ==> #[trigger] lower_triangle(n).contains((i, j)),
        forall|k: int, l: int|
            0 <= k < l < lower_triangle(n).len() ==> (#[trigger] lower_triangle(n)[k]).0 < (
            #[trigger] lower_triangle(n)[l]).0 || (lower_triangle(n)[k].0 == lower_triangle(n)[l].0
                && lower_triangle(n)[k].1 < lower_triangle(n)[l].1),
    decreases n,
{
    if n > 0 {
        let m = (n - 1) as nat;
        lemma_lower_triangle(m);
        let prev = lower_triangle(m);
        let row = Seq::new(n, |j: int| (m as int, j));
        let all = lower_triangle(n);
        assert(all == prev + row);
        assert(n * (n + 1) == m * (m + 1) + 2 * n) by (nonlinear_arith)
            requires
                n == m + 1,
        ;
        assert(m * (m + 1) / 2 + n == (m * (m + 1) + 2 * n) / 2);
        assert forall|k: int| 0 <= k < all.len() implies 0 <= (#[trigger] all[k]).1 <= all[k].0 < n by {
            if k < prev.len() {
                assert(all[k] == prev[k]);
            } else {
                assert(all[k] == row[k - prev.len()]);
            }
        }
        assert forall|k: int, l: int| 0 <= k < l < all.len() implies #[trigger] all[k] != #[trigger] all[l] by {
            if l < prev.len() {
                assert(all[k] == prev[k]);
                assert(all[l] == prev[l]);
            } else if k >= prev.len() {
                assert(all[k] == row[k - prev.len()]);
                assert(all[l] == row[l - prev.len()]);
            } else {
                assert(all[k] == prev[k]);
                assert(all[l] == row[l - prev.len()]);
            }
        }
        assert forall|k: int, l: int| 0 <= k < l < all.len() implies (#[trigger] all[k]).0 < (#[trigger] all[l]).0 || (
        all[k].0 == all[l].0 && all[k].1 < all[l].1) by {
            if l < prev.len() {
                assert(all[k] == prev[k]);
                assert(all[l] == prev[l]);
            } else if k >= prev.len() {
                assert(all[k] == row[k - prev.len()]);
                assert(all[l] == row[l - prev.len()]);
            } else {
                assert(all[k] == prev[k]);
                assert(all[l] == row[l - prev.len()]);
            }
        }
        assert forall|i: int, j: int| 0 <= j <= i < n implies #[trigger] all.contains((i, j)) by {
            if i < m {
                assert(prev.contains((i, j)));
                let w = choose|w: int| 0 <= w < prev.len() && prev[w] == (i, j);
                assert(all[w] == (i, j));
            } else {
                assert(all[prev.len() + j] == row[j]);
            }
        }
    } else {
        assert(n * (n + 1) == 0) by (nonlinear_arith)
            requires
                n == 0,
        ;
    }
}

/// The order in which the correlation matrix lists its model pairs: the
/// lower triangle `(i, j)`, `j <= i < n`, diagonal included, row by row.
pub fn lower_triangle_pairs(n: usize) -> (pairs: Vec<(usize, usize)>)
    ensures
        pairs.len() == lower_triangle(n as nat).len(),
        pairs.len() == n * (n + 1) / 2,
        forall|k: int| 0 <= k < pairs.len() ==> (#[trigger] pairs@[k]).1 <= pairs@[k].0 < n,
        forall|k: int, l: int|
            0 <= k < l < pairs.len() ==> (#[trigger] pairs@[k]).0 < (#[trigger] pairs@[l]).0 || (pairs@[k].0
                == pairs@[l].0 && pairs@[k].1 < pairs@[l].1),
        forall|i: usize, j: usize| j <= i < n ==> #[trigger] pairs@.contains((i, j)),
        forall|k: int|
            0 <= k < pairs.len() ==> (#[trigger] pairs@[k]).0 == lower_triangle(n as nat)[k].0
                && pairs@[k].1 == lower_triangle(n as nat)[k].1,
{
    let mut pairs: Vec<(usize, usize)> = Vec::new();
    let mut i: usize = 0;
    while i < n
        invariant
            i <= n,
            pairs.len() == lower_triangle(i as nat).len(),
            forall|k: int|
                0 <= k < pairs.len() ==> (#[trigger] pairs@[k]).0 == lower_triangle(i as nat)[k].0
                    && pairs@[k].1 == lower_triangle(i as nat)[k].1,
        decreases n - i,
    {
        let ghost done = lower_triangle(i as nat);
        let ghost next = lower_triangle((i + 1) as nat);
        assert(next == done + Seq::new((i + 1) as nat, |j: int| (i as int, j)));
        let mut j: usize = 0;
        while j <= i
            invariant
                j <= i + 1,
                i < n,
                done == lower_triangle(i as nat),
                next == done + Seq::new((i + 1) as nat, |j: int| (i as int, j)),
                pairs.len() == done.len() + j,
                forall|k: int|
                    0 <= k < pairs.len() ==> (#[trigger] pairs@[k]).0 == next[k].0 && pairs@[k].1 == next[k].1,
            decreases i + 1 - j,
        {
            pairs.push((i, j));
            j = j + 1;
        }
        i = i + 1;
    }
    proof {
        let t = lower_triangle(n as nat);
        lemma_lower_triangle(n as nat);
        assert forall|k: int, l: int| 0 <= k < l < pairs.len() implies (#[trigger] pairs@[k]).0 < (#[trigger] pairs@[l]).0 || (
        pairs@[k].0 == pairs@[l].0 && pairs@[k].1 < pairs@[l].1) by {
            assert(t[k].0 < t[l].0 || (t[k].0 == t[l].0 && t[k].1 < t[l].1));
        }
        assert forall|i: usize, j: usize| j <= i < n implies #[trigger] pairs@.contains((i, j)) by {
            assert(t.contains((i as int, j as int)));
            let k = choose|k: int| 0 <= k < t.len() && t[k] == (i as int, j as int);
            assert(pairs@[k] == (i, j));
        }
    }
    pairs
}

/// The positions below `m` of the entries of `models` equal to `name`.
pub open spec fn positions_named(models: Seq<Seq<char>>, name: Seq<char>, m: int) -> Seq<int>
    decreases m,
{
    if m <= 0 {
        seq![]
    } else if models[m - 1] == name {
        positions_named(models, name, m - 1).push(m - 1)
    } else {
        positions_named(models, name, m - 1)
    }
}

/// For each name of `names`, the positions in `models` at which it
/// occurs, in increasing order.
pub fn positions_by_name(names: &Vec<String>, models: &Vec<String>) -> (groups: Vec<Vec<usize>>)
    ensures
        groups.len() == names.len(),
        forall|g: int|
            0 <= g < groups.len() ==> {
                let expected = positions_named(views(models@), names@[g]@, models.len() as int);
                &&& (#[trigger] groups@[g]).len() == expected.len()
                &&& forall|i: int| 0 <= i < expected.len() ==> groups@[g]@[i] == expected[i]
            },
        forall|g: int, i: int|
            0 <= g < groups.len() && 0 <= i < groups@[g].len() ==> #[trigger] groups@[g]@[i] < models.len()
                && models@[groups@[g]@[i] as int]@ == names@[g]@,
        forall|g: int, i: int, j: int|
            0 <= g < groups.len() && 0 <= i < j < groups@[g].len() ==> #[trigger] groups@[g]@[i]
                < #[trigger] groups@[g]@[j],
        forall|g: int, q: int|
            0 <= g < groups.len() && 0 <= q < models.len() && #[trigger] models@[q]@ == #[trigger] names@[g]@
                ==> groups@[g]@.contains(q as usize),
{
    let mut groups: Vec<Vec<usize>> = Vec::new();
    let mut g: usize = 0;
    while g < names.len()
        invariant
            g <= names.len(),
            groups.len() == g,
            forall|h: int|
                0 <= h < g ==> {
                    let expected = positions_named(views(models@), names@[h]@, models.len() as int);
                    &&& (#[trigger] groups@[h]).len() == expected.len()
                    &&& forall|i: int| 0 <= i < expected.len() ==> groups@[h]@[i] == expected[i]
                },
        decreases names.len() - g,
    {
        let mut members: Vec<usize> = Vec::new();
        let mut m: usize = 0;
        while m < models.len()
            invariant
                m <= models.len(),
                g < names.len(),
                members.len() == positions_named(views(models@), names@[g as int]@, m as int).len(),
                forall|i: int|
                    0 <= i < members.len() ==> members@[i] == positions_named(views(models@), names@[g as int]@, m as int)[i],
            decreases models.len() - m,
        {
            assert(views(models@)[m as int] == models@[m as int]@);
            if models[m] == names[g] {
                members.push(m);
            }
            m = m + 1;
        }
        let ghost old_groups = groups@;
        groups.push(members);
        proof {
            assert forall|h: int|
                0 <= h < g + 1 implies {
                    let expected = positions_named(views(models@), names@[h]@, models.len() as int);
                    &&& (#[trigger] groups@[h]).len() == expected.len()
                    &&& forall|i: int| 0 <= i < expected.len() ==> groups@[h]@[i] == expected[i]
                } by {
                if h < g {
                    assert(groups@[h] == old_groups[h]);
                }
            }
        }
        g = g + 1;
    }
    proof {
        let ms = views(models@);
        assert forall|g: int, i: int|
            0 <= g < groups.len() && 0 <= i < groups@[g].len() implies #[trigger] groups@[g]@[i] < models.len()
                && models@[groups@[g]@[i] as int]@ == names@[g]@ by {
            lemma_positions_named(ms, names@[g]@, models.len() as int);
            let e = positions_named(ms, names@[g]@, models.len() as int);
            assert(groups@[g]@[i] == e[i]);
            assert(ms[e[i]] == models@[e[i]]@);
        }
        assert forall|g: int, i: int, j: int|
            0 <= g < groups.len() && 0 <= i < j < groups@[g].len() implies #[trigger] groups@[g]@[i]
                < #[trigger] groups@[g]@[j] by {
            lemma_positions_named(ms, names@[g]@, models.len() as int);
            let e = positions_named(ms, names@[g]@, models.len() as int);
            assert(groups@[g]@[i] == e[i]);
            assert(groups@[g]@[j] == e[j]);
        }
        assert forall|g: int, q: int|
            0 <= g < groups.len() && 0 <= q < models.len() && #[trigger] models@[q]@ == #[trigger] names@[g]@ implies groups@[g]@.contains(
            q as usize,
        ) by {
            lemma_positions_named(ms, names@[g]@, models.len() as int);
            let e = positions_named(ms, names@[g]@, models.len() as int);
            assert(ms[q] == models@[q]@);
            assert(e.contains(q));
            let i = choose|i: int| 0 <= i < e.len() && e[i] == q;
            assert(groups@[g]@[i] == q);
        }
    }
    groups
}

/// What grouping by name gives: the positions of the model, in
/// increasing order, each holding that name, and every position that holds
/// it.
pub proof fn lemma_positions_named(models: Seq<Seq<char>>, name: Seq<char>, m: int)
    requires
        0 <= m <= models.len(),
    ensures
        forall|i: int|
            0 <= i < positions_named(models, name, m).len() ==> 0 <= #[trigger] positions_named(models, name, m)[i] < m
                && models[positions_named(models, name, m)[i]] == name,
        forall|i: int, j: int|
            0 <= i < j < positions_named(models, name, m).len() ==> #[trigger] positions_named(models, name, m)[i]
                < #[trigger] positions_named(models, name, m)[j],
        forall|q: int| 0 <= q < m && models[q] == name ==> #[trigger] positions_named(models, name, m).contains(q),
    decreases m,
{
    if m > 0 {
        lemma_positions_named(models, name, m - 1);
        let prev = positions_named(models, name, m - 1);
        let cur = positions_named(models, name, m);
        assert forall|q: int| 0 <= q < m && models[q] == name implies #[trigger] cur.contains(q) by {
            if q < m - 1 {
                assert(prev.contains(q));
                let w = choose|w: int| 0 <= w < prev.len() && prev[w] == q;
                assert(cur[w] == q);
            } else {
                assert(cur[cur.len() - 1] == q);
            }
        }
    }
}

/// Below this many co-occurrences a strongly anti-correlated pair counts as
/// a pair of substitutes.
pub const SUBSTITUTE_COOCCURRENCE_LIMIT: usize = 3;

/// Which structural holes a model pair shows: `(substitutes, unexplored)`.
/// A model paired with itself (a diagonal entry of the correlation matrix)
/// is no hole. Otherwise a strongly anti-correlated pair that rarely
/// co-occurs (fewer than `SUBSTITUTE_COOCCURRENCE_LIMIT` times) is a pair
/// of substitutes, and a weakly correlated pair that never co-occurs is an
/// unexplored combination. The rule itself lets a pair show both; with the
/// correlation thresholds that the spectral analysis uses (below -0.5 for
/// strongly negative, magnitude below 0.3 for weak) no pair is both
/// strongly negative and weak, so no pair there shows both.
pub fn hole_signals(same_model: bool, strongly_negative: bool, weakly_correlated: bool, cooccurrences: usize) -> (signals: (
    bool,
    bool,
))
    ensures
        signals.0 == (!same_model && strongly_negative && cooccurrences < SUBSTITUTE_COOCCURRENCE_LIMIT),
        signals.1 == (!same_model && weakly_correlated && cooccurrences == 0),
{
    if same_model {
        return (false, false);
    }
    let substitutes = strongly_negative && cooccurrences < SUBSTITUTE_COOCCURRENCE_LIMIT;
    let unexplored = cooccurrences == 0 && weakly_correlated;
    (substitutes, unexplored)
}

/// `{a1, b1}` and `{a2, b2}` are the same unordered pair of names.
pub open spec fn same_pair(a1: Seq<char>, b1: Seq<char>, a2: Seq<char>, b2: Seq<char>) -> bool {
    (a1 == a2 && b1 == b2) || (a1 == b2 && b1 == a2)
}

/// The number of earlier entries `q < r` in the same bucket as entry `r`
/// that form the pair `{a, b}` with it.
pub open spec fn pairs_with_earlier(
    buckets: Seq<u64>,
    models: Seq<Seq<char>>,
    a: Seq<char>,
    b: Seq<char>,
    r: int,
    q: int,
) -> nat
    decreases q,
{
    if q <= 0 {
        0
    } else {
        pairs_with_earlier(buckets, models, a, b, r, q - 1) + if buckets[q - 1] == buckets[r]
            && same_pair(models[q - 1], models[r], a, b) {
            1nat
        } else {
            0nat
        }
    }
}

/// The number of pairs of entries `q < r < p` that share a bucket and
/// form the pair `{a, b}`.
pub open spec fn cooccurrences(
    buckets: Seq<u64>,
    models: Seq<Seq<char>>,
    a: Seq<char>,
    b: Seq<char>,
    p: int,
) -> nat
    decreases p,
{
    if p <= 0 {
        0
    } else {
        cooccurrences(buckets, models, a, b, p - 1) + pairs_with_earlier(
            buckets,
            models,
            a,
            b,
            p - 1,
            p - 1,
        )
    }
}

/// The pairs of datapoints `q < r < p` that fall into the same bucket and
/// are one of `a` and one of `b`.
pub open spec fn cooccurring_pairs(
    buckets: Seq<u64>,
    models: Seq<Seq<char>>,
    a: Seq<char>,
    b: Seq<char>,
    p: int,
) -> Set<(int, int)> {
    Set::new(
        |qr: (int, int)|
            0 <= qr.0 < qr.1 < p && buckets[qr.0] == buckets[qr.1] && ((models[qr.0] == a && models[qr.1]
                == b) || (models[qr.0] == b && models[qr.1] == a)),
    )
}

/// The pairs `(q, r)`, `q < limit`, that datapoint `r` forms with earlier ones.
spec fn pairs_ending_at(
    buckets: Seq<u64>,
    models: Seq<Seq<char>>,
    a: Seq<char>,
    b: Seq<char>,
    r: int,
    limit: int,
) -> Set<(int, int)> {
    Set::new(
        |qr: (int, int)|
            qr.1 == r && 0 <= qr.0 < limit && buckets[qr.0] == buckets[r] && ((models[qr.0] == a && models[r]
                == b) || (models[qr.0] == b && models[r] == a)),
    )
}

proof fn lemma_pairs_ending_at(
    buckets: Seq<u64>,
    models: Seq<Seq<char>>,
    a: Seq<char>,
    b: Seq<char>,
    r: int,
    limit: int,
)
    requires
        0 <= limit,
    ensures
        pairs_ending_at(buckets, models, a, b, r, limit).finite(),
        pairs_ending_at(buckets, models, a, b, r, limit).len() == pairs_with_earlier(buckets, models, a, b, r, limit),
    decreases limit,
{
    let cur = pairs_ending_at(buckets, models, a, b, r, limit);
    if limit == 0 {
        assert(cur =~= Set::<(int, int)>::empty());
    } else {
        lemma_pairs_ending_at(buckets, models, a, b, r, limit - 1);
        let prev = pairs_ending_at(buckets, models, a, b, r, limit - 1);
        let q = limit - 1;
        if buckets[q] == buckets[r] && same_pair(models[q], models[r], a, b) {
            assert(cur =~= prev.insert((q, r)));
            assert(!prev.contains((q, r)));
        } else {
            assert(cur =~= prev);
        }
    }
}

/// The number of co-occurrences is the number of pairs of datapoints
/// `q < r < p` that fall into one bucket and are one of `a` and one of `b`;
/// every datapoint below `p`, the last included, is counted in its pairs.
pub proof fn lemma_cooccurrences_count_pairs(
    buckets: Seq<u64>,
    models: Seq<Seq<char>>,
    a: Seq<char>,
    b: Seq<char>,
    p: int,
)
    requires
        0 <= p,
    ensures
        cooccurring_pairs(buckets, models, a, b, p).finite(),
        cooccurrences(buckets, models, a, b, p) == cooccurring_pairs(buckets, models, a, b, p).len(),
    decreases p,
{
    let cur = cooccurring_pairs(buckets, models, a, b, p);
    if p == 0 {
        assert(cur =~= Set::<(int, int)>::empty());
    } else {
        lemma_cooccurrences_count_pairs(buckets, models, a, b, p - 1);
        lemma_pairs_ending_at(buckets, models, a, b, p - 1, p - 1);
        let prev = cooccurring_pairs(buckets, models, a, b, p - 1);
        let row = pairs_ending_at(buckets, models, a, b, p - 1, p - 1);
        assert(cur =~= prev + row);
        assert(prev.disjoint(row));
        vstd::set_lib::lemma_set_disjoint_lens(prev, row);
    }
}

proof fn lemma_pairs_with_earlier_grows(
    buckets: Seq<u64>,
    models: Seq<Seq<char>>,
    a: Seq<char>,
    b: Seq<char>,
    r: int,
    q: int,
    q2: int,
)
    requires
        q <= q2,
    ensures
        pairs_with_earlier(buckets, models, a, b, r, q) <= pairs_with_earlier(buckets, models, a, b, r, q2),
    decreases q2,
{
    if q < q2 && q2 > 0 {
        lemma_pairs_with_earlier_grows(buckets, models, a, b, r, q, q2 - 1);
    }
}

proof fn lemma_cooccurrences_grow(
    buckets: Seq<u64>,
    models: Seq<Seq<char>>,
    a: Seq<char>,
    b: Seq<char>,
    p: int,
    p2: int,
)
    requires
        p <= p2,
    ensures
        cooccurrences(buckets, models, a, b, p) <= cooccurrences(buckets, models, a, b, p2),
    decreases p2,
{
    if p < p2 && p2 > 0 {
        lemma_cooccurrences_grow(buckets, models, a, b, p, p2 - 1);
    }
}

/// `names` holds no name twice.
pub open spec fn all_distinct(names: Seq<Seq<char>>) -> bool {
    forall|i: int, j: int| 0 <= i < j < names.len() ==> #[trigger] names[i] != #[trigger] names[j]
}

/// A `rows` by `rows` table of counts.
pub open spec fn is_square(table: Seq<Vec<usize>>, rows: int) -> bool {
    &&& table.len() == rows
    &&& forall|i: int| 0 <= i < rows ==> (#[trigger] table[i]).len() == rows
}

/// Adds one to `table[a][b]`.
fn bump(table: &mut Vec<Vec<usize>>, a: usize, b: usize)
    requires
        a < old(table).len(),
        b < old(table)@[a as int].len(),
        old(table)@[a as int]@[b as int] < usize::MAX,
    ensures
        final(table).len() == old(table).len(),
        final(table)@[a as int]@ == old(table)@[a as int]@.update(b as int, (old(table)@[a as int]@[b as int] + 1) as usize),
        forall|i: int| 0 <= i < old(table).len() && i != a ==> #[trigger] final(table)@[i] == old(table)@[i],
{
    let ghost before = table@;
    let mut row = table.remove(a);
    let v = row[b];
    row.set(b, v + 1);
    table.insert(a, row);
    proof {
        assert forall|i: int| 0 <= i < before.len() && i != a implies #[trigger] table@[i] == before[i] by {
            if i < a {
                assert(table@[i] == before.remove(a as int)[i]);
            } else {
                assert(table@[i] == before.remove(a as int)[i - 1]);
            }
        }
    }
}

/// How often each two of `names` occur together, counted in one pass over
/// the pairs of datapoints: `table[i][k]` is the number of pairs of
/// datapoints that fall into the same time bucket and are one of model
/// `names[i]` and one of model `names[k]`. Datapoint `p` has bucket
/// `buckets[p]` and model `models[p]`.
pub fn cooccurrence_table(buckets: &Vec<u64>, models: &Vec<String>, names: &Vec<String>) -> (table: Vec<Vec<usize>>)
    requires
        buckets.len() == models.len(),
        all_distinct(views(names@)),
        forall|i: int, k: int|
            0 <= i < names.len() && 0 <= k < names.len() ==> #[trigger] cooccurrences(
                buckets@,
                views(models@),
                names@[i]@,
                names@[k]@,
                models.len() as int,
            ) <= usize::MAX,
    ensures
        is_square(table@, names.len() as int),
        forall|i: int, k: int|
            0 <= i < names.len() && 0 <= k < names.len() ==> #[trigger] table@[i]@[k] == cooccurring_pairs(
                buckets@,
                views(models@),
                names@[i]@,
                names@[k]@,
                models.len() as int,
            ).len(),
        forall|i: int, k: int|
            0 <= i < names.len() && 0 <= k < names.len() ==> #[trigger] table@[i]@[k] == cooccurrences(
                buckets@,
                views(models@),
                names@[i]@,
                names@[k]@,
                models.len() as int,
            ),
{
    let ghost ms = views(models@);
    let ghost ns = views(names@);
    let w = names.len();
    let n = models.len();
    // the position of each datapoint's model among `names`
    let mut slot: Vec<Option<usize>> = Vec::new();
    let mut p: usize = 0;
    while p < n
        invariant
            p <= n,
            n == models.len(),
            w == names.len(),
            ms == views(models@),
            ns == views(names@),
            all_distinct(ns),
            slot.len() == p,
            forall|q: int, i: int|
                0 <= q < p && 0 <= i < w ==> (#[trigger] slot@[q] == Some(i as usize) <==> #[trigger] ns[i] == ms[q]),
            forall|q: int| 0 <= q < p ==> match #[trigger] slot@[q] {
                Some(i) => i < w,
                None => true,
            },
        decreases n - p,
    {
        let found = position_of(names, &models[p]);
        proof {
            assert(ms[p as int] == models@[p as int]@);
            assert forall|i: int| 0 <= i < w implies (found == Some(i as usize) <==> #[trigger] ns[i] == ms[p as int]) by {
                assert(ns[i] == names@[i]@);
                if found == Some(i as usize) {
                } else if ns[i] == ms[p as int] {
                    match found {
                        Some(j) => {
                            assert(ns[j as int] == names@[j as int]@);
                            if (j as int) < i {
                                assert(ns[j as int] != ns[i]);
                            } else {
                                assert(ns[i] != ns[j as int]);
                            }
                        },
                        None => {},
                    }
                }
            }
        }
        slot.push(found);
        p = p + 1;
    }
    // a table of zeros
    let mut table: Vec<Vec<usize>> = Vec::new();
    let mut i: usize = 0;
    while i < w
        invariant
            i <= w,
            table.len() == i,
            forall|a: int| 0 <= a < i ==> (#[trigger] table@[a]).len() == w,
            forall|a: int, b: int| 0 <= a < i && 0 <= b < w ==> #[trigger] table@[a]@[b] == 0,
        decreases w - i,
    {
        let mut row: Vec<usize> = Vec::new();
        let mut k: usize = 0;
        while k < w
            invariant
                k <= w,
                row.len() == k,
                forall|b: int| 0 <= b < k ==> #[trigger] row@[b] == 0,
            decreases w - k,
        {
            row.push(0);
            k = k + 1;
        }
        let ghost before = table@;
        table.push(row);
        proof {
            assert forall|a: int| 0 <= a < i + 1 implies (#[trigger] table@[a]).len() == w by {
                if a < i {
                    assert(table@[a] == before[a]);
                }
            }
            assert forall|a: int, b: int| 0 <= a < i + 1 && 0 <= b < w implies #[trigger] table@[a]@[b] == 0 by {
                if a < i {
                    assert(table@[a] == before[a]);
                }
            }
        }
        i = i + 1;
    }
    // one pass over the pairs of datapoints q < r
    let mut r: usize = 0;
    while r < n
        invariant
            r <= n,
            n == models.len(),
            w == names.len(),
            buckets.len() == n,
            slot.len() == n,
            ms == views(models@),
            ns == views(names@),
            forall|q: int, i: int|
                0 <= q < n && 0 <= i < w ==> (#[trigger] slot@[q] == Some(i as usize) <==> #[trigger] ns[i] == ms[q]),
            forall|q: int| 0 <= q < n ==> match #[trigger] slot@[q] {
                Some(i) => i < w,
                None => true,
            },
            forall|a: int, b: int|
                0 <= a < w && 0 <= b < w ==> #[trigger] cooccurrences(buckets@, ms, ns[a], ns[b], n as int) <= usize::MAX,
            is_square(table@, w as int),
            forall|a: int, b: int|
                0 <= a < w && 0 <= b < w ==> #[trigger] table@[a]@[b] == cooccurrences(buckets@, ms, ns[a], ns[b], r as int),
        decreases n - r,
    {
        let mut q: usize = 0;
        while q < r
            invariant
                q <= r,
                r < n,
                n == models.len(),
                w == names.len(),
                buckets.len() == n,
                slot.len() == n,
                ms == views(models@),
                ns == views(names@),
                forall|q: int, i: int|
                    0 <= q < n && 0 <= i < w ==> (#[trigger] slot@[q] == Some(i as usize) <==> #[trigger] ns[i] == ms[q]),
                forall|q: int| 0 <= q < n ==> match #[trigger] slot@[q] {
                    Some(i) => i < w,
                    None => true,
                },
                forall|a: int, b: int|
                    0 <= a < w && 0 <= b < w ==> #[trigger] cooccurrences(buckets@, ms, ns[a], ns[b], n as int) <= usize::MAX,
                is_square(table@, w as int),
                forall|a: int, b: int|
                    0 <= a < w && 0 <= b < w ==> #[trigger] table@[a]@[b] == cooccurrences(buckets@, ms, ns[a], ns[b], r as int)
                        + pairs_with_earlier(buckets@, ms, ns[a], ns[b], r as int, q as int),
            decreases r - q,
        {
            let ghost before = table@;
            // the counts after pair (q, r), each within the final count
            proof {
                assert forall|a: int, b: int| 0 <= a < w && 0 <= b < w implies cooccurrences(buckets@, ms, ns[a], ns[b], r as int)
                    + pairs_with_earlier(buckets@, ms, ns[a], ns[b], r as int, q + 1) <= usize::MAX by {
                    lemma_pairs_with_earlier_grows(buckets@, ms, ns[a], ns[b], r as int, q + 1, r as int);
                    lemma_cooccurrences_grow(buckets@, ms, ns[a], ns[b], r + 1, n as int);
                    assert(cooccurrences(buckets@, ms, ns[a], ns[b], n as int) <= usize::MAX);
                }
            }
            if buckets[q] == buckets[r] {
                match (slot[q], slot[r]) {
                    (Some(a), Some(b)) => {
                        proof {
                            assert(cooccurrences(buckets@, ms, ns[a as int], ns[b as int], r as int)
                                + pairs_with_earlier(buckets@, ms, ns[a as int], ns[b as int], r as int, q + 1) <= usize::MAX);
                        }
                        bump(&mut table, a, b);
                        if a != b {
                            proof {
                                assert(table@[b as int] == before[b as int]);
                                assert(cooccurrences(buckets@, ms, ns[b as int], ns[a as int], r as int)
                                    + pairs_with_earlier(buckets@, ms, ns[b as int], ns[a as int], r as int, q + 1) <= usize::MAX);
                            }
                            bump(&mut table, b, a);
                        }
                    },
                    _ => {},
                }
            }
            proof {
                assert forall|x: int, y: int| 0 <= x < w && 0 <= y < w implies #[trigger] table@[x]@[y] == cooccurrences(
                    buckets@,
                    ms,
                    ns[x],
                    ns[y],
                    r as int,
                ) + pairs_with_earlier(buckets@, ms, ns[x], ns[y], r as int, q + 1) by {
                    let sq = slot@[q as int];
                    let sr = slot@[r as int];
                    assert(sq == Some(x as usize) <==> ns[x] == ms[q as int]);
                    assert(sq == Some(y as usize) <==> ns[y] == ms[q as int]);
                    assert(sr == Some(x as usize) <==> ns[x] == ms[r as int]);
                    assert(sr == Some(y as usize) <==> ns[y] == ms[r as int]);
                }
                assert(is_square(table@, w as int)) by {
                    assert forall|x: int| 0 <= x < w implies (#[trigger] table@[x]).len() == w by {
                        assert(before[x].len() == w);
                    }
                }
            }
            q = q + 1;
        }
        r = r + 1;
    }
    proof {
        assert forall|i: int, k: int| 0 <= i < w && 0 <= k < w implies #[trigger] table@[i]@[k] == cooccurring_pairs(
            buckets@,
            ms,
            ns[i],
            ns[k],
            n as int,
        ).len() by {
            lemma_cooccurrences_count_pairs(buckets@, ms, ns[i], ns[k], n as int);
        }
    }
    table
}

proof fn lemma_pairs_with_earlier_symmetric(
    buckets: Seq<u64>,
    models: Seq<Seq<char>>,
    a: Seq<char>,
    b: Seq<char>,
    r: int,
    q: int,
)
    ensures
        pairs_with_earlier(buckets, models, a, b, r, q) == pairs_with_earlier(buckets, models, b, a, r, q),
    decreases q,
{
    if q > 0 {
        lemma_pairs_with_earlier_symmetric(buckets, models, a, b, r, q - 1);
    }
}

/// How often `a` occurs with `b` is how often `b` occurs with `a`.
pub proof fn lemma_cooccurrences_symmetric(
    buckets: Seq<u64>,
    models: Seq<Seq<char>>,
    a: Seq<char>,
    b: Seq<char>,
    p: int,
)
    ensures
        cooccurrences(buckets, models, a, b, p) == cooccurrences(buckets, models, b, a, p),
    decreases p,
{
    if p > 0 {
        lemma_cooccurrences_symmetric(buckets, models, a, b, p - 1);
        lemma_pairs_with_earlier_symmetric(buckets, models, a, b, p - 1, p - 1);
    }
}

} // verus!
