//! Model names: looking one up, ordering them, and listing the distinct
//! ones in order.

use vstd::prelude::*;

verus! {

/// Strict lexicographic order on character sequences, comparing
/// characters by code point. On UTF-8 strings this is the order in which
/// `String`'s `Ord` compares them byte by byte.
pub open spec fn lex_lt(a: Seq<char>, b: Seq<char>) -> bool
    decreases a.len(),
{
    if a.len() == 0 {
        b.len() > 0
    } else if b.len() == 0 {
        false
    } else if (a[0] as int) != (b[0] as int) {
        (a[0] as int) < (b[0] as int)
    } else {
        lex_lt(a.drop_first(), b.drop_first())
    }
}

/// `lex_lt` is the order of dictionaries: `a` comes first when it is a
/// proper prefix of `b`, or when at the first position where they differ
/// `a` holds the smaller character.
pub proof fn lemma_lex_lt_first_difference(a: Seq<char>, b: Seq<char>)
    ensures
        lex_lt(a, b) <==> (a.len() < b.len() && a == b.subrange(0, a.len() as int)) || exists|k: int|
            0 <= k < a.len() && k < b.len() && a.subrange(0, k) == b.subrange(0, k) && (#[trigger] a[k] as int)
                < (b[k] as int),
    decreases a.len(),
{
    if a.len() == 0 {
        assert(a =~= b.subrange(0, 0));
    } else if b.len() == 0 {
    } else if (a[0] as int) != (b[0] as int) {
        if (a[0] as int) < (b[0] as int) {
            assert(a.subrange(0, 0) =~= b.subrange(0, 0));
        } else {
            if a.len() < b.len() && a == b.subrange(0, a.len() as int) {
                assert(a[0] == b.subrange(0, a.len() as int)[0]);
            }
            if exists|k: int|
                0 <= k < a.len() && k < b.len() && a.subrange(0, k) == b.subrange(0, k) && (#[trigger] a[k] as int)
                    < (b[k] as int) {
                let k = choose|k: int|
                    0 <= k < a.len() && k < b.len() && a.subrange(0, k) == b.subrange(0, k) && (#[trigger] a[k]
                        as int) < (b[k] as int);
                if k > 0 {
                    assert(a.subrange(0, k)[0] == b.subrange(0, k)[0]);
                }
            }
        }
    } else {
        let ta = a.drop_first();
        let tb = b.drop_first();
        lemma_lex_lt_first_difference(ta, tb);
        assert(a[0] == b[0]);
        // prefix
        if ta.len() < tb.len() && ta == tb.subrange(0, ta.len() as int) {
            assert(a =~= seq![a[0]] + ta);
            assert(b.subrange(0, a.len() as int) =~= seq![b[0]] + tb.subrange(0, ta.len() as int));
            assert(a =~= b.subrange(0, a.len() as int));
        }
        if a.len() < b.len() && a == b.subrange(0, a.len() as int) {
            assert(ta =~= tb.subrange(0, ta.len() as int));
        }
        // first difference
        if exists|k: int|
            0 <= k < ta.len() && k < tb.len() && ta.subrange(0, k) == tb.subrange(0, k) && (#[trigger] ta[k] as int)
                < (tb[k] as int) {
            let k = choose|k: int|
                0 <= k < ta.len() && k < tb.len() && ta.subrange(0, k) == tb.subrange(0, k) && (#[trigger] ta[k]
                    as int) < (tb[k] as int);
            assert(a.subrange(0, k + 1) =~= seq![a[0]] + ta.subrange(0, k));
            assert(b.subrange(0, k + 1) =~= seq![b[0]] + tb.subrange(0, k));
            assert(a[k + 1] == ta[k]);
        }
        if exists|k: int|
            0 <= k < a.len() && k < b.len() && a.subrange(0, k) == b.subrange(0, k) && (#[trigger] a[k] as int)
                < (b[k] as int) {
            let k = choose|k: int|
                0 <= k < a.len() && k < b.len() && a.subrange(0, k) == b.subrange(0, k) && (#[trigger] a[k]
                    as int) < (b[k] as int);
            assert(k > 0);
            assert(ta.subrange(0, k - 1) =~= a.subrange(0, k).drop_first());
            assert(tb.subrange(0, k - 1) =~= b.subrange(0, k).drop_first());
            assert(ta[k - 1] == a[k]);
        }
    }
}

pub proof fn lemma_lex_lt_irreflexive(a: Seq<char>)
    ensures
        !lex_lt(a, a),
    decreases a.len(),
{
    if a.len() > 0 {
        lemma_lex_lt_irreflexive(a.drop_first());
    }
}

pub proof fn lemma_lex_lt_transitive(a: Seq<char>, b: Seq<char>, c: Seq<char>)
    requires
        lex_lt(a, b),
        lex_lt(b, c),
    ensures
        lex_lt(a, c),
    decreases a.len(),
{
    if a.len() > 0 && b.len() > 0 && c.len() > 0 {
        if (a[0] as int) == (b[0] as int) && (b[0] as int) == (c[0] as int) {
            lemma_lex_lt_transitive(a.drop_first(), b.drop_first(), c.drop_first());
        }
    }
}

/// Any two different sequences are ordered one way or the other.
pub proof fn lemma_lex_lt_total(a: Seq<char>, b: Seq<char>)
    ensures
        a == b || lex_lt(a, b) || lex_lt(b, a),
    decreases a.len(),
{
    if a.len() > 0 && b.len() > 0 && (a[0] as int) == (b[0] as int) {
        lemma_lex_lt_total(a.drop_first(), b.drop_first());
        if a.drop_first() == b.drop_first() {
            assert(a[0] == b[0]);
            assert(a =~= seq![a[0]] + a.drop_first());
            assert(b =~= seq![b[0]] + b.drop_first());
        }
    } else if a.len() == 0 && b.len() == 0 {
        assert(a =~= b);
    }
}

/// The characters of `s`, in order.
fn chars_of(s: &String) -> (chars: Vec<char>)
    ensures
        chars@ == s@,
{
    let mut chars: Vec<char> = Vec::new();
    for c in it: s.as_str().chars()
        invariant
            chars@ == it.seq().take(it.index()),
    {
        chars.push(c);
    }
    chars
}


/// Whether `a` comes strictly before `b` in `lex_lt` order.
fn chars_lt(a: &Vec<char>, b: &Vec<char>) -> (lt: bool)
    ensures
        lt == lex_lt(a@, b@),
{
    let mut i: usize = 0;
    proof {
        assert(a@.skip(0) =~= a@);
        assert(b@.skip(0) =~= b@);
    }
    while i < a.len() && i < b.len() && a[i] == b[i]
        invariant
            i <= a.len(),
            i <= b.len(),
            lex_lt(a@, b@) == lex_lt(a@.skip(i as int), b@.skip(i as int)),
        decreases a.len() - i,
    {
        proof {
            let sa = a@.skip(i as int);
            let sb = b@.skip(i as int);
            assert(sa.drop_first() =~= a@.skip(i + 1));
            assert(sb.drop_first() =~= b@.skip(i + 1));
        }
        i = i + 1;
    }
    if i == a.len() {
        i < b.len()
    } else if i == b.len() {
        false
    } else {
        a[i] < b[i]
    }
}

/// The index of the first name in `names` equal to `name`.
pub open spec fn first_index_of(names: Seq<Seq<char>>, name: Seq<char>) -> Option<int>
    decreases names.len(),
{
    if names.len() == 0 {
        None
    } else if names[0] == name {
        Some(0)
    } else {
        match first_index_of(names.drop_first(), name) {
            Some(i) => Some(i + 1),
            None => None,
        }
    }
}

/// The character sequences of a list of strings.
pub open spec fn views(names: Seq<String>) -> Seq<Seq<char>> {
    names.map_values(|s: String| s@)
}

pub proof fn lemma_first_index_of(names: Seq<Seq<char>>, name: Seq<char>)
    ensures
        match first_index_of(names, name) {
            Some(i) => 0 <= i < names.len() && names[i] == name && forall|k: int|
                0 <= k < i ==> names[k] != name,
            None => forall|k: int| 0 <= k < names.len() ==> names[k] != name,
        },
    decreases names.len(),
{
    if names.len() > 0 && names[0] != name {
        lemma_first_index_of(names.drop_first(), name);
        match first_index_of(names.drop_first(), name) {
            Some(i) => {
                assert forall|k: int| 0 <= k < i + 1 implies names[k] != name by {
                    if k > 0 {
                        assert(names[k] == names.drop_first()[k - 1]);
                    }
                }
            },
            None => {
                assert forall|k: int| 0 <= k < names.len() implies names[k] != name by {
                    if k > 0 {
                        assert(names[k] == names.drop_first()[k - 1]);
                    }
                }
            },
        }
    }
}

/// The position of the first entry of `names` equal to `name`, if any.
pub fn position_of(names: &Vec<String>, name: &String) -> (pos: Option<usize>)
    ensures
        match pos {
            Some(i) => first_index_of(views(names@), name@) == Some(i as int),
            None => first_index_of(views(names@), name@) is None,
        },
        match pos {
            Some(i) => i < names.len() && names@[i as int]@ == name@ && forall|k: int|
                0 <= k < i ==> names@[k]@ != name@,
            None => forall|k: int| 0 <= k < names.len() ==> names@[k]@ != name@,
        },
{
    proof {
        lemma_first_index_of(views(names@), name@);
    }
    let mut i: usize = 0;
    while i < names.len()
        invariant
            i <= names.len(),
            forall|k: int| 0 <= k < i ==> names@[k]@ != name@,
        decreases names.len() - i,
    {
        if names[i] == *name {
            proof {
                let v = views(names@);
                lemma_first_index_of(v, name@);
                assert(v[i as int] == name@);
                match first_index_of(v, name@) {
                    Some(j) => {
                        if j < i {
                            assert(v[j] == names@[j]@);
                        }
                    },
                    None => {},
                }
            }
            return Some(i);
        }
        i = i + 1;
    }
    proof {
        let f = first_index_of(views(names@), name@);
        if f is Some {
            let j = f->0;
            assert(0 <= j < names.len());
            assert(views(names@)[j] == names@[j]@);
        }
    }
    None
}

/// A sequence that is strictly increasing in `lex_lt` order.
pub open spec fn strictly_sorted(names: Seq<Seq<char>>) -> bool {
    forall|i: int, j: int| 0 <= i < j < names.len() ==> lex_lt(#[trigger] names[i], #[trigger] names[j])
}

/// `a` and `b` hold the same names, ignoring order and repetition.
pub open spec fn same_names(a: Seq<Seq<char>>, b: Seq<Seq<char>>) -> bool {
    &&& forall|i: int| 0 <= i < a.len() ==> b.contains(#[trigger] a[i])
    &&& forall|j: int| 0 <= j < b.len() ==> a.contains(#[trigger] b[j])
}

/// The distinct names of `names`, each once, in increasing order.
///
/// The result is determined by these two properties: a set of names has
/// exactly one strictly increasing listing.
pub fn sorted_distinct(names: &Vec<String>) -> (distinct: Vec<String>)
    ensures
        strictly_sorted(views(distinct@)),
        same_names(views(distinct@), views(names@)),
{
    let mut distinct: Vec<String> = Vec::new();
    let mut keys: Vec<Vec<char>> = Vec::new();
    let mut n: usize = 0;
    while n < names.len()
        invariant
            n <= names.len(),
            keys.len() == distinct.len(),
            forall|k: int| 0 <= k < keys.len() ==> #[trigger] keys@[k]@ == distinct@[k]@,
            strictly_sorted(views(distinct@)),
            same_names(views(distinct@), views(names@.subrange(0, n as int))),
        decreases names.len() - n,
    {
        let key = chars_of(&names[n]);
        let mut p: usize = 0;
        while p < keys.len() && chars_lt(&keys[p], &key)
            invariant
                p <= keys.len(),
                keys.len() == distinct.len(),
                forall|k: int| 0 <= k < keys.len() ==> #[trigger] keys@[k]@ == distinct@[k]@,
                forall|k: int| 0 <= k < p ==> lex_lt(#[trigger] distinct@[k]@, key@),
            decreases keys.len() - p,
        {
            p = p + 1;
        }
        let ghost old_distinct = views(distinct@);
        let present = p < keys.len() && !chars_lt(&key, &keys[p]);
        if !present {
            proof {
                if p < keys.len() {
                    lemma_lex_lt_total(key@, keys@[p as int]@);
                    assert(lex_lt(key@, distinct@[p as int]@));
                    assert forall|k: int| p < k < distinct.len() implies lex_lt(key@, #[trigger] distinct@[k]@) by {
                        assert(lex_lt(views(distinct@)[p as int], views(distinct@)[k]));
                        lemma_lex_lt_transitive(key@, distinct@[p as int]@, distinct@[k]@);
                    }
                }
            }
            distinct.insert(p, names[n].clone());
            keys.insert(p, key);
            proof {
                let nv = views(distinct@);
                assert(nv =~= old_distinct.insert(p as int, names@[n as int]@));
                assert forall|i: int, j: int| 0 <= i < j < nv.len() implies lex_lt(#[trigger] nv[i], #[trigger] nv[j]) by {
                    if j < p {
                        assert(lex_lt(old_distinct[i], old_distinct[j]));
                    } else if j == p {
                    } else if i < p {
                        assert(lex_lt(old_distinct[i], key@));
                        lemma_lex_lt_transitive(old_distinct[i], key@, old_distinct[j - 1]);
                    } else if i == p {
                    } else {
                        assert(lex_lt(old_distinct[i - 1], old_distinct[j - 1]));
                    }
                }
            }
        } else {
            proof {
                lemma_lex_lt_total(key@, keys@[p as int]@);
                assert(views(distinct@)[p as int] == names@[n as int]@);
            }
        }
        proof {
            let nv = views(distinct@);
            let before = views(names@.subrange(0, n as int));
            let after = views(names@.subrange(0, n + 1));
            assert(after =~= before.push(names@[n as int]@));
            assert forall|i: int| 0 <= i < nv.len() implies after.contains(#[trigger] nv[i]) by {
                if !present {
                    if i < p {
                        assert(before.contains(old_distinct[i]));
                    } else if i == p {
                        assert(after[n as int] == nv[i]);
                    } else {
                        assert(before.contains(old_distinct[i - 1]));
                    }
                } else {
                    assert(before.contains(old_distinct[i]));
                }
                let w = choose|w: int| 0 <= w < before.len() && before[w] == nv[i];
                if 0 <= w < before.len() && before[w] == nv[i] {
                    assert(after[w] == nv[i]);
                } else {
                    assert(after[n as int] == nv[i]);
                }
            }
            assert forall|j: int| 0 <= j < after.len() implies nv.contains(#[trigger] after[j]) by {
                if j < n {
                    assert(after[j] == before[j]);
                    assert(old_distinct.contains(before[j]));
                    let w = choose|w: int| 0 <= w < old_distinct.len() && old_distinct[w] == before[j];
                    if !present {
                        if w < p {
                            assert(nv[w] == old_distinct[w]);
                        } else {
                            assert(nv[w + 1] == old_distinct[w]);
                        }
                    } else {
                        assert(nv[w] == old_distinct[w]);
                    }
                } else {
                    assert(nv[p as int] == after[j]);
                }
            }
        }
        n = n + 1;
    }
    proof {
        assert(names@.subrange(0, names.len() as int) =~= names@);
    }
    distinct
}

/// A set of names has one strictly increasing listing: two strictly
/// sorted sequences with the same names are equal.
pub proof fn lemma_sorted_listing_unique(a: Seq<Seq<char>>, b: Seq<Seq<char>>)
    requires
        strictly_sorted(a),
        strictly_sorted(b),
        same_names(a, b),
    ensures
        a == b,
    decreases a.len(),
{
    if a.len() == 0 || b.len() == 0 {
        if a.len() > 0 {
            assert(b.contains(a[0]));
        }
        if b.len() > 0 {
            assert(a.contains(b[0]));
        }
        assert(a =~= b);
    } else {
        // the first entries are both the least name
        assert(b.contains(a[0]));
        assert(a.contains(b[0]));
        let i = choose|i: int| 0 <= i < b.len() && b[i] == a[0];
        let j = choose|j: int| 0 <= j < a.len() && a[j] == b[0];
        if i > 0 && j > 0 {
            assert(lex_lt(b[0], b[i]));
            assert(lex_lt(a[0], a[j]));
            lemma_lex_lt_transitive(a[0], a[j], a[0]);
            lemma_lex_lt_irreflexive(a[0]);
        } else if i > 0 {
            assert(a[0] == b[0]);
        }
        assert(a[0] == b[0]);
        let ta = a.drop_first();
        let tb = b.drop_first();
        assert forall|k: int| 0 <= k < ta.len() implies tb.contains(#[trigger] ta[k]) by {
            assert(ta[k] == a[k + 1]);
            assert(b.contains(a[k + 1]));
            let w = choose|w: int| 0 <= w < b.len() && b[w] == a[k + 1];
            assert(lex_lt(a[0], a[k + 1]));
            if w == 0 {
                lemma_lex_lt_irreflexive(a[0]);
            }
            assert(tb[w - 1] == ta[k]);
        }
        assert forall|k: int| 0 <= k < tb.len() implies ta.contains(#[trigger] tb[k]) by {
            assert(tb[k] == b[k + 1]);
            assert(a.contains(b[k + 1]));
            let w = choose|w: int| 0 <= w < a.len() && a[w] == b[k + 1];
            assert(lex_lt(b[0], b[k + 1]));
            if w == 0 {
                lemma_lex_lt_irreflexive(b[0]);
            }
            assert(ta[w - 1] == tb[k]);
        }
        assert forall|x: int, y: int| 0 <= x < y < ta.len() implies lex_lt(#[trigger] ta[x], #[trigger] ta[y]) by {
            assert(lex_lt(a[x + 1], a[y + 1]));
        }
        assert forall|x: int, y: int| 0 <= x < y < tb.len() implies lex_lt(#[trigger] tb[x], #[trigger] tb[y]) by {
            assert(lex_lt(b[x + 1], b[y + 1]));
        }
        lemma_sorted_listing_unique(ta, tb);
        assert(a =~= seq![a[0]] + ta);
        assert(b =~= seq![b[0]] + tb);
    }
}

} // verus!
