use std::collections::{BTreeMap, HashMap, HashSet};
use vstd::prelude::*;

verus! {

broadcast use {vstd::std_specs::hash::group_hash_axioms, vstd::std_specs::btree::group_btree_axioms, vstd::laws_cmp::group_laws_cmp};

/// How many times `x` occurs in `s`.
pub open spec fn count_of(s: Seq<i32>, x: i32) -> nat
    decreases s.len(),
{
    if s.len() == 0 {
        0
    } else {
        count_of(s.drop_last(), x) + if s.last() == x {
            1nat
        } else {
            0nat
        }
    }
}

/// Whether `x` occurs in `s` and no value occurs in `s` more often.
pub open spec fn is_mode(s: Seq<i32>, x: i32) -> bool {
    s.contains(x) && forall|y: i32| count_of(s, y) <= #[trigger] count_of(s, x)
}

/// The modes of `s`: every value that occurs most often in it.
pub open spec fn modes(s: Seq<i32>) -> Set<i32> {
    Set::new(|x: i32| is_mode(s, x))
}

/// `count_of` of a sequence with one more element.
proof fn lemma_count_push(s: Seq<i32>, a: i32, x: i32)
    ensures
        count_of(s.push(a), x) == count_of(s, x) + if a == x {
            1nat
        } else {
            0nat
        },
{
    assert(s.push(a).drop_last() =~= s);
}

/// A value occurs in a sequence exactly when it is contained in it, and at
/// most as often as the sequence is long.
proof fn lemma_count_contains(s: Seq<i32>, x: i32)
    ensures
        count_of(s, x) > 0 <==> s.contains(x),
        count_of(s, x) <= s.len(),
    decreases s.len(),
{
    if s.len() > 0 {
        lemma_count_contains(s.drop_last(), x);
        if s.drop_last().contains(x) {
            let i = choose|i: int| 0 <= i < s.drop_last().len() && s.drop_last()[i] == x;
            assert(s[i] == x);
        }
        if s.contains(x) && s.last() != x {
            let i = choose|i: int| 0 <= i < s.len() && s[i] == x;
            assert(s.drop_last()[i] == x);
        }
    }
}

/// Counts and membership in a prefix one element longer.
proof fn lemma_count_step(s: Seq<i32>, i: int)
    requires
        0 <= i < s.len(),
    ensures
        forall|y: i32| #[trigger] count_of(s.take(i + 1), y) == count_of(s.take(i), y) + if s[i] == y {
            1nat
        } else {
            0nat
        },
        forall|y: i32| #[trigger] s.take(i + 1).contains(y) <==> s.take(i).contains(y) || y == s[i],
{
    let x = s[i];
    assert(s.take(i + 1) =~= s.take(i).push(x));
    assert forall|y: i32| #[trigger] count_of(s.take(i + 1), y) == count_of(s.take(i), y) + if x == y {
        1nat
    } else {
        0nat
    } by {
        lemma_count_push(s.take(i), x, y);
    }
    assert(s.take(i + 1)[i] == x);
    assert forall|y: i32| #[trigger] s.take(i + 1).contains(y) <==> s.take(i).contains(y) || y == x by {
        if s.take(i + 1).contains(y) && y != x {
            let q = choose|q: int| 0 <= q < i + 1 && #[trigger] s.take(i + 1)[q] == y;
            assert(s.take(i)[q] == y);
        }
        if s.take(i).contains(y) {
            let q = choose|q: int| 0 <= q < i && #[trigger] s.take(i)[q] == y;
            assert(s.take(i + 1)[q] == y);
        }
    }
}

/// How often each value of `v` occurs in it, in a hash map.
fn count_values(v: &Vec<i32>) -> (m: HashMap<i32, usize>)
    ensures
        forall|x: i32| #[trigger] m@.contains_key(x) <==> v@.contains(x),
        forall|x: i32| #[trigger] m@.contains_key(x) ==> m@[x] == count_of(v@, x),
{
    let mut m: HashMap<i32, usize> = HashMap::new();
    let mut i: usize = 0;
    while i < v.len()
        invariant
            i <= v@.len(),
            forall|x: i32| #[trigger] m@.contains_key(x) <==> v@.take(i as int).contains(x),
            forall|x: i32| #[trigger] m@.contains_key(x) ==> m@[x] == count_of(v@.take(i as int), x),
        decreases v@.len() - i,
    {
        let x = v[i];
        proof {
            lemma_count_step(v@, i as int);
        }
        let c: usize = match m.get(&x) {
            Some(c) => *c,
            None => 0,
        };
        proof {
            lemma_count_contains(v@.take(i as int), x);
            assert(c == count_of(v@.take(i as int), x));
        }
        m.insert(x, c + 1);
        i = i + 1;
    }
    proof {
        assert(v@.take(i as int) =~= v@);
    }
    m
}

/// How often each value of `v` occurs in it, in an ordered map.
fn count_values_ordered(v: &Vec<i32>) -> (m: BTreeMap<i32, usize>)
    ensures
        forall|x: i32| #[trigger] m@.contains_key(x) <==> v@.contains(x),
        forall|x: i32| #[trigger] m@.contains_key(x) ==> m@[x] == count_of(v@, x),
{
    let mut m: BTreeMap<i32, usize> = BTreeMap::new();
    let mut i: usize = 0;
    while i < v.len()
        invariant
            i <= v@.len(),
            forall|x: i32| #[trigger] m@.contains_key(x) <==> v@.take(i as int).contains(x),
            forall|x: i32| #[trigger] m@.contains_key(x) ==> m@[x] == count_of(v@.take(i as int), x),
        decreases v@.len() - i,
    {
        let x = v[i];
        proof {
            lemma_count_step(v@, i as int);
        }
        let c: usize = match m.get(&x) {
            Some(c) => *c,
            None => 0,
        };
        proof {
            lemma_count_contains(v@.take(i as int), x);
            assert(c == count_of(v@.take(i as int), x));
        }
        m.insert(x, c + 1);
        i = i + 1;
    }
    proof {
        assert(v@.take(i as int) =~= v@);
    }
    m
}

/// The modes of `v`, given the number of occurrences of each of its elements
/// (`per[i]` is how often `v[i]` occurs in `v`); `None` when `v` is empty.
fn modes_from_counts(v: &Vec<i32>, per: &Vec<usize>) -> (r: Option<HashSet<i32>>)
    requires
        per@.len() == v@.len(),
        forall|i: int| 0 <= i < v@.len() ==> #[trigger] per@[i] == count_of(v@, v@[i]),
    ensures
        r is None <==> v@.len() == 0,
        r matches Some(m) ==> m@ == modes(v@),
{
    if v.len() == 0 {
        return None;
    }
    let mut top: usize = per[0];
    let mut i: usize = 1;
    while i < per.len()
        invariant
            1 <= i <= per@.len(),
            forall|q: int| 0 <= q < i ==> #[trigger] per@[q] <= top,
            exists|q: int| 0 <= q < i && #[trigger] per@[q] == top,
        decreases per@.len() - i,
    {
        if per[i] > top {
            top = per[i];
        }
        i = i + 1;
    }
    let mut found: HashSet<i32> = HashSet::new();
    let mut i: usize = 0;
    while i < v.len()
        invariant
            i <= v@.len(),
            per@.len() == v@.len(),
            forall|q: int| 0 <= q < v@.len() ==> #[trigger] per@[q] == count_of(v@, v@[q]),
            forall|x: i32| #[trigger] found@.contains(x) <==> v@.take(i as int).contains(x) && count_of(v@, x) == top,
        decreases v@.len() - i,
    {
        proof {
            lemma_count_step(v@, i as int);
        }
        if per[i] == top {
            found.insert(v[i]);
        }
        i = i + 1;
    }
    proof {
        assert(v@.take(i as int) =~= v@);
        let w = choose|q: int| 0 <= q < per@.len() && #[trigger] per@[q] == top;
        assert forall|x: i32| #[trigger] found@.contains(x) <==> is_mode(v@, x) by {
            if found@.contains(x) {
                assert forall|y: i32| count_of(v@, y) <= #[trigger] count_of(v@, x) by {
                    lemma_count_contains(v@, y);
                    if v@.contains(y) {
                        let q = choose|q: int| 0 <= q < v@.len() && v@[q] == y;
                        assert(per@[q] <= top);
                    }
                }
            }
            if is_mode(v@, x) {
                assert(count_of(v@, v@[w]) <= count_of(v@, x));
                let q = choose|q: int| 0 <= q < v@.len() && v@[q] == x;
                assert(per@[q] <= top);
            }
        }
        assert(found@ =~= modes(v@));
    }
    Some(found)
}

/// The modes of `v`, the values that occur most often in it, found by
/// counting in a hash map; `None` when `v` is empty.
pub fn mode_n(v: &Vec<i32>) -> (r: Option<HashSet<i32>>)
    ensures
        r is None <==> v@.len() == 0,
        r matches Some(m) ==> m@ == modes(v@),
{
    let counts = count_values(v);
    let mut per: Vec<usize> = Vec::new();
    let mut i: usize = 0;
    while i < v.len()
        invariant
            i <= v@.len(),
            per@.len() == i,
            forall|x: i32| #[trigger] counts@.contains_key(x) <==> v@.contains(x),
            forall|x: i32| #[trigger] counts@.contains_key(x) ==> counts@[x] == count_of(v@, x),
            forall|q: int| 0 <= q < i ==> #[trigger] per@[q] == count_of(v@, v@[q]),
        decreases v@.len() - i,
    {
        proof {
            assert(v@.contains(v@[i as int]));
        }
        let c: usize = match counts.get(&v[i]) {
            Some(c) => *c,
            None => 0,
        };
        per.push(c);
        i = i + 1;
    }
    modes_from_counts(v, &per)
}

/// The modes of `v`, the values that occur most often in it, found by
/// counting in an ordered map, in O(n log n); `None` when `v` is empty.
pub fn mode_n_lgn(v: &Vec<i32>) -> (r: Option<HashSet<i32>>)
    ensures
        r is None <==> v@.len() == 0,
        r matches Some(m) ==> m@ == modes(v@),
{
    let counts = count_values_ordered(v);
    let mut per: Vec<usize> = Vec::new();
    let mut i: usize = 0;
    while i < v.len()
        invariant
            i <= v@.len(),
            per@.len() == i,
            forall|x: i32| #[trigger] counts@.contains_key(x) <==> v@.contains(x),
            forall|x: i32| #[trigger] counts@.contains_key(x) ==> counts@[x] == count_of(v@, x),
            forall|q: int| 0 <= q < i ==> #[trigger] per@[q] == count_of(v@, v@[q]),
        decreases v@.len() - i,
    {
        proof {
            assert(v@.contains(v@[i as int]));
        }
        let c: usize = match counts.get(&v[i]) {
            Some(c) => *c,
            None => 0,
        };
        per.push(c);
        i = i + 1;
    }
    modes_from_counts(v, &per)
}

} // verus!
