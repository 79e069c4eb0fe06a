//! Sets and maps keyed by strings, held as vectors in ascending key order (the
//! order in which a `BTreeSet<String>` or `BTreeMap<String, _>` visits its keys).
use crate::text::{
    chars_before, lemma_before_irreflexive, lemma_before_total, lemma_before_transitive, str_before,
};
use vstd::prelude::*;
use vstd::string::*;

verus! {

/// The keys are in strictly ascending order (so each occurs once).
pub open spec fn ascending(keys: Seq<Seq<char>>) -> bool {
    forall|i: int, j: int| 0 <= i < j < keys.len() ==> chars_before(keys[i], keys[j])
}

/// The contents of a vector of strings.
pub open spec fn views_of(v: Seq<String>) -> Seq<Seq<char>> {
    v.map_values(|s: String| s@)
}

/// The keys of a vector of entries.
pub open spec fn keys_of<V>(v: Seq<(String, V)>) -> Seq<Seq<char>> {
    v.map_values(|e: (String, V)| e.0@)
}

/// `k` is a key of `v`.
pub open spec fn has_key<V>(v: Seq<(String, V)>, k: Seq<char>) -> bool {
    exists|i: int| 0 <= i < v.len() && #[trigger] v[i].0@ == k
}

/// The value of `k` in `v`, or `None`.
pub open spec fn value_of<V>(v: Seq<(String, V)>, k: Seq<char>) -> Option<V> {
    if has_key(v, k) {
        Some(v[choose|i: int| 0 <= i < v.len() && #[trigger] v[i].0@ == k].1)
    } else {
        None
    }
}

/// In a vector with ascending keys, entry `i` is the value of its key.
pub proof fn lemma_value_at<V>(v: Seq<(String, V)>, i: int)
    requires
        ascending(keys_of(v)),
        0 <= i < v.len(),
    ensures
        has_key(v, v[i].0@),
        value_of(v, v[i].0@) == Some(v[i].1),
{
    assert(v[i].0@ == keys_of(v)[i]);
    let j = choose|j: int| 0 <= j < v.len() && #[trigger] v[j].0@ == v[i].0@;
    if j != i {
        assert(keys_of(v)[j] == v[j].0@);
        lemma_before_irreflexive(v[i].0@);
    }
}

/// The first position whose string is not before `k`.
fn set_slot(v: &Vec<String>, k: &str) -> (i: usize)
    requires
        ascending(views_of(v@)),
    ensures
        i <= v.len(),
        forall|x: int| 0 <= x < i ==> chars_before(#[trigger] v@[x]@, k@),
        forall|x: int| i <= x < v.len() ==> !chars_before(#[trigger] v@[x]@, k@),
{
    let mut i: usize = 0;
    while i < v.len() && str_before(v[i].as_str(), k)
        invariant
            i <= v.len(),
            ascending(views_of(v@)),
            forall|x: int| 0 <= x < i ==> chars_before(#[trigger] v@[x]@, k@),
        decreases v.len() - i,
    {
        i = i + 1;
    }
    assert forall|x: int| i <= x < v.len() implies !chars_before(#[trigger] v@[x]@, k@) by {
        if x > i {
            assert(views_of(v@)[i as int] == v@[i as int]@);
            assert(views_of(v@)[x] == v@[x]@);
            if chars_before(v@[x]@, k@) {
                lemma_before_transitive(v@[i as int]@, v@[x]@, k@);
            }
        }
    }
    i
}

/// Adds `k` to the ascending set `v`.
pub fn set_insert(v: &mut Vec<String>, k: &String)
    requires
        ascending(views_of(old(v)@)),
    ensures
        ascending(views_of(final(v)@)),
        forall|x: Seq<char>|
            views_of(final(v)@).contains(x) <==> views_of(old(v)@).contains(x) || x == k@,
{
    let i = set_slot(v, k.as_str());
    let ghost old_v = v@;
    if i < v.len() && v[i] == *k {
        assert forall|x: Seq<char>| views_of(v@).contains(x) <==> views_of(old_v).contains(x)
            || x == k@ by {
            if x == k@ {
                assert(views_of(v@)[i as int] == x);
                assert(views_of(v@).contains(x));
            }
        }
        return;
    }
    v.insert(i, k.clone());
    proof {
        lemma_set_insert_at(old_v, i as int, v@[i as int]);
    }
}

proof fn lemma_set_insert_at(old_v: Seq<String>, i: int, k: String)
    requires
        ascending(views_of(old_v)),
        0 <= i <= old_v.len(),
        forall|x: int| 0 <= x < i ==> chars_before(#[trigger] old_v[x]@, k@),
        forall|x: int| i <= x < old_v.len() ==> !chars_before(#[trigger] old_v[x]@, k@),
        i < old_v.len() ==> old_v[i]@ != k@,
    ensures
        ascending(views_of(old_v.insert(i, k))),
        forall|x: Seq<char>|
            views_of(old_v.insert(i, k)).contains(x) <==> views_of(old_v).contains(x) || x == k@,
{
    let v = old_v.insert(i, k);
    assert forall|x: int, y: int| 0 <= x < y < v.len() implies chars_before(
        views_of(v)[x],
        views_of(v)[y],
    ) by {
        assert(views_of(v)[x] == v[x]@);
        assert(views_of(v)[y] == v[y]@);
        if y < i {
            assert(views_of(old_v)[x] == old_v[x]@);
            assert(views_of(old_v)[y] == old_v[y]@);
        } else if x > i {
            assert(views_of(old_v)[x - 1] == old_v[x - 1]@);
            assert(views_of(old_v)[y - 1] == old_v[y - 1]@);
        } else if x == i {
            lemma_before_total(old_v[i]@, k@);
            if y > i + 1 {
                assert(views_of(old_v)[i] == old_v[i]@);
                assert(views_of(old_v)[y - 1] == old_v[y - 1]@);
                lemma_before_transitive(k@, old_v[i]@, old_v[y - 1]@);
            }
        } else if y == i {
        } else {
            lemma_before_total(old_v[i]@, k@);
            assert(views_of(old_v)[i] == old_v[i]@);
            assert(views_of(old_v)[y - 1] == old_v[y - 1]@);
            if y - 1 > i {
                lemma_before_transitive(k@, old_v[i]@, old_v[y - 1]@);
            }
            lemma_before_transitive(old_v[x]@, k@, old_v[y - 1]@);
        }
    }
    assert forall|x: Seq<char>| views_of(v).contains(x) <==> views_of(old_v).contains(x) || x == k@ by {
        if views_of(v).contains(x) {
            let j = choose|j: int| 0 <= j < views_of(v).len() && views_of(v)[j] == x;
            if j < i {
                assert(views_of(old_v)[j] == x);
            } else if j > i {
                assert(views_of(old_v)[j - 1] == x);
            }
        }
        if views_of(old_v).contains(x) {
            let j = choose|j: int| 0 <= j < views_of(old_v).len() && views_of(old_v)[j] == x;
            if j < i {
                assert(views_of(v)[j] == x);
            } else {
                assert(views_of(v)[j + 1] == x);
            }
        }
        if x == k@ {
            assert(views_of(v)[i] == x);
        }
    }
}

/// The first position whose key is not before `k`.
fn map_slot<V>(v: &Vec<(String, V)>, k: &str) -> (i: usize)
    requires
        ascending(keys_of(v@)),
    ensures
        i <= v.len(),
        forall|x: int| 0 <= x < i ==> chars_before(#[trigger] v@[x].0@, k@),
        forall|x: int| i <= x < v.len() ==> !chars_before(#[trigger] v@[x].0@, k@),
{
    let mut i: usize = 0;
    while i < v.len() && str_before(v[i].0.as_str(), k)
        invariant
            i <= v.len(),
            ascending(keys_of(v@)),
            forall|x: int| 0 <= x < i ==> chars_before(#[trigger] v@[x].0@, k@),
        decreases v.len() - i,
    {
        i = i + 1;
    }
    assert forall|x: int| i <= x < v.len() implies !chars_before(#[trigger] v@[x].0@, k@) by {
        if x > i {
            assert(keys_of(v@)[i as int] == v@[i as int].0@);
            assert(keys_of(v@)[x] == v@[x].0@);
            if chars_before(v@[x].0@, k@) {
                lemma_before_transitive(v@[i as int].0@, v@[x].0@, k@);
            }
        }
    }
    i
}

/// The value of `k` in the ascending map `v`.
pub fn map_get<V: Copy>(v: &Vec<(String, V)>, k: &String) -> (r: Option<V>)
    requires
        ascending(keys_of(v@)),
    ensures
        r == value_of(v@, k@),
{
    let mut i: usize = 0;
    while i < v.len()
        invariant
            i <= v.len(),
            ascending(keys_of(v@)),
            forall|x: int| 0 <= x < i ==> #[trigger] v@[x].0@ != k@,
        decreases v.len() - i,
    {
        if v[i].0 == *k {
            proof {
                lemma_value_at(v@, i as int);
            }
            return Some(v[i].1);
        }
        i = i + 1;
    }
    None
}

/// Sets the value of `k` in the ascending map `v` to `val`, adding the key where it
/// is missing.
pub fn map_put<V>(v: &mut Vec<(String, V)>, k: String, val: V)
    requires
        ascending(keys_of(old(v)@)),
    ensures
        ascending(keys_of(final(v)@)),
        forall|x: Seq<char>|
            #![trigger value_of(final(v)@, x)]
            value_of(final(v)@, x) == if x == k@ {
                Some(val)
            } else {
                value_of(old(v)@, x)
            },
{
    let i = map_slot(v, k.as_str());
    let ghost old_v = v@;
    let ghost kv = k@;
    if i < v.len() && v[i].0 == k {
        v.set(i, (k, val));
        assert(keys_of(v@) =~= keys_of(old_v)) by {
            assert forall|x: int| 0 <= x < v@.len() implies keys_of(v@)[x] == keys_of(old_v)[x] by {
                if x != i {
                    assert(v@[x] == old_v[x]);
                }
            }
        }
        assert forall|x: Seq<char>| #![trigger value_of(v@, x)] value_of(v@, x) == if x == kv {
            Some(val)
        } else {
            value_of(old_v, x)
        } by {
            lemma_value_at(v@, i as int);
            if x != kv {
                if has_key(v@, x) {
                    let j = choose|j: int| 0 <= j < v@.len() && #[trigger] v@[j].0@ == x;
                    assert(v@[j] == old_v[j]);
                    lemma_value_at(v@, j);
                    lemma_value_at(old_v, j);
                } else if has_key(old_v, x) {
                    let j = choose|j: int| 0 <= j < old_v.len() && #[trigger] old_v[j].0@ == x;
                    assert(v@[j] == old_v[j]);
                }
            }
        }
        return;
    }
    v.insert(i, (k, val));
    assert forall|x: int, y: int| 0 <= x < y < v@.len() implies chars_before(
        keys_of(v@)[x],
        keys_of(v@)[y],
    ) by {
        assert(keys_of(v@)[x] == v@[x].0@);
        assert(keys_of(v@)[y] == v@[y].0@);
        if y < i {
            assert(keys_of(old_v)[x] == old_v[x].0@);
            assert(keys_of(old_v)[y] == old_v[y].0@);
        } else if x > i {
            assert(keys_of(old_v)[x - 1] == old_v[x - 1].0@);
            assert(keys_of(old_v)[y - 1] == old_v[y - 1].0@);
        } else if x == i {
            lemma_before_total(old_v[i as int].0@, kv);
            if y > i + 1 {
                assert(keys_of(old_v)[i as int] == old_v[i as int].0@);
                assert(keys_of(old_v)[y - 1] == old_v[y - 1].0@);
                lemma_before_transitive(kv, old_v[i as int].0@, old_v[y - 1].0@);
            }
        } else if y == i {
        } else {
            lemma_before_total(old_v[i as int].0@, kv);
            assert(keys_of(old_v)[i as int] == old_v[i as int].0@);
            assert(keys_of(old_v)[y - 1] == old_v[y - 1].0@);
            if y - 1 > i {
                lemma_before_transitive(kv, old_v[i as int].0@, old_v[y - 1].0@);
            }
            lemma_before_transitive(old_v[x].0@, kv, old_v[y - 1].0@);
        }
    }
    assert forall|x: Seq<char>| #![trigger value_of(v@, x)] value_of(v@, x) == if x == kv {
        Some(val)
    } else {
        value_of(old_v, x)
    } by {
        lemma_value_at(v@, i as int);
        if x != kv {
            if has_key(v@, x) {
                let j = choose|j: int| 0 <= j < v@.len() && #[trigger] v@[j].0@ == x;
                let oj = if j < i { j } else { j - 1 };
                assert(v@[j] == old_v[oj]);
                lemma_value_at(v@, j);
                lemma_value_at(old_v, oj);
            } else if has_key(old_v, x) {
                let j = choose|j: int| 0 <= j < old_v.len() && #[trigger] old_v[j].0@ == x;
                let nj = if j < i { j } else { j + 1 };
                assert(v@[nj] == old_v[j]);
            }
        }
    }
}

/// Sets every value of the map `v` to `val`; the keys stay as they are.
pub fn map_fill<V: Copy>(v: &mut Vec<(String, V)>, val: V)
    requires
        ascending(keys_of(old(v)@)),
    ensures
        keys_of(final(v)@) == keys_of(old(v)@),
        forall|x: Seq<char>|
            #![trigger value_of(final(v)@, x)]
            value_of(final(v)@, x) == if has_key(old(v)@, x) {
                Some(val)
            } else {
                None
            },
{
    let ghost old_v = v@;
    let n = v.len();
    for i in 0..n
        invariant
            n == v@.len() == old_v.len(),
            keys_of(v@) == keys_of(old_v),
            forall|x: int| 0 <= x < i ==> #[trigger] v@[x].1 == val,
            forall|x: int| 0 <= x < n ==> #[trigger] v@[x].0@ == old_v[x].0@,
    {
        let key = v[i].0.clone();
        v.set(i, (key, val));
        assert(keys_of(v@) =~= keys_of(old_v)) by {
            assert forall|x: int| 0 <= x < n implies keys_of(v@)[x] == keys_of(old_v)[x] by {
                assert(keys_of(v@)[x] == v@[x].0@);
                assert(keys_of(old_v)[x] == old_v[x].0@);
            }
        }
    }
    assert forall|x: Seq<char>| #![trigger value_of(v@, x)] value_of(v@, x) == if has_key(old_v, x) {
        Some(val)
    } else {
        None
    } by {
        if has_key(v@, x) {
            let j = choose|j: int| 0 <= j < v@.len() && #[trigger] v@[j].0@ == x;
            lemma_value_at(v@, j);
            assert(old_v[j].0@ == x);
        } else if has_key(old_v, x) {
            let j = choose|j: int| 0 <= j < old_v.len() && #[trigger] old_v[j].0@ == x;
            assert(v@[j].0@ == x);
        }
    }
}

} // verus!
