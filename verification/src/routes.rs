use vstd::prelude::*;

use crate::strutil::str_eq;

verus! {

// A client's trace-to-querier assignments, kept as an association list of
// `(trace id, querier name)` pairs with pairwise-distinct trace ids. The
// mathematical content of such a list is the finite map read off by
// `route_map`; every contract about a session's routing state is phrased
// over that map.

/// The map described by an association list; a later pair wins, which is
/// irrelevant once the keys are unique.
pub open spec fn route_map(s: Seq<(String, String)>) -> Map<Seq<char>, Seq<char>>
    decreases s.len(),
{
    if s.len() == 0 {
        Map::empty()
    } else {
        route_map(s.drop_last()).insert(s.last().0@, s.last().1@)
    }
}

/// Some pair of the list carries the trace id `k`.
pub open spec fn has_route_key(s: Seq<(String, String)>, k: Seq<char>) -> bool {
    exists|i: int| 0 <= i < s.len() && s[i].0@ == k
}

/// The trace ids of the list are pairwise distinct.
pub open spec fn unique_route_keys(s: Seq<(String, String)>) -> bool {
    forall|i: int, j: int| 0 <= i < j < s.len() ==> s[i].0@ != s[j].0@
}

/// The domain of `route_map` is exactly the set of trace ids in the list.
pub proof fn lemma_route_map_dom(s: Seq<(String, String)>)
    ensures
        forall|k: Seq<char>| #[trigger] route_map(s).contains_key(k) <==> has_route_key(s, k),
    decreases s.len(),
{
    if s.len() > 0 {
        lemma_route_map_dom(s.drop_last());
        assert forall|k: Seq<char>|
            #[trigger] route_map(s).contains_key(k) <==> has_route_key(s, k) by {
            if route_map(s).contains_key(k) {
                if k == s.last().0@ {
                    assert(s[s.len() - 1].0@ == k);
                } else {
                    assert(route_map(s.drop_last()).contains_key(k));
                    assert(has_route_key(s.drop_last(), k));
                    let i = choose|i: int|
                        0 <= i < s.drop_last().len() && s.drop_last()[i].0@ == k;
                    assert(s.drop_last()[i] == s[i]);
                    assert(s[i].0@ == k);
                }
            }
            if has_route_key(s, k) {
                let i = choose|i: int| 0 <= i < s.len() && s[i].0@ == k;
                if i < s.len() - 1 {
                    assert(s.drop_last()[i] == s[i]);
                    assert(has_route_key(s.drop_last(), k));
                    assert(route_map(s.drop_last()).contains_key(k));
                }
            }
        }
    }
}

/// With unique keys, each pair of the list is reflected verbatim in the map.
pub proof fn lemma_route_map_index(s: Seq<(String, String)>, i: int)
    requires
        unique_route_keys(s),
        0 <= i < s.len(),
    ensures
        route_map(s).contains_key(s[i].0@),
        route_map(s)[s[i].0@] == s[i].1@,
    decreases s.len(),
{
    if i < s.len() - 1 {
        assert(s.drop_last()[i] == s[i]);
        lemma_route_map_index(s.drop_last(), i);
        assert(s[i].0@ != s.last().0@);
    }
}

/// Appending a pair with a fresh key inserts it into the map.
pub proof fn lemma_route_map_push(s: Seq<(String, String)>, p: (String, String))
    ensures
        route_map(s.push(p)) == route_map(s).insert(p.0@, p.1@),
{
    assert(s.push(p).drop_last() =~= s);
    assert(s.push(p).last() == p);
}

/// Removing the pair at an index removes its key from the map.
pub proof fn lemma_route_map_remove(s: Seq<(String, String)>, i: int)
    requires
        unique_route_keys(s),
        0 <= i < s.len(),
    ensures
        route_map(s.remove(i)) == route_map(s).remove(s[i].0@),
    decreases s.len(),
{
    lemma_route_map_dom(s);
    lemma_route_map_dom(s.remove(i));
    if i == s.len() - 1 {
        assert(s.remove(i) =~= s.drop_last());
        assert(!has_route_key(s.drop_last(), s[i].0@));
        assert(route_map(s.drop_last()) =~= route_map(s).remove(s[i].0@)) by {
            lemma_route_map_dom(s.drop_last());
            assert forall|k: Seq<char>| route_map(s.drop_last()).contains_key(k)
                implies #[trigger] route_map(s).remove(s[i].0@).contains_key(k)
                && route_map(s).remove(s[i].0@)[k] == route_map(s.drop_last())[k] by {
                assert(has_route_key(s.drop_last(), k));
            }
        }
    } else {
        assert(s.remove(i).drop_last() =~= s.drop_last().remove(i));
        assert(s.remove(i).last() == s.last());
        lemma_route_map_remove(s.drop_last(), i);
        assert(s[i].0@ != s.last().0@);
        assert(route_map(s.remove(i)) =~= route_map(s).remove(s[i].0@));
    }
}

/// Removing a pair keeps the remaining keys pairwise distinct.
pub proof fn lemma_unique_after_remove(s: Seq<(String, String)>, i: int)
    requires
        unique_route_keys(s),
        0 <= i < s.len(),
    ensures
        unique_route_keys(s.remove(i)),
{
    assert forall|a: int, b: int| 0 <= a < b < s.remove(i).len()
        implies s.remove(i)[a].0@ != s.remove(i)[b].0@ by {
        let a0: int = if a < i { a } else { a + 1 };
        let b0: int = if b < i { b } else { b + 1 };
        assert(s.remove(i)[a] == s[a0]);
        assert(s.remove(i)[b] == s[b0]);
    }
}

/// The position of a trace id in the list, when it occurs.
pub fn route_find(v: &Vec<(String, String)>, trace_id: &str) -> (r: Option<usize>)
    ensures
        match r {
            Some(i) => i < v@.len() && v@[i as int].0@ == trace_id@,
            None => !has_route_key(v@, trace_id@),
        },
{
    let mut i: usize = 0;
    while i < v.len()
        invariant
            i <= v@.len(),
            forall|j: int| 0 <= j < i ==> v@[j].0@ != trace_id@,
        decreases v@.len() - i,
    {
        if str_eq(v[i].0.as_str(), trace_id) {
            return Some(i);
        }
        i = i + 1;
    }
    None
}

/// The querier recorded for a trace, read through `route_map`.
pub fn route_lookup(v: &Vec<(String, String)>, trace_id: &str) -> (r: Option<String>)
    requires
        unique_route_keys(v@),
    ensures
        match r {
            Some(q) => route_map(v@).contains_key(trace_id@) && route_map(v@)[trace_id@] == q@,
            None => !route_map(v@).contains_key(trace_id@),
        },
{
    proof {
        lemma_route_map_dom(v@);
    }
    match route_find(v, trace_id) {
        Some(i) => {
            proof {
                lemma_route_map_index(v@, i as int);
            }
            Some(v[i].1.clone())
        }
        None => None,
    }
}

/// Records `trace_id -> querier_name`, overwriting any previous assignment,
/// and returns the querier the trace was assigned to before, if any.
pub fn route_set(v: &mut Vec<(String, String)>, trace_id: &str, querier_name: &str)
    -> (prev: Option<String>)
    requires
        unique_route_keys(old(v)@),
    ensures
        unique_route_keys(final(v)@),
        route_map(final(v)@) == route_map(old(v)@).insert(trace_id@, querier_name@),
        match prev {
            Some(q) => route_map(old(v)@).contains_key(trace_id@)
                && route_map(old(v)@)[trace_id@] == q@,
            None => !route_map(old(v)@).contains_key(trace_id@),
        },
{
    proof {
        lemma_route_map_dom(v@);
    }
    let prev = match route_find(v, trace_id) {
        Some(i) => {
            proof {
                lemma_route_map_index(v@, i as int);
                lemma_route_map_remove(v@, i as int);
                lemma_unique_after_remove(v@, i as int);
            }
            let pair = v.remove(i);
            Some(pair.1)
        }
        None => None,
    };
    let new_pair = (trace_id.to_owned(), querier_name.to_owned());
    let ghost mid = v@;
    proof {
        lemma_route_map_dom(mid);
        lemma_route_map_push(mid, new_pair);
    }
    v.push(new_pair);
    proof {
        assert forall|a: int, b: int| 0 <= a < b < v@.len()
            implies v@[a].0@ != v@[b].0@ by {
            if b == v@.len() - 1 {
                assert(v@[a] == mid[a]);
                assert(!has_route_key(mid, trace_id@));
            } else {
                assert(v@[a] == mid[a]);
                assert(v@[b] == mid[b]);
            }
        }
        assert(route_map(v@) =~= route_map(old(v)@).insert(trace_id@, querier_name@));
    }
    prev
}

/// Deletes the assignment of a trace and returns the querier it pointed at;
/// the list is unchanged when the trace is not recorded.
pub fn route_delete(v: &mut Vec<(String, String)>, trace_id: &str) -> (prev: Option<String>)
    requires
        unique_route_keys(old(v)@),
    ensures
        unique_route_keys(final(v)@),
        route_map(final(v)@) == route_map(old(v)@).remove(trace_id@),
        match prev {
            Some(q) => route_map(old(v)@).contains_key(trace_id@)
                && route_map(old(v)@)[trace_id@] == q@,
            None => {
                &&& !route_map(old(v)@).contains_key(trace_id@)
                &&& final(v)@ == old(v)@
            },
        },
{
    proof {
        lemma_route_map_dom(v@);
    }
    match route_find(v, trace_id) {
        Some(i) => {
            proof {
                lemma_route_map_index(v@, i as int);
                lemma_route_map_remove(v@, i as int);
                lemma_unique_after_remove(v@, i as int);
            }
            let pair = v.remove(i);
            Some(pair.1)
        }
        None => {
            proof {
                assert(route_map(v@) =~= route_map(v@).remove(trace_id@));
            }
            None
        }
    }
}

/// The pairs of the list whose trace id is not among `ts`, in order; the
/// spec-level effect is `remove_keys` with the set of ids in `ts`.
pub fn route_remove_keys(v: &Vec<(String, String)>, ts: &Vec<String>) -> (r: Vec<
    (String, String),
>)
    requires
        unique_route_keys(v@),
    ensures
        unique_route_keys(r@),
        route_map(r@) == route_map(v@).remove_keys(crate::traces::trace_set(ts@)),
{
    let ghost tset = crate::traces::trace_set(ts@);
    let mut r: Vec<(String, String)> = Vec::new();
    let mut i: usize = 0;
    proof {
        assert(v@.take(0) =~= Seq::<(String, String)>::empty());
        assert(route_map(r@) =~= route_map(v@.take(0)).remove_keys(tset));
    }
    while i < v.len()
        invariant
            i <= v@.len(),
            unique_route_keys(v@),
            unique_route_keys(r@),
            tset == crate::traces::trace_set(ts@),
            route_map(r@) == route_map(v@.take(i as int)).remove_keys(tset),
            forall|k: Seq<char>| #[trigger] has_route_key(r@, k) ==> has_route_key(
                v@.take(i as int),
                k,
            ),
        decreases v@.len() - i,
    {
        let ghost prefix = v@.take(i as int);
        let ghost cur = v@[i as int];
        proof {
            assert(v@.take(i as int + 1) =~= prefix.push(cur));
            lemma_route_map_push(prefix, cur);
            lemma_route_map_dom(prefix);
            assert(!has_route_key(prefix, cur.0@)) by {
                if has_route_key(prefix, cur.0@) {
                    let j = choose|j: int| 0 <= j < prefix.len() && prefix[j].0@ == cur.0@;
                    assert(v@[j] == prefix[j]);
                }
            }
        }
        if !crate::traces::trace_contains(ts, v[i].0.as_str()) {
            let ghost r0 = r@;
            r.push((v[i].0.clone(), v[i].1.clone()));
            proof {
                assert(r@ =~= r0.push(cur));
                lemma_route_map_push(r0, cur);
                assert forall|a: int, b: int| 0 <= a < b < r@.len()
                    implies r@[a].0@ != r@[b].0@ by {
                    if b == r@.len() - 1 {
                        assert(r@[a] == r0[a]);
                        assert(has_route_key(r0, r0[a].0@));
                        let j = choose|j: int| 0 <= j < prefix.len() && prefix[j].0@ == r0[a].0@;
                        assert(v@[j] == prefix[j]);
                    } else {
                        assert(r@[a] == r0[a]);
                        assert(r@[b] == r0[b]);
                    }
                }
                assert(route_map(r@) =~= route_map(v@.take(i as int + 1)).remove_keys(tset));
                assert forall|k: Seq<char>| #[trigger] has_route_key(r@, k)
                    implies has_route_key(v@.take(i as int + 1), k) by {
                    let a = choose|a: int| 0 <= a < r@.len() && r@[a].0@ == k;
                    if a < r@.len() - 1 {
                        assert(r0[a].0@ == k);
                        assert(has_route_key(r0, k));
                        let j = choose|j: int| 0 <= j < prefix.len() && prefix[j].0@ == k;
                        assert(v@.take(i as int + 1)[j].0@ == k);
                    } else {
                        assert(v@.take(i as int + 1)[i as int].0@ == k);
                    }
                }
            }
        } else {
            proof {
                assert(route_map(r@) =~= route_map(v@.take(i as int + 1)).remove_keys(tset));
                assert forall|k: Seq<char>| #[trigger] has_route_key(r@, k)
                    implies has_route_key(v@.take(i as int + 1), k) by {
                    let j = choose|j: int| 0 <= j < prefix.len() && prefix[j].0@ == k;
                    assert(v@.take(i as int + 1)[j].0@ == k);
                }
            }
        }
        i = i + 1;
    }
    proof {
        assert(v@.take(v@.len() as int) =~= v@);
    }
    r
}

/// An element-wise copy of an association list.
pub fn route_clone(v: &Vec<(String, String)>) -> (r: Vec<(String, String)>)
    ensures
        r@ == v@,
{
    let mut r: Vec<(String, String)> = Vec::new();
    let mut i: usize = 0;
    while i < v.len()
        invariant
            i <= v@.len(),
            r@.len() == i,
            forall|j: int| 0 <= j < i ==> r@[j] == v@[j],
        decreases v@.len() - i,
    {
        r.push((v[i].0.clone(), v[i].1.clone()));
        i = i + 1;
    }
    proof {
        assert(r@ =~= v@);
    }
    r
}

} // verus!
