use vstd::prelude::*;

use crate::strutil::str_eq;

verus! {

// A querier's set of in-flight trace ids, kept as a vector of pairwise
// distinct strings. Contracts about the reverse index are phrased over the
// set of character sequences read off by `trace_set`.

/// The set of trace ids held by the vector.
pub open spec fn trace_set(s: Seq<String>) -> Set<Seq<char>> {
    Set::new(|t: Seq<char>| exists|i: int| 0 <= i < s.len() && s[i]@ == t)
}

/// The trace ids of the vector are pairwise distinct.
pub open spec fn unique_traces(s: Seq<String>) -> bool {
    forall|i: int, j: int| 0 <= i < j < s.len() ==> s[i]@ != s[j]@
}

/// The vector is empty exactly when its trace set is.
pub proof fn lemma_trace_set_empty(s: Seq<String>)
    ensures
        s.len() == 0 ==> trace_set(s) == Set::<Seq<char>>::empty(),
        s.len() > 0 ==> trace_set(s) != Set::<Seq<char>>::empty(),
{
    if s.len() == 0 {
        assert(trace_set(s) =~= Set::<Seq<char>>::empty());
    } else {
        assert(trace_set(s).contains(s[0]@));
    }
}

/// Appending an id inserts it into the trace set.
pub proof fn lemma_trace_set_push(s: Seq<String>, x: String)
    ensures
        trace_set(s.push(x)) == trace_set(s).insert(x@),
{
    assert(trace_set(s.push(x)) =~= trace_set(s).insert(x@)) by {
        assert forall|t: Seq<char>| trace_set(s.push(x)).contains(t)
            implies trace_set(s).insert(x@).contains(t) by {
            let i = choose|i: int| 0 <= i < s.push(x).len() && s.push(x)[i]@ == t;
            if i < s.len() {
                assert(s[i]@ == t);
            }
        }
        assert forall|t: Seq<char>| trace_set(s).insert(x@).contains(t)
            implies trace_set(s.push(x)).contains(t) by {
            if t == x@ {
                assert(s.push(x)[s.len() as int]@ == t);
            } else {
                let i = choose|i: int| 0 <= i < s.len() && s[i]@ == t;
                assert(s.push(x)[i]@ == t);
            }
        }
    }
}

/// Appending an id the vector does not hold keeps its ids distinct.
pub proof fn lemma_unique_traces_push(s: Seq<String>, x: String)
    requires
        unique_traces(s),
        !trace_set(s).contains(x@),
    ensures
        unique_traces(s.push(x)),
{
    assert forall|a: int, b: int| 0 <= a < b < s.push(x).len()
        implies s.push(x)[a]@ != s.push(x)[b]@ by {
        if b == s.len() {
            assert(s.push(x)[a] == s[a]);
            assert(trace_set(s).contains(s[a]@));
        } else {
            assert(s.push(x)[a] == s[a]);
            assert(s.push(x)[b] == s[b]);
        }
    }
}

/// Whether the vector holds the given trace id.
pub fn trace_contains(v: &Vec<String>, trace_id: &str) -> (r: bool)
    ensures
        r == trace_set(v@).contains(trace_id@),
{
    let mut i: usize = 0;
    while i < v.len()
        invariant
            i <= v@.len(),
            forall|j: int| 0 <= j < i ==> v@[j]@ != trace_id@,
        decreases v@.len() - i,
    {
        if str_eq(v[i].as_str(), trace_id) {
            assert(trace_set(v@).contains(trace_id@));
            return true;
        }
        i = i + 1;
    }
    assert(!trace_set(v@).contains(trace_id@));
    false
}

/// Adds a trace id to the vector unless it is already there.
pub fn trace_add(v: &mut Vec<String>, trace_id: &str)
    requires
        unique_traces(old(v)@),
    ensures
        unique_traces(final(v)@),
        trace_set(final(v)@) == trace_set(old(v)@).insert(trace_id@),
{
    if !trace_contains(v, trace_id) {
        let ghost pre = v@;
        v.push(trace_id.to_owned());
        proof {
            assert forall|a: int, b: int| 0 <= a < b < v@.len()
                implies v@[a]@ != v@[b]@ by {
                if b == v@.len() - 1 {
                    assert(v@[a] == pre[a]);
                    assert(trace_set(pre).contains(pre[a]@));
                } else {
                    assert(v@[a] == pre[a]);
                    assert(v@[b] == pre[b]);
                }
            }
            assert(trace_set(v@) =~= trace_set(pre).insert(trace_id@)) by {
                assert forall|t: Seq<char>| trace_set(v@).contains(t)
                    implies trace_set(pre).insert(trace_id@).contains(t) by {
                    let i = choose|i: int| 0 <= i < v@.len() && v@[i]@ == t;
                    if i < v@.len() - 1 {
                        assert(pre[i]@ == t);
                    }
                }
                assert forall|t: Seq<char>| trace_set(pre).insert(trace_id@).contains(t)
                    implies trace_set(v@).contains(t) by {
                    if t == trace_id@ {
                        assert(v@[v@.len() - 1]@ == t);
                    } else {
                        let i = choose|i: int| 0 <= i < pre.len() && pre[i]@ == t;
                        assert(v@[i]@ == t);
                    }
                }
            }
        }
    } else {
        proof {
            assert(trace_set(v@) =~= trace_set(v@).insert(trace_id@));
        }
    }
}

/// Removes a trace id from the vector; without an occurrence this is a no-op.
pub fn trace_delete(v: &mut Vec<String>, trace_id: &str)
    requires
        unique_traces(old(v)@),
    ensures
        unique_traces(final(v)@),
        trace_set(final(v)@) == trace_set(old(v)@).remove(trace_id@),
{
    let ghost pre = v@;
    let mut i: usize = 0;
    while i < v.len()
        invariant
            i <= v@.len(),
            v@ == pre,
            pre == old(v)@,
            unique_traces(pre),
            forall|j: int| 0 <= j < i ==> v@[j]@ != trace_id@,
        decreases v@.len() - i,
    {
        if str_eq(v[i].as_str(), trace_id) {
            let ghost idx = i as int;
            v.remove(i);
            proof {
                assert(v@ == pre.remove(idx));
                assert(pre[idx]@ == trace_id@);
                assert forall|a: int, b: int| 0 <= a < b < v@.len()
                    implies v@[a]@ != v@[b]@ by {
                    let a0: int = if a < idx { a } else { a + 1 };
                    let b0: int = if b < idx { b } else { b + 1 };
                    assert(v@[a] == pre[a0]);
                    assert(v@[b] == pre[b0]);
                }
                assert(trace_set(v@) =~= trace_set(pre).remove(trace_id@)) by {
                    assert forall|t: Seq<char>| trace_set(v@).contains(t)
                        implies trace_set(pre).remove(trace_id@).contains(t) by {
                        let a = choose|a: int| 0 <= a < v@.len() && v@[a]@ == t;
                        let a0: int = if a < idx { a } else { a + 1 };
                        assert(v@[a] == pre[a0]);
                        assert(pre[a0]@ == t);
                        assert(trace_set(pre).contains(t));
                        assert(a0 != idx);
                        assert(pre[a0]@ != pre[idx]@);
                        assert(t != trace_id@);
                    }
                    assert forall|t: Seq<char>| trace_set(pre).remove(trace_id@).contains(t)
                        implies trace_set(v@).contains(t) by {
                        let a0 = choose|a0: int| 0 <= a0 < pre.len() && pre[a0]@ == t;
                        assert(a0 != idx);
                        if a0 < idx {
                            assert(v@[a0] == pre[a0]);
                            assert(v@[a0]@ == t);
                        } else {
                            assert(v@[a0 - 1] == pre[a0]);
                            assert(v@[a0 - 1]@ == t);
                        }
                    }
                }
            }
            return;
        }
        i = i + 1;
    }
    proof {
        assert(trace_set(v@) =~= trace_set(pre).remove(trace_id@)) by {
            assert forall|t: Seq<char>| trace_set(pre).remove(trace_id@).contains(t)
                implies trace_set(v@).contains(t) by {
            }
            assert forall|t: Seq<char>| trace_set(v@).contains(t)
                implies trace_set(pre).remove(trace_id@).contains(t) by {
                let a = choose|a: int| 0 <= a < v@.len() && v@[a]@ == t;
                assert(t != trace_id@);
            }
        }
    }
}

/// An element-wise copy of a trace vector.
pub fn trace_clone(v: &Vec<String>) -> (r: Vec<String>)
    ensures
        r@ == v@,
{
    let mut r: Vec<String> = Vec::new();
    let mut i: usize = 0;
    while i < v.len()
        invariant
            i <= v@.len(),
            r@.len() == i,
            forall|j: int| 0 <= j < i ==> r@[j] == v@[j],
        decreases v@.len() - i,
    {
        r.push(v[i].clone());
        i = i + 1;
    }
    proof {
        assert(r@ =~= v@);
    }
    r
}

} // verus!
