use vstd::prelude::*;

verus! {

/// The map that a list of (pid, sequence) entries with distinct pids stands for.
pub open spec fn entries_map<X>(v: Seq<(u32, Vec<X>)>) -> Map<u32, Seq<X>> {
    Map::new(
        |p: u32| exists|i: int| 0 <= i < v.len() && v[i].0 == p,
        |p: u32| v[choose|i: int| 0 <= i < v.len() && v[i].0 == p].1@,
    )
}

/// No pid has two entries.
pub open spec fn distinct_entries<X>(v: Seq<(u32, Vec<X>)>) -> bool {
    forall|i: int, j: int| 0 <= i < v.len() && 0 <= j < v.len() && i != j ==> v[i].0 != v[j].0
}

/// The map holds each entry under its pid.
pub proof fn lemma_entry_lookup<X>(v: Seq<(u32, Vec<X>)>, i: int)
    requires
        distinct_entries(v),
        0 <= i < v.len(),
    ensures
        entries_map(v).contains_key(v[i].0),
        entries_map(v)[v[i].0] == v[i].1@,
{
    let p = v[i].0;
    assert(exists|k: int| 0 <= k < v.len() && v[k].0 == p);
    let k = choose|k: int| 0 <= k < v.len() && v[k].0 == p;
    assert(k == i);
}

/// Appending an entry for a new pid adds it to the map.
pub proof fn lemma_entries_push<X>(v: Seq<(u32, Vec<X>)>, e: (u32, Vec<X>))
    requires
        distinct_entries(v),
        !entries_map(v).contains_key(e.0),
    ensures
        distinct_entries(v.push(e)),
        entries_map(v.push(e)) == entries_map(v).insert(e.0, e.1@),
{
    let w = v.push(e);
    assert forall|i: int, j: int| 0 <= i < w.len() && 0 <= j < w.len() && i != j implies w[i].0 != w[j].0 by {
        if i < v.len() && j < v.len() {
            assert(w[i] == v[i] && w[j] == v[j]);
        } else if i == v.len() {
            assert(w[j] == v[j]);
            assert(entries_map(v).contains_key(v[j].0));
        } else {
            assert(w[i] == v[i]);
            assert(entries_map(v).contains_key(v[i].0));
        }
    }
    assert forall|p: u32| #[trigger] entries_map(w).contains_key(p) <==> entries_map(v).insert(e.0, e.1@).contains_key(p) by {
        if entries_map(w).contains_key(p) {
            let i = choose|i: int| 0 <= i < w.len() && w[i].0 == p;
            if i < v.len() {
                assert(v[i].0 == p);
            }
        }
        if entries_map(v).contains_key(p) {
            let i = choose|i: int| 0 <= i < v.len() && v[i].0 == p;
            assert(w[i].0 == p);
        }
        if p == e.0 {
            assert(w[v.len() as int].0 == p);
        }
    }
    assert forall|p: u32| #[trigger] entries_map(w).contains_key(p) implies entries_map(w)[p] == entries_map(v).insert(e.0, e.1@)[p] by {
        let i = choose|i: int| 0 <= i < w.len() && w[i].0 == p;
        lemma_entry_lookup(w, i);
        if i < v.len() {
            assert(w[i] == v[i]);
            lemma_entry_lookup(v, i);
        }
    }
    assert(entries_map(w) =~= entries_map(v).insert(e.0, e.1@));
}

/// Removing an entry removes its pid from the map.
pub proof fn lemma_entries_remove<X>(v: Seq<(u32, Vec<X>)>, i: int)
    requires
        distinct_entries(v),
        0 <= i < v.len(),
    ensures
        distinct_entries(v.remove(i)),
        entries_map(v.remove(i)) == entries_map(v).remove(v[i].0),
{
    let w = v.remove(i);
    assert forall|a: int| 0 <= a < w.len() implies #[trigger] w[a] == v[if a < i { a } else { a + 1 }] by {}
    assert forall|a: int, b: int| 0 <= a < w.len() && 0 <= b < w.len() && a != b implies w[a].0 != w[b].0 by {
        let fa = if a < i { a } else { a + 1 };
        let fb = if b < i { b } else { b + 1 };
        assert(v[fa].0 != v[fb].0);
    }
    assert forall|p: u32| #[trigger] entries_map(w).contains_key(p) <==> entries_map(v).remove(v[i].0).contains_key(p) by {
        if entries_map(w).contains_key(p) {
            let a = choose|a: int| 0 <= a < w.len() && w[a].0 == p;
            let fa = if a < i { a } else { a + 1 };
            assert(v[fa].0 == p);
            assert(fa != i);
        }
        if entries_map(v).contains_key(p) && p != v[i].0 {
            let b = choose|b: int| 0 <= b < v.len() && v[b].0 == p;
            assert(b != i);
            let gb = if b < i { b } else { b - 1 };
            assert(w[gb].0 == p);
        }
    }
    assert forall|p: u32| #[trigger] entries_map(w).contains_key(p) implies entries_map(w)[p] == entries_map(v).remove(v[i].0)[p] by {
        let a = choose|a: int| 0 <= a < w.len() && w[a].0 == p;
        lemma_entry_lookup(w, a);
        let fa = if a < i { a } else { a + 1 };
        lemma_entry_lookup(v, fa);
    }
    assert(entries_map(w) =~= entries_map(v).remove(v[i].0));
}

/// Where `pid` is listed among `v`'s entries.
pub fn find_entry<X>(v: &Vec<(u32, Vec<X>)>, pid: u32) -> (r: Option<usize>)
    ensures
        r matches Some(i) ==> i < v.len() && v@[i as int].0 == pid,
        r is None ==> forall|i: int| 0 <= i < v.len() ==> v@[i].0 != pid,
{
    let mut i: usize = 0;
    while i < v.len()
        invariant
            i <= v.len(),
            forall|k: int| 0 <= k < i ==> v@[k].0 != pid,
        decreases v.len() - i,
    {
        if v[i].0 == pid {
            return Some(i);
        }
        i = i + 1;
    }
    None
}


} // verus!
