use vstd::prelude::*;
use crate::text::{decimal, push_decimal};

verus! {

/// A snapshot of the process table as (pid, parent pid) pairs.
pub type ParentTable = Seq<(u32, Option<u32>)>;

/// No pid is listed twice, as in the process table it is read from.
pub open spec fn distinct_pids(procs: ParentTable) -> bool {
    forall|i: int, j: int| 0 <= i < procs.len() && 0 <= j < procs.len() && i != j ==> procs[i].0 != procs[j].0
}

/// Whether `p` is listed in `procs`.
pub open spec fn is_listed(procs: ParentTable, p: u32) -> bool {
    exists|i: int| 0 <= i < procs.len() && procs[i].0 == p
}

/// The parent that `procs` records for `p`; `None` when `p` is not listed or
/// has no parent.
pub open spec fn parent_of(procs: ParentTable, p: u32) -> Option<u32> {
    if is_listed(procs, p) {
        procs[entry_index(procs, p)].1
    } else {
        None
    }
}

/// Where `p` is listed in `procs` (meaningful when it is listed).
pub open spec fn entry_index(procs: ParentTable, p: u32) -> int {
    choose|i: int| 0 <= i < procs.len() && procs[i].0 == p
}

/// The ancestor of `p` `k` generations up, if the chain of parents reaches that far.
pub open spec fn ancestor(procs: ParentTable, p: u32, k: nat) -> Option<u32>
    decreases k,
{
    if k == 0 {
        Some(p)
    } else {
        match parent_of(procs, p) {
            Some(q) => ancestor(procs, q, (k - 1) as nat),
            None => None,
        }
    }
}

/// Whether `p` is a descendant of `root`: `root` is among its ancestors.
pub open spec fn is_descendant(procs: ParentTable, root: u32, p: u32) -> bool {
    exists|k: nat| k >= 1 && ancestor(procs, p, k) == Some(root)
}

/// `root` together with all its descendants.
pub open spec fn in_tree(procs: ParentTable, root: u32, p: u32) -> bool {
    p == root || is_descendant(procs, root, p)
}

/// `root` is not its own ancestor, so the walk down from it ends.
pub open spec fn no_self_ancestry(procs: ParentTable, root: u32) -> bool {
    forall|k: nat| k >= 1 ==> ancestor(procs, root, k) != Some(root)
}

/// Every listed child of a member of `parents` is in `holder`.
pub open spec fn children_within(procs: ParentTable, parents: Seq<u32>, holder: Seq<u32>) -> bool {
    forall|i: int|
        0 <= i < procs.len() && (#[trigger] procs[i]).1 is Some && parents.contains(procs[i].1->0)
            ==> holder.contains(procs[i].0)
}

proof fn lemma_parent_of_entry(procs: ParentTable, i: int)
    requires
        distinct_pids(procs),
        0 <= i < procs.len(),
    ensures
        parent_of(procs, procs[i].0) == procs[i].1,
        is_listed(procs, procs[i].0),
{
    let p = procs[i].0;
    assert(is_listed(procs, p));
    let j = entry_index(procs, p);
    assert(j == i);
}

proof fn lemma_parent_entry(procs: ParentTable, p: u32, q: u32)
    requires
        parent_of(procs, p) == Some(q),
    ensures
        exists|i: int| 0 <= i < procs.len() && procs[i].0 == p && procs[i].1 == Some(q),
{
    assert(is_listed(procs, p));
    let i = entry_index(procs, p);
    assert(procs[i].0 == p && procs[i].1 == Some(q));
}

proof fn lemma_ancestor_step(procs: ParentTable, c: u32, v: u32, k: nat)
    requires
        parent_of(procs, c) == Some(v),
    ensures
        ancestor(procs, c, k + 1) == ancestor(procs, v, k),
{
    assert(ancestor(procs, c, k + 1) == ancestor(procs, v, k));
}

/// A child of a member of the tree is in the tree.
proof fn lemma_child_in_tree(procs: ParentTable, root: u32, c: u32, v: u32)
    requires
        parent_of(procs, c) == Some(v),
        in_tree(procs, root, v),
    ensures
        is_descendant(procs, root, c),
{
    if v == root {
        lemma_ancestor_step(procs, c, v, 0);
        assert(ancestor(procs, c, 1) == Some(root));
    } else {
        let k = choose|k: nat| k >= 1 && ancestor(procs, v, k) == Some(root);
        lemma_ancestor_step(procs, c, v, k);
        assert(ancestor(procs, c, k + 1) == Some(root));
    }
}

/// The root cannot be the child of a member of its own tree.
proof fn lemma_root_not_child(procs: ParentTable, root: u32, v: u32)
    requires
        in_tree(procs, root, v),
        no_self_ancestry(procs, root),
    ensures
        parent_of(procs, root) != Some(v),
{
    if parent_of(procs, root) == Some(v) {
        lemma_child_in_tree(procs, root, root, v);
        let k = choose|k: nat| k >= 1 && ancestor(procs, root, k) == Some(root);
        assert(ancestor(procs, root, k) != Some(root));
    }
}

/// The members that a walk has seen are the root or listed pids, so there are
/// at most `procs.len() + 1` of them.
proof fn lemma_seen_bound(procs: ParentTable, root: u32, seen: Seq<u32>)
    requires
        seen.no_duplicates(),
        forall|e: u32| seen.contains(e) ==> e == root || is_listed(procs, e),
    ensures
        seen.len() <= procs.len() + 1,
{
    let pids = procs.map_values(|e: (u32, Option<u32>)| e.0).push(root);
    assert forall|e: u32| seen.to_set().contains(e) implies pids.to_set().contains(e) by {
        assert(seen.contains(e));
        if e == root {
            assert(pids[procs.len() as int] == root);
        } else {
            let i = choose|i: int| 0 <= i < procs.len() && procs[i].0 == e;
            assert(pids[i] == e);
        }
    }
    seen.unique_seq_to_set();
    pids.lemma_cardinality_of_set();
    vstd::seq_lib::seq_to_set_is_finite(pids);
    vstd::set_lib::lemma_len_subset(seen.to_set(), pids.to_set());
}

/// Every descendant of `root` is in a set of pids that holds `root` and is
/// closed under taking children.
proof fn lemma_closed_holds_descendants(procs: ParentTable, root: u32, seen: Seq<u32>, p: u32, k: nat)
    requires
        seen.contains(root),
        children_within(procs, seen, seen),
        k >= 1,
        ancestor(procs, p, k) == Some(root),
    ensures
        seen.contains(p),
    decreases k,
{
    let q = parent_of(procs, p)->0;
    lemma_parent_entry(procs, p, q);
    let i = choose|i: int| 0 <= i < procs.len() && procs[i].0 == p && procs[i].1 == Some(q);
    if k == 1 {
        assert(ancestor(procs, q, 0) == Some(root));
    } else {
        lemma_closed_holds_descendants(procs, root, seen, q, (k - 1) as nat);
    }
    assert(seen.contains(procs[i].0));
}

proof fn lemma_push_fresh<A>(a: Seq<A>, b: Seq<A>, c: A)
    requires
        (a + b).no_duplicates(),
        !(a + b).contains(c),
    ensures
        (a.push(c) + b).no_duplicates(),
        forall|e: A| (a.push(c) + b).contains(e) <==> ((a + b).contains(e) || e == c),
{
    let t = a.push(c) + b;
    let u = a + b;
    assert forall|i: int| 0 <= i < t.len() && i != a.len() implies #[trigger] t[i] == u[if i < a.len() { i } else { i - 1 }] by {}
    assert(t[a.len() as int] == c);
    assert forall|i: int, j: int| 0 <= i < t.len() && 0 <= j < t.len() && i != j implies t[i] != t[j] by {
        if i != a.len() && j != a.len() {
            let gi = if i < a.len() { i } else { i - 1 };
            let gj = if j < a.len() { j } else { j - 1 };
            assert(u[gi] != u[gj]);
        } else if i == a.len() {
            let gj = if j < a.len() { j } else { j - 1 };
            assert(u[gj] == t[j]);
        } else {
            let gi = if i < a.len() { i } else { i - 1 };
            assert(u[gi] == t[i]);
        }
    }
    assert forall|e: A| (a.push(c) + b).contains(e) implies ((a + b).contains(e) || e == c) by {
        let i = choose|i: int| 0 <= i < t.len() && t[i] == e;
        if i != a.len() {
            let gi = if i < a.len() { i } else { i - 1 };
            assert(u[gi] == e);
        }
    }
    assert forall|e: A| ((a + b).contains(e) || e == c) implies (a.push(c) + b).contains(e) by {
        if e == c {
            assert(t[a.len() as int] == e);
        } else {
            let i = choose|i: int| 0 <= i < u.len() && u[i] == e;
            let fi = if i < a.len() { i } else { i + 1 };
            assert(t[fi] == e);
        }
    }
}

proof fn lemma_move_to_back<A>(a: Seq<A>, x: A, b: Seq<A>)
    requires
        (a.push(x) + b).no_duplicates(),
    ensures
        (a + b.push(x)).no_duplicates(),
        !(a + b).contains(x),
        (a + b).no_duplicates(),
        forall|e: A| (a + b.push(x)).contains(e) <==> (a.push(x) + b).contains(e),
{
    let t = a.push(x) + b;
    let u = a + b;
    assert forall|i: int| 0 <= i < u.len() implies #[trigger] u[i] == t[if i < a.len() { i } else { i + 1 }] by {}
    assert forall|i: int, j: int| 0 <= i < u.len() && 0 <= j < u.len() && i != j implies u[i] != u[j] by {
        let fi = if i < a.len() { i } else { i + 1 };
        let fj = if j < a.len() { j } else { j + 1 };
        assert(t[fi] != t[fj]);
    }
    if u.contains(x) {
        let i = choose|i: int| 0 <= i < u.len() && u[i] == x;
        let fi = if i < a.len() { i } else { i + 1 };
        assert(t[fi] == x && t[a.len() as int] == x);
    }
    assert(a + b.push(x) =~= u.push(x));
    assert forall|e: A| (a + b.push(x)).contains(e) <==> (a.push(x) + b).contains(e) by {
        if (a + b.push(x)).contains(e) {
            let i = choose|i: int| 0 <= i < u.len() + 1 && u.push(x)[i] == e;
            if i == u.len() {
                assert(t[a.len() as int] == e);
            } else {
                let fi = if i < a.len() { i } else { i + 1 };
                assert(t[fi] == e);
            }
        }
        if (a.push(x) + b).contains(e) {
            let i = choose|i: int| 0 <= i < t.len() && t[i] == e;
            if i == a.len() {
                assert(u.push(x)[u.len() as int] == e);
            } else {
                let gi = if i < a.len() { i } else { i - 1 };
                assert(u.push(x)[gi] == e);
            }
        }
    }
    assert forall|i: int, j: int| 0 <= i < u.len() + 1 && 0 <= j < u.len() + 1 && i != j implies u.push(x)[i] != u.push(x)[j] by {
        if i < u.len() && j < u.len() {
        } else if i == u.len() {
            assert(u.contains(u[j]));
        } else {
            assert(u.contains(u[i]));
        }
    }
}

/// Every pid after the first comes after its parent.
pub open spec fn parents_first(procs: ParentTable, pids: Seq<u32>) -> bool {
    forall|k: int| 1 <= k < pids.len() ==> exists|j: int| 0 <= j < k && Some(pids[j]) == parent_of(procs, #[trigger] pids[k])
}

/// Collects a process and all its descendants, the order in which
/// `kill_process_tree` terminates them: a depth-first walk that starts at `root`
/// and, for each process taken off the stack, pushes its children in the order
/// in which the table lists them.
pub fn process_tree_pids(root: u32, procs: &Vec<(u32, Option<u32>)>) -> (pids: Vec<u32>)
    requires
        distinct_pids(procs@),
        no_self_ancestry(procs@, root),
    ensures
        pids.len() >= 1,
        pids[0] == root,
        pids@.no_duplicates(),
        forall|p: u32| pids@.contains(p) <==> in_tree(procs@, root, p),
        parents_first(procs@, pids@),
{
    let mut pids: Vec<u32> = Vec::new();
    let mut stack: Vec<u32> = Vec::new();
    stack.push(root);
    while stack.len() > 0
        invariant
            distinct_pids(procs@),
            no_self_ancestry(procs@, root),
            (stack@ + pids@).no_duplicates(),
            pids.len() == 0 ==> stack@ == seq![root],
            pids.len() > 0 ==> pids[0] == root,
            forall|e: u32| (stack@ + pids@).contains(e) ==> in_tree(procs@, root, e),
            forall|e: u32|
                (stack@ + pids@).contains(e) && e != root ==> parent_of(procs@, e) is Some
                    && pids@.contains(parent_of(procs@, e)->0),
            children_within(procs@, pids@, stack@ + pids@),
            parents_first(procs@, pids@),
        decreases procs.len() + 1 - pids.len(),
    {
        proof {
            assert forall|e: u32| (stack@ + pids@).contains(e) implies e == root || is_listed(procs@, e) by {
                if e != root {
                    lemma_parent_entry(procs@, e, parent_of(procs@, e)->0);
                }
            }
            lemma_seen_bound(procs@, root, stack@ + pids@);
        }
        let ghost old_stack = stack@;
        let ghost old_pids = pids@;
        let ghost old_set = old_stack + old_pids;
        let parent = stack.pop().unwrap();
        let ghost mid = stack@;
        assert(old_stack == mid.push(parent));
        pids.push(parent);
        proof {
            lemma_move_to_back(mid, parent, old_pids);
            assert(stack@ + pids@ == mid + old_pids.push(parent));
            assert(old_set.contains(parent)) by {
                assert(old_set[mid.len() as int] == parent);
            }
            assert(!old_pids.contains(parent)) by {
                assert(mid + old_pids == mid + old_pids);
                if old_pids.contains(parent) {
                    let k = choose|k: int| 0 <= k < old_pids.len() && old_pids[k] == parent;
                    assert((mid + old_pids)[mid.len() + k] == parent);
                }
            }
            assert forall|k: int| 1 <= k < pids@.len() implies exists|j: int| 0 <= j < k && Some(pids@[j]) == parent_of(procs@, #[trigger] pids@[k]) by {
                if k < old_pids.len() {
                    assert(pids@[k] == old_pids[k]);
                    let j = choose|j: int| 0 <= j < k && Some(old_pids[j]) == parent_of(procs@, old_pids[k]);
                    assert(pids@[j] == old_pids[j]);
                } else {
                    assert(pids@[k] == parent);
                    assert(parent != root) by {
                        assert(old_pids[0] == root);
                    }
                    let q = parent_of(procs@, parent)->0;
                    let j = choose|j: int| 0 <= j < old_pids.len() && old_pids[j] == q;
                    assert(pids@[j] == q);
                }
            }
        }
        let mut j: usize = 0;
        while j < procs.len()
            invariant
                distinct_pids(procs@),
                no_self_ancestry(procs@, root),
                j <= procs.len(),
                pids@ == old_pids.push(parent),
                parents_first(procs@, pids@),
                old_set == mid.push(parent) + old_pids,
                old_set.no_duplicates(),
                old_set.contains(parent),
                !old_pids.contains(parent),
                pids.len() == 1 ==> parent == root,
                pids[0] == root,
                forall|e: u32| old_set.contains(e) ==> in_tree(procs@, root, e),
                forall|e: u32|
                    old_set.contains(e) && e != root ==> parent_of(procs@, e) is Some
                        && old_pids.contains(parent_of(procs@, e)->0),
                children_within(procs@, old_pids, old_set),
                stack@.len() >= mid.len(),
                stack@.subrange(0, mid.len() as int) == mid,
                forall|k: int|
                    mid.len() <= k < stack@.len() ==> exists|i: int|
                        0 <= i < j && procs@[i].0 == #[trigger] stack@[k] && procs@[i].1 == Some(parent),
                (stack@ + pids@).no_duplicates(),
                forall|e: u32| old_set.contains(e) ==> (stack@ + pids@).contains(e),
                forall|e: u32|
                    (stack@ + pids@).contains(e) ==> old_set.contains(e) || exists|i: int|
                        0 <= i < j && procs@[i].0 == e && procs@[i].1 == Some(parent),
                forall|i: int|
                    0 <= i < j && (#[trigger] procs@[i]).1 == Some(parent) ==> (stack@ + pids@).contains(
                        procs@[i].0,
                    ),
            decreases procs.len() - j,
        {
            let (c, c_parent) = procs[j];
            let is_child = match c_parent {
                Some(q) => q == parent,
                None => false,
            };
            if is_child {
                proof {
                    lemma_parent_of_entry(procs@, j as int);
                    assert(parent_of(procs@, c) == Some(parent));
                    assert(in_tree(procs@, root, parent));
                    if (stack@ + pids@).contains(c) {
                        if c == root {
                            lemma_root_not_child(procs@, root, parent);
                        } else if old_set.contains(c) {
                            assert(old_pids.contains(parent_of(procs@, c)->0));
                        } else {
                            let i = choose|i: int| 0 <= i < j && procs@[i].0 == c && procs@[i].1 == Some(parent);
                            assert(procs@[i].0 == procs@[j as int].0);
                        }
                    }
                    lemma_push_fresh(stack@, pids@, c);
                }
                let ghost before = stack@;
                stack.push(c);
                proof {
                    assert(stack@.subrange(0, mid.len() as int) =~= before.subrange(0, mid.len() as int));
                    assert forall|k: int|
                        mid.len() <= k < stack@.len() implies exists|i: int|
                            0 <= i < j + 1 && procs@[i].0 == #[trigger] stack@[k] && procs@[i].1 == Some(parent) by {
                        if k < before.len() {
                            assert(stack@[k] == before[k]);
                        } else {
                            assert(procs@[j as int].0 == stack@[k]);
                        }
                    }
                }
            }
            j = j + 1;
        }
        proof {
            assert forall|e: u32| (stack@ + pids@).contains(e) implies in_tree(procs@, root, e) by {
                if !old_set.contains(e) {
                    let i = choose|i: int| 0 <= i < j && procs@[i].0 == e && procs@[i].1 == Some(parent);
                    lemma_parent_of_entry(procs@, i);
                    lemma_child_in_tree(procs@, root, e, parent);
                }
            }
            assert forall|e: u32|
                (stack@ + pids@).contains(e) && e != root implies parent_of(procs@, e) is Some
                    && pids@.contains(parent_of(procs@, e)->0) by {
                if old_set.contains(e) {
                    let q = parent_of(procs@, e)->0;
                    let k = choose|k: int| 0 <= k < old_pids.len() && old_pids[k] == q;
                    assert(pids@[k] == q);
                } else {
                    let i = choose|i: int| 0 <= i < j && procs@[i].0 == e && procs@[i].1 == Some(parent);
                    lemma_parent_of_entry(procs@, i);
                    assert(pids@[old_pids.len() as int] == parent);
                }
            }
            assert forall|i: int|
                0 <= i < procs.len() && (#[trigger] procs@[i]).1 is Some && pids@.contains(procs@[i].1->0)
                    implies (stack@ + pids@).contains(procs@[i].0) by {
                let v = procs@[i].1->0;
                if v != parent {
                    let k = choose|k: int| 0 <= k < pids@.len() && pids@[k] == v;
                    assert(old_pids[k] == v);
                }
            }
        }
    }
    proof {
        assert(stack@ + pids@ =~= pids@);
        assert forall|p: u32| in_tree(procs@, root, p) implies pids@.contains(p) by {
            assert(pids@[0] == root);
            if p != root {
                let k = choose|k: nat| k >= 1 && ancestor(procs@, p, k) == Some(root);
                lemma_closed_holds_descendants(procs@, root, pids@, p, k);
            }
        }
    }
    pids
}

/// Walking `a` generations up and then `m` more is walking `a + m` up.
proof fn lemma_ancestor_add(procs: ParentTable, p: u32, a: nat, m: nat)
    ensures
        ancestor(procs, p, a + m) == match ancestor(procs, p, a) {
            Some(c) => ancestor(procs, c, m),
            None => None,
        },
    decreases a,
{
    if a > 0 {
        if let Some(q) = parent_of(procs, p) {
            lemma_ancestor_add(procs, q, (a - 1) as nat, m);
            assert((a - 1) as nat + m == (a + m - 1) as nat);
        }
    }
}

/// Once two generations of the chain above `p` meet, every later generation
/// repeats one between them.
proof fn lemma_ancestor_repeats(procs: ParentTable, p: u32, i: nat, j: nat, k: nat)
    requires
        i < j,
        ancestor(procs, p, i) == ancestor(procs, p, j),
        i <= k,
    ensures
        exists|r: nat| i <= r < j && ancestor(procs, p, k) == ancestor(procs, p, r),
    decreases k,
{
    if k < j {
        assert(ancestor(procs, p, k) == ancestor(procs, p, k));
    } else {
        let back = (k - (j - i)) as nat;
        let m = (k - j) as nat;
        lemma_ancestor_add(procs, p, i, m);
        lemma_ancestor_add(procs, p, j, m);
        assert(i + m == back && j + m == k);
        lemma_ancestor_repeats(procs, p, i, j, back);
    }
}

/// The parent that `procs` records for `p`, found by a scan of the table.
pub fn parent_in_table(procs: &Vec<(u32, Option<u32>)>, p: u32) -> (r: Option<u32>)
    requires
        distinct_pids(procs@),
    ensures
        r == parent_of(procs@, p),
{
    let mut i: usize = 0;
    while i < procs.len()
        invariant
            distinct_pids(procs@),
            i <= procs.len(),
            forall|k: int| 0 <= k < i ==> procs@[k].0 != p,
        decreases procs.len() - i,
    {
        if procs[i].0 == p {
            proof {
                lemma_parent_of_entry(procs@, i as int);
            }
            return procs[i].1;
        }
        i = i + 1;
    }
    None
}

/// Whether `root` is its own ancestor, so that the walk down from it would
/// never end: follows the parent links up from `root` until they run out,
/// come back to `root`, or close a loop that does not pass through it.
pub fn has_self_ancestry(root: u32, procs: &Vec<(u32, Option<u32>)>) -> (r: bool)
    requires
        distinct_pids(procs@),
    ensures
        r == !no_self_ancestry(procs@, root),
{
    let mut chain: Vec<u32> = Vec::new();
    chain.push(root);
    let mut cur = root;
    loop
        invariant
            distinct_pids(procs@),
            chain.len() >= 1,
            cur == chain@[chain.len() - 1],
            chain@[0] == root,
            forall|k: int| 0 <= k < chain.len() ==> ancestor(procs@, root, k as nat) == Some(#[trigger] chain@[k]),
            forall|k: int| 1 <= k < chain.len() ==> #[trigger] chain@[k] != root,
            forall|k: int| 0 <= k < chain.len() - 1 ==> is_listed(procs@, #[trigger] chain@[k]),
            chain@.no_duplicates(),
        decreases procs.len() + 2 - chain.len(),
    {
        let ghost n = chain.len() as nat;
        proof {
            lemma_ancestor_add(procs@, root, (n - 1) as nat, 1);
            assert((n - 1) as nat + 1 == n);
            assert(ancestor(procs@, cur, 0) == Some(cur));
        }
        match parent_in_table(procs, cur) {
            None => {
                proof {
                    assert(ancestor(procs@, root, (n - 1) as nat) == Some(chain@[n - 1]));
                    assert(ancestor(procs@, cur, 1) == None::<u32>);
                    assert(ancestor(procs@, root, n) == None::<u32>);
                    assert forall|k: nat| k >= 1 implies ancestor(procs@, root, k) != Some(root) by {
                        if k < n {
                            assert(ancestor(procs@, root, k) == Some(chain@[k as int]));
                        } else {
                            lemma_ancestor_add(procs@, root, n, (k - n) as nat);
                            assert(n + (k - n) as nat == k);
                        }
                    }
                }
                return false;
            },
            Some(q) => {
                assert(ancestor(procs@, root, (n - 1) as nat) == Some(chain@[n - 1]));
                assert(ancestor(procs@, q, 0) == Some(q));
                assert(ancestor(procs@, cur, 1) == Some(q));
                assert(ancestor(procs@, root, n) == Some(q));
                if q == root {
                    return true;
                }
                let mut found = false;
                let mut i: usize = 0;
                while i < chain.len()
                    invariant
                        i <= chain.len(),
                        found <==> exists|k: int| 0 <= k < i && chain@[k] == q,
                    decreases chain.len() - i,
                {
                    if chain[i] == q {
                        found = true;
                    }
                    i = i + 1;
                }
                if found {
                    proof {
                        let w = choose|k: int| 0 <= k < chain.len() && chain@[k] == q;
                        assert(ancestor(procs@, root, w as nat) == Some(q));
                        assert forall|k: nat| k >= 1 implies ancestor(procs@, root, k) != Some(root) by {
                            if k < n {
                                assert(ancestor(procs@, root, k) == Some(chain@[k as int]));
                            } else {
                                lemma_ancestor_repeats(procs@, root, w as nat, n, k);
                                let r = choose|r: nat| w <= r < n && ancestor(procs@, root, k) == ancestor(procs@, root, r);
                                assert(ancestor(procs@, root, r) == Some(chain@[r as int]));
                            }
                        }
                    }
                    return false;
                }
                proof {
                    assert(is_listed(procs@, cur)) by {
                        lemma_parent_entry(procs@, cur, q);
                    }
                    assert forall|e: u32| chain@.contains(e) implies e == root || is_listed(procs@, e) by {
                        let k = choose|k: int| 0 <= k < chain.len() && chain@[k] == e;
                        if k < chain.len() - 1 {
                            assert(is_listed(procs@, chain@[k]));
                        }
                    }
                    lemma_seen_bound(procs@, root, chain@);
                }
                chain.push(q);
                cur = q;
                proof {
                    assert forall|k: int| 0 <= k < chain.len() implies ancestor(procs@, root, k as nat) == Some(#[trigger] chain@[k]) by {
                        if k < n {
                            assert(chain@[k] == chain@.drop_last()[k]);
                        }
                    }
                    assert(chain@.no_duplicates()) by {
                        let s = chain@;
                        assert forall|a: int, b: int| 0 <= a < s.len() && 0 <= b < s.len() && a != b implies s[a] != s[b] by {
                            if a < n && b < n {
                                assert(s[a] == s.drop_last()[a] && s[b] == s.drop_last()[b]);
                            } else if a == n {
                                assert(s[b] == s.drop_last()[b]);
                            } else {
                                assert(s[a] == s.drop_last()[a]);
                            }
                        }
                    }
                }
            },
        }
    }
}

/// "Failed to terminate process (PID: <pid>)".
pub open spec fn kill_failure_text(pid: u32) -> Seq<char> {
    "Failed to terminate process (PID: "@ + decimal(pid as nat) + ")"@
}

/// The message when a process could not be terminated.
pub fn kill_failure_message(pid: u32) -> (msg: String)
    ensures
        msg@ == kill_failure_text(pid),
{
    let mut m = String::from_str("Failed to terminate process (PID: ");
    push_decimal(&mut m, pid as u128);
    m.append(")");
    m
}

/// "Failed to kill process tree (PID: <pid>)".
pub open spec fn tree_failure_text(pid: u32) -> Seq<char> {
    "Failed to kill process tree (PID: "@ + decimal(pid as nat) + ")"@
}

/// What terminating a process tree reports, once `killed` of its `total`
/// processes were terminated one by one and, where that fell short, an
/// elevated whole-tree kill was tried (`elevated_ok` tells whether it was,
/// and succeeded): all of them, the tree size after a successful elevated
/// kill, else the number killed, or an error when none was.
pub open spec fn tree_kill_result(root: u32, total: usize, killed: usize, elevated_ok: bool) -> Result<usize, Seq<char>> {
    if killed == total && killed > 0 {
        Ok(killed)
    } else if elevated_ok {
        Ok(total)
    } else if killed > 0 {
        Ok(killed)
    } else {
        Err(tree_failure_text(root))
    }
}

/// Whether the one-by-one kills of a tree already settle the outcome, so
/// that no elevated kill is tried.
pub open spec fn tree_kill_complete(total: usize, killed: usize) -> bool {
    killed == total && killed > 0
}

/// Decides whether an elevated kill of the whole tree is still needed.
pub fn tree_kill_done(total: usize, killed: usize) -> (done: bool)
    ensures
        done == tree_kill_complete(total, killed),
{
    killed == total && killed > 0
}

/// The outcome of terminating the process tree of `root`.
pub fn tree_kill_outcome(root: u32, total: usize, killed: usize, elevated_ok: bool) -> (r: Result<usize, String>)
    ensures
        r matches Ok(n) ==> tree_kill_result(root, total, killed, elevated_ok) == Ok::<usize, Seq<char>>(n),
        r matches Err(m) ==> tree_kill_result(root, total, killed, elevated_ok) == Err::<usize, Seq<char>>(m@),
{
    if killed == total && killed > 0 {
        Ok(killed)
    } else if elevated_ok {
        Ok(total)
    } else if killed > 0 {
        Ok(killed)
    } else {
        let mut m = String::from_str("Failed to kill process tree (PID: ");
        push_decimal(&mut m, root as u128);
        m.append(")");
        Err(m)
    }
}

/// Terminating a tree of at least one process reports a count between one
/// and the tree's size, and fails only when no process was terminated and
/// the elevated kill did not succeed either.
pub proof fn lemma_tree_kill_result(root: u32, total: usize, killed: usize, elevated_ok: bool)
    requires
        total >= 1,
        killed <= total,
    ensures
        tree_kill_result(root, total, killed, elevated_ok) is Err <==> (killed == 0 && !elevated_ok),
        tree_kill_result(root, total, killed, elevated_ok) matches Ok(n) ==> 1 <= n <= total,
        tree_kill_complete(total, killed) ==> tree_kill_result(root, total, killed, elevated_ok) == Ok::<usize, Seq<char>>(total),
{
}

} // verus!
