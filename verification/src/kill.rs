use vstd::prelude::*;
use vstd::seq_lib::lemma_seq_contains_after_push;
use vstd::seq_lib::seq_to_set_is_finite;
use vstd::set_lib::lemma_len_subset;

verus! {

broadcast use vstd::set::group_set_axioms;

/// One row of a snapshot of the system's process list: a process identifier
/// and the identifier of the process that spawned it.
#[derive(Copy, Clone, Debug, PartialEq, Eq, Structural)]
pub struct ProcessEntry {
    /// The process identifier.
    pub pid: u32,
    /// The identifier of the process that spawned it.
    pub parent: u32,
}

/// A snapshot of the system's process list, taken once before termination
/// begins, recording for every process who spawned it.
#[derive(Debug, Clone, PartialEq, Eq)]
pub struct ProcessTable {
    /// The listed processes.
    pub entries: Vec<ProcessEntry>,
}

/// The process identifiers the snapshot lists.
pub open spec fn table_pids(t: Seq<ProcessEntry>) -> Set<u32> {
    t.map_values(|e: ProcessEntry| e.pid).to_set()
}

/// True when the snapshot records `child` as a direct child of `parent`.
pub open spec fn lists_child(t: Seq<ProcessEntry>, parent: u32, child: u32) -> bool {
    exists|i: int| 0 <= i < t.len() && t[i].parent == parent && t[i].pid == child
}

/// Whether the sequence holds the given identifier.
fn contains_pid(v: &Vec<u32>, x: u32) -> (r: bool)
    ensures
        r == v@.contains(x),
{
    let mut i: usize = 0;
    while i < v.len()
        invariant
            i <= v@.len(),
            forall|k: int| 0 <= k < i ==> v@[k] != x,
        decreases v@.len() - i,
    {
        if v[i] == x {
            assert(v@[i as int] == x);
            return true;
        }
        i = i + 1;
    }
    false
}

/// How many identifiers relevant to a visit of `pid` are still unvisited.
spec fn kill_measure(t: Seq<ProcessEntry>, pid: u32, visited: Seq<u32>) -> nat {
    table_pids(t).insert(pid).difference(visited.to_set()).len()
}

/// True when every identifier the walk has recorded is the root itself or a
/// listed child of another recorded identifier: the walk never strays outside
/// what the snapshot connects to the root.
spec fn rooted_in(t: Seq<ProcessEntry>, s: Seq<u32>, root: u32) -> bool {
    forall|x: u32| #[trigger] s.contains(x) ==> x == root || exists|p: u32|
        s.contains(p) && lists_child(t, p, x)
}

/// True when `a` reaches `d` through at most `fuel` child links of the
/// snapshot; every identifier reaches itself.
pub open spec fn reaches(t: Seq<ProcessEntry>, a: u32, d: u32, fuel: nat) -> bool
    decreases fuel,
{
    a == d || (fuel > 0 && exists|m: u32| #[trigger] lists_child(t, a, m) && reaches(
        t,
        m,
        d,
        (fuel - 1) as nat,
    ))
}

/// True when `d` is `a` itself or one of the descendants the snapshot records
/// for `a`.
pub open spec fn descends(t: Seq<ProcessEntry>, a: u32, d: u32) -> bool {
    exists|fuel: nat| reaches(t, a, d, fuel)
}

/// True when the snapshot's parent relation has no cycle: no process has one
/// of its own descendants — or itself — recorded as its parent.
pub open spec fn acyclic(t: Seq<ProcessEntry>) -> bool {
    forall|p: u32, c: u32| #[trigger] lists_child(t, p, c) ==> !descends(t, c, p)
}

/// True when, within `s`, every listed child stands before its listed parent,
/// except for children in `exempt`.
pub open spec fn child_first(t: Seq<ProcessEntry>, s: Seq<u32>, exempt: Set<u32>) -> bool {
    forall|kc: int, kp: int|
        #![trigger lists_child(t, s[kp], s[kc])]
        0 <= kc < s.len() && 0 <= kp < s.len() && lists_child(t, s[kp], s[kc])
            && !exempt.contains(s[kc]) ==> kc < kp
}

/// Reachability extends through a child link.
proof fn lemma_descends_step(t: Seq<ProcessEntry>, a: u32, m: u32, d: u32)
    requires
        lists_child(t, a, m),
        descends(t, m, d),
    ensures
        descends(t, a, d),
{
    let fuel = choose|fuel: nat| reaches(t, m, d, fuel);
    assert(reaches(t, a, d, fuel + 1));
}

/// Depth-first visit of `pid`: mark it visited, recur into every listed child
/// not yet visited, then append `pid` itself to the order.  `pending` holds
/// the identifiers whose visit has begun but not yet finished; every visited
/// identifier is either ordered or pending.
#[verifier::loop_isolation(false)]
fn kill_rec(
    table: &ProcessTable,
    pid: u32,
    visited: Vec<u32>,
    order: Vec<u32>,
    pending: Ghost<Set<u32>>,
    root: Ghost<u32>,
) -> (res: (Vec<u32>, Vec<u32>))
    requires
        !visited@.contains(pid),
        !pending@.contains(pid),
        pid == root@ || table_pids(table.entries@).contains(pid),
        visited@.no_duplicates(),
        order@.no_duplicates(),
        visited@.to_set() == order@.to_set().union(pending@),
        pending@.disjoint(order@.to_set()),
        forall|q: u32, c: u32| #[trigger] lists_child(table.entries@, q, c) && order@.contains(q)
            ==> visited@.contains(c),
        forall|x: u32| #[trigger] visited@.contains(x) ==> table_pids(
            table.entries@,
        ).contains(x) || x == root@,
        rooted_in(table.entries@, visited@, root@),
        pid == root@ || exists|p: u32| visited@.contains(p) && lists_child(
            table.entries@,
            p,
            pid,
        ),
        acyclic(table.entries@) ==> child_first(table.entries@, order@, pending@),
    ensures
        res.0@.no_duplicates(),
        res.1@.no_duplicates(),
        res.0@.to_set() == res.1@.to_set().union(pending@),
        pending@.disjoint(res.1@.to_set()),
        res.1@.len() > order@.len(),
        res.1@.subrange(0, order@.len() as int) == order@,
        res.1@.last() == pid,
        forall|x: u32| #[trigger] visited@.contains(x) ==> res.0@.contains(x),
        forall|q: u32, c: u32| #[trigger] lists_child(table.entries@, q, c) && res.1@.contains(q)
            ==> res.0@.contains(c),
        forall|x: u32| #[trigger] res.0@.contains(x) ==> table_pids(
            table.entries@,
        ).contains(x) || x == root@,
        rooted_in(table.entries@, res.0@, root@),
        forall|x: u32| #[trigger] res.1@.contains(x) && !order@.contains(x) ==> descends(
            table.entries@,
            pid,
            x,
        ),
        acyclic(table.entries@) ==> child_first(table.entries@, res.1@, pending@),
    decreases kill_measure(table.entries@, pid, visited@),
{
    let ghost t = table.entries@;
    let ghost v0 = visited@;
    let ghost o0 = order@;
    let mut vis = visited;
    let mut ord = order;
    vis.push(pid);
    let ghost pending2 = pending@.insert(pid);
    proof {
        assert forall|x: u32| #[trigger] vis@.contains(x) implies v0.contains(x) || x
            == pid by {
            lemma_seq_contains_after_push(v0, pid, x);
        }
        assert forall|x: u32| v0.contains(x) || x == pid implies #[trigger] vis@.contains(
            x,
        ) by {
            lemma_seq_contains_after_push(v0, pid, x);
        }
        assert(!o0.contains(pid)) by {
            if o0.contains(pid) {
                assert(o0.to_set().contains(pid));
                assert(v0.to_set().contains(pid));
            }
        }
        assert(pending2.disjoint(ord@.to_set())) by {
            assert forall|x: u32| pending2.contains(x) implies !ord@.to_set().contains(x) by {
                if x != pid {
                    assert(pending@.contains(x));
                }
            }
        }
        assert forall|x: u32|
            vis@.to_set().contains(x) == ord@.to_set().union(pending2).contains(x) by {
            if vis@.contains(x) {
                if x != pid {
                    assert(v0.contains(x));
                    assert(v0.to_set().contains(x));
                    assert(o0.to_set().union(pending@).contains(x));
                }
            }
            if ord@.to_set().union(pending2).contains(x) {
                if pending2.contains(x) {
                    if x != pid {
                        assert(pending@.contains(x));
                        assert(v0.to_set().contains(x));
                        assert(v0.contains(x));
                    }
                } else {
                    assert(o0.contains(x));
                    assert(v0.to_set().contains(x));
                    assert(v0.contains(x));
                }
            }
        }
        assert(vis@.to_set() =~= ord@.to_set().union(pending2));
        assert(vis@.no_duplicates()) by {
            assert(forall|k: int| 0 <= k < v0.len() ==> vis@[k] == v0[k]);
            assert(vis@.last() == pid);
            assert(forall|k: int| 0 <= k < v0.len() ==> v0.contains(#[trigger] v0[k]));
        }
        assert(rooted_in(t, vis@, root@)) by {
            assert forall|x: u32| #[trigger] vis@.contains(x) && x != root@ implies exists|
                p: u32,
            |
                vis@.contains(p) && lists_child(t, p, x) by {
                if x == pid {
                    let p = choose|p: u32| v0.contains(p) && lists_child(t, p, pid);
                    assert(vis@.contains(p) && lists_child(t, p, x));
                } else {
                    assert(v0.contains(x));
                    let p = choose|p: u32| v0.contains(p) && lists_child(t, p, x);
                    assert(vis@.contains(p) && lists_child(t, p, x));
                }
            }
        }
    }
    let mut i: usize = 0;
    while i < table.entries.len()
        invariant
            i <= table.entries@.len(),
            t == table.entries@,
            vis@.no_duplicates(),
            ord@.no_duplicates(),
            vis@.to_set() == ord@.to_set().union(pending2),
            pending2 == pending@.insert(pid),
            pending2.disjoint(ord@.to_set()),
            vis@.contains(pid),
            ord@.len() >= o0.len(),
            ord@.subrange(0, o0.len() as int) == o0,
            forall|x: u32| #[trigger] v0.contains(x) ==> vis@.contains(x),
            forall|x: u32| #[trigger] vis@.contains(x) ==> table_pids(t).contains(x) || x
                == root@,
            forall|q: u32, c: u32| #[trigger] lists_child(t, q, c) && ord@.contains(q)
                ==> vis@.contains(c),
            forall|k: int| 0 <= k < i && t[k].parent == pid ==> vis@.contains(t[k].pid),
            rooted_in(t, vis@, root@),
            forall|x: u32| #[trigger] ord@.contains(x) && !o0.contains(x) ==> descends(
                t,
                pid,
                x,
            ),
            acyclic(t) ==> child_first(t, ord@, pending2),
        decreases t.len() - i,
    {
        let e = table.entries[i];
        if e.parent == pid && !contains_pid(&vis, e.pid) {
            proof {
                let pids = t.map_values(|e2: ProcessEntry| e2.pid);
                assert(pids[i as int] == e.pid);
                assert(pids.contains(e.pid));
                let u = table_pids(t);
                assert(u.contains(e.pid));
                seq_to_set_is_finite(pids);
                let a = u.insert(e.pid).difference(vis@.to_set());
                let b = u.insert(pid).difference(v0.to_set());
                assert(u.insert(e.pid) =~= u);
                assert(!v0.contains(pid));
                assert(b.contains(pid));
                assert forall|x: u32| a.contains(x) implies b.remove(pid).contains(x) by {
                    assert(u.contains(x));
                    assert(!vis@.contains(x));
                    assert(!v0.contains(x));
                    assert(x != pid);
                }
                lemma_len_subset(a, b.remove(pid));
                assert(b.remove(pid).len() == b.len() - 1);
                assert(kill_measure(t, e.pid, vis@) < kill_measure(t, pid, v0));
                // The child has not begun either: pending identifiers are visited.
                assert(pending2.subset_of(vis@.to_set()));
                assert(!pending2.contains(e.pid));
                assert(lists_child(t, pid, e.pid)) by {
                    assert(0 <= i < t.len() && t[i as int].parent == pid && t[i as int].pid
                        == e.pid);
                }
                assert(vis@.contains(pid) && lists_child(t, pid, e.pid));
            }
            let ghost ord_mid = ord@;
            let ghost vis_mid = vis@;
            let r2 = kill_rec(table, e.pid, vis, ord, Ghost(pending2), root);
            vis = r2.0;
            ord = r2.1;
            proof {
                assert(ord@.subrange(0, o0.len() as int) =~= o0) by {
                    assert(forall|k: int| 0 <= k < ord_mid.len() ==> ord@[k] == ord_mid[k]);
                }
                assert forall|k: int| 0 <= k < i + 1 && t[k].parent == pid implies vis@.contains(
                    t[k].pid,
                ) by {
                    if k < i {
                        assert(vis_mid.contains(t[k].pid));
                    } else {
                        assert(ord@.last() == e.pid);
                        assert(ord@.contains(e.pid));
                        assert(vis@.to_set().contains(e.pid));
                    }
                }
                assert(vis@.contains(pid)) by {
                    assert(vis_mid.contains(pid));
                }
                assert forall|x: u32| #[trigger] ord@.contains(x) && !o0.contains(x)
                    implies descends(t, pid, x) by {
                    if !ord_mid.contains(x) {
                        assert(descends(t, e.pid, x));
                        lemma_descends_step(t, pid, e.pid, x);
                    }
                }
            }
        } else {
            proof {
                assert forall|k: int| 0 <= k < i + 1 && t[k].parent == pid implies vis@.contains(
                    t[k].pid,
                ) by {
                    if k == i {
                        assert(vis@.contains(e.pid));
                    }
                }
            }
        }
        i = i + 1;
    }
    let ghost ord_pre = ord@;
    ord.push(pid);
    proof {
        assert(ord@.last() == pid);
        assert forall|x: u32| #[trigger] ord@.contains(x) implies ord_pre.contains(x) || x
            == pid by {
            lemma_seq_contains_after_push(ord_pre, pid, x);
        }
        assert forall|x: u32| ord_pre.contains(x) || x == pid implies #[trigger] ord@.contains(
            x,
        ) by {
            lemma_seq_contains_after_push(ord_pre, pid, x);
        }
        assert(!ord_pre.contains(pid)) by {
            assert(pending2.contains(pid));
        }
        assert(ord@.no_duplicates()) by {
            assert(forall|k: int| 0 <= k < ord_pre.len() ==> ord@[k] == ord_pre[k]);
            assert(forall|k: int| 0 <= k < ord_pre.len() ==> ord_pre.contains(
                #[trigger] ord_pre[k],
            ));
        }
        assert(vis@.to_set() =~= ord@.to_set().union(pending@));
        assert(pending@.disjoint(ord@.to_set())) by {
            assert forall|x: u32| pending@.contains(x) implies !ord@.to_set().contains(x) by {
                assert(pending2.contains(x));
                assert(!ord_pre.to_set().contains(x));
                assert(!ord_pre.contains(x));
                assert(x != pid);
            }
        }
        assert(ord@.subrange(0, o0.len() as int) =~= o0) by {
            assert(forall|k: int| 0 <= k < ord_pre.len() ==> ord@[k] == ord_pre[k]);
        }
        assert forall|q: u32, c: u32| #[trigger] lists_child(t, q, c) && ord@.contains(q)
            implies vis@.contains(c) by {
            if q == pid {
                let k = choose|k: int| 0 <= k < t.len() && t[k].parent == pid && t[k].pid == c;
                assert(vis@.contains(t[k].pid));
            } else {
                assert(ord_pre.contains(q));
            }
        }
        assert forall|x: u32| #[trigger] v0.contains(x) implies vis@.contains(x) by {}
        // Every newly ordered identifier descends from this visit's own pid.
        assert forall|x: u32| #[trigger] ord@.contains(x) && !o0.contains(x) implies descends(
            t,
            pid,
            x,
        ) by {
            if x == pid {
                assert(reaches(t, pid, pid, 0));
            } else {
                assert(ord_pre.contains(x));
            }
        }
        // Under an acyclic snapshot every listed child precedes its parent.
        if acyclic(t) {
            let n = ord_pre.len() as int;
            assert forall|kc: int, kp: int|
                0 <= kc < ord@.len() && 0 <= kp < ord@.len() && lists_child(
                    t,
                    ord@[kp],
                    ord@[kc],
                ) && !pending@.contains(ord@[kc]) implies kc < kp by {
                let q = ord@[kp];
                let c = ord@[kc];
                if kp == n {
                    if kc == n {
                        // A process recorded as its own parent contradicts acyclicity.
                        assert(lists_child(t, pid, pid));
                        assert(reaches(t, pid, pid, 0));
                        assert(descends(t, pid, pid));
                        assert(false);
                    }
                } else {
                    assert(ord@[kp] == ord_pre[kp]);
                    assert(ord_pre.contains(q)) by {
                        assert(ord_pre.contains(ord_pre[kp]));
                    }
                    if kc == n {
                        // pid cannot be a listed child of anything ordered during
                        // its own visit: of an already finished identifier it
                        // would have been visited before this call began, and of
                        // a descendant it would close a cycle.
                        assert(c == pid);
                        if o0.contains(q) {
                            assert(v0.contains(pid));
                            assert(false);
                        } else {
                            assert(descends(t, pid, q));
                            assert(false);
                        }
                    } else {
                        assert(ord@[kc] == ord_pre[kc]);
                        assert(ord_pre.contains(c)) by {
                            assert(ord_pre.contains(ord_pre[kc]));
                        }
                        assert(!pending2.contains(c)) by {
                            assert(c != pid);
                        }
                    }
                }
            }
            assert(child_first(t, ord@, pending@));
        }
    }
    (vis, ord)
}

/// The order in which to terminate a process and the descendants the snapshot
/// records for it, found by a depth-first walk from the target.  The result
/// names each process once and the target exactly last, so every descendant
/// is handled before the target itself; every listed child of a named process
/// is named too, so nothing the snapshot connects to the target is missed;
/// and every name other than the target is a listed child of another name, so
/// nothing unrelated is touched.  When the snapshot's parent relation is
/// acyclic — as a genuine process list is — children moreover stand strictly
/// before their parents: leaves first.
pub fn kill_order(table: &ProcessTable, target: u32) -> (r: Vec<u32>)
    ensures
        r@.len() >= 1,
        r@.last() == target,
        r@.no_duplicates(),
        r@.contains(target),
        forall|i: int| 0 <= i < r@.len() ==> #[trigger] r@[i] == target || table_pids(
            table.entries@,
        ).contains(r@[i]),
        forall|q: u32, c: u32| #[trigger] lists_child(table.entries@, q, c) && r@.contains(q)
            ==> r@.contains(c),
        forall|x: u32| #[trigger] r@.contains(x) ==> x == target || exists|p: u32|
            r@.contains(p) && lists_child(table.entries@, p, x),
        acyclic(table.entries@) ==> child_first(table.entries@, r@, Set::<u32>::empty()),
{
    let visited: Vec<u32> = Vec::new();
    let order: Vec<u32> = Vec::new();
    proof {
        assert(visited@.to_set() =~= order@.to_set().union(Set::<u32>::empty()));
    }
    let r2 = kill_rec(table, target, visited, order, Ghost(Set::empty()), Ghost(target));
    let ord = r2.1;
    proof {
        let vis = r2.0@;
        assert(vis.to_set() =~= ord@.to_set());
        assert(ord@.contains(target)) by {
            assert(ord@.last() == target);
        }
        assert forall|q: u32, c: u32| #[trigger] lists_child(table.entries@, q, c)
            && ord@.contains(q) implies ord@.contains(c) by {
            assert(vis.contains(c));
            assert(vis.to_set().contains(c));
        }
        assert forall|i: int| 0 <= i < ord@.len() implies #[trigger] ord@[i] == target
            || table_pids(table.entries@).contains(ord@[i]) by {
            assert(ord@.contains(ord@[i]));
            assert(vis.to_set().contains(ord@[i]));
            assert(vis.contains(ord@[i]));
        }
        assert forall|x: u32| #[trigger] ord@.contains(x) && x != target implies exists|p: u32|
            ord@.contains(p) && lists_child(table.entries@, p, x) by {
            assert(vis.to_set().contains(x));
            assert(vis.contains(x));
            let p = choose|p: u32| vis.contains(p) && lists_child(table.entries@, p, x);
            assert(vis.to_set().contains(p));
            assert(ord@.to_set().contains(p));
            assert(ord@.contains(p) && lists_child(table.entries@, p, x));
        }
    }
    ord
}

} // verus!
