//! The port graph walk: from a root port name, the transitive dependency walk
//! over the status database that yields the linear port order. The walk pops
//! names off a stack, skips names already placed or absent from the database
//! (an unresolvable dependency is assumed to be a system library), pushes a
//! found port's dependencies, and appends the port to the order, removing any
//! earlier occurrence first.
use vstd::prelude::*;

use crate::status::PortEntryView;
use crate::status::PortsDb;
use crate::status::lemma_port_idx;
use crate::status::port_idx;
use crate::status::port_lookup;
use crate::text::first_index_of;
use crate::text::lemma_first_index_of;
use crate::text::seq_views;

verus! {

/// The walk's state: the names still to visit and the order built so far.
pub struct WalkState {
    pub stack: Seq<Seq<char>>,
    pub order: Seq<Seq<char>>,
}

/// `name` appended at the back, an earlier occurrence removed first.
pub open spec fn requeue(order: Seq<Seq<char>>, name: Seq<char>) -> Seq<Seq<char>> {
    match first_index_of(order, name) {
        Some(i) => order.remove(i).push(name),
        None => order.push(name),
    }
}

pub open spec fn init_state(root: Seq<char>) -> WalkState {
    WalkState { stack: seq![root], order: Seq::empty() }
}

/// One step of the walk: pop a name; skip it when already placed or unknown
/// to the database; otherwise push its dependencies (popped later, last
/// pushed first) and append it to the order.
pub open spec fn walk_step(db: Seq<PortEntryView>, s: WalkState) -> WalkState {
    if s.stack.len() == 0 {
        s
    } else {
        let name = s.stack.last();
        let rest = s.stack.drop_last();
        if s.order.contains(name) {
            WalkState { stack: rest, order: s.order }
        } else {
            match port_lookup(db, name) {
                Some(p) => WalkState { stack: rest + p.deps, order: requeue(s.order, name) },
                None => WalkState { stack: rest, order: s.order },
            }
        }
    }
}

pub open spec fn walk_n(db: Seq<PortEntryView>, s: WalkState, n: nat) -> WalkState
    decreases n,
{
    if n == 0 {
        s
    } else {
        walk_n(db, walk_step(db, s), (n - 1) as nat)
    }
}

/// `order` is what the walk from `root` over `db` produces: some number of
/// steps empties the stack and leaves exactly this order. The walk is
/// deterministic, so at most one order satisfies this.
pub open spec fn is_resolve_order(
    db: Seq<PortEntryView>,
    root: Seq<char>,
    order: Seq<Seq<char>>,
) -> bool {
    exists|n: nat|
        {
            let s = #[trigger] walk_n(db, init_state(root), n);
            s.stack.len() == 0 && s.order == order
        }
}

proof fn lemma_walk_n_unfold(db: Seq<PortEntryView>, s: WalkState, n: nat)
    ensures
        walk_n(db, s, n + 1) == walk_step(db, walk_n(db, s, n)),
    decreases n,
{
    assert(walk_n(db, s, n + 1) == walk_n(db, walk_step(db, s), n));
    if n > 0 {
        lemma_walk_n_unfold(db, walk_step(db, s), (n - 1) as nat);
        assert(walk_n(db, s, n) == walk_n(db, walk_step(db, s), (n - 1) as nat));
    }
}

proof fn lemma_walk_n_stable(db: Seq<PortEntryView>, s: WalkState, n1: nat, n2: nat)
    requires
        n1 <= n2,
        walk_n(db, s, n1).stack.len() == 0,
    ensures
        walk_n(db, s, n2) == walk_n(db, s, n1),
    decreases n2 - n1,
{
    if n1 < n2 {
        lemma_walk_n_unfold(db, s, n1);
        assert(walk_n(db, s, n1 + 1) == walk_n(db, s, n1));
        lemma_walk_n_stable(db, s, n1 + 1, n2);
    }
}

/// The walk is deterministic: at most one order is its result.
pub proof fn lemma_resolve_order_unique(
    db: Seq<PortEntryView>,
    root: Seq<char>,
    order1: Seq<Seq<char>>,
    order2: Seq<Seq<char>>,
)
    requires
        is_resolve_order(db, root, order1),
        is_resolve_order(db, root, order2),
    ensures
        order1 == order2,
{
    let n1 = choose|n: nat|
        {
            let s = #[trigger] walk_n(db, init_state(root), n);
            s.stack.len() == 0 && s.order == order1
        };
    let n2 = choose|n: nat|
        {
            let s = #[trigger] walk_n(db, init_state(root), n);
            s.stack.len() == 0 && s.order == order2
        };
    if n1 <= n2 {
        lemma_walk_n_stable(db, init_state(root), n1, n2);
    } else {
        lemma_walk_n_stable(db, init_state(root), n2, n1);
    }
}

/// `a`'s port declares a dependency on `b`.
pub open spec fn dep_of(db: Seq<PortEntryView>, a: Seq<char>, b: Seq<char>) -> bool {
    match port_lookup(db, a) {
        Some(p) => p.deps.contains(b),
        None => false,
    }
}

/// Every placed port either is the root or stands after a port that declares
/// a dependency on it: an entry is appended only once it has been required.
pub open spec fn ordered_after_requirer(
    db: Seq<PortEntryView>,
    root: Seq<char>,
    order: Seq<Seq<char>>,
) -> bool {
    forall|j: int|
        0 <= j < order.len() ==> (#[trigger] order[j]) == root || exists|j2: int|
            0 <= j2 < j && dep_of(db, order[j2], order[j])
}

/// A chain of ports, each present in the database and each depending on the
/// next.
pub open spec fn is_port_path(db: Seq<PortEntryView>, path: Seq<Seq<char>>) -> bool {
    &&& path.len() > 0
    &&& forall|i: int| 0 <= i < path.len() ==> port_lookup(db, #[trigger] path[i]) is Some
    &&& forall|i: int| 0 <= i < path.len() - 1 ==> dep_of(db, #[trigger] path[i], path[i + 1])
}

/// `n` is reachable from `root` along dependency edges through present
/// ports, the root included.
pub open spec fn reachable(db: Seq<PortEntryView>, root: Seq<char>, n: Seq<char>) -> bool {
    exists|path: Seq<Seq<char>>|
        #[trigger] is_port_path(db, path) && path.first() == root && path.last() == n
}

proof fn lemma_reachable_root(db: Seq<PortEntryView>, root: Seq<char>)
    requires
        port_lookup(db, root) is Some,
    ensures
        reachable(db, root, root),
{
    let path = seq![root];
    assert(path.first() == root && path.last() == root);
    assert(is_port_path(db, path));
}

proof fn lemma_reachable_step(db: Seq<PortEntryView>, root: Seq<char>, a: Seq<char>, b: Seq<char>)
    requires
        reachable(db, root, a),
        dep_of(db, a, b),
        port_lookup(db, b) is Some,
    ensures
        reachable(db, root, b),
{
    let path = choose|path: Seq<Seq<char>>|
        #[trigger] is_port_path(db, path) && path.first() == root && path.last() == a;
    let path2 = path.push(b);
    assert(forall|i: int| 0 <= i < path.len() ==> path2[i] == path[i]);
    assert(path2.last() == b);
    assert(is_port_path(db, path2));
    assert(path2.first() == root);
}

/// Every name still on the stack is the root or was required by a port
/// already placed.
pub open spec fn stack_justified(
    db: Seq<PortEntryView>,
    root: Seq<char>,
    order: Seq<Seq<char>>,
    stack: Seq<Seq<char>>,
) -> bool {
    forall|k: int|
        0 <= k < stack.len() ==> (#[trigger] stack[k]) == root || exists|j: int|
            0 <= j < order.len() && dep_of(db, order[j], stack[k])
}

/// The walk's invariant: the order has no duplicates, holds only ports the
/// database knows, starts with the root when non-empty, places every port
/// after a requirer, and the stack holds only justified names.
pub open spec fn walk_inv(db: Seq<PortEntryView>, root: Seq<char>, s: WalkState) -> bool {
    &&& s.order.no_duplicates()
    &&& forall|j: int| 0 <= j < s.order.len() ==> port_lookup(db, #[trigger] s.order[j]) is Some
    &&& s.order.len() > 0 ==> s.order[0] == root
    &&& ordered_after_requirer(db, root, s.order)
    &&& stack_justified(db, root, s.order, s.stack)
    &&& forall|j: int| 0 <= j < s.order.len() ==> reachable(db, root, #[trigger] s.order[j])
    &&& forall|j: int, d: Seq<char>|
        0 <= j < s.order.len() && #[trigger] dep_of(db, s.order[j], d) && port_lookup(db, d) is Some
            ==> s.order.contains(d) || s.stack.contains(d)
    &&& port_lookup(db, root) is Some ==> s.order.contains(root) || s.stack.contains(root)
}

proof fn lemma_step_preserves(db: Seq<PortEntryView>, root: Seq<char>, s: WalkState)
    requires
        walk_inv(db, root, s),
    ensures
        walk_inv(db, root, walk_step(db, s)),
{
    if s.stack.len() > 0 {
        let name = s.stack.last();
        let rest = s.stack.drop_last();
        assert(forall|k: int| 0 <= k < rest.len() ==> rest[k] == s.stack[k]);
        if !s.order.contains(name) {
            match port_lookup(db, name) {
                Some(p) => {
                    lemma_first_index_of(s.order, name);
                    if first_index_of(s.order, name) is Some {
                        let i = first_index_of(s.order, name)->Some_0;
                        assert(s.order[i] == name);
                    }
                    let order2 = s.order.push(name);
                    assert(requeue(s.order, name) == order2);
                    let l = s.order.len() as int;
                    assert(forall|j: int| 0 <= j < l ==> order2[j] == s.order[j]);
                    assert(order2[l] == name);
                    // No duplicates: the appended name was not yet placed.
                    assert(order2.no_duplicates()) by {
                        assert(forall|i: int, j: int|
                            0 <= i < j < order2.len() && j < l ==> order2[i] != order2[j]);
                        assert(forall|i: int| 0 <= i < l ==> s.order[i] != name);
                    }
                    // The root stands first: a non-root name is appended only
                    // to a non-empty order, whose head stays; the root itself
                    // is appended only to an empty order.
                    if name != root {
                        assert(s.stack[s.stack.len() - 1] == name);
                        assert(exists|j: int| 0 <= j < s.order.len() && dep_of(db, s.order[j], name));
                        assert(order2.len() > 1 ==> order2[0] == root);
                    }
                    assert(ordered_after_requirer(db, root, order2)) by {
                        assert forall|j: int|
                            0 <= j < order2.len() implies (#[trigger] order2[j]) == root || exists|
                            j2: int,
                        | 0 <= j2 < j && dep_of(db, order2[j2], order2[j]) by {
                            if j < l {
                                if s.order[j] != root {
                                    let j2 = choose|j2: int|
                                        0 <= j2 < j && dep_of(db, s.order[j2], s.order[j]);
                                    assert(dep_of(db, order2[j2], order2[j]));
                                }
                            } else if name != root {
                                let j2 = choose|j2: int|
                                    0 <= j2 < s.order.len() && dep_of(db, s.order[j2], name);
                                assert(dep_of(db, order2[j2], order2[j]));
                            }
                        }
                    }
                    let stack2 = rest + p.deps;
                    assert forall|j: int|
                        0 <= j < order2.len() implies reachable(db, root, #[trigger] order2[j]) by {
                        if j < l {
                            assert(order2[j] == s.order[j]);
                        } else if name == root {
                            lemma_reachable_root(db, root);
                        } else {
                            assert(s.stack[s.stack.len() - 1] == name);
                            let j2 = choose|j2: int|
                                0 <= j2 < s.order.len() && dep_of(db, s.order[j2], name);
                            lemma_reachable_step(db, root, s.order[j2], name);
                        }
                    }
                    assert forall|j: int, d: Seq<char>|
                        0 <= j < order2.len() && #[trigger] dep_of(db, order2[j], d)
                            && port_lookup(db, d) is Some implies order2.contains(d)
                        || stack2.contains(d) by {
                        if j < l {
                            assert(dep_of(db, s.order[j], d));
                            if s.order.contains(d) {
                                let i = choose|i: int| 0 <= i < s.order.len() && s.order[i] == d;
                                assert(order2[i] == d);
                            } else {
                                let k = choose|k: int|
                                    0 <= k < s.stack.len() && s.stack[k] == d;
                                if k < s.stack.len() - 1 {
                                    assert(stack2[k] == d);
                                } else {
                                    assert(d == name);
                                    assert(order2[l] == d);
                                }
                            }
                        } else {
                            assert(order2[j] == name);
                            let i = choose|i: int| 0 <= i < p.deps.len() && p.deps[i] == d;
                            assert(stack2[rest.len() + i] == d);
                        }
                    }
                    if port_lookup(db, root) is Some {
                        if name == root {
                            assert(order2[l] == root);
                        } else if s.order.contains(root) {
                            let i = choose|i: int| 0 <= i < s.order.len() && s.order[i] == root;
                            assert(order2[i] == root);
                        } else {
                            let k = choose|k: int| 0 <= k < s.stack.len() && s.stack[k] == root;
                            assert(k < s.stack.len() - 1);
                            assert(stack2[k] == root);
                        }
                    }
                    assert(stack_justified(db, root, order2, stack2)) by {
                        assert forall|k: int|
                            0 <= k < stack2.len() implies (#[trigger] stack2[k]) == root || exists|
                            j: int,
                        | 0 <= j < order2.len() && dep_of(db, order2[j], stack2[k]) by {
                            if k < rest.len() {
                                assert(stack2[k] == s.stack[k]);
                                if s.stack[k] != root {
                                    let j = choose|j: int|
                                        0 <= j < s.order.len() && dep_of(db, s.order[j], s.stack[k]);
                                    assert(dep_of(db, order2[j], stack2[k]));
                                }
                            } else {
                                assert(stack2[k] == p.deps[k - rest.len()]);
                                assert(p.deps.contains(stack2[k]));
                                assert(dep_of(db, order2[l], stack2[k]));
                            }
                        }
                    }
                },
                None => {
                    assert(stack_justified(db, root, s.order, rest));
                    assert forall|j: int, d: Seq<char>|
                        0 <= j < s.order.len() && #[trigger] dep_of(db, s.order[j], d)
                            && port_lookup(db, d) is Some implies s.order.contains(d)
                        || rest.contains(d) by {
                        if !s.order.contains(d) {
                            let k = choose|k: int| 0 <= k < s.stack.len() && s.stack[k] == d;
                            if k < s.stack.len() - 1 {
                                assert(rest[k] == d);
                            } else {
                                assert(d == name);
                            }
                        }
                    }
                    if port_lookup(db, root) is Some && !s.order.contains(root) {
                        let k = choose|k: int| 0 <= k < s.stack.len() && s.stack[k] == root;
                        assert(k < s.stack.len() - 1);
                        assert(rest[k] == root);
                    }
                },
            }
        } else {
            assert(stack_justified(db, root, s.order, rest));
            assert forall|j: int, d: Seq<char>|
                0 <= j < s.order.len() && #[trigger] dep_of(db, s.order[j], d) && port_lookup(
                    db,
                    d,
                ) is Some implies s.order.contains(d) || rest.contains(d) by {
                if !s.order.contains(d) {
                    let k = choose|k: int| 0 <= k < s.stack.len() && s.stack[k] == d;
                    if k < s.stack.len() - 1 {
                        assert(rest[k] == d);
                    } else {
                        assert(d == name);
                    }
                }
            }
            if port_lookup(db, root) is Some && !s.order.contains(root) {
                let k = choose|k: int| 0 <= k < s.stack.len() && s.stack[k] == root;
                if k == s.stack.len() - 1 {
                    assert(s.order.contains(name));
                }
                assert(k < s.stack.len() - 1);
                assert(rest[k] == root);
            }
        }
    }
}

proof fn lemma_walk_inv(db: Seq<PortEntryView>, root: Seq<char>, n: nat)
    ensures
        walk_inv(db, root, walk_n(db, init_state(root), n)),
    decreases n,
{
    if n == 0 {
        let s = init_state(root);
        assert(s.order.len() == 0);
        assert(s.stack[0] == root);
    } else {
        lemma_walk_inv(db, root, (n - 1) as nat);
        lemma_walk_n_unfold(db, init_state(root), (n - 1) as nat);
        lemma_step_preserves(db, root, walk_n(db, init_state(root), (n - 1) as nat));
    }
}

/// Port ordering precedes dependents: in the walk's output the root comes
/// first, no port appears twice, every port is one the database holds, and
/// every port other than the root appears strictly after some port that
/// declares a dependency on it. For a dependency chain root → X → Y in which
/// X and Y are required by nothing else, the output therefore orders the root
/// before X and X before Y.
pub proof fn lemma_resolve_order_dependents_first(
    db: Seq<PortEntryView>,
    root: Seq<char>,
    order: Seq<Seq<char>>,
)
    requires
        is_resolve_order(db, root, order),
    ensures
        order.no_duplicates(),
        order.len() > 0 ==> order[0] == root,
        forall|j: int| 0 <= j < order.len() ==> port_lookup(db, #[trigger] order[j]) is Some,
        forall|j: int|
            0 <= j < order.len() ==> (#[trigger] order[j]) == root || exists|j2: int|
                0 <= j2 < j && dep_of(db, order[j2], order[j]),
{
    let n = choose|n: nat|
        {
            let s = #[trigger] walk_n(db, init_state(root), n);
            s.stack.len() == 0 && s.order == order
        };
    lemma_walk_inv(db, root, n);
}

/// The walk's output is exactly the set of ports reachable from the root
/// along dependency edges through present ports, the root included.
pub proof fn lemma_resolve_order_reachable_set(
    db: Seq<PortEntryView>,
    root: Seq<char>,
    order: Seq<Seq<char>>,
)
    requires
        is_resolve_order(db, root, order),
        port_lookup(db, root) is Some,
    ensures
        forall|j: int| 0 <= j < order.len() ==> reachable(db, root, #[trigger] order[j]),
        forall|n: Seq<char>| #[trigger] reachable(db, root, n) ==> order.contains(n),
{
    let steps = choose|steps: nat|
        {
            let s = #[trigger] walk_n(db, init_state(root), steps);
            s.stack.len() == 0 && s.order == order
        };
    lemma_walk_inv(db, root, steps);
    let s = walk_n(db, init_state(root), steps);
    assert(order.contains(root));
    assert forall|j: int, d: Seq<char>|
        0 <= j < order.len() && #[trigger] dep_of(db, order[j], d) && port_lookup(db, d) is Some
        implies order.contains(d) by {
        if s.stack.contains(d) {
            let k = choose|k: int| 0 <= k < s.stack.len() && s.stack[k] == d;
        }
    }
    assert forall|n: Seq<char>| #[trigger] reachable(db, root, n) implies order.contains(n) by {
        let path = choose|path: Seq<Seq<char>>|
            #[trigger] is_port_path(db, path) && path.first() == root && path.last() == n;
        lemma_path_in_closed(db, root, order, path);
    }
}

/// Along a dependency path out of the root, a closed order that holds the
/// root holds every port of the path.
proof fn lemma_path_in_closed(
    db: Seq<PortEntryView>,
    root: Seq<char>,
    order: Seq<Seq<char>>,
    path: Seq<Seq<char>>,
)
    requires
        is_port_path(db, path),
        path.first() == root,
        order.contains(root),
        forall|j: int, d: Seq<char>|
            0 <= j < order.len() && #[trigger] dep_of(db, order[j], d) && port_lookup(
                db,
                d,
            ) is Some ==> order.contains(d),
    ensures
        order.contains(path.last()),
    decreases path.len(),
{
    if path.len() == 1 {
        assert(path.last() == root);
    } else {
        let pre = path.drop_last();
        assert(forall|i: int| 0 <= i < pre.len() ==> pre[i] == path[i]);
        assert(is_port_path(db, pre));
        assert(pre.first() == root);
        lemma_path_in_closed(db, root, order, pre);
        let j = choose|j: int| 0 <= j < order.len() && order[j] == pre.last();
        assert(dep_of(db, path[path.len() - 2], path.last()));
        assert(dep_of(db, order[j], path.last()));
        assert(port_lookup(db, path.last()) is Some);
    }
}

/// A sequence of distinct names, each known to the database, cannot outgrow
/// the database.
proof fn lemma_order_len_bound(db: Seq<PortEntryView>, names: Seq<Seq<char>>)
    requires
        names.no_duplicates(),
        forall|j: int| 0 <= j < names.len() ==> port_lookup(db, #[trigger] names[j]) is Some,
    ensures
        names.len() <= db.len(),
{
    broadcast use vstd::seq_lib::seq_to_set_is_finite;

    let keys = db.map_values(|e: PortEntryView| e.name);
    assert forall|x: Seq<char>| names.to_set().contains(x) implies keys.to_set().contains(x) by {
        assert(names.contains(x));
        let j = choose|j: int| 0 <= j < names.len() && names[j] == x;
        lemma_port_idx(db, x);
        let i = port_idx(db, x)->Some_0;
        assert(keys[i] == x);
        assert(keys.contains(x));
    }
    names.unique_seq_to_set();
    keys.lemma_cardinality_of_set();
    vstd::set_lib::lemma_len_subset(names.to_set(), keys.to_set());
}

/// Walks the dependency graph from `root`, producing the linear port order:
/// dependencies are pushed last-first, a port already placed or unknown to
/// the database is skipped, and each found port is appended to the order.
pub fn resolve_port_graph(db: &PortsDb, root: &str) -> (order: Vec<String>)
    ensures
        is_resolve_order(db@, root@, seq_views(order@)),
{
    let mut stack: Vec<String> = Vec::new();
    stack.push(String::from_str(root));
    let mut order: Vec<String> = Vec::new();
    let ghost mut n: nat = 0nat;
    proof {
        assert(seq_views(stack@) =~= seq![root@]);
        assert(seq_views(order@) =~= Seq::<Seq<char>>::empty());
        assert(walk_n(db@, init_state(root@), n) == (WalkState {
            stack: seq_views(stack@),
            order: seq_views(order@),
        }));
    }
    while stack.len() > 0
        invariant
            walk_n(db@, init_state(root@), n) == (WalkState {
                stack: seq_views(stack@),
                order: seq_views(order@),
            }),
            seq_views(order@).len() <= db@.len(),
        decreases db@.len() - seq_views(order@).len(), stack@.len(),
    {
        let ghost s = WalkState { stack: seq_views(stack@), order: seq_views(order@) };
        let name = stack.pop().unwrap();
        proof {
            assert(name@ == s.stack.last());
            assert(seq_views(stack@) =~= s.stack.drop_last());
        }
        if crate::text::vec_contains_str(&order, name.as_str()) {
            proof {
                assert(s.order.contains(name@));
                assert(walk_step(db@, s) == (WalkState {
                    stack: seq_views(stack@),
                    order: seq_views(order@),
                }));
                lemma_walk_n_unfold(db@, init_state(root@), n);
                n = n + 1;
            }
        } else {
            proof {
                assert(!s.order.contains(name@)) by {
                    if s.order.contains(name@) {
                        let j = choose|j: int| 0 <= j < s.order.len() && s.order[j] == name@;
                        assert(seq_views(order@)[j] == name@);
                    }
                }
            }
            match db.get(name.as_str()) {
                Some(port) => {
                    let ghost rest = seq_views(stack@);
                    let ghost dviews = seq_views(port.deps@);
                    let dn = port.deps.len();
                    let mut d: usize = 0;
                    proof {
                        assert(rest + dviews.take(0) =~= rest);
                    }
                    while d < dn
                        invariant
                            dn == port.deps@.len(),
                            dviews == seq_views(port.deps@),
                            d <= dn,
                            seq_views(stack@) == rest + dviews.take(d as int),
                        decreases dn - d,
                    {
                        let ghost prev = seq_views(stack@);
                        stack.push(port.deps[d].clone());
                        proof {
                            assert(seq_views(stack@) =~= prev.push(dviews[d as int]));
                            assert(rest + dviews.take(d + 1) =~= (rest + dviews.take(
                                d as int,
                            )).push(dviews[d as int]));
                        }
                        d += 1;
                    }
                    proof {
                        assert(dviews.take(dn as int) =~= dviews);
                        assert(seq_views(stack@) == rest + port@.deps);
                    }
                    let ghost before_order = seq_views(order@);
                    let removed = crate::remove_item(&mut order, &name);
                    proof {
                        lemma_first_index_of(before_order, name@);
                        if first_index_of(before_order, name@) is Some {
                            let i = first_index_of(before_order, name@)->Some_0;
                            assert(before_order[i] == name@);
                            assert(s.order.contains(name@));
                        }
                    }
                    let ghost mid_order = seq_views(order@);
                    order.push(name);
                    proof {
                        assert(seq_views(order@) =~= mid_order.push(name@));
                        assert(mid_order == before_order);
                        assert(seq_views(order@) == requeue(s.order, name@));
                        assert(walk_step(db@, s) == (WalkState {
                            stack: seq_views(stack@),
                            order: seq_views(order@),
                        }));
                        lemma_walk_n_unfold(db@, init_state(root@), n);
                        n = n + 1;
                        lemma_walk_inv(db@, root@, n);
                        lemma_order_len_bound(db@, seq_views(order@));
                    }
                },
                None => {
                    proof {
                        assert(walk_step(db@, s) == (WalkState {
                            stack: seq_views(stack@),
                            order: seq_views(order@),
                        }));
                        lemma_walk_n_unfold(db@, init_state(root@), n);
                        n = n + 1;
                    }
                },
            }
        }
    }
    proof {
        assert(seq_views(stack@).len() == 0);
    }
    order
}

} // verus!
