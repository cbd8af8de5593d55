//! The resource allocation graph and the search for circular wait.
//!
//! Each resource has at most one holder. A process blocked on a resource
//! waits for that resource's holder, so every process has at most one
//! outgoing edge in the wait-for graph. Following edges from a process
//! therefore either comes to an end or runs into a cycle, and a cycle is a
//! deadlock.

use std::collections::{HashMap, HashSet};
use vstd::prelude::*;
use vstd::std_specs::hash::group_hash_axioms;
use vstd::std_specs::iter::IteratorSpec;

verus! {

/// Resources and who holds them.
pub struct ResourceAllocGraph {
    /// For each known resource its holder, `None` while it is free.
    pub resources: HashMap<u32, Option<u32>>,
}

/// The process that `pid` waits for: the holder of the resource that `pid`
/// is blocked on, where that resource exists, is held, and is held by
/// another process.
pub open spec fn blocker(
    resources: Map<u32, Option<u32>>,
    waiting_for: Map<u32, u32>,
    pid: u32,
) -> Option<u32> {
    if waiting_for.contains_key(pid) && resources.contains_key(waiting_for[pid]) {
        match resources[waiting_for[pid]] {
            Some(holder) => if holder != pid {
                Some(holder)
            } else {
                None
            },
            None => None,
        }
    } else {
        None
    }
}

/// The wait-for graph: an edge from each blocked process to the process it
/// waits for.
pub open spec fn wait_graph(resources: Map<u32, Option<u32>>, waiting_for: Map<u32, u32>) -> Map<
    u32,
    u32,
> {
    Map::new(
        |pid: u32| blocker(resources, waiting_for, pid) is Some,
        |pid: u32| blocker(resources, waiting_for, pid)->0,
    )
}

/// The process reached from `from` by following `steps` edges; `None` where
/// the edges run out first.
pub open spec fn after(graph: Map<u32, u32>, from: u32, steps: nat) -> Option<u32>
    decreases steps,
{
    if steps == 0 {
        Some(from)
    } else if graph.contains_key(from) {
        after(graph, graph[from], (steps - 1) as nat)
    } else {
        None
    }
}

/// Following edges from `from` comes to an end.
pub open spec fn ends(graph: Map<u32, u32>, from: u32) -> bool {
    exists|steps: nat| after(graph, from, steps) is None
}

/// Some process gets back to itself by following edges: a circular wait.
pub open spec fn has_cycle(graph: Map<u32, u32>) -> bool {
    exists|on: u32, steps: nat| steps > 0 && #[trigger] after(graph, on, steps) == Some(on)
}

/// Each process of the path waits for the next one.
pub open spec fn is_chain(graph: Map<u32, u32>, path: Seq<u32>) -> bool {
    forall|i: int|
        0 <= i < path.len() - 1 ==> graph.contains_key(#[trigger] path[i]) && graph[path[i]]
            == path[i + 1]
}

/// The path follows edges from its first process up to and including the
/// first process that it meets a second time.
pub open spec fn is_cycle_path(graph: Map<u32, u32>, path: Seq<u32>) -> bool {
    &&& path.len() >= 2
    &&& is_chain(graph, path)
    &&& path.drop_last().no_duplicates()
    &&& path.drop_last().contains(path.last())
}

/// `pid` is blocked, its wait never comes to an end, and it is the smallest
/// process identity of which that is true.
pub open spec fn is_least_stuck(graph: Map<u32, u32>, pid: u32) -> bool {
    &&& graph.contains_key(pid)
    &&& !ends(graph, pid)
    &&& forall|other: u32| other < pid && graph.contains_key(other) ==> ends(graph, other)
}

/// Each element is smaller than the next.
pub open spec fn is_ascending(pids: Seq<u32>) -> bool {
    forall|i: int, j: int| 0 <= i < j < pids.len() ==> pids[i] < pids[j]
}

proof fn lemma_after_sum(graph: Map<u32, u32>, from: u32, a: nat, b: nat)
    ensures
        after(graph, from, a + b) == match after(graph, from, a) {
            Some(at) => after(graph, at, b),
            None => None,
        },
    decreases a,
{
    if a > 0 && graph.contains_key(from) {
        lemma_after_sum(graph, graph[from], (a - 1) as nat, b);
    }
}

proof fn lemma_after_on_chain(graph: Map<u32, u32>, path: Seq<u32>, i: int, j: int)
    requires
        is_chain(graph, path),
        0 <= i <= j < path.len(),
    ensures
        after(graph, path[i], (j - i) as nat) == Some(path[j]),
    decreases j - i,
{
    if i < j {
        lemma_after_on_chain(graph, path, i + 1, j);
    }
}

/// On a cycle the edges never run out.
proof fn lemma_cycle_goes_on(graph: Map<u32, u32>, on: u32, period: nat, steps: nat)
    requires
        period > 0,
        after(graph, on, period) == Some(on),
    ensures
        after(graph, on, steps) is Some,
    decreases steps,
{
    if steps <= period {
        lemma_after_sum(graph, on, steps, (period - steps) as nat);
    } else {
        lemma_cycle_goes_on(graph, on, period, (steps - period) as nat);
        lemma_after_sum(graph, on, period, (steps - period) as nat);
    }
}

/// A process whose edges come to an end is on no cycle, and a process that
/// reaches a cycle never comes to an end.
pub proof fn lemma_ends_excludes_cycle(graph: Map<u32, u32>, from: u32, lead: nat, period: nat)
    requires
        period > 0,
        after(graph, from, lead) is Some,
        after(graph, after(graph, from, lead)->0, period) == after(graph, from, lead),
    ensures
        !ends(graph, from),
{
    let on = after(graph, from, lead)->0;
    assert forall|steps: nat| after(graph, from, steps) is Some by {
        if steps <= lead {
            lemma_after_sum(graph, from, steps, (lead - steps) as nat);
        } else {
            lemma_after_sum(graph, from, lead, (steps - lead) as nat);
            lemma_cycle_goes_on(graph, on, period, (steps - lead) as nat);
        }
    }
}

/// A cycle path shows a circular wait, and from its first process the edges
/// never come to an end.
pub proof fn lemma_cycle_path_shows_cycle(graph: Map<u32, u32>, path: Seq<u32>)
    requires
        is_cycle_path(graph, path),
    ensures
        has_cycle(graph),
        !ends(graph, path[0]),
        graph.contains_key(path[0]),
{
    let last = path.len() - 1;
    let front = path.drop_last();
    let j = choose|j: int| 0 <= j < front.len() && front[j] == path.last();
    assert(front[j] == path[j]);
    lemma_after_on_chain(graph, path, j, last);
    lemma_after_on_chain(graph, path, 0, j);
    assert(after(graph, path[j], (last - j) as nat) == Some(path[j]));
    lemma_ends_excludes_cycle(graph, path[0], j as nat, (last - j) as nat);
}

/// Where every blocked process comes to an end, nobody waits in a circle.
pub proof fn lemma_all_end_no_cycle(graph: Map<u32, u32>)
    requires
        forall|pid: u32| graph.contains_key(pid) ==> ends(graph, pid),
    ensures
        !has_cycle(graph),
{
    if has_cycle(graph) {
        let (on, steps) = choose|on: u32, steps: nat|
            steps > 0 && #[trigger] after(graph, on, steps) == Some(on);
        assert(graph.contains_key(on));
        lemma_ends_excludes_cycle(graph, on, 0, steps);
    }
}

proof fn lemma_cycle_paths_agree(graph: Map<u32, u32>, p: Seq<u32>, q: Seq<u32>)
    requires
        is_cycle_path(graph, p),
        is_cycle_path(graph, q),
        p[0] == q[0],
        p.len() <= q.len(),
    ensures
        p == q,
{
    assert forall|i: int| 0 <= i < p.len() implies p[i] == q[i] by {
        lemma_after_on_chain(graph, p, 0, i);
        lemma_after_on_chain(graph, q, 0, i);
    }
    if p.len() < q.len() {
        let front = p.drop_last();
        let j = choose|j: int| 0 <= j < front.len() && front[j] == p.last();
        assert(front[j] == p[j]);
        let longer = q.drop_last();
        assert(longer[j] == q[j] && longer[p.len() - 1] == q[p.len() - 1]);
        assert(false);
    }
    assert(p =~= q);
}

/// From one process there is only one cycle path: the search for it has one
/// right answer.
pub proof fn lemma_cycle_path_is_unique(graph: Map<u32, u32>, p: Seq<u32>, q: Seq<u32>)
    requires
        is_cycle_path(graph, p),
        is_cycle_path(graph, q),
        p[0] == q[0],
    ensures
        p == q,
{
    if p.len() <= q.len() {
        lemma_cycle_paths_agree(graph, p, q);
    } else {
        lemma_cycle_paths_agree(graph, q, p);
    }
}

/// The walk from `from` is at least `steps` edges long, and neither `from`
/// nor any process on those edges is in `seen`.
pub open spec fn walk_avoids(graph: Map<u32, u32>, seen: Set<u32>, from: u32, steps: nat) -> bool
    decreases steps,
{
    &&& !seen.contains(from)
    &&& steps > 0 ==> graph.contains_key(from) && walk_avoids(
        graph,
        seen,
        graph[from],
        (steps - 1) as nat,
    )
}

/// The processes that a search from `from` sees for the first time: those
/// on the walk from `from` before the first process of `seen`. Where the
/// walk comes to an end before it meets one, its last process, which waits
/// for nobody, is among them.
pub open spec fn first_visits(graph: Map<u32, u32>, seen: Set<u32>, from: u32) -> Set<u32> {
    Set::new(
        |v: u32|
            exists|steps: nat|
                #[trigger] walk_avoids(graph, seen, from, steps) && after(graph, from, steps)
                    == Some(v),
    )
}

/// A search from a process already seen sees nothing new; from any other
/// process it sees that process and then what a search from the process it
/// waits for sees.
pub proof fn lemma_first_visits_step(graph: Map<u32, u32>, seen: Set<u32>, from: u32)
    ensures
        first_visits(graph, seen, from) == if seen.contains(from) {
            Set::<u32>::empty()
        } else if graph.contains_key(from) {
            first_visits(graph, seen, graph[from]).insert(from)
        } else {
            Set::<u32>::empty().insert(from)
        },
{
    let here = first_visits(graph, seen, from);
    if seen.contains(from) {
        assert(here =~= Set::<u32>::empty());
    } else {
        assert(walk_avoids(graph, seen, from, 0));
        if graph.contains_key(from) {
            let there = first_visits(graph, seen, graph[from]);
            assert forall|v: u32| here.contains(v) <==> there.insert(from).contains(v) by {
                if here.contains(v) && v != from {
                    let steps = choose|steps: nat|
                        #[trigger] walk_avoids(graph, seen, from, steps) && after(
                            graph,
                            from,
                            steps,
                        ) == Some(v);
                    assert(walk_avoids(graph, seen, graph[from], (steps - 1) as nat));
                }
                if there.contains(v) {
                    let steps = choose|steps: nat|
                        #[trigger] walk_avoids(graph, seen, graph[from], steps) && after(
                            graph,
                            graph[from],
                            steps,
                        ) == Some(v);
                    assert(walk_avoids(graph, seen, from, steps + 1));
                }
            }
            assert(here =~= there.insert(from));
        } else {
            assert forall|v: u32| here.contains(v) implies v == from by {
                let steps = choose|steps: nat|
                    #[trigger] walk_avoids(graph, seen, from, steps) && after(graph, from, steps)
                        == Some(v);
                assert(steps == 0);
            }
            assert(here =~= Set::<u32>::empty().insert(from));
        }
    }
}

proof fn lemma_walk_avoids_one_less(
    graph: Map<u32, u32>,
    seen: Set<u32>,
    node: u32,
    from: u32,
    steps: nat,
)
    requires
        walk_avoids(graph, seen.insert(node), from, steps),
    ensures
        walk_avoids(graph, seen, from, steps),
    decreases steps,
{
    if steps > 0 {
        lemma_walk_avoids_one_less(graph, seen, node, graph[from], (steps - 1) as nat);
    }
}

proof fn lemma_walk_avoids_one_more(
    graph: Map<u32, u32>,
    seen: Set<u32>,
    node: u32,
    from: u32,
    steps: nat,
)
    requires
        walk_avoids(graph, seen, from, steps),
        forall|j: nat| j <= steps ==> after(graph, from, j) != Some(node),
    ensures
        walk_avoids(graph, seen.insert(node), from, steps),
    decreases steps,
{
    assert(after(graph, from, 0) != Some(node));
    if steps > 0 {
        assert forall|j: nat| j <= steps - 1 implies after(graph, graph[from], j) != Some(
            node,
        ) by {
            assert(after(graph, from, j + 1) != Some(node));
        }
        lemma_walk_avoids_one_more(graph, seen, node, graph[from], (steps - 1) as nat);
    }
}

/// Once the wait of `node` is known to end, having seen `node` makes no
/// difference to what a search from the process it waits for sees: that
/// walk never comes back to `node`.
proof fn lemma_first_visits_past(graph: Map<u32, u32>, seen: Set<u32>, node: u32)
    requires
        graph.contains_key(node),
        ends(graph, node),
    ensures
        first_visits(graph, seen.insert(node), graph[node]) == first_visits(
            graph,
            seen,
            graph[node],
        ),
{
    let next = graph[node];
    let with = first_visits(graph, seen.insert(node), next);
    let without = first_visits(graph, seen, next);
    assert forall|v: u32| with.contains(v) <==> without.contains(v) by {
        if with.contains(v) {
            let steps = choose|steps: nat|
                #[trigger] walk_avoids(graph, seen.insert(node), next, steps) && after(
                    graph,
                    next,
                    steps,
                ) == Some(v);
            lemma_walk_avoids_one_less(graph, seen, node, next, steps);
        }
        if without.contains(v) {
            let steps = choose|steps: nat|
                #[trigger] walk_avoids(graph, seen, next, steps) && after(graph, next, steps)
                    == Some(v);
            assert forall|j: nat| j <= steps implies after(graph, next, j) != Some(node) by {
                if after(graph, next, j) == Some(node) {
                    assert(after(graph, node, j + 1) == Some(node));
                    lemma_ends_excludes_cycle(graph, node, 0, j + 1);
                }
            }
            lemma_walk_avoids_one_more(graph, seen, node, next, steps);
        }
    }
    assert(with =~= without);
}

/// Where the wait of `from` comes to an end, so does the wait of every
/// process that a search from `from` sees.
pub proof fn lemma_first_visits_end(graph: Map<u32, u32>, seen: Set<u32>, from: u32, v: u32)
    requires
        ends(graph, from),
        first_visits(graph, seen, from).contains(v),
    ensures
        ends(graph, v),
{
    let reach = choose|steps: nat|
        #[trigger] walk_avoids(graph, seen, from, steps) && after(graph, from, steps) == Some(v);
    let stop = choose|steps: nat| after(graph, from, steps) is None;
    if stop <= reach {
        lemma_after_sum(graph, from, stop, (reach - stop) as nat);
    } else {
        lemma_after_sum(graph, from, reach, (stop - reach) as nat);
        assert(after(graph, v, (stop - reach) as nat) is None);
    }
}

/// The elements of a prefix that is one longer are those of the prefix and
/// the element that follows it.
proof fn lemma_take_one_more(s: Seq<u32>, i: int)
    requires
        0 <= i < s.len(),
    ensures
        forall|x: u32| s.take(i + 1).contains(x) <==> s.take(i).contains(x) || x == s[i],
{
    let done = s.take(i);
    let next = s.take(i + 1);
    assert forall|x: u32| next.contains(x) <==> done.contains(x) || x == s[i] by {
        if done.contains(x) {
            let k = choose|k: int| 0 <= k < done.len() && done[k] == x;
            assert(next[k] == x);
        }
        if x == s[i] {
            assert(next[i] == x);
        }
        if next.contains(x) {
            let k = choose|k: int| 0 <= k < next.len() && next[k] == x;
            if k < i {
                assert(done[k] == x);
            }
        }
    }
}

/// The elements of a sequence with one element inserted are those of the
/// sequence and that element.
proof fn lemma_insert_contains(s: Seq<u32>, at: int, k: u32)
    requires
        0 <= at <= s.len(),
    ensures
        forall|x: u32| s.insert(at, k).contains(x) <==> s.contains(x) || x == k,
{
    let more = s.insert(at, k);
    assert forall|x: u32| more.contains(x) <==> s.contains(x) || x == k by {
        if s.contains(x) {
            let j = choose|j: int| 0 <= j < s.len() && s[j] == x;
            assert(more[if j < at { j } else { j + 1 }] == x);
        }
        if x == k {
            assert(more[at] == x);
        }
        if more.contains(x) {
            let j = choose|j: int| 0 <= j < more.len() && more[j] == x;
            if j != at {
                assert(s[if j < at { j } else { j - 1 }] == x);
            }
        }
    }
}

/// The keys of a map, each once, in whatever order the map yields them.
fn keys_of(map: &HashMap<u32, u32>) -> (keys: Vec<u32>)
    ensures
        keys@.no_duplicates(),
        keys@.to_set() == map@.dom(),
{
    broadcast use group_hash_axioms;

    let mut keys: Vec<u32> = Vec::new();
    let ghost all = map.keys().remaining().unref();
    for key in it: map.keys()
        invariant
            it.seq().unref() == all,
            keys@ == all.take(it.index()),
            all.to_set() == map@.dom(),
            all.no_duplicates(),
    {
        keys.push(*key);
    }
    assert(keys@ =~= all);
    keys
}

/// The keys of a map in ascending order.
fn sorted_keys(map: &HashMap<u32, u32>) -> (keys: Vec<u32>)
    ensures
        is_ascending(keys@),
        keys@.to_set() == map@.dom(),
{
    broadcast use group_hash_axioms;

    let mut keys: Vec<u32> = Vec::new();
    let ghost all = map.keys().remaining().unref();
    for key in it: map.keys()
        invariant
            it.seq().unref() == all,
            all.to_set() == map@.dom(),
            all.no_duplicates(),
            is_ascending(keys@),
            forall|v: u32| keys@.contains(v) <==> all.take(it.index()).contains(v),
    {
        let k = *key;
        let ghost done = all.take(it.index());
        let ghost before = keys@;
        let mut at: usize = keys.len();
        while at > 0 && keys[at - 1] > k
            invariant
                at <= keys@.len(),
                keys@ == before,
                forall|j: int| at <= j < keys@.len() ==> keys@[j] > k,
            decreases at,
        {
            at -= 1;
        }
        keys.insert(at, k);
        proof {
            assert(all[it.index()] == k);
            assert(!before.contains(k)) by {
                if done.contains(k) {
                    let j = choose|j: int| 0 <= j < done.len() && done[j] == k;
                    assert(all[j] == k);
                }
            }
            if at > 0 {
                assert(before.contains(before[at - 1]));
            }
            assert forall|i: int, j: int| 0 <= i < j < keys@.len() implies keys@[i] < keys@[j] by {
                let a = if i < at { i } else { i - 1 };
                let b = if j < at { j } else { j - 1 };
                if i != at && j != at {
                    assert(before[a] < before[b]);
                } else if i == at {
                    assert(before[b] > k);
                } else {
                    if at > 0 {
                        assert(before[a] <= before[at - 1]) by {
                            if a < at - 1 {
                                assert(before[a] < before[at - 1]);
                            }
                        }
                    }
                }
            }
            lemma_insert_contains(before, at as int, k);
            lemma_take_one_more(all, it.index());
            assert forall|v: u32| keys@.contains(v) <==> all.take(it.index() + 1).contains(
                v,
            ) by {
                assert(before.contains(v) <==> done.contains(v));
            }
        }
    }
    proof {
        assert(all.take(all.len() as int) =~= all);
        assert(keys@.to_set() =~= all.to_set());
    }
    keys
}

impl ResourceAllocGraph {
    /// A graph over the given resources, all of them free.
    pub fn new(resource_ids: Vec<u32>) -> (graph: Self)
        ensures
            graph.resources@ == Map::new(
                |id: u32| resource_ids@.contains(id),
                |id: u32| None::<u32>,
            ),
    {
        broadcast use group_hash_axioms;

        let mut resources: HashMap<u32, Option<u32>> = HashMap::new();
        let n = resource_ids.len();
        let mut i: usize = 0;
        while i < n
            invariant
                i <= n,
                n == resource_ids@.len(),
                resources@ == Map::new(
                    |id: u32| resource_ids@.take(i as int).contains(id),
                    |id: u32| None::<u32>,
                ),
            decreases n - i,
        {
            let id = resource_ids[i];
            resources.insert(id, None);
            proof {
                lemma_take_one_more(resource_ids@, i as int);
                assert(resources@ =~= Map::new(
                    |id: u32| resource_ids@.take(i + 1).contains(id),
                    |id: u32| None::<u32>,
                ));
            }
            i += 1;
        }
        assert(resource_ids@.take(n as int) =~= resource_ids@);
        ResourceAllocGraph { resources }
    }

    /// Tries to take `resource_id` for `pid`. The attempt succeeds only
    /// where the resource exists and nobody holds it; `pid` is then its
    /// holder. Otherwise nothing changes: there is no queue to wait in.
    pub fn acquire(&mut self, pid: u32, resource_id: u32) -> (granted: bool)
        ensures
            granted <==> old(self).resources@.contains_key(resource_id)
                && old(self).resources@[resource_id] is None,
            final(self).resources@ == if granted {
                old(self).resources@.insert(resource_id, Some(pid))
            } else {
                old(self).resources@
            },
    {
        broadcast use group_hash_axioms;

        let free = match self.resources.get(&resource_id) {
            Some(holder) => holder.is_none(),
            None => false,
        };
        if free {
            self.resources.insert(resource_id, Some(pid));
        }
        free
    }

    /// Gives `resource_id` up: it has no holder afterwards. A resource that
    /// does not exist stays unknown, and a free one stays free.
    pub fn release(&mut self, resource_id: u32)
        ensures
            final(self).resources@ == if old(self).resources@.contains_key(resource_id) {
                old(self).resources@.insert(resource_id, None)
            } else {
                old(self).resources@
            },
    {
        broadcast use group_hash_axioms;

        if self.resources.contains_key(&resource_id) {
            self.resources.insert(resource_id, None);
        }
    }

    /// Builds the wait-for graph from a map of blocked processes to the
    /// resources they are blocked on.
    pub fn wait_graph(&self, waiting_for: &HashMap<u32, u32>) -> (graph: HashMap<u32, u32>)
        ensures
            graph@ == wait_graph(self.resources@, waiting_for@),
    {
        broadcast use group_hash_axioms;

        let pids = keys_of(waiting_for);
        let mut graph: HashMap<u32, u32> = HashMap::new();
        let n = pids.len();
        let mut i: usize = 0;
        while i < n
            invariant
                i <= n,
                n == pids@.len(),
                pids@.to_set() == waiting_for@.dom(),
                forall|pid: u32|
                    graph@.contains_key(pid) <==> pids@.take(i as int).contains(pid) && blocker(
                        self.resources@,
                        waiting_for@,
                        pid,
                    ) is Some,
                forall|pid: u32|
                    graph@.contains_key(pid) ==> graph@[pid] == blocker(
                        self.resources@,
                        waiting_for@,
                        pid,
                    )->0,
            decreases n - i,
        {
            let pid = pids[i];
            proof {
                assert(pids@.to_set().contains(pid)) by {
                    assert(pids@.contains(pids@[i as int]));
                }
                lemma_take_one_more(pids@, i as int);
            }
            match waiting_for.get(&pid) {
                Some(resource_id) => {
                    match self.resources.get(resource_id) {
                        Some(Some(holder)) => {
                            if *holder != pid {
                                graph.insert(pid, *holder);
                            }
                        },
                        _ => {},
                    }
                },
                None => {},
            }
            i += 1;
        }
        proof {
            assert(pids@.take(n as int) =~= pids@);
            assert forall|pid: u32|
                graph@.contains_key(pid) <==> blocker(
                    self.resources@,
                    waiting_for@,
                    pid,
                ) is Some by {
                if blocker(self.resources@, waiting_for@, pid) is Some {
                    assert(pids@.to_set().contains(pid));
                }
            }
            assert(graph@ =~= wait_graph(self.resources@, waiting_for@));
        }
        graph
    }

    /// Looks for a circular wait among the processes of `waiting_for`, a map
    /// from each blocked process to the resource it is blocked on.
    ///
    /// The result is `Some` exactly when some process waits, through
    /// holders of resources, for itself. The search goes through the blocked
    /// processes in ascending order of identity, so the path starts at the
    /// smallest blocked process whose wait never comes to an end. It follows
    /// the wait-for edges from there and ends with the first process that it
    /// meets a second time; its tail from that process on is the cycle.
    pub fn detect_deadlock(&self, waiting_for: &HashMap<u32, u32>) -> (cycle: Option<Vec<u32>>)
        ensures
            cycle is Some <==> has_cycle(wait_graph(self.resources@, waiting_for@)),
            cycle matches Some(path) ==> {
                &&& is_cycle_path(wait_graph(self.resources@, waiting_for@), path@)
                &&& is_least_stuck(wait_graph(self.resources@, waiting_for@), path@[0])
            },
    {
        let graph = self.wait_graph(waiting_for);
        let starts = sorted_keys(&graph);
        let cycle = Self::find_cycle(&graph, &starts);
        proof {
            if cycle is Some {
                let path = cycle->0@;
                lemma_cycle_path_shows_cycle(graph@, path);
                let i = choose|i: int|
                    {
                        &&& 0 <= i < starts@.len()
                        &&& path[0] == #[trigger] starts@[i]
                        &&& forall|j: int| 0 <= j < i ==> ends(graph@, #[trigger] starts@[j])
                    };
                assert forall|other: u32|
                    other < path[0] && graph@.contains_key(other) implies ends(graph@, other) by {
                    assert(starts@.to_set().contains(other));
                    let k = choose|k: int| 0 <= k < starts@.len() && starts@[k] == other;
                    if k > i {
                        assert(starts@[i] < starts@[k]);
                    }
                    assert(ends(graph@, starts@[k]));
                }
            } else {
                assert forall|pid: u32| graph@.contains_key(pid) implies ends(graph@, pid) by {
                    assert(starts@.to_set().contains(pid));
                    let k = choose|k: int| 0 <= k < starts@.len() && starts@[k] == pid;
                    assert(ends(graph@, starts@[k]));
                }
                lemma_all_end_no_cycle(graph@);
            }
        }
        cycle
    }

    /// Searches depth-first from each process of `starts`, in that order,
    /// and returns the cycle path of the first one whose edges do not come
    /// to an end; `None` where the edges of every one of them do.
    pub fn find_cycle(graph: &HashMap<u32, u32>, starts: &Vec<u32>) -> (cycle: Option<Vec<u32>>)
        ensures
            match cycle {
                Some(path) => {
                    &&& is_cycle_path(graph@, path@)
                    &&& exists|i: int|
                        {
                            &&& 0 <= i < starts@.len()
                            &&& path@[0] == #[trigger] starts@[i]
                            &&& forall|j: int| 0 <= j < i ==> ends(graph@, #[trigger] starts@[j])
                        }
                },
                None => forall|j: int|
                    0 <= j < starts@.len() ==> ends(graph@, #[trigger] starts@[j]),
            },
    {
        let mut visited: HashSet<u32> = HashSet::new();
        let mut rec_stack: HashSet<u32> = HashSet::new();
        let mut path: Vec<u32> = Vec::new();
        let n = starts.len();
        let mut i: usize = 0;
        while i < n
            invariant
                i <= n,
                n == starts@.len(),
                path@.len() == 0,
                rec_stack@ == Set::<u32>::empty(),
                forall|v: u32| visited@.contains(v) ==> ends(graph@, v),
                forall|j: int| 0 <= j < i ==> ends(graph@, #[trigger] starts@[j]),
            decreases n - i,
        {
            let start = starts[i];
            let ghost seen = visited@;
            assert(path@.to_set() =~= Set::<u32>::empty());
            if Self::dfs(start, graph, &mut visited, &mut rec_stack, &mut path) {
                assert(path@[0] == starts@[i as int]);
                return Some(path);
            }
            proof {
                assert forall|v: u32| visited@.contains(v) implies ends(graph@, v) by {
                    if !seen.contains(v) {
                        lemma_first_visits_end(graph@, seen, start, v);
                    }
                }
            }
            i += 1;
        }
        None
    }

    /// One step of the search: visits `node`, the process that the last
    /// process of `path` waits for, with `rec_stack` holding the processes
    /// of `path` and `visited` every process seen so far.
    ///
    /// Returns `true` as soon as the walk meets a process of `path` again.
    /// `path` is then extended up to and including that process, and
    /// `rec_stack` and `visited` have gained the processes that `path` has
    /// gained before it.
    ///
    /// Returns `false` where the edges from `node` come to an end. `path`
    /// and `rec_stack` are then as they were, and `visited` has gained the
    /// processes on the walk from `node` before the first one that it held
    /// already.
    fn dfs(
        node: u32,
        graph: &HashMap<u32, u32>,
        visited: &mut HashSet<u32>,
        rec_stack: &mut HashSet<u32>,
        path: &mut Vec<u32>,
    ) -> (found: bool)
        requires
            is_chain(graph@, old(path)@),
            old(path)@.no_duplicates(),
            old(rec_stack)@ == old(path)@.to_set(),
            old(path)@.len() > 0 ==> graph@.contains_key(old(path)@.last()),
            old(path)@.len() > 0 ==> graph@[old(path)@.last()] == node,
            forall|v: u32|
                old(visited)@.contains(v) && !old(rec_stack)@.contains(v) ==> ends(graph@, v),
        ensures
            found ==> {
                &&& is_cycle_path(graph@, final(path)@)
                &&& final(path)@.len() > old(path)@.len()
                &&& final(path)@.subrange(0, old(path)@.len() as int) == old(path)@
                &&& final(path)@[old(path)@.len() as int] == node
                &&& final(rec_stack)@ == final(path)@.drop_last().to_set()
                &&& final(visited)@ == old(visited)@.union(
                    final(path)@.subrange(
                        old(path)@.len() as int,
                        final(path)@.len() - 1,
                    ).to_set(),
                )
            },
            !found ==> {
                &&& final(path)@ == old(path)@
                &&& final(rec_stack)@ == old(rec_stack)@
                &&& final(visited)@ == old(visited)@.union(
                    first_visits(graph@, old(visited)@, node),
                )
                &&& ends(graph@, node)
            },
        decreases graph@.dom().difference(old(visited)@).len(),
    {
        broadcast use group_hash_axioms;

        let ghost walked = path@;
        let ghost seen = visited@;
        if rec_stack.contains(&node) {
            path.push(node);
            proof {
                assert(path@.drop_last() =~= walked);
                assert(path@.subrange(0, walked.len() as int) =~= walked);
                assert(walked.contains(node));
                assert forall|i: int| 0 <= i < path@.len() - 1 implies graph@.contains_key(
                    #[trigger] path@[i],
                ) && graph@[path@[i]] == path@[i + 1] by {
                    if i < walked.len() - 1 {
                        assert(graph@.contains_key(walked[i]) && graph@[walked[i]] == walked[i
                            + 1]);
                    }
                }
                let gained = path@.subrange(walked.len() as int, path@.len() - 1);
                assert(gained.len() == 0);
                assert(visited@ =~= seen.union(gained.to_set()));
            }
            return true;
        }
        if visited.contains(&node) {
            proof {
                lemma_first_visits_step(graph@, seen, node);
                assert(visited@ =~= seen.union(first_visits(graph@, seen, node)));
            }
            return false;
        }
        visited.insert(node);
        rec_stack.insert(node);
        path.push(node);
        proof {
            lemma_insert_contains(walked, walked.len() as int, node);
            assert(walked.insert(walked.len() as int, node) =~= path@);
            assert(rec_stack@ =~= path@.to_set());
            assert forall|i: int| 0 <= i < path@.len() - 1 implies graph@.contains_key(
                #[trigger] path@[i],
            ) && graph@[path@[i]] == path@[i + 1] by {
                if i < walked.len() - 1 {
                    assert(graph@.contains_key(walked[i]) && graph@[walked[i]] == walked[i + 1]);
                }
            }
            assert forall|i: int, j: int| 0 <= i < j < path@.len() implies path@[i] != path@[j] by {
                if j == walked.len() {
                    assert(walked.contains(walked[i]));
                } else {
                    assert(walked[i] != walked[j]);
                }
            }
            lemma_first_visits_step(graph@, seen, node);
        }
        match graph.get(&node) {
            Some(next) => {
                let next = *next;
                proof {
                    let open = graph@.dom().difference(seen);
                    assert(open.contains(node));
                    assert(graph@.dom().difference(seen.insert(node)) =~= open.remove(node));
                }
                if Self::dfs(next, graph, visited, rec_stack, path) {
                    proof {
                        let from = walked.len() as int;
                        let last = path@.len() - 1;
                        assert(path@.subrange(0, from) =~= path@.subrange(0, from + 1).subrange(
                            0,
                            from,
                        ));
                        assert(path@.subrange(0, from) =~= walked);
                        assert(path@[from] == path@.subrange(0, from + 1)[from]);
                        let gained = path@.subrange(from, last);
                        let deeper = path@.subrange(from + 1, last);
                        assert(gained =~= deeper.insert(0, node));
                        lemma_insert_contains(deeper, 0, node);
                        assert forall|v: u32|
                            visited@.contains(v) <==> seen.contains(v) || gained.contains(v) by {
                            assert(gained.contains(v) <==> deeper.contains(v) || v == node);
                            assert(deeper.to_set().contains(v) <==> deeper.contains(v));
                        }
                        assert(visited@ =~= seen.union(gained.to_set()));
                    }
                    return true;
                }
                proof {
                    let steps = choose|steps: nat| after(graph@, next, steps) is None;
                    assert(after(graph@, node, steps + 1) is None);
                    lemma_first_visits_past(graph@, seen, node);
                }
            },
            None => {
                assert(after(graph@, node, 1) is None);
            },
        }
        rec_stack.remove(&node);
        path.pop();
        proof {
            assert(path@ =~= walked);
            assert(rec_stack@ =~= old(rec_stack)@);
            assert(visited@ =~= seen.union(first_visits(graph@, seen, node)));
        }
        false
    }
}

} // verus!
