use crate::graph::find_node;
use crate::graph::node_at;
use crate::graph::BindingBehavior;
use crate::graph::Node;
use vstd::prelude::*;

verus! {

/// Whether input `i` of the node at `c` is bound to the node at `p`: its
/// binding names the identifier for which `p` is the first position.
pub open spec fn binds(nodes: Seq<Node>, c: int, i: int, p: int) -> bool {
    &&& 0 <= c < nodes.len()
    &&& 0 <= i < nodes[c].inputs@.len()
    &&& nodes[c].inputs@[i].binding is Some
    &&& node_at(nodes, nodes[c].inputs@[i].binding->0.output_node_id, p)
}

/// Whether input `i` of the node at `c` counts: every bound input does, and
/// with `always` only those whose binding asks for a value every cycle.
pub open spec fn counts(nodes: Seq<Node>, always: bool, c: int, i: int) -> bool {
    always ==> nodes[c].inputs@[i].binding->0.behavior == BindingBehavior::Always
}

/// Whether the node at `c` consumes an output of the node at `p`; with
/// `always`, through a binding that asks for a value every cycle.
pub open spec fn edge(nodes: Seq<Node>, always: bool, c: int, p: int) -> bool {
    exists|i: int| #[trigger] binds(nodes, c, i, p) && counts(nodes, always, c, i)
}

/// Whether `path` leads from consumer to producer along the bindings of
/// `nodes`; with `always`, along those that ask for a value every cycle.
pub open spec fn is_path(nodes: Seq<Node>, always: bool, path: Seq<int>) -> bool {
    &&& path.len() > 0
    &&& forall|k: int| 0 <= k < path.len() ==> 0 <= #[trigger] path[k] < nodes.len()
    &&& forall|k: int|
        0 <= k < path.len() - 1 ==> edge(nodes, always, #[trigger] path[k], path[k + 1])
}

/// Whether a path leads from a sink to the node at `k`.
pub open spec fn reached(nodes: Seq<Node>, always: bool, k: int) -> bool {
    exists|path: Seq<int>|
        #[trigger] is_path(nodes, always, path) && nodes[path[0]].is_output && path.last() == k
}

/// Whether `node` has a required input that nothing is bound to.
pub open spec fn lacks_input(node: Node) -> bool {
    exists|i: int|
        0 <= i < node.inputs@.len() && (#[trigger] node.inputs@[i]).is_required
            && node.inputs@[i].binding is None
}

/// Whether the node at `k`, or a node that it consumes directly or through
/// others, has a required input that nothing is bound to.
pub open spec fn starved(nodes: Seq<Node>, k: int) -> bool {
    exists|path: Seq<int>|
        #[trigger] is_path(nodes, false, path) && path[0] == k && lacks_input(nodes[path.last()])
}

/// Whether `path` is a cycle: a path of two or more nodes that ends where
/// it began. A node that consumes itself makes the shortest one.
pub open spec fn is_loop(nodes: Seq<Node>, path: Seq<int>) -> bool {
    &&& is_path(nodes, false, path)
    &&& path.len() >= 2
    &&& path[0] == path.last()
}

/// Whether the bindings of `nodes` form no cycle.
pub open spec fn acyclic(nodes: Seq<Node>) -> bool {
    !exists|path: Seq<int>| is_loop(nodes, path)
}

/// Whether `rank` gives every producer a lower number than its consumers.
pub open spec fn ranked(nodes: Seq<Node>, rank: Seq<nat>) -> bool {
    &&& rank.len() == nodes.len()
    &&& forall|c: int, p: int| #[trigger] edge(nodes, false, c, p) ==> rank[p] < rank[c]
}

/// Whether `k` occurs in `order`.
pub open spec fn listed(order: Seq<usize>, k: int) -> bool {
    exists|q: int| 0 <= q < order.len() && #[trigger] order[q] == k
}

/// Whether `k` occurs in `order` before position `pos`.
pub open spec fn listed_before(order: Seq<usize>, pos: int, k: int) -> bool {
    exists|q: int| 0 <= q < pos && q < order.len() && #[trigger] order[q] == k
}

/// Whether every node of `order` stands behind the nodes that it consumes.
pub open spec fn producers_first(nodes: Seq<Node>, order: Seq<usize>) -> bool {
    forall|pos: int, p: int|
        0 <= pos < order.len() && #[trigger] edge(nodes, false, order[pos] as int, p)
            ==> listed_before(order, pos, p)
}

/// Whether every node that a node of `members` consumes is in `members`.
pub open spec fn closed_under_edges(nodes: Seq<Node>, always: bool, members: Seq<usize>) -> bool {
    forall|m: int, p: int|
        listed(members, m) && #[trigger] edge(nodes, always, m, p) ==> listed(members, p)
}

/// Whether `list` names positions of `nodes`, each at most once.
pub open spec fn distinct_positions(nodes: Seq<Node>, list: Seq<usize>) -> bool {
    &&& list.no_duplicates()
    &&& forall|q: int| 0 <= q < list.len() ==> (#[trigger] list[q]) < nodes.len()
}

/// An edge ends at a position of `nodes`, and is an edge without `always` too.
pub proof fn lemma_edge_in_range(nodes: Seq<Node>, always: bool, c: int, p: int)
    requires
        edge(nodes, always, c, p),
    ensures
        0 <= c < nodes.len(),
        0 <= p < nodes.len(),
        edge(nodes, false, c, p),
{
    let i = choose|i: int| #[trigger] binds(nodes, c, i, p) && counts(nodes, always, c, i);
    assert(binds(nodes, c, i, p) && counts(nodes, false, c, i));
}

/// A path that asks for a value every cycle is a path.
pub proof fn lemma_path_weaken(nodes: Seq<Node>, path: Seq<int>)
    requires
        is_path(nodes, true, path),
    ensures
        is_path(nodes, false, path),
{
    assert forall|k: int| 0 <= k < path.len() - 1 implies edge(
        nodes,
        false,
        #[trigger] path[k],
        path[k + 1],
    ) by {
        lemma_edge_in_range(nodes, true, path[k], path[k + 1]);
    }
}

/// What a sink reaches through bindings that ask for a value every cycle, it
/// reaches.
pub proof fn lemma_reached_weaken(nodes: Seq<Node>, k: int)
    requires
        reached(nodes, true, k),
    ensures
        reached(nodes, false, k),
{
    let path = choose|path: Seq<int>|
        #[trigger] is_path(nodes, true, path) && nodes[path[0]].is_output && path.last() == k;
    lemma_path_weaken(nodes, path);
}

/// A sink is reached.
pub proof fn lemma_reached_sink(nodes: Seq<Node>, always: bool, k: int)
    requires
        0 <= k < nodes.len(),
        nodes[k].is_output,
    ensures
        reached(nodes, always, k),
{
    let path = seq![k];
    assert(is_path(nodes, always, path));
    assert(path.last() == k);
}

/// What a reached node consumes is reached.
pub proof fn lemma_reached_step(nodes: Seq<Node>, always: bool, c: int, p: int)
    requires
        reached(nodes, always, c),
        edge(nodes, always, c, p),
    ensures
        reached(nodes, always, p),
{
    let path = choose|path: Seq<int>|
        #[trigger] is_path(nodes, always, path) && nodes[path[0]].is_output && path.last() == c;
    let longer = path.push(p);
    lemma_edge_in_range(nodes, always, c, p);
    assert forall|k: int| 0 <= k < longer.len() - 1 implies edge(
        nodes,
        always,
        #[trigger] longer[k],
        longer[k + 1],
    ) by {
        if k < path.len() - 1 {
            assert(longer[k] == path[k]);
            assert(longer[k + 1] == path[k + 1]);
        }
    }
    assert forall|k: int| 0 <= k < longer.len() implies 0 <= #[trigger] longer[k] < nodes.len() by {
        if k < path.len() {
            assert(longer[k] == path[k]);
        }
    }
    assert(is_path(nodes, always, longer));
    assert(longer[0] == path[0]);
    assert(longer.last() == p);
}

/// A reached node is a sink or is consumed by a reached node.
pub proof fn lemma_reached_cases(nodes: Seq<Node>, always: bool, k: int)
    requires
        reached(nodes, always, k),
    ensures
        0 <= k < nodes.len(),
        nodes[k].is_output || exists|c: int| reached(nodes, always, c) && #[trigger] edge(
            nodes,
            always,
            c,
            k,
        ),
{
    let path = choose|path: Seq<int>|
        #[trigger] is_path(nodes, always, path) && nodes[path[0]].is_output && path.last() == k;
    assert(path[path.len() - 1] == k);
    if path.len() > 1 {
        let shorter = path.drop_last();
        let c = shorter.last();
        assert forall|j: int| 0 <= j < shorter.len() - 1 implies edge(
            nodes,
            always,
            #[trigger] shorter[j],
            shorter[j + 1],
        ) by {
            assert(shorter[j] == path[j]);
            assert(shorter[j + 1] == path[j + 1]);
        }
        assert forall|j: int| 0 <= j < shorter.len() implies 0 <= #[trigger] shorter[j]
            < nodes.len() by {
            assert(shorter[j] == path[j]);
        }
        assert(is_path(nodes, always, shorter));
        assert(shorter[0] == path[0]);
        assert(reached(nodes, always, c));
        assert(c == path[path.len() - 2]);
        assert(edge(nodes, always, path[path.len() - 2], path[path.len() - 2 + 1]));
    }
}

/// A set of nodes that holds every sink and is closed under the bindings
/// holds every reached node.
pub proof fn lemma_closed_holds_reached(
    nodes: Seq<Node>,
    always: bool,
    members: Seq<usize>,
    k: int,
)
    requires
        forall|s: int| 0 <= s < nodes.len() && (#[trigger] nodes[s]).is_output ==> listed(members, s),
        closed_under_edges(nodes, always, members),
        reached(nodes, always, k),
    ensures
        listed(members, k),
{
    let path = choose|path: Seq<int>|
        #[trigger] is_path(nodes, always, path) && nodes[path[0]].is_output && path.last() == k;
    lemma_path_listed(nodes, always, members, path, path.len() - 1);
}

proof fn lemma_path_listed(
    nodes: Seq<Node>,
    always: bool,
    members: Seq<usize>,
    path: Seq<int>,
    upto: int,
)
    requires
        forall|s: int| 0 <= s < nodes.len() && (#[trigger] nodes[s]).is_output ==> listed(members, s),
        closed_under_edges(nodes, always, members),
        is_path(nodes, always, path),
        nodes[path[0]].is_output,
        0 <= upto < path.len(),
    ensures
        listed(members, path[upto]),
    decreases upto,
{
    if upto == 0 {
        assert(0 <= path[0] < nodes.len());
    } else {
        lemma_path_listed(nodes, always, members, path, upto - 1);
        assert(edge(nodes, always, path[upto - 1], path[upto - 1 + 1]));
    }
}

/// A node is starved exactly when it lacks a required input itself or
/// consumes a starved node.
pub proof fn lemma_starved_unfold(nodes: Seq<Node>, k: int)
    requires
        0 <= k < nodes.len(),
    ensures
        starved(nodes, k) <==> (lacks_input(nodes[k]) || exists|p: int| #[trigger]
            edge(nodes, false, k, p) && starved(nodes, p)),
{
    if starved(nodes, k) {
        let path = choose|path: Seq<int>|
            #[trigger] is_path(nodes, false, path) && path[0] == k && lacks_input(
                nodes[path.last()],
            );
        if path.len() > 1 {
            let rest = path.drop_first();
            assert forall|j: int| 0 <= j < rest.len() - 1 implies edge(
                nodes,
                false,
                #[trigger] rest[j],
                rest[j + 1],
            ) by {
                assert(rest[j] == path[j + 1]);
                assert(rest[j + 1] == path[j + 1 + 1]);
                assert(edge(nodes, false, path[j + 1], path[j + 1 + 1]));
            }
            assert forall|j: int| 0 <= j < rest.len() implies 0 <= #[trigger] rest[j]
                < nodes.len() by {
                assert(rest[j] == path[j + 1]);
            }
            assert(is_path(nodes, false, rest));
            assert(rest.last() == path.last());
            assert(rest[0] == path[1]);
            assert(starved(nodes, path[1]));
            assert(edge(nodes, false, path[0], path[0int + 1]));
        } else {
            assert(path.last() == path[0]);
        }
    }
    if lacks_input(nodes[k]) {
        let path = seq![k];
        assert(is_path(nodes, false, path));
        assert(path.last() == k);
    }
    if exists|p: int| #[trigger] edge(nodes, false, k, p) && starved(nodes, p) {
        let p = choose|p: int| #[trigger] edge(nodes, false, k, p) && starved(nodes, p);
        lemma_starved_step(nodes, k, p);
    }
}

/// Who consumes a starved node is starved.
pub proof fn lemma_starved_step(nodes: Seq<Node>, c: int, p: int)
    requires
        edge(nodes, false, c, p),
        starved(nodes, p),
    ensures
        starved(nodes, c),
{
    let path = choose|path: Seq<int>|
        #[trigger] is_path(nodes, false, path) && path[0] == p && lacks_input(nodes[path.last()]);
    let longer = seq![c] + path;
    lemma_edge_in_range(nodes, false, c, p);
    assert forall|j: int| 0 <= j < longer.len() - 1 implies edge(
        nodes,
        false,
        #[trigger] longer[j],
        longer[j + 1],
    ) by {
        if j > 0 {
            assert(longer[j] == path[j - 1]);
            assert(longer[j + 1] == path[j - 1 + 1]);
            assert(edge(nodes, false, path[j - 1], path[j - 1 + 1]));
        } else {
            assert(longer[1] == path[0]);
        }
    }
    assert forall|j: int| 0 <= j < longer.len() implies 0 <= #[trigger] longer[j] < nodes.len() by {
        if j > 0 {
            assert(longer[j] == path[j - 1]);
        }
    }
    assert(is_path(nodes, false, longer));
    assert(longer.last() == path.last());
    assert(longer[0] == c);
}

/// Who consumes a starved node through any number of bindings is starved.
pub proof fn lemma_starved_upstream(nodes: Seq<Node>, path: Seq<int>)
    requires
        is_path(nodes, false, path),
        starved(nodes, path.last()),
    ensures
        starved(nodes, path[0]),
    decreases path.len(),
{
    if path.len() > 1 {
        let rest = path.drop_first();
        assert forall|j: int| 0 <= j < rest.len() - 1 implies edge(
            nodes,
            false,
            #[trigger] rest[j],
            rest[j + 1],
        ) by {
            assert(rest[j] == path[j + 1]);
            assert(rest[j + 1] == path[j + 1 + 1]);
            assert(edge(nodes, false, path[j + 1], path[j + 1 + 1]));
        }
        assert forall|j: int| 0 <= j < rest.len() implies 0 <= #[trigger] rest[j] < nodes.len() by {
            assert(rest[j] == path[j + 1]);
        }
        assert(rest.last() == path.last());
        lemma_starved_upstream(nodes, rest);
        assert(rest[0] == path[1]);
        assert(edge(nodes, false, path[0], path[0int + 1]));
        lemma_starved_step(nodes, path[0], path[1]);
    } else {
        assert(path.last() == path[0]);
    }
}

/// Where the nodes can be numbered so that every producer has a lower
/// number than its consumers, the bindings form no cycle: along a path the
/// number falls.
pub proof fn lemma_ranked_is_acyclic(nodes: Seq<Node>, rank: Seq<nat>)
    requires
        ranked(nodes, rank),
    ensures
        acyclic(nodes),
{
    if exists|path: Seq<int>| is_loop(nodes, path) {
        let path = choose|path: Seq<int>| is_loop(nodes, path);
        lemma_rank_falls(nodes, rank, path, path.len() - 1);
    }
}

proof fn lemma_rank_falls(nodes: Seq<Node>, rank: Seq<nat>, path: Seq<int>, upto: int)
    requires
        ranked(nodes, rank),
        is_path(nodes, false, path),
        1 <= upto < path.len(),
    ensures
        rank[path[upto]] < rank[path[0]],
    decreases upto,
{
    assert(edge(nodes, false, path[upto - 1], path[upto - 1 + 1]));
    if upto > 1 {
        lemma_rank_falls(nodes, rank, path, upto - 1);
    }
}

/// A list of distinct numbers below `bound`, none negative, has at most
/// `bound` elements.
pub proof fn lemma_distinct_numbers_bounded(list: Seq<int>, bound: nat)
    requires
        list.no_duplicates(),
        forall|q: int| 0 <= q < list.len() ==> 0 <= #[trigger] list[q] < bound,
    ensures
        list.len() <= bound,
    decreases bound,
{
    if bound == 0 {
        if list.len() > 0 {
            assert(list[0] < bound);
        }
    } else {
        let top = bound - 1;
        if exists|q: int| 0 <= q < list.len() && #[trigger] list[q] == top {
            let q = choose|q: int| 0 <= q < list.len() && #[trigger] list[q] == top;
            let rest = list.remove(q);
            assert forall|a: int| 0 <= a < rest.len() implies 0 <= #[trigger] rest[a] < top by {
                if a < q {
                    assert(rest[a] == list[a]);
                } else {
                    assert(rest[a] == list[a + 1]);
                }
            }
            assert forall|a: int, b: int|
                0 <= a < rest.len() && 0 <= b < rest.len() && a != b implies rest[a] != rest[b] by {
                let a2 = if a < q {
                    a
                } else {
                    a + 1
                };
                let b2 = if b < q {
                    b
                } else {
                    b + 1
                };
                assert(rest[a] == list[a2]);
                assert(rest[b] == list[b2]);
            }
            lemma_distinct_numbers_bounded(rest, top as nat);
        } else {
            lemma_distinct_numbers_bounded(list, top as nat);
        }
    }
}

/// A list of distinct positions is no longer than the sequence it points into.
pub proof fn lemma_distinct_bounded(list: Seq<usize>, bound: nat)
    requires
        list.no_duplicates(),
        forall|q: int| 0 <= q < list.len() ==> (#[trigger] list[q]) < bound,
    ensures
        list.len() <= bound,
{
    let numbers = Seq::new(list.len(), |q: int| list[q] as int);
    assert forall|a: int, b: int|
        0 <= a < numbers.len() && 0 <= b < numbers.len() && a != b implies numbers[a]
        != numbers[b] by {
        assert(list[a] != list[b]);
    }
    lemma_distinct_numbers_bounded(numbers, bound);
}

/// A path of more nodes than there are holds a cycle: some node occurs in it
/// twice, and what lies between is a cycle.
pub proof fn lemma_long_path_loops(nodes: Seq<Node>, path: Seq<int>)
    requires
        is_path(nodes, false, path),
        path.len() > nodes.len(),
    ensures
        !acyclic(nodes),
{
    if path.no_duplicates() {
        lemma_distinct_numbers_bounded(path, nodes.len());
    }
    let (i, j) = choose|i: int, j: int|
        0 <= i < path.len() && 0 <= j < path.len() && i != j && path[i] == path[j];
    let from = if i < j {
        i
    } else {
        j
    };
    let to = if i < j {
        j
    } else {
        i
    };
    let piece = path.subrange(from, to + 1);
    assert forall|k: int| 0 <= k < piece.len() implies 0 <= #[trigger] piece[k] < nodes.len() by {
        assert(piece[k] == path[from + k]);
    }
    assert forall|k: int| 0 <= k < piece.len() - 1 implies edge(
        nodes,
        false,
        #[trigger] piece[k],
        piece[k + 1],
    ) by {
        assert(piece[k] == path[from + k]);
        assert(piece[k + 1] == path[from + k + 1]);
        assert(edge(nodes, false, path[from + k], path[from + k + 1]));
    }
    assert(piece[0] == path[from]);
    assert(piece.last() == path[to]);
    assert(is_loop(nodes, piece));
}

/// Of two lists of distinct elements the longer holds an element that the
/// shorter lacks.
pub proof fn lemma_some_left(order: Seq<usize>, members: Seq<usize>)
    requires
        order.no_duplicates(),
        members.no_duplicates(),
        order.len() < members.len(),
    ensures
        exists|j: int| 0 <= j < members.len() && !listed(order, #[trigger] members[j] as int),
    decreases order.len(),
{
    if order.len() == 0 {
        assert(!listed(order, members[0] as int));
    } else {
        let last = order.last();
        let fewer = order.drop_last();
        if exists|j: int| 0 <= j < members.len() && #[trigger] members[j] == last {
            let j = choose|j: int| 0 <= j < members.len() && #[trigger] members[j] == last;
            let rest = members.remove(j);
            assert forall|a: int, b: int| 0 <= a < rest.len() && 0 <= b < rest.len() && a != b implies rest[a] != rest[b] by {
                let a2 = if a < j { a } else { a + 1 };
                let b2 = if b < j { b } else { b + 1 };
                assert(rest[a] == members[a2]);
                assert(rest[b] == members[b2]);
            }
            lemma_some_left(fewer, rest);
            let r = choose|r: int| 0 <= r < rest.len() && !listed(fewer, #[trigger] rest[r] as int);
            let r2 = if r < j { r } else { r + 1 };
            assert(rest[r] == members[r2]);
            assert(members[r2] != last);
            if listed(order, members[r2] as int) {
                let q = choose|q: int| 0 <= q < order.len() && #[trigger] order[q] == members[r2];
                assert(fewer[q] == order[q]);
                assert(listed(fewer, members[r2] as int));
            }
        } else {
            lemma_some_left(fewer, members);
            let r = choose|r: int|
                0 <= r < members.len() && !listed(fewer, #[trigger] members[r] as int);
            if listed(order, members[r] as int) {
                let q = choose|q: int| 0 <= q < order.len() && #[trigger] order[q] == members[r];
                if q < fewer.len() {
                    assert(fewer[q] == order[q]);
                    assert(listed(fewer, members[r] as int));
                }
            }
        }
    }
}

/// Whether every node that the node at `m` consumes is marked in `placed`.
pub open spec fn ready_at(nodes: Seq<Node>, placed: Seq<bool>, m: int) -> bool {
    forall|p: int| #[trigger] edge(nodes, false, m, p) ==> placed[p]
}

/// Whether every node that the node at `m` consumes is marked in `placed`.
fn ready(nodes: &Vec<Node>, placed: &Vec<bool>, m: usize) -> (is_ready: bool)
    requires
        m < nodes@.len(),
        placed@.len() == nodes@.len(),
    ensures
        is_ready == ready_at(nodes@, placed@, m as int),
{
    let node = &nodes[m];
    let mut i: usize = 0;
    while i < node.inputs.len()
        invariant
            i <= node.inputs@.len(),
            m < nodes@.len(),
            *node == nodes@[m as int],
            placed@.len() == nodes@.len(),
            forall|j: int, p: int| 0 <= j < i && #[trigger] binds(nodes@, m as int, j, p) ==> placed@[p],
        decreases node.inputs@.len() - i,
    {
        match node.inputs[i].binding {
            Some(binding) => {
                match find_node(nodes, binding.output_node_id) {
                    Some(p) => {
                        if !placed[p] {
                            proof {
                                assert(binds(nodes@, m as int, i as int, p as int));
                                assert(counts(nodes@, false, m as int, i as int));
                                assert(edge(nodes@, false, m as int, p as int));
                            }
                            return false;
                        }
                        proof {
                            assert forall|q: int| #[trigger]
                                binds(nodes@, m as int, i as int, q) implies placed@[q] by {
                                crate::graph::lemma_node_index(nodes@, binding.output_node_id, q);
                            }
                        }
                    },
                    None => {
                        proof {
                            assert forall|q: int| #[trigger]
                                binds(nodes@, m as int, i as int, q) implies placed@[q] by {
                                crate::graph::lemma_node_index(nodes@, binding.output_node_id, q);
                            }
                        }
                    },
                }
            },
            None => {},
        }
        i += 1;
    }
    proof {
        assert forall|p: int| #[trigger] edge(nodes@, false, m as int, p) implies placed@[p] by {
            let j = choose|j: int| #[trigger]
                binds(nodes@, m as int, j, p) && counts(nodes@, false, m as int, j);
            assert(binds(nodes@, m as int, j, p));
        }
    }
    true
}

/// Whether `order` holds the elements of `members` and no others.
pub open spec fn same_members(order: Seq<usize>, members: Seq<usize>) -> bool {
    forall|k: int| listed(order, k) <==> listed(members, k)
}

/// Whether the node at `m` can go to position `pos` of `order`: every node
/// that it consumes stands before that position.
pub open spec fn can_go(nodes: Seq<Node>, order: Seq<usize>, pos: int, m: int) -> bool {
    forall|p: int| #[trigger] edge(nodes, false, m, p) ==> listed_before(order, pos, p)
}

/// Whether member `a` of `members` can be put at the end of `order`: it is
/// not in `order` yet, and every node that it consumes is.
pub open spec fn pickable(nodes: Seq<Node>, members: Seq<usize>, order: Seq<usize>, a: int) -> bool {
    &&& 0 <= a < members.len()
    &&& !listed(order, members[a] as int)
    &&& can_go(nodes, order, order.len() as int, members[a] as int)
}

/// Whether member `a` is the first of `members` that can be put at the end
/// of `order`.
pub open spec fn first_pick(nodes: Seq<Node>, members: Seq<usize>, order: Seq<usize>, a: int) -> bool {
    &&& pickable(nodes, members, order, a)
    &&& forall|b: int| 0 <= b < a ==> !#[trigger] pickable(nodes, members, order, b)
}

/// The first of `members` that can be put at the end of `order`; meaningful
/// where there is one.
pub open spec fn next_pick(nodes: Seq<Node>, members: Seq<usize>, order: Seq<usize>) -> int {
    choose|a: int| first_pick(nodes, members, order, a)
}

/// The arrangement of `members` after `steps` steps, each of which puts the
/// first member that can go next at the end.
pub open spec fn greedy(nodes: Seq<Node>, members: Seq<usize>, steps: nat) -> Seq<usize>
    decreases steps,
{
    if steps == 0 {
        Seq::empty()
    } else {
        let order = greedy(nodes, members, (steps - 1) as nat);
        order.push(members[next_pick(nodes, members, order)])
    }
}

/// The member that the search for the next node stops at is the first that
/// can go next.
proof fn lemma_pick(
    nodes: Seq<Node>,
    members: Seq<usize>,
    order: Seq<usize>,
    placed: Seq<bool>,
    j: int,
)
    requires
        placed.len() == nodes.len(),
        0 <= j < members.len(),
        forall|k: int| 0 <= k < nodes.len() ==> (#[trigger] placed[k] <==> listed(order, k)),
        forall|q: int| 0 <= q < members.len() ==> (#[trigger] members[q]) < nodes.len(),
        !placed[members[j] as int],
        ready_at(nodes, placed, members[j] as int),
        forall|a: int|
            0 <= a < j ==> placed[#[trigger] members[a] as int] || !ready_at(
                nodes,
                placed,
                members[a] as int,
            ),
    ensures
        next_pick(nodes, members, order) == j,
{
    let end = order.len() as int;
    assert forall|p: int| #[trigger] edge(nodes, false, members[j] as int, p) implies listed_before(
        order,
        end,
        p,
    ) by {
        lemma_edge_in_range(nodes, false, members[j] as int, p);
        assert(placed[p]);
        let q = choose|q: int| 0 <= q < order.len() && #[trigger] order[q] == p;
        assert(order[q] == p);
    }
    assert(pickable(nodes, members, order, j));
    assert forall|b: int| 0 <= b < j implies !#[trigger] pickable(nodes, members, order, b) by {
        let m = members[b] as int;
        if !placed[m] {
            assert(!ready_at(nodes, placed, m));
            let p = choose|p: int| #[trigger] edge(nodes, false, m, p) && !placed[p];
            lemma_edge_in_range(nodes, false, m, p);
            if listed_before(order, end, p) {
                let q = choose|q: int| 0 <= q < end && q < order.len() && #[trigger] order[q] == p;
                assert(listed(order, p));
            }
        }
    }
    assert(first_pick(nodes, members, order, j));
    let chosen = next_pick(nodes, members, order);
    assert(first_pick(nodes, members, order, chosen));
    if chosen < j {
        assert(!pickable(nodes, members, order, chosen));
    } else if j < chosen {
        assert(!pickable(nodes, members, order, j));
    }
}

/// Arranges `members` so that every node stands behind the nodes that it
/// consumes, taking at each step the first member that can go next.
/// There is such an arrangement unless the bindings form a cycle.
pub fn arrange(nodes: &Vec<Node>, members: &Vec<usize>) -> (arranged: Option<Vec<usize>>)
    requires
        distinct_positions(nodes@, members@),
        closed_under_edges(nodes@, false, members@),
    ensures
        match arranged {
            Some(order) => {
                &&& distinct_positions(nodes@, order@)
                &&& order@.len() == members@.len()
                &&& same_members(order@, members@)
                &&& producers_first(nodes@, order@)
                &&& order@ == greedy(nodes@, members@, members@.len())
            },
            None => !acyclic(nodes@),
        },
        acyclic(nodes@) ==> arranged is Some,
{
    let n = nodes.len();
    let mut placed: Vec<bool> = Vec::new();
    let mut k: usize = 0;
    while k < n
        invariant
            k <= n,
            n == nodes@.len(),
            placed@.len() == k,
            forall|j: int| 0 <= j < k ==> !placed@[j],
        decreases n - k,
    {
        placed.push(false);
        k += 1;
    }
    let mut order: Vec<usize> = Vec::new();
    while order.len() < members.len()
        invariant
            n == nodes@.len(),
            placed@.len() == n,
            distinct_positions(nodes@, members@),
            closed_under_edges(nodes@, false, members@),
            distinct_positions(nodes@, order@),
            order@.len() <= members@.len(),
            forall|j: int| 0 <= j < n ==> (#[trigger] placed@[j] <==> listed(order@, j)),
            forall|j: int| listed(order@, j) ==> listed(members@, j),
            producers_first(nodes@, order@),
            order@ == greedy(nodes@, members@, order@.len()),
        decreases members@.len() - order@.len(),
    {
        let mut j: usize = 0;
        while j < members.len()
            invariant
                j <= members@.len(),
                n == nodes@.len(),
                placed@.len() == n,
                distinct_positions(nodes@, members@),
                forall|a: int|
                    0 <= a < j ==> placed@[#[trigger] members@[a] as int] || !ready_at(
                        nodes@,
                        placed@,
                        members@[a] as int,
                    ),
            ensures
                j <= members@.len(),
                j < members@.len() ==> !placed@[members@[j as int] as int] && ready_at(
                    nodes@,
                    placed@,
                    members@[j as int] as int,
                ),
                j == members@.len() ==> forall|a: int|
                    0 <= a < j ==> placed@[#[trigger] members@[a] as int] || !ready_at(
                        nodes@,
                        placed@,
                        members@[a] as int,
                    ),
            decreases members@.len() - j,
        {
            let m = members[j];
            if !placed[m] && ready(nodes, &placed, m) {
                break;
            }
            j += 1;
        }
        if j == members.len() {
            proof {
                lemma_some_left(order@, members@);
                let a = choose|a: int|
                    0 <= a < members@.len() && !listed(order@, #[trigger] members@[a] as int);
                let u = members@[a] as int;
                assert(!placed@[u]);
                let walk = lemma_stuck_walk(
                    nodes@,
                    placed@,
                    members@,
                    u,
                    (nodes@.len() + 1) as nat,
                );
                lemma_long_path_loops(nodes@, walk);
            }
            return None;
        }
        let m = members[j];
        let ghost before = order@;
        let ghost marks = placed@;
        proof {
            lemma_pick(nodes@, members@, before, marks, j as int);
        }
        order.push(m);
        placed.set(m, true);
        proof {
            assert(!listed(before, m as int));
            assert forall|a: int, b: int|
                0 <= a < order@.len() && 0 <= b < order@.len() && a != b implies order@[a]
                != order@[b] by {
                if a < before.len() && b < before.len() {
                    assert(before[a] != before[b]);
                } else if a < before.len() {
                    assert(before[a] == order@[a]);
                } else if b < before.len() {
                    assert(before[b] == order@[b]);
                }
            }
            assert forall|q: int| 0 <= q < order@.len() implies (#[trigger] order@[q])
                < nodes@.len() by {
                if q < before.len() {
                    assert(order@[q] == before[q]);
                }
            }
            assert forall|k: int| 0 <= k < n implies (#[trigger] placed@[k] <==> listed(order@, k)) by {
                if k == m {
                    assert(order@[before.len() as int] == m);
                } else {
                    assert(placed@[k] == marks[k]);
                    if listed(before, k) {
                        let q = choose|q: int| 0 <= q < before.len() && #[trigger] before[q] == k;
                        assert(order@[q] == k);
                    }
                    if listed(order@, k) {
                        let q = choose|q: int| 0 <= q < order@.len() && #[trigger] order@[q] == k;
                        assert(before[q] == k);
                    }
                }
            }
            assert forall|k: int| listed(order@, k) implies listed(members@, k) by {
                let q = choose|q: int| 0 <= q < order@.len() && #[trigger] order@[q] == k;
                if q < before.len() {
                    assert(before[q] == k);
                    assert(listed(before, k));
                } else {
                    assert(members@[j as int] == k);
                }
            }
            assert forall|pos: int, p: int|
                0 <= pos < order@.len() && #[trigger] edge(
                    nodes@,
                    false,
                    order@[pos] as int,
                    p,
                ) implies listed_before(order@, pos, p) by {
                if pos < before.len() {
                    assert(order@[pos] == before[pos]);
                    assert(listed_before(before, pos, p));
                    let q = choose|q: int| 0 <= q < pos && q < before.len() && #[trigger] before[q] == p;
                    assert(order@[q] == p);
                } else {
                    lemma_edge_in_range(nodes@, false, m as int, p);
                    assert(marks[p]);
                    assert(listed(before, p));
                    let q = choose|q: int| 0 <= q < before.len() && #[trigger] before[q] == p;
                    assert(order@[q] == p);
                }
            }
            lemma_distinct_bounded_by(order@, members@);
        }
    }
    proof {
        assert forall|k: int| listed(members@, k) implies listed(order@, k) by {
            if !listed(order@, k) {
                lemma_all_listed(order@, members@);
            }
        }
    }
    Some(order)
}

/// A list of distinct elements that all occur in a list of distinct elements
/// is no longer than that list.
proof fn lemma_distinct_bounded_by(order: Seq<usize>, members: Seq<usize>)
    requires
        order.no_duplicates(),
        members.no_duplicates(),
        forall|k: int| listed(order, k) ==> listed(members, k),
    ensures
        order.len() <= members.len(),
{
    if order.len() > members.len() {
        lemma_some_left(members, order);
        let j = choose|j: int| 0 <= j < order.len() && !listed(members, #[trigger] order[j] as int);
        assert(listed(order, order[j] as int));
    }
}

/// Two lists of distinct elements of one length, one within the other, hold
/// the same elements.
proof fn lemma_all_listed(order: Seq<usize>, members: Seq<usize>)
    requires
        order.no_duplicates(),
        members.no_duplicates(),
        order.len() == members.len(),
        forall|k: int| listed(order, k) ==> listed(members, k),
    ensures
        forall|k: int| listed(members, k) ==> listed(order, k),
{
    assert forall|k: int| listed(members, k) implies listed(order, k) by {
        if !listed(order, k) {
            let at = choose|q: int| 0 <= q < members.len() && #[trigger] members[q] == k;
            let rest = members.remove(at);
            assert forall|a: int, b: int|
                0 <= a < rest.len() && 0 <= b < rest.len() && a != b implies rest[a] != rest[b] by {
                let a2 = if a < at { a } else { a + 1 };
                let b2 = if b < at { b } else { b + 1 };
                assert(rest[a] == members[a2]);
                assert(rest[b] == members[b2]);
            }
            assert forall|v: int| listed(order, v) implies listed(rest, v) by {
                let q = choose|q: int| 0 <= q < members.len() && #[trigger] members[q] == v;
                assert(q != at);
                if q < at {
                    assert(rest[q] == v);
                } else {
                    assert(rest[q - 1] == v);
                }
            }
            lemma_distinct_bounded_by(order, rest);
        }
    }
}

/// Where a member of a closed list is left, and every member that is left
/// consumes a node that is left too, a path of any length leads on from it
/// among the nodes that are left.
proof fn lemma_stuck_walk(
    nodes: Seq<Node>,
    placed: Seq<bool>,
    members: Seq<usize>,
    u: int,
    length: nat,
) -> (walk: Seq<int>)
    requires
        placed.len() == nodes.len(),
        closed_under_edges(nodes, false, members),
        listed(members, u),
        0 <= u < nodes.len(),
        !placed[u],
        length >= 1,
        forall|a: int|
            0 <= a < members.len() ==> placed[#[trigger] members[a] as int] || !ready_at(
                nodes,
                placed,
                members[a] as int,
            ),
    ensures
        walk.len() == length,
        walk[0] == u,
        is_path(nodes, false, walk),
    decreases length,
{
    if length == 1 {
        let walk = seq![u];
        assert(is_path(nodes, false, walk));
        walk
    } else {
        let at = choose|q: int| 0 <= q < members.len() && #[trigger] members[q] == u;
        assert(placed[members[at] as int] || !ready_at(nodes, placed, members[at] as int));
        assert(!ready_at(nodes, placed, u));
        let p = choose|p: int| #[trigger] edge(nodes, false, u, p) && !placed[p];
        lemma_edge_in_range(nodes, false, u, p);
        let rest = lemma_stuck_walk(nodes, placed, members, p, (length - 1) as nat);
        let walk = seq![u] + rest;
        assert forall|k: int| 0 <= k < walk.len() implies 0 <= #[trigger] walk[k] < nodes.len() by {
            if k > 0 {
                assert(walk[k] == rest[k - 1]);
            }
        }
        assert forall|k: int| 0 <= k < walk.len() - 1 implies edge(
            nodes,
            false,
            #[trigger] walk[k],
            walk[k + 1],
        ) by {
            if k > 0 {
                assert(walk[k] == rest[k - 1]);
                assert(walk[k + 1] == rest[k - 1 + 1]);
                assert(edge(nodes, false, rest[k - 1], rest[k - 1 + 1]));
            } else {
                assert(walk[1] == rest[0]);
            }
        }
        walk
    }
}

/// Where an arrangement of all the nodes puts producers first, the bindings
/// form no cycle: the position in the arrangement numbers the nodes so that
/// every producer has a lower number than its consumers.
pub proof fn lemma_arranged_is_acyclic(nodes: Seq<Node>, order: Seq<usize>)
    requires
        distinct_positions(nodes, order),
        forall|k: int| 0 <= k < nodes.len() ==> listed(order, k),
        producers_first(nodes, order),
    ensures
        acyclic(nodes),
{
    let rank = Seq::new(
        nodes.len(),
        |k: int| (choose|q: int| 0 <= q < order.len() && #[trigger] order[q] == k) as nat,
    );
    assert forall|c: int, p: int| #[trigger] edge(nodes, false, c, p) implies rank[p] < rank[c] by {
        lemma_edge_in_range(nodes, false, c, p);
        assert(listed(order, c));
        assert(listed(order, p));
        let pos = choose|q: int| 0 <= q < order.len() && #[trigger] order[q] == c;
        let at = choose|q: int| 0 <= q < order.len() && #[trigger] order[q] == p;
        assert(rank[c] == pos);
        assert(rank[p] == at);
        assert(edge(nodes, false, order[pos] as int, p));
        assert(listed_before(order, pos, p));
        let q = choose|q: int| 0 <= q < pos && q < order.len() && #[trigger] order[q] == p;
        if q != at {
            assert(order[q] != order[at]);
        }
    }
    assert(ranked(nodes, rank));
    lemma_ranked_is_acyclic(nodes, rank);
}

} // verus!
