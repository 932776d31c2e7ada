//! The system scheduler: from the declared "runs before" edges it fixes, once,
//! the order in which the systems of every tick run.

use vstd::prelude::*;

verus! {

/// The systems that a tick can run.
#[derive(Clone, Copy, Debug, PartialEq, Eq, Structural)]
pub enum System {
    /// Applies the player's command to the player-controlled entities.
    HandleInput,
    /// Lets the wanderers drift.
    MoveLeft,
    /// Brings entities that left the grid back in on the opposite side.
    WrapPosition,
    /// Asks for a cleared screen.
    Cls,
    /// Recomputes the dirty viewsheds.
    UpdateViewsheds,
    /// Merges what the recalculated viewsheds hold into the map.
    RevealMap,
    /// Draws the known part of the map.
    DrawMap,
    /// Draws the entities.
    DrawThings,
    /// Highlights the cursor.
    DrawCursor,
}

/// A choice among the parts of a session's state that systems share: the
/// entities, the map, the list of drawing operations, and the quit flag.
#[derive(Clone, Copy, Debug, PartialEq, Eq, Structural)]
pub struct Access {
    pub world: bool,
    pub map: bool,
    pub screen: bool,
    pub quit: bool,
}

impl System {
    /// The parts of the state that the system declares to read.
    pub open spec fn reads(self) -> Access {
        match self {
            System::HandleInput => Access { world: true, map: true, screen: false, quit: true },
            System::MoveLeft => Access { world: true, map: false, screen: false, quit: false },
            System::WrapPosition => Access { world: true, map: true, screen: false, quit: false },
            System::Cls => Access { world: false, map: false, screen: true, quit: false },
            System::UpdateViewsheds => Access {
                world: true,
                map: true,
                screen: false,
                quit: false,
            },
            System::RevealMap => Access { world: true, map: true, screen: false, quit: false },
            System::DrawMap => Access { world: false, map: true, screen: true, quit: false },
            System::DrawThings => Access { world: true, map: false, screen: true, quit: false },
            System::DrawCursor => Access { world: true, map: true, screen: true, quit: false },
        }
    }

    /// The parts of the state that the system declares to write.
    pub open spec fn writes(self) -> Access {
        match self {
            System::HandleInput => Access { world: true, map: false, screen: false, quit: true },
            System::MoveLeft => Access { world: true, map: false, screen: false, quit: false },
            System::WrapPosition => Access { world: true, map: false, screen: false, quit: false },
            System::Cls => Access { world: false, map: false, screen: true, quit: false },
            System::UpdateViewsheds => Access {
                world: true,
                map: false,
                screen: false,
                quit: false,
            },
            System::RevealMap => Access { world: true, map: true, screen: false, quit: false },
            System::DrawMap => Access { world: false, map: false, screen: true, quit: false },
            System::DrawThings => Access { world: false, map: false, screen: true, quit: false },
            System::DrawCursor => Access { world: false, map: false, screen: true, quit: false },
        }
    }

    /// What the system declares to read and to write, in this order.
    pub fn access(self) -> (r: (Access, Access))
        ensures
            r.0 == self.reads(),
            r.1 == self.writes(),
    {
        match self {
            System::HandleInput => (
                Access { world: true, map: true, screen: false, quit: true },
                Access { world: true, map: false, screen: false, quit: true },
            ),
            System::MoveLeft => (
                Access { world: true, map: false, screen: false, quit: false },
                Access { world: true, map: false, screen: false, quit: false },
            ),
            System::WrapPosition => (
                Access { world: true, map: true, screen: false, quit: false },
                Access { world: true, map: false, screen: false, quit: false },
            ),
            System::Cls => (
                Access { world: false, map: false, screen: true, quit: false },
                Access { world: false, map: false, screen: true, quit: false },
            ),
            System::UpdateViewsheds => (
                Access { world: true, map: true, screen: false, quit: false },
                Access { world: true, map: false, screen: false, quit: false },
            ),
            System::RevealMap => (
                Access { world: true, map: true, screen: false, quit: false },
                Access { world: true, map: true, screen: false, quit: false },
            ),
            System::DrawMap => (
                Access { world: false, map: true, screen: true, quit: false },
                Access { world: false, map: false, screen: true, quit: false },
            ),
            System::DrawThings => (
                Access { world: true, map: false, screen: true, quit: false },
                Access { world: false, map: false, screen: true, quit: false },
            ),
            System::DrawCursor => (
                Access { world: true, map: true, screen: true, quit: false },
                Access { world: false, map: false, screen: true, quit: false },
            ),
        }
    }
}

/// Why a set of systems and edges cannot be scheduled.
#[derive(Clone, Copy, Debug, PartialEq, Eq, Structural)]
pub enum ConfigError {
    /// An edge names a system that was not declared.
    UnknownSystem,
    /// The edges are cyclic: no order satisfies them all.
    Cycle,
}

/// Every edge runs between two of the `n` declared systems.
pub open spec fn edges_known(n: int, before: Seq<(usize, usize)>) -> bool {
    forall|e: int| 0 <= e < before.len() ==> (#[trigger] before[e]).0 < n && before[e].1 < n
}

/// In `order`, the first system of every edge comes before the second.
pub open spec fn respects(order: Seq<usize>, before: Seq<(usize, usize)>) -> bool {
    forall|e: int, i: int, j: int|
        0 <= e < before.len() && 0 <= i < order.len() && 0 <= j < order.len() && #[trigger] order[i]
            == (#[trigger] before[e]).0 && #[trigger] order[j] == before[e].1 ==> i < j
}

/// `order` lists each of the `n` systems once.
pub open spec fn lists_each_once(order: Seq<usize>, n: int) -> bool {
    &&& order.len() == n
    &&& order.no_duplicates()
    &&& forall|k: int| 0 <= k < order.len() ==> #[trigger] order[k] < n
}

/// `order` is a total order of the `n` systems that satisfies every edge.
pub open spec fn consistent(order: Seq<usize>, n: int, before: Seq<(usize, usize)>) -> bool {
    lists_each_once(order, n) && respects(order, before)
}

/// Every system that must run before `s` is among `placed`.
pub open spec fn ready(s: usize, placed: Seq<usize>, before: Seq<(usize, usize)>) -> bool {
    forall|e: int|
        0 <= e < before.len() && (#[trigger] before[e]).1 == s ==> placed.contains(before[e].0)
}

/// At each place, `order` holds the first declared system that was not placed
/// yet and whose predecessors all were. Among systems that no edge orders,
/// the order of declaration decides.
pub open spec fn earliest_first(order: Seq<usize>, before: Seq<(usize, usize)>) -> bool {
    forall|k: int|
        0 <= k < order.len() ==> {
            &&& ready(#[trigger] order[k], order.take(k), before)
            &&& forall|s: usize|
                s < order[k] && !order.take(k).contains(s) ==> !#[trigger] ready(
                    s,
                    order.take(k),
                    before,
                )
        }
}

/// A list of `n` different numbers below `n` holds every number below `n`.
pub proof fn lemma_full_list_covers(order: Seq<usize>, n: int, s: usize)
    requires
        lists_each_once(order, n),
        s < n,
    ensures
        order.contains(s),
{
    broadcast use vstd::seq_lib::group_seq_properties;

    let ints = order.map_values(|v: usize| v as int);
    assert forall|i: int, j: int| 0 <= i < ints.len() && 0 <= j < ints.len() && i != j implies ints[i]
        != ints[j] by {
        assert(order[i] != order[j]);
    }
    ints.unique_seq_to_set();
    vstd::set_lib::lemma_int_range(0, n);
    let all = vstd::set_lib::set_int_range(0, n);
    assert forall|v: int| ints.to_set().contains(v) implies all.contains(v) by {
        let k = choose|k: int| 0 <= k < ints.len() && ints[k] == v;
        assert(order[k] < n);
    }
    vstd::set_lib::lemma_len_subset(ints.to_set(), all);
    vstd::set_lib::lemma_subset_equality(ints.to_set(), all);
    assert(all.contains(s as int));
    assert(ints.to_set().contains(s as int));
    let k = choose|k: int| 0 <= k < ints.len() && ints[k] == s as int;
    assert(order[k] == s);
}

/// A list of different numbers below `n` that holds every number below `n` has
/// `n` entries.
pub proof fn lemma_covering_list_is_full(order: Seq<usize>, n: int)
    requires
        0 <= n <= usize::MAX,
        order.no_duplicates(),
        forall|k: int| 0 <= k < order.len() ==> #[trigger] order[k] < n,
        forall|s: usize| s < n ==> order.contains(s),
    ensures
        order.len() == n,
{
    broadcast use vstd::seq_lib::group_seq_properties;

    let ints = order.map_values(|v: usize| v as int);
    assert forall|i: int, j: int| 0 <= i < ints.len() && 0 <= j < ints.len() && i != j implies ints[i]
        != ints[j] by {
        assert(order[i] != order[j]);
    }
    ints.unique_seq_to_set();
    vstd::set_lib::lemma_int_range(0, n);
    let all = vstd::set_lib::set_int_range(0, n);
    assert forall|v: int| all.contains(v) implies ints.to_set().contains(v) by {
        let s = v as usize;
        assert(order.contains(s));
        let k = choose|k: int| 0 <= k < order.len() && order[k] == s;
        assert(ints[k] == v);
    }
    assert forall|v: int| ints.to_set().contains(v) implies all.contains(v) by {
        let k = choose|k: int| 0 <= k < ints.len() && ints[k] == v;
        assert(order[k] < n);
    }
    assert(ints.to_set() =~= all);
}

/// Where every system that is not placed yet waits for another that is not
/// placed either, each system of a consistent order is already placed.
pub proof fn lemma_stuck_reaches(
    n: int,
    before: Seq<(usize, usize)>,
    placed: Seq<usize>,
    order: Seq<usize>,
    p: int,
)
    requires
        edges_known(n, before),
        forall|s: usize| s < n && !placed.contains(s) ==> !#[trigger] ready(s, placed, before),
        consistent(order, n, before),
        0 <= p < n,
    ensures
        placed.contains(order[p]),
    decreases p,
{
    let s = order[p];
    if !placed.contains(s) {
        assert(!ready(s, placed, before));
        let e = choose|e: int|
            0 <= e < before.len() && (#[trigger] before[e]).1 == s && !placed.contains(before[e].0);
        let a = before[e].0;
        lemma_full_list_covers(order, n, a);
        let q = choose|q: int| 0 <= q < order.len() && order[q] == a;
        assert(q < p);
        lemma_stuck_reaches(n, before, placed, order, q);
    }
}

/// Where fewer than `n` systems are placed and each of the others waits for
/// one that is not placed, no order satisfies the edges.
pub proof fn lemma_stuck_means_cycle(
    n: int,
    before: Seq<(usize, usize)>,
    placed: Seq<usize>,
    order: Seq<usize>,
)
    requires
        n <= usize::MAX,
        edges_known(n, before),
        placed.len() < n,
        placed.no_duplicates(),
        forall|k: int| 0 <= k < placed.len() ==> #[trigger] placed[k] < n,
        forall|s: usize| s < n && !placed.contains(s) ==> !#[trigger] ready(s, placed, before),
    ensures
        !consistent(order, n, before),
{
    if consistent(order, n, before) {
        assert forall|s: usize| s < n implies placed.contains(s) by {
            lemma_full_list_covers(order, n, s);
            let p = choose|p: int| 0 <= p < order.len() && order[p] == s;
            lemma_stuck_reaches(n, before, placed, order, p);
        }
        lemma_covering_list_is_full(placed, n);
    }
}

/// An order in which every system was ready when it was placed satisfies
/// every edge.
pub proof fn lemma_ready_when_placed_respects(order: Seq<usize>, before: Seq<(usize, usize)>)
    requires
        order.no_duplicates(),
        forall|k: int| 0 <= k < order.len() ==> ready(#[trigger] order[k], order.take(k), before),
    ensures
        respects(order, before),
{
    assert forall|e: int, i: int, j: int|
        0 <= e < before.len() && 0 <= i < order.len() && 0 <= j < order.len() && #[trigger] order[i]
            == (#[trigger] before[e]).0 && #[trigger] order[j] == before[e].1 implies i < j by {
        assert(ready(order[j], order.take(j), before));
        assert(order.take(j).contains(before[e].0));
        let m = choose|m: int| 0 <= m < order.take(j).len() && order.take(j)[m] == before[e].0;
        assert(order[m] == order[i]);
    }
}

/// Edges `a` before `b` and `b` before `c` put `a`, `b` and `c` in this order
/// in every consistent order.
pub proof fn lemma_chain_runs_in_order(
    order: Seq<usize>,
    n: int,
    before: Seq<(usize, usize)>,
    a: usize,
    b: usize,
    c: usize,
)
    requires
        consistent(order, n, before),
        a < n,
        b < n,
        c < n,
        before.contains((a, b)),
        before.contains((b, c)),
    ensures
        order.contains(a) && order.contains(b) && order.contains(c),
        forall|i: int, j: int, k: int|
            0 <= i < order.len() && 0 <= j < order.len() && 0 <= k < order.len() && order[i] == a
                && order[j] == b && order[k] == c ==> i < j && j < k,
{
    lemma_full_list_covers(order, n, a);
    lemma_full_list_covers(order, n, b);
    lemma_full_list_covers(order, n, c);
    let e1 = choose|e: int| 0 <= e < before.len() && before[e] == (a, b);
    let e2 = choose|e: int| 0 <= e < before.len() && before[e] == (b, c);
    assert(before[e1].0 == a && before[e1].1 == b);
    assert(before[e2].0 == b && before[e2].1 == c);
}

/// Edges `a` before `b` and `b` before `a` leave no consistent order.
pub proof fn lemma_two_cycle_has_no_order(
    order: Seq<usize>,
    n: int,
    before: Seq<(usize, usize)>,
    a: usize,
    b: usize,
)
    requires
        a < n,
        b < n,
        before.contains((a, b)),
        before.contains((b, a)),
    ensures
        !consistent(order, n, before),
{
    if consistent(order, n, before) {
        lemma_full_list_covers(order, n, a);
        lemma_full_list_covers(order, n, b);
        let i = choose|i: int| 0 <= i < order.len() && order[i] == a;
        let j = choose|j: int| 0 <= j < order.len() && order[j] == b;
        let e1 = choose|e: int| 0 <= e < before.len() && before[e] == (a, b);
        let e2 = choose|e: int| 0 <= e < before.len() && before[e] == (b, a);
        assert(before[e1].0 == a && before[e1].1 == b);
        assert(before[e2].0 == b && before[e2].1 == a);
        assert(i < j);
        assert(j < i);
    }
}

/// The systems of the fixed pipeline, in the order of the pipeline: movement,
/// wrap, screen clear, field of view, reveal, and the three drawing passes.
pub open spec fn pipeline() -> Seq<System> {
    seq![
        System::HandleInput,
        System::WrapPosition,
        System::Cls,
        System::UpdateViewsheds,
        System::RevealMap,
        System::DrawMap,
        System::DrawThings,
        System::DrawCursor,
    ]
}

/// The edges of the fixed pipeline: each system runs before the next.
pub open spec fn pipeline_edges() -> Seq<(usize, usize)> {
    seq![
        (0usize, 1usize),
        (1usize, 2usize),
        (2usize, 3usize),
        (3usize, 4usize),
        (4usize, 5usize),
        (5usize, 6usize),
        (6usize, 7usize),
    ]
}

/// The order that runs the systems as they were declared.
pub open spec fn as_declared(n: int) -> Seq<usize> {
    Seq::new(n as nat, |k: int| k as usize)
}

/// The edges of the fixed pipeline leave one order only: that of declaration.
pub proof fn lemma_pipeline_order(order: Seq<usize>)
    requires
        consistent(order, 8, pipeline_edges()),
    ensures
        order == as_declared(8),
{
    let edges = pipeline_edges();
    assert forall|s: usize| s < 8 implies order.contains(s) by {
        lemma_full_list_covers(order, 8, s);
    }
    let at0 = choose|p: int| 0 <= p < order.len() && order[p] == 0usize;
    let at1 = choose|p: int| 0 <= p < order.len() && order[p] == 1usize;
    let at2 = choose|p: int| 0 <= p < order.len() && order[p] == 2usize;
    let at3 = choose|p: int| 0 <= p < order.len() && order[p] == 3usize;
    let at4 = choose|p: int| 0 <= p < order.len() && order[p] == 4usize;
    let at5 = choose|p: int| 0 <= p < order.len() && order[p] == 5usize;
    let at6 = choose|p: int| 0 <= p < order.len() && order[p] == 6usize;
    let at7 = choose|p: int| 0 <= p < order.len() && order[p] == 7usize;
    assert(order.contains(0usize) && order.contains(1usize) && order.contains(2usize)
        && order.contains(3usize) && order.contains(4usize) && order.contains(5usize)
        && order.contains(6usize) && order.contains(7usize));
    assert(edges[0] == (0usize, 1usize) && at0 < at1);
    assert(edges[1] == (1usize, 2usize) && at1 < at2);
    assert(edges[2] == (2usize, 3usize) && at2 < at3);
    assert(edges[3] == (3usize, 4usize) && at3 < at4);
    assert(edges[4] == (4usize, 5usize) && at4 < at5);
    assert(edges[5] == (5usize, 6usize) && at5 < at6);
    assert(edges[6] == (6usize, 7usize) && at6 < at7);
    assert(order =~= as_declared(8));
}

/// The systems of a game, and the order in which every tick runs them.
#[derive(Clone, Debug, PartialEq, Eq)]
pub struct Schedule {
    /// The systems, in the order they were declared.
    pub systems: Vec<System>,
    /// The places in `systems` of the systems to run, first to last.
    pub order: Vec<usize>,
}

impl Schedule {
    /// The order lists every declared system once.
    pub open spec fn wf(&self) -> bool {
        lists_each_once(self.order@, self.systems@.len() as int)
    }

    /// The schedule of the fixed pipeline.
    pub fn standard() -> (schedule: Schedule)
        ensures
            schedule.wf(),
            schedule.systems@ == pipeline(),
            schedule.order@ == as_declared(8),
    {
        let mut systems: Vec<System> = Vec::new();
        systems.push(System::HandleInput);
        systems.push(System::WrapPosition);
        systems.push(System::Cls);
        systems.push(System::UpdateViewsheds);
        systems.push(System::RevealMap);
        systems.push(System::DrawMap);
        systems.push(System::DrawThings);
        systems.push(System::DrawCursor);
        let mut before: Vec<(usize, usize)> = Vec::new();
        let mut a: usize = 0;
        while a < 7
            invariant
                a <= 7,
                before@.len() == a,
                forall|e: int| 0 <= e < a ==> #[trigger] before@[e] == (e as usize, (e + 1) as usize),
            decreases 7 - a,
        {
            before.push((a, a + 1));
            a += 1;
        }
        assert(systems@ =~= pipeline());
        assert(before@ =~= pipeline_edges());
        proof {
            let plain = as_declared(8);
            assert(consistent(plain, 8, pipeline_edges()));
        }
        match Schedule::configure(systems, &before) {
            Ok(schedule) => {
                proof {
                    lemma_pipeline_order(schedule.order@);
                }
                schedule
            },
            Err(_) => {
                assert(false);
                Schedule { systems: Vec::new(), order: Vec::new() }
            },
        }
    }

    /// Whether every predecessor of the system `s` is flagged in `placed`.
    fn is_ready(s: usize, placed: &Vec<bool>, before: &Vec<(usize, usize)>, Ghost(order): Ghost<
        Seq<usize>,
    >) -> (r: bool)
        requires
            edges_known(placed@.len() as int, before@),
            forall|v: usize| v < placed@.len() ==> (placed@[v as int] <==> order.contains(v)),
        ensures
            r == ready(s, order, before@),
    {
        let mut e: usize = 0;
        while e < before.len()
            invariant
                e <= before@.len(),
                edges_known(placed@.len() as int, before@),
                forall|v: usize| v < placed@.len() ==> (placed@[v as int] <==> order.contains(v)),
                forall|d: int|
                    0 <= d < e && (#[trigger] before@[d]).1 == s ==> order.contains(before@[d].0),
            decreases before@.len() - e,
        {
            let edge = before[e];
            if edge.1 == s && !placed[edge.0] {
                return false;
            }
            e += 1;
        }
        true
    }

    /// Computes the order of execution from the declared systems and the edges
    /// `(a, b)`, each of which says that the system declared at place `a` runs
    /// before the one declared at place `b`. The order lists every system once
    /// and satisfies every edge; where the edges leave a choice, the system
    /// declared first runs first. Edges that no order can satisfy are refused as
    /// a cycle, and an edge that names no declared system as unknown.
    pub fn configure(systems: Vec<System>, before: &Vec<(usize, usize)>) -> (r: Result<
        Schedule,
        ConfigError,
    >)
        ensures
            match r {
                Ok(schedule) => {
                    &&& schedule.systems@ == systems@
                    &&& edges_known(systems@.len() as int, before@)
                    &&& consistent(schedule.order@, systems@.len() as int, before@)
                    &&& earliest_first(schedule.order@, before@)
                    &&& schedule.wf()
                },
                Err(ConfigError::UnknownSystem) => !edges_known(systems@.len() as int, before@),
                Err(ConfigError::Cycle) => edges_known(systems@.len() as int, before@) && forall|
                    order: Seq<usize>,
                |
                    !#[trigger] consistent(order, systems@.len() as int, before@),
            },
    {
        let n: usize = systems.len();
        let mut e: usize = 0;
        while e < before.len()
            invariant
                e <= before@.len(),
                n == systems@.len(),
                forall|d: int| 0 <= d < e ==> (#[trigger] before@[d]).0 < n && before@[d].1 < n,
            decreases before@.len() - e,
        {
            if before[e].0 >= n || before[e].1 >= n {
                return Err(ConfigError::UnknownSystem);
            }
            e += 1;
        }
        let mut placed: Vec<bool> = Vec::new();
        let mut i: usize = 0;
        while i < n
            invariant
                i <= n,
                placed@.len() == i,
                forall|v: int| 0 <= v < i ==> !placed@[v],
            decreases n - i,
        {
            placed.push(false);
            i += 1;
        }
        let mut order: Vec<usize> = Vec::new();
        while order.len() < n
            invariant
                n == systems@.len(),
                edges_known(n as int, before@),
                placed@.len() == n,
                order@.len() <= n,
                order@.no_duplicates(),
                forall|k: int| 0 <= k < order@.len() ==> #[trigger] order@[k] < n,
                forall|v: usize| v < n ==> (placed@[v as int] <==> order@.contains(v)),
                earliest_first(order@, before@),
            decreases n - order@.len(),
        {
            let ghost so_far = order@;
            let mut s: usize = 0;
            let mut next: Option<usize> = None;
            while s < n
                invariant_except_break
                    next is None,
                invariant
                    s <= n,
                    placed@.len() == n,
                    so_far == order@,
                    edges_known(n as int, before@),
                    forall|v: usize| v < n ==> (placed@[v as int] <==> order@.contains(v)),
                    forall|v: usize|
                        v < s && !so_far.contains(v) ==> !#[trigger] ready(v, so_far, before@),
                ensures
                    match next {
                        Some(v) => v == s && s < n && !so_far.contains(v) && ready(
                            v,
                            so_far,
                            before@,
                        ),
                        None => s == n,
                    },
                decreases n - s,
            {
                if !placed[s] && Self::is_ready(s, &placed, before, Ghost(order@)) {
                    next = Some(s);
                    break ;
                }
                s += 1;
            }
            match next {
                None => {
                    proof {
                        assert forall|o: Seq<usize>| !#[trigger] consistent(
                            o,
                            n as int,
                            before@,
                        ) by {
                            lemma_stuck_means_cycle(n as int, before@, so_far, o);
                        }
                    }
                    return Err(ConfigError::Cycle);
                },
                Some(v) => {
                    placed[v] = true;
                    order.push(v);
                    proof {
                        let now = order@;
                        assert(now.take(so_far.len() as int) =~= so_far);
                        assert forall|k: int| 0 <= k < so_far.len() implies now.take(k)
                            =~= so_far.take(k) by {}
                        assert forall|u: usize| u < n implies (placed@[u as int] <==> now.contains(
                            u,
                        )) by {
                            if so_far.contains(u) {
                                let k = choose|k: int| 0 <= k < so_far.len() && so_far[k] == u;
                                assert(now[k] == u);
                            }
                            if u == v {
                                assert(now[so_far.len() as int] == v);
                            }
                        }
                        assert forall|k: int| 0 <= k < now.len() implies {
                            &&& ready(#[trigger] now[k], now.take(k), before@)
                            &&& forall|s: usize|
                                s < now[k] && !now.take(k).contains(s) ==> !#[trigger] ready(
                                    s,
                                    now.take(k),
                                    before@,
                                )
                        } by {
                            if k < so_far.len() {
                                assert(now.take(k) =~= so_far.take(k));
                                assert(now[k] == so_far[k]);
                            } else {
                                assert(now.take(k) =~= so_far);
                            }
                        }
                    }
                },
            }
        }
        proof {
            lemma_ready_when_placed_respects(order@, before@);
        }
        Ok(Schedule { systems, order })
    }
}

} // verus!
