//! The arena-backed automaton: states referenced by stable index, an edge
//! patcher that wires open fragment exits without re-entering visited states,
//! a builder lowering syntax trees bottom-up, and the greedy-priority key.

use vstd::prelude::*;

use crate::expr::Expr;
use crate::expr::single_byte;

verus! {

/// Condition under which a match state consumes a byte.
#[derive(PartialEq, Debug, Clone, Eq, Hash)]
pub enum ConditionChar {
    /// Exactly this byte.
    One(u8),
    /// Any byte out of this list.
    Class(Vec<u8>),
    /// Any byte at all.
    Any,
    /// Not a consuming transition; only used transiently while computing
    /// priority keys, never stored on a built state.
    Epsilon,
}

/// Mathematical image of a `ConditionChar`.
pub enum CondV {
    One(u8),
    Class(Seq<u8>),
    Any,
    Epsilon,
}

impl View for ConditionChar {
    type V = CondV;

    open spec fn view(&self) -> CondV {
        match self {
            ConditionChar::One(b) => CondV::One(*b),
            ConditionChar::Class(bs) => CondV::Class(bs@),
            ConditionChar::Any => CondV::Any,
            ConditionChar::Epsilon => CondV::Epsilon,
        }
    }
}

/// Where a transition leads.
#[derive(PartialEq, Debug, Clone, Copy, Eq, Hash)]
pub enum Edge {
    /// Another state of the same arena.
    Id(usize),
    /// Not wired yet; none of these survive a finished construction.
    Detached,
    /// Terminal transition: reaching it is a successful match.
    End,
}

/// One automaton state.
#[derive(PartialEq, Debug, Clone, Eq, Hash)]
pub enum State {
    /// Consume a byte satisfying `condition`, then follow `out`.
    State { condition: ConditionChar, out: Edge },
    /// Unconditioned split into two alternatives.
    Split { out1: Edge, out2: Edge },
}

/// Mathematical image of a `State`.
pub enum StateV {
    State { condition: CondV, out: Edge },
    Split { out1: Edge, out2: Edge },
}

impl View for State {
    type V = StateV;

    open spec fn view(&self) -> StateV {
        match self {
            State::State { condition, out } => StateV::State { condition: condition@, out: *out },
            State::Split { out1, out2 } => StateV::Split { out1: *out1, out2: *out2 },
        }
    }
}

/// An `Id` edge stays inside an arena of `n` states.
pub open spec fn edge_wf(e: Edge, n: int) -> bool {
    match e {
        Edge::Id(k) => (k as int) < n,
        _ => true,
    }
}

/// All edges of a state stay inside an arena of `n` states.
pub open spec fn state_wf(s: StateV, n: int) -> bool {
    match s {
        StateV::State { out, .. } => edge_wf(out, n),
        StateV::Split { out1, out2 } => edge_wf(out1, n) && edge_wf(out2, n),
    }
}

/// Every edge of the arena points back into the arena.
pub open spec fn arena_wf(a: Seq<StateV>) -> bool {
    forall|j: int| 0 <= j < a.len() ==> state_wf(#[trigger] a[j], a.len() as int)
}

/// The state has a direct edge to index `k`.
pub open spec fn has_succ(s: StateV, k: usize) -> bool {
    match s {
        StateV::State { out, .. } => out == Edge::Id(k),
        StateV::Split { out1, out2 } => out1 == Edge::Id(k) || out2 == Edge::Id(k),
    }
}

/// No `Detached` edge is left on the state.
pub open spec fn no_detached(s: StateV) -> bool {
    match s {
        StateV::State { out, .. } => out != Edge::Detached,
        StateV::Split { out1, out2 } => out1 != Edge::Detached && out2 != Edge::Detached,
    }
}

/// Replace the edge by `t` exactly when it is still `Detached`.
pub open spec fn patch_edge(e: Edge, t: Edge) -> Edge {
    if e == Edge::Detached {
        t
    } else {
        e
    }
}

/// Replace every `Detached` edge of the state by `t`.
pub open spec fn patch_state(s: StateV, t: Edge) -> StateV {
    match s {
        StateV::State { condition, out } => StateV::State { condition, out: patch_edge(out, t) },
        StateV::Split { out1, out2 } => StateV::Split {
            out1: patch_edge(out1, t),
            out2: patch_edge(out2, t),
        },
    }
}

/// `p` is a chain of directly linked state indices of `a`.
pub open spec fn is_path(a: Seq<StateV>, p: Seq<usize>) -> bool {
    &&& p.len() >= 1
    &&& (forall|k: int| 0 <= k < p.len() ==> (#[trigger] p[k] as int) < a.len())
    &&& (forall|k: int| 0 <= k < p.len() - 1 ==> has_succ(a[#[trigger] p[k] as int], p[k + 1]))
}

/// Index `j` can be reached from index `i` by following `Id` edges.
pub open spec fn reaches(a: Seq<StateV>, i: usize, j: usize) -> bool {
    exists|p: Seq<usize>| is_path(a, p) && p.first() == i && p.last() == j
}

/// The automaton: a start index into an append-only arena of states.
#[derive(PartialEq, Debug, Clone)]
pub struct NFA {
    start: usize,
    states: Vec<State>,
}

impl NFA {
    /// The arena as a sequence of mathematical states.
    pub closed spec fn arena(&self) -> Seq<StateV> {
        self.states@.map_values(|s: State| s@)
    }

    /// The start index.
    pub closed spec fn spec_start(&self) -> usize {
        self.start
    }

    /// An automaton with an empty arena; its start index references no slot
    /// yet, which is the legitimate empty state.
    pub fn new() -> (nfa: NFA)
        ensures
            nfa.spec_start() == 0,
            nfa.arena() =~= Seq::<StateV>::empty(),
    {
        NFA { start: 0, states: Vec::new() }
    }

    /// An automaton over an explicit arena, start fixed at index 0.
    pub fn from_states(states: Vec<State>) -> (nfa: NFA)
        ensures
            nfa.spec_start() == 0,
            nfa.arena() == states@.map_values(|s: State| s@),
    {
        NFA { start: 0, states }
    }

    /// A copy of the start state; absent while the start index references no
    /// arena slot.
    pub fn get_start(&self) -> (r: Option<State>)
        ensures
            match r {
                Some(s) => (self.spec_start() as int) < self.arena().len() && s@ == self.arena()[self.spec_start() as int],
                None => (self.spec_start() as int) >= self.arena().len(),
            },
    {
        if self.start >= self.states.len() {
            None
        } else {
            Some(clone_state(&self.states[self.start]))
        }
    }

    /// A copy of the state at `index`; absent when out of range.
    pub fn get_state(&self, index: usize) -> (r: Option<State>)
        ensures
            match r {
                Some(s) => (index as int) < self.arena().len() && s@ == self.arena()[index as int],
                None => (index as int) >= self.arena().len(),
            },
    {
        if index >= self.states.len() {
            None
        } else {
            Some(clone_state(&self.states[index]))
        }
    }

    /// How many states the arena holds.
    pub fn num_states(&self) -> (n: usize)
        ensures
            n == self.arena().len(),
    {
        self.states.len()
    }
}

/// A fresh byte vector with the same contents.
fn clone_bytes(v: &Vec<u8>) -> (r: Vec<u8>)
    ensures
        r@ == v@,
{
    let mut r: Vec<u8> = Vec::new();
    let mut i: usize = 0;
    while i < v.len()
        invariant
            i <= v@.len(),
            r@ == v@.take(i as int),
        decreases v@.len() - i,
    {
        r.push(v[i]);
        i = i + 1;
        proof {
            assert(v@.take(i as int) =~= v@.take(i as int - 1).push(v@[i as int - 1]));
        }
    }
    proof {
        assert(v@.take(v@.len() as int) =~= v@);
    }
    r
}

/// A fresh condition with the same view.
fn clone_condition(c: &ConditionChar) -> (r: ConditionChar)
    ensures
        r@ == c@,
{
    match c {
        ConditionChar::One(b) => ConditionChar::One(*b),
        ConditionChar::Class(bs) => ConditionChar::Class(clone_bytes(bs)),
        ConditionChar::Any => ConditionChar::Any,
        ConditionChar::Epsilon => ConditionChar::Epsilon,
    }
}

/// A fresh state with the same view.
fn clone_state(s: &State) -> (r: State)
    ensures
        r@ == s@,
{
    match s {
        State::State { condition, out } => State::State {
            condition: clone_condition(condition),
            out: *out,
        },
        State::Split { out1, out2 } => State::Split { out1: *out1, out2: *out2 },
    }
}

impl ConditionChar {
    /// The byte a single-byte character encodes to.
    pub fn one(c: char) -> (r: ConditionChar)
        requires
            single_byte(c),
        ensures
            r@ == CondV::One((c as u8)),
    {
        ConditionChar::One(Self::to_ascii(c))
    }

    /// Encode a character that fits in one byte.
    fn to_ascii(c: char) -> (b: u8)
        requires
            single_byte(c),
        ensures
            b == (c as u8),
    {
        let u = c as u32;
        u as u8
    }

    /// The byte list a single-byte character list encodes to.
    pub fn class(chars: Vec<char>) -> (r: ConditionChar)
        requires
            forall|j: int| 0 <= j < chars@.len() ==> single_byte(#[trigger] chars@[j]),
        ensures
            r@ == CondV::Class(chars@.map_values(|c: char| (c as u8))),
    {
        let mut ascii_bytes: Vec<u8> = Vec::new();
        let mut i: usize = 0;
        while i < chars.len()
            invariant
                i <= chars@.len(),
                forall|j: int| 0 <= j < chars@.len() ==> single_byte(#[trigger] chars@[j]),
                ascii_bytes@ == chars@.take(i as int).map_values(|c: char| (c as u8)),
            decreases chars@.len() - i,
        {
            ascii_bytes.push(Self::to_ascii(chars[i]));
            i = i + 1;
            proof {
                assert(chars@.take(i as int).map_values(|c: char| (c as u8)) =~= chars@.take(
                    i as int - 1,
                ).map_values(|c: char| (c as u8)).push((chars@[i as int - 1] as u8)));
            }
        }
        proof {
            assert(chars@.take(chars@.len() as int) =~= chars@);
        }
        ConditionChar::Class(ascii_bytes)
    }
}

/// The relation between an arena before (`a0`) and after (`a1`) one patching
/// pass with target `t`: `vs` lists the visited indices in discovery order;
/// every visited state had exactly its `Detached` edges replaced by `t` and
/// every other state is untouched; `Id` edges of visited states lead back into
/// the visited set unless they are the patch target itself; and every visited
/// index after the first was discovered through an `Id` edge that an
/// earlier-visited state already had before the pass.
pub open spec fn patch_trace(a0: Seq<StateV>, a1: Seq<StateV>, vs: Seq<usize>, t: Edge) -> bool {
    &&& a1.len() == a0.len()
    &&& vs.len() >= 1
    &&& vs.no_duplicates()
    &&& (forall|m: int| 0 <= m < vs.len() ==> (#[trigger] vs[m] as int) < a0.len())
    &&& (forall|j: int| 0 <= j < a1.len() && !vs.contains(j as usize) ==> a1[j] == a0[j])
    &&& (forall|m: int|
        0 <= m < vs.len() ==> a1[#[trigger] vs[m] as int] == patch_state(a0[vs[m] as int], t))
    &&& (forall|m: int, k: usize|
        0 <= m < vs.len() && #[trigger] has_succ(a1[vs[m] as int], k) ==> vs.contains(k)
            || Edge::Id(k) == t)
    &&& (forall|k: int|
        1 <= k < vs.len() ==> exists|m: int|
            0 <= m < k && has_succ(a0[vs[m] as int], #[trigger] vs[k]))
}

/// Common requirements on the walk state handed to the recursive patcher.
pub open spec fn walk_pre(a0: Seq<StateV>, v0: Seq<usize>, t: Edge) -> bool {
    &&& arena_wf(a0)
    &&& edge_wf(t, a0.len() as int)
    &&& v0.no_duplicates()
    &&& (forall|m: int| 0 <= m < v0.len() ==> (#[trigger] v0[m] as int) < a0.len())
}

/// What both patch-walk routines guarantee about the arena and the visited
/// list: the arena keeps its length and well-formedness, the visited list only
/// grows, stays duplicate-free and in range, every state is untouched or
/// patched, states outside the final visited list and already-visited states
/// other than `keep` are untouched, newly visited states are patched and their
/// `Id` edges closed under the visited list (up to the target), and each new
/// visit is justified: either it is `first` (the link the walk was asked to
/// follow) or an earlier state -- `keep` or a newer visit -- already linked to
/// it before the pass.
pub open spec fn walk_post(
    a0: Seq<StateV>,
    a1: Seq<StateV>,
    v0: Seq<usize>,
    v1: Seq<usize>,
    t: Edge,
    keep: Option<usize>,
    first: Option<usize>,
) -> bool {
    &&& a1.len() == a0.len()
    &&& arena_wf(a1)
    &&& v0.is_prefix_of(v1)
    &&& v1.no_duplicates()
    &&& (forall|m: int| 0 <= m < v1.len() ==> (#[trigger] v1[m] as int) < a0.len())
    &&& (forall|j: int| 0 <= j < a1.len() ==> a1[j] == a0[j] || a1[j] == patch_state(a0[j], t))
    &&& (forall|j: int| 0 <= j < a1.len() && !v1.contains(j as usize) ==> a1[j] == a0[j])
    &&& (forall|m: int|
        0 <= m < v0.len() && Some(v0[m]) != keep ==> a1[#[trigger] v0[m] as int] == a0[v0[m] as int])
    &&& (forall|m: int|
        v0.len() <= m < v1.len() ==> a1[#[trigger] v1[m] as int] == patch_state(
            a0[v1[m] as int],
            t,
        ))
    &&& (forall|m: int, k: usize|
        v0.len() <= m < v1.len() && #[trigger] has_succ(a1[v1[m] as int], k) ==> v1.contains(k)
            || Edge::Id(k) == t)
    &&& (forall|k: int|
        v0.len() <= k < v1.len() ==> (k == v0.len() && Some(v1[k]) == first) || (exists|m: int|
            0 <= m < k && (Some(v1[m]) == keep || m >= v0.len()) && has_succ(
                a0[v1[m] as int],
                #[trigger] v1[k],
            )))
}

/// A duplicate-free sequence of indices below `n` holds at most `n` of them.
proof fn lemma_visited_bound(vs: Seq<usize>, n: int)
    requires
        n >= 0,
        vs.no_duplicates(),
        forall|m: int| 0 <= m < vs.len() ==> (#[trigger] vs[m] as int) < n,
    ensures
        vs.len() <= n,
{
    let si = vs.map_values(|x: usize| x as int);
    vs.lemma_no_duplicates_injective(|x: usize| x as int);
    si.unique_seq_to_set();
    vstd::set_lib::lemma_int_range(0, n);
    assert forall|x: int| si.to_set().contains(x) implies vstd::set_lib::set_int_range(
        0,
        n,
    ).contains(x) by {
        let m = choose|m: int| 0 <= m < si.len() && si[m] == x;
        assert(si[m] == vs[m] as int);
    }
    vstd::set_lib::lemma_len_subset(si.to_set(), vstd::set_lib::set_int_range(0, n));
}

/// Patching twice with the same target is the same as patching once.
proof fn lemma_patch_idempotent(s: StateV, t: Edge)
    ensures
        patch_state(patch_state(s, t), t) == patch_state(s, t),
{
    if t == Edge::Detached {
        assert(patch_state(patch_state(s, t), t) == patch_state(s, t));
    }
}

/// A prefix sequence's members are members of the longer one, at the same
/// positions.
proof fn lemma_prefix_members(v0: Seq<usize>, v1: Seq<usize>)
    requires
        v0.is_prefix_of(v1),
    ensures
        forall|m: int| 0 <= m < v0.len() ==> v0[m] == v1[m],
        forall|x: usize| v0.contains(x) ==> v1.contains(x),
{
    assert forall|m: int| 0 <= m < v0.len() implies v0[m] == v1[m] by {
        assert(v1.take(v0.len() as int)[m] == v1[m]);
    }
    assert forall|x: usize| v0.contains(x) implies v1.contains(x) by {
        let m = choose|m: int| 0 <= m < v0.len() && v0[m] == x;
        assert(v1[m] == x);
    }
}

/// Whether the index already occurs in the visited list.
fn contains_id(v: &Vec<usize>, x: usize) -> (b: bool)
    ensures
        b == v@.contains(x),
{
    let mut i: usize = 0;
    while i < v.len()
        invariant
            i <= v@.len(),
            forall|m: int| 0 <= m < i ==> v@[m] != x,
        decreases v@.len() - i,
    {
        if v[i] == x {
            return true;
        }
        i = i + 1;
    }
    false
}

/// A completed walk that started with the seed alone is a full patching pass.
proof fn lemma_walk_to_trace(
    a0: Seq<StateV>,
    a1: Seq<StateV>,
    v0: Seq<usize>,
    v1: Seq<usize>,
    seed: usize,
    t: Edge,
)
    requires
        walk_post(a0, a1, v0, v1, t, Some(seed), None),
        v0.len() == 1,
        v0[0] == seed,
        (seed as int) < a0.len(),
        a1[seed as int] == patch_state(a0[seed as int], t),
        forall|k: usize| has_succ(a1[seed as int], k) ==> v1.contains(k) || Edge::Id(k) == t,
    ensures
        v1[0] == seed,
        patch_trace(a0, a1, v1, t),
{
    lemma_prefix_members(v0, v1);
    assert(v1[0] == seed);
    assert forall|j: int| 0 <= j < a1.len() && !v1.contains(j as usize) implies a1[j] == a0[j] by {
        assert(v1.contains(v1[0]));
    }
    assert forall|m: int| 0 <= m < v1.len() implies a1[#[trigger] v1[m] as int] == patch_state(
        a0[v1[m] as int],
        t,
    ) by {
        if m == 0 {
            assert(v1[0] == seed);
        }
    }
    assert forall|m: int, k: usize|
        0 <= m < v1.len() && #[trigger] has_succ(a1[v1[m] as int], k) implies v1.contains(k)
            || Edge::Id(k) == t by {
        if m == 0 {
            assert(v1[0] == seed);
        }
    }
    assert forall|k: int| 1 <= k < v1.len() implies exists|m: int|
        0 <= m < k && has_succ(a0[v1[m] as int], #[trigger] v1[k]) by {
        let m0 = choose|m0: int|
            0 <= m0 < k && (Some(v1[m0]) == Some(seed) || m0 >= v0.len()) && has_succ(
                a0[v1[m0] as int],
                v1[k],
            );
        assert(0 <= m0 < k && has_succ(a0[v1[m0] as int], v1[k]));
    }
}

impl NFA {
    /// Replace every `Detached` transition reachable from `start_id` by
    /// `new_edge`, without re-entering states already visited in this pass.
    #[verifier::rlimit(60)]
    fn update_outputs(&mut self, start_id: usize, new_edge: Edge)
        requires
            arena_wf(old(self).arena()),
            (start_id as int) < old(self).arena().len(),
            edge_wf(new_edge, old(self).arena().len() as int),
        ensures
            final(self).spec_start() == old(self).spec_start(),
            final(self).arena().len() == old(self).arena().len(),
            arena_wf(final(self).arena()),
            exists|vs: Seq<usize>|
                vs[0] == start_id && #[trigger] patch_trace(
                    old(self).arena(),
                    final(self).arena(),
                    vs,
                    new_edge,
                ),
    {
        let mut visited: Vec<usize> = Vec::new();
        visited.push(start_id);
        let ghost a0 = self.arena();
        let ghost v0 = visited@;
        proof {
            assert(v0[0] == start_id);
            assert(v0.contains(start_id));
        }
        self.update_outputs_rec(start_id, &mut visited, new_edge);
        proof {
            lemma_walk_to_trace(a0, self.arena(), v0, visited@, start_id, new_edge);
        }
    }

    /// One step of the depth-first patch walk: patch this state's edges and
    /// recurse into not-yet-visited linked states.
    fn update_outputs_rec(&mut self, start_id: usize, visited: &mut Vec<usize>, new_edge: Edge)
        requires
            walk_pre(old(self).arena(), old(visited)@, new_edge),
            (start_id as int) < old(self).arena().len(),
            old(visited)@.contains(start_id),
        ensures
            final(self).spec_start() == old(self).spec_start(),
            walk_post(
                old(self).arena(),
                final(self).arena(),
                old(visited)@,
                final(visited)@,
                new_edge,
                Some(start_id),
                None,
            ),
            final(self).arena()[start_id as int] == patch_state(
                old(self).arena()[start_id as int],
                new_edge,
            ),
            forall|k: usize|
                has_succ(final(self).arena()[start_id as int], k) ==> final(visited)@.contains(k)
                    || Edge::Id(k) == new_edge,
        decreases self.arena().len() - visited@.len(), 2int,
    {
        proof {
            lemma_visited_bound(visited@, self.arena().len() as int);
        }
        let ghost a0 = self.arena();
        let ghost v0 = visited@;
        let ghost mi = choose|m: int| 0 <= m < v0.len() && v0[m] == start_id;
        let state = clone_state(&self.states[start_id]);
        proof {
            assert(state@ == a0[start_id as int]);
        }
        let new_state = match state {
            State::State { condition, out } => {
                let e = self.replace_edge(out, new_edge, visited);
                let r = State::State { condition, out: e };
                proof {
                    let ac = self.arena();
                    let vc = visited@;
                    assert(r@ == patch_state(a0[start_id as int], new_edge));
                    lemma_prefix_members(v0, vc);
                    assert forall|k: int|
                        v0.len() <= k < vc.len() implies (exists|m: int|
                        0 <= m < k && (vc[m] == start_id || m >= v0.len()) && has_succ(
                            a0[vc[m] as int],
                            #[trigger] vc[k],
                        )) by {
                        if k == v0.len() && Some(vc[k]) == (match out {
                            Edge::Id(id) => Some(id),
                            _ => None,
                        }) {
                            assert(has_succ(a0[start_id as int], vc[k]));
                            assert(vc[mi] == start_id);
                        }
                    }
                    assert forall|k: usize| has_succ(r@, k) implies vc.contains(k) || Edge::Id(k)
                        == new_edge by {
                        if e == Edge::Id(k) && Edge::Id(k) != new_edge {
                            assert(out == Edge::Id(k));
                        }
                    }
                }
                r
            },
            State::Split { out1, out2 } => {
                let e1 = self.replace_edge(out1, new_edge, visited);
                let ghost ac1 = self.arena();
                let ghost vc1 = visited@;
                proof {
                    lemma_visited_bound(vc1, ac1.len() as int);
                    assert(edge_wf(out2, ac1.len() as int));
                }
                let e2 = self.replace_edge(out2, new_edge, visited);
                let r = State::Split { out1: e1, out2: e2 };
                proof {
                    let ac = self.arena();
                    let vc = visited@;
                    assert(r@ == patch_state(a0[start_id as int], new_edge));
                    lemma_prefix_members(v0, vc1);
                    lemma_prefix_members(vc1, vc);
                    lemma_prefix_members(v0, vc);
                    // fresh indices of the second walk were untouched by the first
                    assert forall|m: int| vc1.len() <= m < vc.len() implies !vc1.contains(
                        vc[m],
                    ) by {
                        if vc1.contains(vc[m]) {
                            let mm = choose|mm: int| 0 <= mm < vc1.len() && vc1[mm] == vc[m];
                            assert(vc[mm] == vc[m]);
                        }
                    }
                    // every state is untouched or patched, relative to entry
                    assert forall|j: int| 0 <= j < ac.len() implies ac[j] == a0[j] || ac[j]
                        == patch_state(a0[j], new_edge) by {
                        lemma_patch_idempotent(a0[j], new_edge);
                    }
                    // the visited lists agree with patching relative to entry
                    assert forall|m: int| v0.len() <= m < vc.len() implies ac[
                        #[trigger] vc[m] as int] == patch_state(a0[vc[m] as int], new_edge) by {
                        if m < vc1.len() {
                            assert(ac1[vc[m] as int] == patch_state(a0[vc[m] as int], new_edge));
                            assert(ac[vc1[m] as int] == ac1[vc1[m] as int]);
                        } else {
                            assert(ac1[vc[m] as int] == a0[vc[m] as int]);
                        }
                    }
                    assert forall|m: int, k: usize|
                        v0.len() <= m < vc.len() && #[trigger] has_succ(
                            ac[vc[m] as int],
                            k,
                        ) implies vc.contains(k) || Edge::Id(k) == new_edge by {
                        if m < vc1.len() {
                            assert(ac[vc1[m] as int] == ac1[vc1[m] as int]);
                        }
                    }
                    assert forall|k: int|
                        v0.len() <= k < vc.len() implies (exists|m: int|
                        0 <= m < k && (vc[m] == start_id || m >= v0.len()) && has_succ(
                            a0[vc[m] as int],
                            #[trigger] vc[k],
                        )) by {
                        if k < vc1.len() {
                            if k == v0.len() && Some(vc1[k]) == (match out1 {
                                Edge::Id(id) => Some(id),
                                _ => None,
                            }) {
                                assert(has_succ(a0[start_id as int], vc[k]));
                                assert(vc[mi] == start_id);
                            }
                        } else {
                            if k == vc1.len() && Some(vc[k]) == (match out2 {
                                Edge::Id(id) => Some(id),
                                _ => None,
                            }) {
                                assert(has_succ(a0[start_id as int], vc[k]));
                                assert(vc[mi] == start_id);
                            } else {
                                let m = choose|m: int|
                                    0 <= m < k && (m >= vc1.len()) && has_succ(
                                        ac1[vc[m] as int],
                                        vc[k],
                                    );
                                assert(ac1[vc[m] as int] == a0[vc[m] as int]);
                            }
                        }
                    }
                    assert forall|k: usize| has_succ(r@, k) implies vc.contains(k) || Edge::Id(k)
                        == new_edge by {
                        if e1 == Edge::Id(k) && Edge::Id(k) != new_edge {
                            assert(out1 == Edge::Id(k));
                            assert(vc1.contains(k));
                        }
                        if e2 == Edge::Id(k) && Edge::Id(k) != new_edge {
                            assert(out2 == Edge::Id(k));
                        }
                    }
                }
                r
            },
        };
        let ghost ac = self.arena();
        let ghost vc = visited@;
        self.states.set(start_id, new_state);
        proof {
            let a2 = self.arena();
            assert forall|j: int| 0 <= j < a2.len() implies a2[j] == (ac.update(
                start_id as int,
                new_state@,
            ))[j] by {}
            assert(a2 =~= ac.update(start_id as int, new_state@));
            lemma_prefix_members(v0, vc);
            assert(vc[mi] == start_id);
            assert(vc.contains(start_id));
            assert(ac[start_id as int] == a0[start_id as int]);
            assert(a2[start_id as int] == patch_state(a0[start_id as int], new_edge));
            assert forall|m: int| v0.len() <= m < vc.len() implies a2[#[trigger] vc[m] as int]
                == patch_state(a0[vc[m] as int], new_edge) by {
                assert(vc[m] != start_id);
            }
            assert(state_wf(a0[start_id as int], a0.len() as int));
            assert(state_wf(new_state@, a0.len() as int));
            assert(arena_wf(a2));
        }
    }

    /// Per-transition patch rule: `Detached` becomes the replacement, links
    /// are followed (but kept) to reach deeper `Detached` edges, `End` stays.
    fn replace_edge(&mut self, edge: Edge, replacement: Edge, visited: &mut Vec<usize>) -> (r: Edge)
        requires
            walk_pre(old(self).arena(), old(visited)@, replacement),
            edge_wf(edge, old(self).arena().len() as int),
        ensures
            final(self).spec_start() == old(self).spec_start(),
            r == patch_edge(edge, replacement),
            walk_post(
                old(self).arena(),
                final(self).arena(),
                old(visited)@,
                final(visited)@,
                replacement,
                None,
                match edge {
                    Edge::Id(id) => Some(id),
                    _ => None,
                },
            ),
            (edge matches Edge::Id(id) ==> final(visited)@.contains(id)),
        decreases self.arena().len() - visited@.len(), 1int,
    {
        let ghost a0 = self.arena();
        let ghost v0 = visited@;
        proof {
            assert(v0.take(v0.len() as int) =~= v0);
        }
        match edge {
            Edge::Detached => replacement,
            Edge::Id(id) => {
                if !contains_id(visited, id) {
                    visited.push(id);
                    let ghost v0p = visited@;
                    proof {
                        assert(v0p.drop_last() =~= v0);
                        assert(v0p[v0.len() as int] == id);
                        assert(v0p.contains(id));
                        assert forall|i: int, j: int|
                            0 <= i < j < v0p.len() implies v0p[i] != v0p[j] by {
                            if j == v0.len() as int {
                                assert(!v0.contains(id));
                            }
                        }
                        assert(v0p.no_duplicates());
                        assert(v0p.take(v0.len() as int) =~= v0);
                        lemma_visited_bound(v0p, self.arena().len() as int);
                    }
                    self.update_outputs_rec(id, visited, replacement);
                    proof {
                        let a1 = self.arena();
                        let v1 = visited@;
                        lemma_prefix_members(v0p, v1);
                        assert(v1[v0.len() as int] == id);
                        assert(v1.take(v0.len() as int) =~= v0) by {
                            assert forall|m: int| 0 <= m < v0.len() implies v1[m] == v0[m] by {
                                assert(v0p[m] == v0[m]);
                            }
                        }
                        assert(v0.is_prefix_of(v1));
                        assert forall|m: int|
                            0 <= m < v0.len() implies a1[#[trigger] v0[m] as int] == a0[v0[m] as int] by {
                            assert(v0p[m] == v0[m]);
                            assert(v0[m] != id);
                        }
                        assert forall|k: int|
                            v0.len() <= k < v1.len() implies (k == v0.len() && Some(v1[k])
                            == Some(id)) || (exists|m: int|
                            v0.len() <= m < k && has_succ(
                                a0[v1[m] as int],
                                #[trigger] v1[k],
                            )) by {
                            if k > v0.len() {
                                let m = choose|m: int|
                                    0 <= m < k && (v1[m] == id || m >= v0p.len()) && has_succ(
                                        a0[v1[m] as int],
                                        v1[k],
                                    );
                                if v1[m] == id {
                                    assert(has_succ(a0[v1[v0.len() as int] as int], v1[k]));
                                    assert(v0.len() <= v0.len() < k);
                                } else {
                                    assert(v0.len() <= m < k);
                                }
                            }
                        }
                    }
                }
                edge
            },
            Edge::End => edge,
        }
    }
}

/// An edge that only points (if anywhere) into `[lo, hi)`.
pub open spec fn edge_in(e: Edge, lo: int, hi: int) -> bool {
    match e {
        Edge::Id(k) => lo <= (k as int) < hi,
        _ => true,
    }
}

/// A state whose edges only point into `[lo, hi)`.
pub open spec fn state_in(s: StateV, lo: int, hi: int) -> bool {
    match s {
        StateV::State { out, .. } => edge_in(out, lo, hi),
        StateV::Split { out1, out2 } => edge_in(out1, lo, hi) && edge_in(out2, lo, hi),
    }
}

/// The arena slice `[lo, hi)` is self-contained: its states only link to
/// states of the same slice.
pub open spec fn slice_contained(a: Seq<StateV>, lo: int, hi: int) -> bool {
    forall|j: int| lo <= j < hi ==> state_in(#[trigger] a[j], lo, hi)
}

/// A path that starts inside a self-contained slice stays inside it.
proof fn lemma_path_in_slice(a: Seq<StateV>, lo: int, hi: int, p: Seq<usize>, k: int)
    requires
        slice_contained(a, lo, hi),
        is_path(a, p),
        lo <= (p[0] as int) < hi,
        0 <= k < p.len(),
    ensures
        lo <= (p[k] as int) < hi,
    decreases k,
{
    if k > 0 {
        lemma_path_in_slice(a, lo, hi, p, k - 1);
        assert(has_succ(a[p[k - 1] as int], p[k]));
    }
}

/// Everything reachable from inside a self-contained slice lies inside it.
proof fn lemma_reaches_in_slice(a: Seq<StateV>, lo: int, hi: int, i: usize, j: usize)
    requires
        slice_contained(a, lo, hi),
        lo <= (i as int) < hi,
        reaches(a, i, j),
    ensures
        lo <= (j as int) < hi,
{
    let p = choose|p: Seq<usize>| is_path(a, p) && p.first() == i && p.last() == j;
    lemma_path_in_slice(a, lo, hi, p, p.len() - 1);
}

/// Each visited index of a patching pass was reachable, before the pass, from
/// the state the pass was seeded with.
pub proof fn lemma_trace_members_reachable(
    a0: Seq<StateV>,
    a1: Seq<StateV>,
    vs: Seq<usize>,
    t: Edge,
    m: int,
)
    requires
        patch_trace(a0, a1, vs, t),
        0 <= m < vs.len(),
    ensures
        reaches(a0, vs[0], vs[m]),
    decreases m,
{
    if m == 0 {
        let p = seq![vs[0]];
        assert(is_path(a0, p));
        assert(p.first() == vs[0] && p.last() == vs[m]);
    } else {
        let m0 = choose|m0: int| 0 <= m0 < m && has_succ(a0[vs[m0] as int], vs[m]);
        lemma_trace_members_reachable(a0, a1, vs, t, m0);
        let p = choose|p: Seq<usize>| is_path(a0, p) && p.first() == vs[0] && p.last() == vs[m0];
        let q = p.push(vs[m]);
        assert(is_path(a0, q)) by {
            assert(forall|k: int| 0 <= k < p.len() ==> q[k] == p[k]);
            assert(q[q.len() - 2] == vs[m0]);
        }
        assert(q.first() == vs[0] && q.last() == vs[m]);
    }
}

/// Patching keeps every `Id` edge a state already had.
proof fn lemma_patch_keeps_succ(s: StateV, t: Edge, k: usize)
    requires
        has_succ(s, k),
    ensures
        has_succ(patch_state(s, t), k),
{
}

/// A path taken after a terminal patching pass stays within the visited set.
proof fn lemma_path_in_visited(
    a0: Seq<StateV>,
    a1: Seq<StateV>,
    vs: Seq<usize>,
    p: Seq<usize>,
    k: int,
)
    requires
        patch_trace(a0, a1, vs, Edge::End),
        is_path(a1, p),
        p[0] == vs[0],
        0 <= k < p.len(),
    ensures
        vs.contains(p[k]),
    decreases k,
{
    if k == 0 {
        assert(vs[0] == p[0]);
    } else {
        lemma_path_in_visited(a0, a1, vs, p, k - 1);
        let m = choose|m: int| 0 <= m < vs.len() && vs[m] == p[k - 1];
        assert(has_succ(a1[vs[m] as int], p[k]));
    }
}

/// After patching every open exit to `End`, no state reachable from the seed
/// keeps a `Detached` edge: the finished graph is fully wired.
pub proof fn lemma_trace_clean(a0: Seq<StateV>, a1: Seq<StateV>, vs: Seq<usize>, j: usize)
    requires
        patch_trace(a0, a1, vs, Edge::End),
        reaches(a1, vs[0], j),
    ensures
        vs.contains(j),
        no_detached(a1[j as int]),
{
    let p = choose|p: Seq<usize>| is_path(a1, p) && p.first() == vs[0] && p.last() == j;
    lemma_path_in_visited(a0, a1, vs, p, p.len() - 1);
    let m = choose|m: int| 0 <= m < vs.len() && vs[m] == j;
    assert(a1[j as int] == patch_state(a0[j as int], Edge::End));
}

/// A path in the pre-patch arena from the seed visits only patched states:
/// the pass linked every exit reachable from its seed. With the patch target
/// pointing outside the seed's self-contained slice, this is how sequencing
/// wires the whole left fragment into the right one while leaving the right
/// fragment -- outside the visited set -- untouched.
pub proof fn lemma_patch_links_reachable(
    a0: Seq<StateV>,
    a1: Seq<StateV>,
    vs: Seq<usize>,
    t: Edge,
    lo: int,
    hi: int,
    j: usize,
)
    requires
        patch_trace(a0, a1, vs, t),
        slice_contained(a0, lo, hi),
        lo <= (vs[0] as int) < hi,
        !edge_in(t, lo, hi),
        reaches(a0, vs[0], j),
    ensures
        vs.contains(j),
        lo <= (j as int) < hi,
        a1[j as int] == patch_state(a0[j as int], t),
{
    let p = choose|p: Seq<usize>| is_path(a0, p) && p.first() == vs[0] && p.last() == j;
    lemma_path_a0_in_visited(a0, a1, vs, t, lo, hi, p, p.len() - 1);
    let m = choose|m: int| 0 <= m < vs.len() && vs[m] == j;
    lemma_path_in_slice(a0, lo, hi, p, p.len() - 1);
}

/// Helper for `lemma_patch_links_reachable`: induction along the path.
proof fn lemma_path_a0_in_visited(
    a0: Seq<StateV>,
    a1: Seq<StateV>,
    vs: Seq<usize>,
    t: Edge,
    lo: int,
    hi: int,
    p: Seq<usize>,
    k: int,
)
    requires
        patch_trace(a0, a1, vs, t),
        slice_contained(a0, lo, hi),
        lo <= (vs[0] as int) < hi,
        !edge_in(t, lo, hi),
        is_path(a0, p),
        p[0] == vs[0],
        0 <= k < p.len(),
    ensures
        vs.contains(p[k]),
    decreases k,
{
    if k == 0 {
        assert(vs[0] == p[0]);
    } else {
        lemma_path_a0_in_visited(a0, a1, vs, t, lo, hi, p, k - 1);
        let m = choose|m: int| 0 <= m < vs.len() && vs[m] == p[k - 1];
        assert(has_succ(a0[vs[m] as int], p[k]));
        lemma_patch_keeps_succ(a0[vs[m] as int], t, p[k]);
        assert(has_succ(a1[vs[m] as int], p[k]));
        lemma_path_in_slice(a0, lo, hi, p, k);
        assert(Edge::Id(p[k]) != t);
    }
}

/// An edge to the state at (mathematical) index `k`.
pub open spec fn eid(k: int) -> Edge {
    Edge::Id(k as usize)
}

/// The states of the fragment one syntax-tree node compiles to, given that
/// the fragment starts at arena index `lo`; exactly spec'd per node kind:
/// an atom is one match state with an open exit; a sequence patches the left
/// fragment's open exits to the right fragment's entry; option and
/// repetition append a split looping to the inner entry, repetition also
/// patching the inner exits back to that split; alternation appends a split
/// to both entries, leaving both fragments' exits open.
pub open spec fn frag_states(e: Expr, lo: int) -> Seq<StateV>
    decreases e,
{
    match e {
        Expr::Any => seq![StateV::State { condition: CondV::Any, out: Edge::Detached }],
        Expr::Single(c) => seq![
            StateV::State { condition: CondV::One((c as u8)), out: Edge::Detached },
        ],
        Expr::Class(cs) => seq![
            StateV::State {
                condition: CondV::Class(cs@.map_values(|ch: char| (ch as u8))),
                out: Edge::Detached,
            },
        ],
        Expr::Sequence(a, b) => patched_frag(
            frag_states(*a, lo),
            eid(frag_entry(*b, lo + a.size())),
        ) + frag_states(*b, lo + a.size()),
        Expr::Optional(e1) => frag_states(*e1, lo).push(
            StateV::Split { out1: eid(frag_entry(*e1, lo)), out2: Edge::Detached },
        ),
        Expr::OneOrMore(e1) => patched_frag(frag_states(*e1, lo), eid(lo + e1.size())).push(
            StateV::Split { out1: eid(frag_entry(*e1, lo)), out2: Edge::Detached },
        ),
        Expr::ZeroOrMore(e1) => patched_frag(frag_states(*e1, lo), eid(lo + e1.size())).push(
            StateV::Split { out1: eid(frag_entry(*e1, lo)), out2: Edge::Detached },
        ),
        Expr::Or(a, b) => frag_states(*a, lo) + frag_states(*b, lo + a.size()) + seq![
            StateV::Split {
                out1: eid(frag_entry(*a, lo)),
                out2: eid(frag_entry(*b, lo + a.size())),
            },
        ],
    }
}

/// The entry index of the fragment `e` compiles to at arena index `lo`: the
/// match state for atoms, the left entry for sequences, the inner entry for
/// one-or-more (the body runs at least once), and the appended split for
/// option, zero-or-more and alternation.
pub open spec fn frag_entry(e: Expr, lo: int) -> int
    decreases e,
{
    match e {
        Expr::Any => lo,
        Expr::Single(_) => lo,
        Expr::Class(_) => lo,
        Expr::Sequence(a, _) => frag_entry(*a, lo),
        Expr::Optional(e1) => lo + e1.size(),
        Expr::OneOrMore(e1) => frag_entry(*e1, lo),
        Expr::ZeroOrMore(e1) => lo + e1.size(),
        Expr::Or(a, b) => lo + a.size() + b.size(),
    }
}

/// A fragment with every open exit patched to `t`.
pub open spec fn patched_frag(s: Seq<StateV>, t: Edge) -> Seq<StateV> {
    s.map_values(|x: StateV| patch_state(x, t))
}

/// The fragment holds exactly `size` states and its entry lies within it.
pub proof fn lemma_frag_basics(e: Expr, lo: int)
    ensures
        frag_states(e, lo).len() == e.size(),
        lo <= frag_entry(e, lo) < lo + e.size(),
    decreases e,
{
    match e {
        Expr::Sequence(a, b) => {
            lemma_frag_basics(*a, lo);
            lemma_frag_basics(*b, lo + a.size());
        },
        Expr::Optional(e1) => {
            lemma_frag_basics(*e1, lo);
        },
        Expr::OneOrMore(e1) => {
            lemma_frag_basics(*e1, lo);
        },
        Expr::ZeroOrMore(e1) => {
            lemma_frag_basics(*e1, lo);
        },
        Expr::Or(a, b) => {
            lemma_frag_basics(*a, lo);
            lemma_frag_basics(*b, lo + a.size());
        },
        _ => {},
    }
}

/// A state with no open exit is unchanged by patching.
proof fn lemma_patch_noop(s: StateV, t: Edge)
    requires
        no_detached(s),
    ensures
        patch_state(s, t) == s,
{
}

/// Patching with a target other than `Detached` leaves no open exit.
proof fn lemma_patch_clean(s: StateV, t: Edge)
    requires
        t != Edge::Detached,
    ensures
        no_detached(patch_state(s, t)),
{
}

/// Patching a state that still has an open exit links it to the target.
proof fn lemma_patch_bearing_succ(s: StateV, t: usize)
    requires
        !no_detached(s),
    ensures
        has_succ(patch_state(s, Edge::Id(t)), t),
{
}

/// Reachability is reflexive on arena indices.
proof fn lemma_reach_refl(a: Seq<StateV>, i: usize)
    requires
        (i as int) < a.len(),
    ensures
        reaches(a, i, i),
{
    let p = seq![i];
    assert(is_path(a, p));
    assert(p.first() == i && p.last() == i);
}

/// One more edge in front extends reachability.
proof fn lemma_reach_prepend(a: Seq<StateV>, i: usize, k: usize, j: usize)
    requires
        (i as int) < a.len(),
        has_succ(a[i as int], k),
        reaches(a, k, j),
    ensures
        reaches(a, i, j),
{
    let p = choose|p: Seq<usize>| is_path(a, p) && p.first() == k && p.last() == j;
    let q = seq![i] + p;
    assert(is_path(a, q)) by {
        assert(forall|m: int| 0 <= m < p.len() ==> q[m + 1] == p[m]);
        assert(q[0] == i && q[1] == p[0]);
    }
    assert(q.first() == i && q.last() == j);
}

/// One more edge at the end extends reachability.
proof fn lemma_reach_append(a: Seq<StateV>, i: usize, j: usize, k: usize)
    requires
        reaches(a, i, j),
        has_succ(a[j as int], k),
        (k as int) < a.len(),
    ensures
        reaches(a, i, k),
{
    let p = choose|p: Seq<usize>| is_path(a, p) && p.first() == i && p.last() == j;
    let q = p.push(k);
    assert(is_path(a, q)) by {
        assert(forall|m: int| 0 <= m < p.len() ==> q[m] == p[m]);
        assert(q[q.len() - 2] == j);
    }
    assert(q.first() == i && q.last() == k);
}

/// Reachability carries over to an arena that keeps every link (states are
/// equal, or patched, or the arena merely grew).
proof fn lemma_reach_carries(a: Seq<StateV>, b: Seq<StateV>, i: usize, j: usize)
    requires
        a.len() <= b.len(),
        forall|m: int, k: usize|
            0 <= m < a.len() && #[trigger] has_succ(a[m], k) ==> has_succ(b[m], k),
        reaches(a, i, j),
    ensures
        reaches(b, i, j),
{
    let p = choose|p: Seq<usize>| is_path(a, p) && p.first() == i && p.last() == j;
    assert(is_path(b, p)) by {
        assert forall|m: int| 0 <= m < p.len() - 1 implies has_succ(
            b[#[trigger] p[m] as int],
            p[m + 1],
        ) by {
            assert(has_succ(a[p[m] as int], p[m + 1]));
        }
    }
    assert(p.first() == i && p.last() == j);
}

/// Reachability is transitive.
proof fn lemma_reach_trans(a: Seq<StateV>, i: usize, j: usize, k: usize)
    requires
        reaches(a, i, j),
        reaches(a, j, k),
    ensures
        reaches(a, i, k),
{
    let p = choose|p: Seq<usize>| is_path(a, p) && p.first() == i && p.last() == j;
    let q = choose|q: Seq<usize>| is_path(a, q) && q.first() == j && q.last() == k;
    let r = p + q.drop_first();
    assert(is_path(a, r)) by {
        assert(forall|m: int| 0 <= m < p.len() ==> r[m] == p[m]);
        assert(forall|m: int| 0 <= m < q.len() - 1 ==> #[trigger] r[p.len() + m] == q[m + 1]);
        assert forall|m: int| 0 <= m < r.len() - 1 implies has_succ(
            a[#[trigger] r[m] as int],
            r[m + 1],
        ) by {
            if m < p.len() - 1 {
                assert(r[m] == p[m] && r[m + 1] == p[m + 1]);
            } else if m == p.len() - 1 {
                assert(r[m] == j);
                if q.len() >= 2 {
                    assert(r[m + 1] == q[1]);
                    assert(has_succ(a[q[0] as int], q[1]));
                }
            } else {
                assert(r[m] == q[m - p.len() + 1] && r[m + 1] == q[m - p.len() + 2]);
            }
        }
    }
    assert(r.first() == i);
    assert(r.last() == k) by {
        if q.len() == 1 {
            assert(r =~= p);
        }
    }
}

/// Every state of the arena has a terminating priority key.
pub open spec fn all_keys_terminate(a: Seq<StateV>) -> bool {
    forall|j: int| 0 <= j < a.len() ==> state_key_terminates(a, #[trigger] a[j])
}

/// Extending the arena does not change the priority of a state whose chains
/// stay within the old part.
proof fn lemma_state_key_extend(a: Seq<StateV>, b: Seq<StateV>, s: StateV, f: nat)
    requires
        a.len() <= b.len(),
        forall|j: int| 0 <= j < a.len() ==> b[j] == a[j],
        arena_wf(a),
        state_wf(s, a.len() as int),
    ensures
        spec_state_key(b, s, f) == spec_state_key(a, s, f),
    decreases f, 1int,
{
    match s {
        StateV::State { condition, out } => {
            lemma_trans_key_extend(a, b, condition, out, f);
        },
        StateV::Split { out1, out2 } => {
            lemma_trans_key_extend(a, b, CondV::Epsilon, out1, f);
            lemma_trans_key_extend(a, b, CondV::Epsilon, out2, f);
        },
    }
}

/// Transition version of `lemma_state_key_extend`.
proof fn lemma_trans_key_extend(a: Seq<StateV>, b: Seq<StateV>, c: CondV, out: Edge, f: nat)
    requires
        a.len() <= b.len(),
        forall|j: int| 0 <= j < a.len() ==> b[j] == a[j],
        arena_wf(a),
        edge_wf(out, a.len() as int),
    ensures
        spec_trans_key(b, c, out, f) == spec_trans_key(a, c, out, f),
    decreases f, 0int,
{
    match c {
        CondV::Epsilon => match out {
            Edge::Id(id) => {
                if f > 0 {
                    assert(state_wf(a[id as int], a.len() as int));
                    lemma_state_key_extend(a, b, a[id as int], (f - 1) as nat);
                }
            },
            _ => {},
        },
        _ => {},
    }
}

/// States of a self-contained slice keep their priority when everything
/// outside the slice changes.
proof fn lemma_state_key_local(a: Seq<StateV>, b: Seq<StateV>, lo: int, hi: int, s: StateV, f: nat)
    requires
        a.len() == b.len(),
        0 <= lo <= hi <= a.len(),
        slice_contained(a, lo, hi),
        forall|j: int| lo <= j < hi ==> b[j] == a[j],
        state_in(s, lo, hi),
    ensures
        spec_state_key(b, s, f) == spec_state_key(a, s, f),
    decreases f, 1int,
{
    match s {
        StateV::State { condition, out } => {
            lemma_trans_key_local(a, b, lo, hi, condition, out, f);
        },
        StateV::Split { out1, out2 } => {
            lemma_trans_key_local(a, b, lo, hi, CondV::Epsilon, out1, f);
            lemma_trans_key_local(a, b, lo, hi, CondV::Epsilon, out2, f);
        },
    }
}

/// Transition version of `lemma_state_key_local`.
proof fn lemma_trans_key_local(
    a: Seq<StateV>,
    b: Seq<StateV>,
    lo: int,
    hi: int,
    c: CondV,
    out: Edge,
    f: nat,
)
    requires
        a.len() == b.len(),
        0 <= lo <= hi <= a.len(),
        slice_contained(a, lo, hi),
        forall|j: int| lo <= j < hi ==> b[j] == a[j],
        edge_in(out, lo, hi),
    ensures
        spec_trans_key(b, c, out, f) == spec_trans_key(a, c, out, f),
    decreases f, 0int,
{
    match c {
        CondV::Epsilon => match out {
            Edge::Id(id) => {
                if f > 0 {
                    assert(state_in(a[id as int], lo, hi));
                    lemma_state_key_local(a, b, lo, hi, a[id as int], (f - 1) as nat);
                }
            },
            _ => {},
        },
        _ => {},
    }
}

/// Patching open exits to a state whose own priority resolves keeps every
/// priority resolvable: the old chains now continue into the target's chain.
proof fn lemma_state_key_patch(
    a0: Seq<StateV>,
    a1: Seq<StateV>,
    t: usize,
    g: nat,
    s: StateV,
    f: nat,
)
    requires
        a1.len() == a0.len(),
        (t as int) < a1.len(),
        forall|j: int|
            0 <= j < a1.len() ==> a1[j] == a0[j] || a1[j] == patch_state(a0[j], Edge::Id(t)),
        spec_state_key(a1, a1[t as int], g) is Some,
        spec_state_key(a0, s, f) is Some,
    ensures
        spec_state_key(a1, s, (f + g + 1) as nat) is Some,
        spec_state_key(a1, patch_state(s, Edge::Id(t)), (f + g + 1) as nat) is Some,
    decreases f, 1int,
{
    match s {
        StateV::State { condition, out } => {
            lemma_trans_key_patch(a0, a1, t, g, condition, out, f);
        },
        StateV::Split { out1, out2 } => {
            lemma_trans_key_patch(a0, a1, t, g, CondV::Epsilon, out1, f);
            lemma_trans_key_patch(a0, a1, t, g, CondV::Epsilon, out2, f);
        },
    }
}

/// Transition version of `lemma_state_key_patch`.
proof fn lemma_trans_key_patch(
    a0: Seq<StateV>,
    a1: Seq<StateV>,
    t: usize,
    g: nat,
    c: CondV,
    out: Edge,
    f: nat,
)
    requires
        a1.len() == a0.len(),
        (t as int) < a1.len(),
        forall|j: int|
            0 <= j < a1.len() ==> a1[j] == a0[j] || a1[j] == patch_state(a0[j], Edge::Id(t)),
        spec_state_key(a1, a1[t as int], g) is Some,
        spec_trans_key(a0, c, out, f) is Some,
    ensures
        spec_trans_key(a1, c, out, (f + g + 1) as nat) is Some,
        spec_trans_key(a1, c, patch_edge(out, Edge::Id(t)), (f + g + 1) as nat) is Some,
    decreases f, 0int,
{
    match c {
        CondV::Epsilon => match out {
            Edge::Id(id) => {
                assert(f >= 1 && (id as int) < a0.len());
                lemma_state_key_patch(a0, a1, t, g, a0[id as int], (f - 1) as nat);
                assert(spec_state_key(a1, a1[id as int], ((f - 1) + g + 1) as nat) is Some);
                lemma_state_mono(a1, a1[id as int], ((f - 1) + g + 1) as nat, (f + g) as nat);
            },
            Edge::Detached => {
                lemma_state_mono(a1, a1[t as int], g, (f + g) as nat);
            },
            Edge::End => {},
        },
        _ => {},
    }
}

/// Patching open exits to the terminal transition keeps every priority
/// resolvable with the same fuel.
proof fn lemma_state_key_patch_end(a0: Seq<StateV>, a1: Seq<StateV>, s: StateV, f: nat)
    requires
        a1.len() == a0.len(),
        forall|j: int|
            0 <= j < a1.len() ==> a1[j] == a0[j] || a1[j] == patch_state(a0[j], Edge::End),
        spec_state_key(a0, s, f) is Some,
    ensures
        spec_state_key(a1, s, f) is Some,
        spec_state_key(a1, patch_state(s, Edge::End), f) is Some,
    decreases f, 1int,
{
    match s {
        StateV::State { condition, out } => {
            lemma_trans_key_patch_end(a0, a1, condition, out, f);
        },
        StateV::Split { out1, out2 } => {
            lemma_trans_key_patch_end(a0, a1, CondV::Epsilon, out1, f);
            lemma_trans_key_patch_end(a0, a1, CondV::Epsilon, out2, f);
        },
    }
}

/// Transition version of `lemma_state_key_patch_end`.
proof fn lemma_trans_key_patch_end(a0: Seq<StateV>, a1: Seq<StateV>, c: CondV, out: Edge, f: nat)
    requires
        a1.len() == a0.len(),
        forall|j: int|
            0 <= j < a1.len() ==> a1[j] == a0[j] || a1[j] == patch_state(a0[j], Edge::End),
        spec_trans_key(a0, c, out, f) is Some,
    ensures
        spec_trans_key(a1, c, out, f) is Some,
        spec_trans_key(a1, c, patch_edge(out, Edge::End), f) is Some,
    decreases f, 0int,
{
    match c {
        CondV::Epsilon => match out {
            Edge::Id(id) => {
                assert(f >= 1 && (id as int) < a0.len());
                lemma_state_key_patch_end(a0, a1, a0[id as int], (f - 1) as nat);
            },
            _ => {},
        },
        _ => {},
    }
}

/// Appending a consuming state keeps every priority resolvable.
proof fn lemma_terminate_after_push(a0: Seq<StateV>, a1: Seq<StateV>, sv: StateV)
    requires
        a1 == a0.push(sv),
        arena_wf(a0),
        all_keys_terminate(a0),
        consuming_state(sv),
    ensures
        all_keys_terminate(a1),
{
    assert forall|j: int| 0 <= j < a1.len() implies state_key_terminates(
        a1,
        #[trigger] a1[j],
    ) by {
        if j < a0.len() {
            let f = choose|f: nat| spec_state_key(a0, a0[j], f) is Some;
            lemma_state_key_extend(a0, a1, a0[j], f);
            assert(spec_state_key(a1, a1[j], f) is Some);
        } else {
            assert(a1[j] == sv);
            assert(spec_state_key(a1, sv, 0) is Some);
        }
    }
}

/// Appending a split that loops back to a consuming state keeps every
/// priority resolvable: the split's own key bottoms out after one step.
proof fn lemma_terminate_after_split_push(a0: Seq<StateV>, a1: Seq<StateV>, entry: usize)
    requires
        a1 == a0.push(StateV::Split { out1: Edge::Id(entry), out2: Edge::Detached }),
        arena_wf(a0),
        all_keys_terminate(a0),
        (entry as int) < a0.len(),
        consuming_state(a0[entry as int]),
    ensures
        all_keys_terminate(a1),
{
    assert forall|j: int| 0 <= j < a1.len() implies state_key_terminates(
        a1,
        #[trigger] a1[j],
    ) by {
        if j < a0.len() {
            let f = choose|f: nat| spec_state_key(a0, a0[j], f) is Some;
            lemma_state_key_extend(a0, a1, a0[j], f);
            assert(spec_state_key(a1, a1[j], f) is Some);
        } else {
            assert(spec_state_key(a1, a1[entry as int], 1) is Some);
            assert(spec_state_key(a1, a1[j], 2) is Some);
        }
    }
}

/// A patching pass whose target's own priority resolves keeps every priority
/// resolvable.
proof fn lemma_terminate_after_patch(a2: Seq<StateV>, a3: Seq<StateV>, t: usize, g: nat)
    requires
        a3.len() == a2.len(),
        forall|j: int|
            0 <= j < a3.len() ==> a3[j] == a2[j] || a3[j] == patch_state(a2[j], Edge::Id(t)),
        all_keys_terminate(a2),
        (t as int) < a3.len(),
        spec_state_key(a3, a3[t as int], g) is Some,
    ensures
        all_keys_terminate(a3),
{
    assert forall|j: int| 0 <= j < a3.len() implies state_key_terminates(
        a3,
        #[trigger] a3[j],
    ) by {
        let f = choose|f: nat| spec_state_key(a2, a2[j], f) is Some;
        lemma_state_key_patch(a2, a3, t, g, a2[j], f);
        assert(spec_state_key(a3, a3[j], (f + g + 1) as nat) is Some);
    }
}

/// Step of `lemma_cycle_has_consuming`: following a split-only cycle costs
/// one unit of fuel per step, so no finite fuel resolves a state on it.
proof fn lemma_cycle_needs_fuel(a: Seq<StateV>, p: Seq<usize>, k: int, f: nat)
    requires
        is_path(a, p),
        p.len() >= 2,
        p.first() == p.last(),
        forall|m: int| 0 <= m < p.len() ==> a[#[trigger] p[m] as int] is Split,
        0 <= k < p.len() - 1,
    ensures
        spec_state_key(a, a[p[k] as int], f) is None,
    decreases f,
{
    if spec_state_key(a, a[p[k] as int], f) is Some {
        assert(has_succ(a[p[k] as int], p[k + 1]));
        assert(f >= 1 && spec_state_key(a, a[p[k + 1] as int], (f - 1) as nat) is Some) by {
            match a[p[k] as int] {
                StateV::Split { out1, out2 } => {
                    assert(spec_trans_key(a, CondV::Epsilon, out1, f) is Some);
                    assert(spec_trans_key(a, CondV::Epsilon, out2, f) is Some);
                },
                _ => {
                    assert(false);
                },
            }
        }
        if k + 1 < p.len() - 1 {
            lemma_cycle_needs_fuel(a, p, k + 1, (f - 1) as nat);
        } else {
            assert(p[k + 1] == p[0]);
            lemma_cycle_needs_fuel(a, p, 0, (f - 1) as nat);
        }
        assert(false);
    }
}

/// In an automaton whose priorities all resolve, every cycle passes through
/// at least one consuming state: a purely-epsilon loop of splits would leave
/// its states' priorities unresolvable at any fuel. The builder guarantees
/// the hypothesis for every token-shaped tree.
pub proof fn lemma_cycle_has_consuming(a: Seq<StateV>, p: Seq<usize>)
    requires
        all_keys_terminate(a),
        is_path(a, p),
        p.len() >= 2,
        p.first() == p.last(),
    ensures
        exists|m: int| 0 <= m < p.len() && !(a[#[trigger] p[m] as int] is Split),
{
    if forall|m: int| 0 <= m < p.len() ==> a[#[trigger] p[m] as int] is Split {
        assert((p[0] as int) < a.len());
        assert(state_key_terminates(a, a[p[0] as int]));
        let f = choose|f: nat| spec_state_key(a, a[p[0] as int], f) is Some;
        lemma_cycle_needs_fuel(a, p, 0, f);
        assert(false);
    }
}

/// A consuming match state: one that reads a byte before it moves on. Real
/// built states never carry the `Epsilon` sentinel.
pub open spec fn consuming_state(s: StateV) -> bool {
    match s {
        StateV::State { condition, out: _ } => !(condition is Epsilon),
        StateV::Split { .. } => false,
    }
}

/// Priority resolution terminates at once on a consuming state: its key never
/// follows an edge.
pub proof fn lemma_consuming_terminates(a: Seq<StateV>, s: StateV)
    requires
        consuming_state(s),
    ensures
        state_key_terminates(a, s),
{
    assert(spec_state_key(a, s, 0) is Some);
}

/// The finished automaton is exactly the top-level fragment with every open
/// exit patched to the terminal transition, and holds no open exit at all:
/// every open exit of the fragment is reachable from the entry, so the final
/// pass rewires each one.
proof fn lemma_from_expr_exact(
    a0: Seq<StateV>,
    a1: Seq<StateV>,
    vs: Seq<usize>,
    e: Expr,
    start: usize,
)
    requires
        a0 == Seq::<StateV>::empty() + frag_states(e, 0),
        a0.len() <= usize::MAX,
        (start as int) == frag_entry(e, 0),
        forall|j: usize|
            0 <= (j as int) < a0.len() && !no_detached(#[trigger] a0[j as int]) ==> reaches(
                a0,
                start,
                j,
            ),
        vs[0] == start,
        patch_trace(a0, a1, vs, Edge::End),
    ensures
        a1 == patched_frag(frag_states(e, 0), Edge::End),
        forall|j: int| 0 <= j < a1.len() ==> no_detached(#[trigger] a1[j]),
{
    assert(a0 =~= frag_states(e, 0));
    assert forall|m: int, k: usize|
        0 <= m < a0.len() && #[trigger] has_succ(a0[m], k) implies has_succ(a1[m], k) by {
        if vs.contains(m as usize) {
            let w = choose|w: int| 0 <= w < vs.len() && vs[w] == m as usize;
            assert(a1[vs[w] as int] == patch_state(a0[vs[w] as int], Edge::End));
            lemma_patch_keeps_succ(a0[m], Edge::End, k);
        } else {
            assert(a1[m] == a0[m]);
        }
    }
    assert forall|j: int| 0 <= j < a1.len() implies a1[j] == patch_state(a0[j], Edge::End) by {
        if vs.contains(j as usize) {
            let m = choose|m: int| 0 <= m < vs.len() && vs[m] == j as usize;
            assert(a1[vs[m] as int] == patch_state(a0[vs[m] as int], Edge::End));
        } else {
            assert(a1[j] == a0[j]);
            if !no_detached(a0[j]) {
                assert(!no_detached(a0[(j as usize) as int]));
                assert(reaches(a0, start, j as usize));
                lemma_reach_carries(a0, a1, start, j as usize);
                lemma_trace_clean(a0, a1, vs, j as usize);
                assert(false);
            }
            lemma_patch_noop(a0[j], Edge::End);
        }
    }
    assert(a1 =~= patched_frag(frag_states(e, 0), Edge::End)) by {
        assert forall|j: int|
            0 <= j < a1.len() implies a1[j] == patched_frag(frag_states(e, 0), Edge::End)[j] by {
            assert(a0[j] == frag_states(e, 0)[j]);
        }
    }
    assert forall|j: int| 0 <= j < a1.len() implies no_detached(#[trigger] a1[j]) by {
        lemma_patch_clean(a0[j], Edge::End);
    }
}

/// Every tree compiles to at least one state.
proof fn lemma_size_pos(e: Expr)
    ensures
        e.size() >= 1,
    decreases e,
{
    match e {
        Expr::Sequence(a, b) => {
            lemma_size_pos(*a);
        },
        Expr::Or(a, b) => {
            lemma_size_pos(*a);
        },
        _ => {},
    }
}

/// Patching keeps edges within bounds when the target is within bounds.
proof fn lemma_patch_state_in(s: StateV, t: Edge, lo: int, hi: int)
    requires
        state_in(s, lo, hi),
        edge_in(t, lo, hi),
    ensures
        state_in(patch_state(s, t), lo, hi),
{
}

/// A fragment's edges stay within the fragment.
proof fn lemma_frag_wf(e: Expr, lo: int)
    requires
        0 <= lo,
        lo + e.size() <= usize::MAX,
    ensures
        forall|j: int|
            0 <= j < frag_states(e, lo).len() ==> state_in(
                #[trigger] frag_states(e, lo)[j],
                lo,
                lo + e.size(),
            ),
    decreases e,
{
    lemma_frag_basics(e, lo);
    let hi = lo + e.size();
    match e {
        Expr::Sequence(a, b) => {
            let l1 = lo + a.size();
            lemma_frag_basics(*a, lo);
            lemma_frag_basics(*b, l1);
            lemma_frag_wf(*a, lo);
            lemma_frag_wf(*b, l1);
            let t = eid(frag_entry(*b, l1));
            let fa = frag_states(*a, lo);
            let fb = frag_states(*b, l1);
            assert forall|j: int|
                0 <= j < frag_states(e, lo).len() implies state_in(
                #[trigger] frag_states(e, lo)[j],
                lo,
                hi,
            ) by {
                if j < fa.len() {
                    assert(frag_states(e, lo)[j] == patch_state(fa[j], t));
                    lemma_patch_state_in(fa[j], t, lo, hi);
                } else {
                    assert(frag_states(e, lo)[j] == fb[j - fa.len()]);
                }
            }
        },
        Expr::Optional(e1) => {
            lemma_frag_basics(*e1, lo);
            lemma_frag_wf(*e1, lo);
        },
        Expr::OneOrMore(e1) => {
            lemma_frag_basics(*e1, lo);
            lemma_frag_wf(*e1, lo);
            let t = eid(lo + e1.size());
            let fe = frag_states(*e1, lo);
            assert forall|j: int|
                0 <= j < frag_states(e, lo).len() implies state_in(
                #[trigger] frag_states(e, lo)[j],
                lo,
                hi,
            ) by {
                if j < fe.len() {
                    assert(frag_states(e, lo)[j] == patch_state(fe[j], t));
                    lemma_patch_state_in(fe[j], t, lo, hi);
                }
            }
        },
        Expr::ZeroOrMore(e1) => {
            lemma_frag_basics(*e1, lo);
            lemma_frag_wf(*e1, lo);
            let t = eid(lo + e1.size());
            let fe = frag_states(*e1, lo);
            assert forall|j: int|
                0 <= j < frag_states(e, lo).len() implies state_in(
                #[trigger] frag_states(e, lo)[j],
                lo,
                hi,
            ) by {
                if j < fe.len() {
                    assert(frag_states(e, lo)[j] == patch_state(fe[j], t));
                    lemma_patch_state_in(fe[j], t, lo, hi);
                }
            }
        },
        Expr::Or(a, b) => {
            let l1 = lo + a.size();
            lemma_frag_basics(*a, lo);
            lemma_frag_basics(*b, l1);
            lemma_frag_wf(*a, lo);
            lemma_frag_wf(*b, l1);
            let fa = frag_states(*a, lo);
            let fb = frag_states(*b, l1);
            assert forall|j: int|
                0 <= j < frag_states(e, lo).len() implies state_in(
                #[trigger] frag_states(e, lo)[j],
                lo,
                hi,
            ) by {
                if j < fa.len() {
                    assert(frag_states(e, lo)[j] == fa[j]);
                } else if j < fa.len() + fb.len() {
                    assert(frag_states(e, lo)[j] == fb[j - fa.len()]);
                }
            }
        },
        _ => {},
    }
}

/// A fragment of a sequencing-only tree holds only consuming match states.
proof fn lemma_frag_literal(e: Expr, lo: int)
    requires
        e.is_literal_chain(),
    ensures
        forall|j: int|
            0 <= j < frag_states(e, lo).len() ==> consuming_state(#[trigger] frag_states(e, lo)[j]),
    decreases e,
{
    match e {
        Expr::Sequence(a, b) => {
            let l1 = lo + a.size();
            lemma_frag_basics(*a, lo);
            lemma_frag_literal(*a, lo);
            lemma_frag_literal(*b, l1);
            let t = eid(frag_entry(*b, l1));
            let fa = frag_states(*a, lo);
            let fb = frag_states(*b, l1);
            assert forall|j: int|
                0 <= j < frag_states(e, lo).len() implies consuming_state(
                #[trigger] frag_states(e, lo)[j],
            ) by {
                if j < fa.len() {
                    assert(frag_states(e, lo)[j] == patch_state(fa[j], t));
                    assert(consuming_state(fa[j]));
                } else {
                    assert(frag_states(e, lo)[j] == fb[j - fa.len()]);
                }
            }
        },
        _ => {},
    }
}

/// The sequencing patch keeps every priority resolvable: the right entry's
/// own key is unaffected (its fragment is self-contained and untouched) and
/// the rewired exits continue into it.
proof fn lemma_seq_tok(
    a2: Seq<StateV>,
    a3: Seq<StateV>,
    vs: Seq<usize>,
    eb: usize,
    l1: int,
    l2: int,
)
    requires
        patch_trace(a2, a3, vs, Edge::Id(eb)),
        all_keys_terminate(a2),
        forall|m: int| 0 <= m < vs.len() ==> (#[trigger] vs[m] as int) < l1,
        0 <= l1 <= (eb as int) < l2 <= a2.len(),
        slice_contained(a2, l1, l2),
        state_in(a2[eb as int], l1, l2),
        a2.len() <= usize::MAX,
    ensures
        all_keys_terminate(a3),
{
    assert forall|j: int|
        0 <= j < a3.len() implies a3[j] == a2[j] || a3[j] == patch_state(
        a2[j],
        Edge::Id(eb),
    ) by {
        if vs.contains(j as usize) {
            let m = choose|m: int| 0 <= m < vs.len() && vs[m] == j as usize;
            assert(a3[vs[m] as int] == patch_state(a2[vs[m] as int], Edge::Id(eb)));
        }
    }
    assert forall|j: int| l1 <= j < l2 implies a3[j] == a2[j] by {
        if vs.contains(j as usize) {
            let m = choose|m: int| 0 <= m < vs.len() && vs[m] == j as usize;
            assert((vs[m] as int) < l1);
            assert(false);
        }
    }
    let ft = choose|f: nat| spec_state_key(a2, a2[eb as int], f) is Some;
    lemma_state_key_local(a2, a3, l1, l2, a2[eb as int], ft);
    assert(a3[eb as int] == a2[eb as int]);
    assert(spec_state_key(a3, a3[eb as int], ft) is Some);
    lemma_terminate_after_patch(a2, a3, eb, ft);
}

/// Assembly of a sequence fragment: after patching the left fragment's open
/// exits to the right fragment's entry, the arena extends the old one by
/// exactly the sequence fragment, every remaining open exit (all in the right
/// fragment) is reachable from the left entry, and at least one remains.
proof fn lemma_seq_arm(
    a0: Seq<StateV>,
    a1: Seq<StateV>,
    a2: Seq<StateV>,
    a3: Seq<StateV>,
    aexp: Expr,
    bexp: Expr,
    ea: usize,
    eb: usize,
)
    requires
        a1 == a0 + frag_states(aexp, a0.len() as int),
        a2 == a1 + frag_states(bexp, a1.len() as int),
        a2.len() <= usize::MAX,
        (ea as int) == frag_entry(aexp, a0.len() as int),
        (eb as int) == frag_entry(bexp, a1.len() as int),
        slice_contained(a1, a0.len() as int, a1.len() as int),
        slice_contained(a2, a1.len() as int, a2.len() as int),
        forall|j: usize|
            a0.len() <= (j as int) < a1.len() && !no_detached(#[trigger] a1[j as int])
                ==> reaches(a1, ea, j),
        exists|j: usize|
            a0.len() <= (j as int) < a1.len() && !no_detached(#[trigger] a1[j as int]),
        forall|j: usize|
            a1.len() <= (j as int) < a2.len() && !no_detached(#[trigger] a2[j as int])
                ==> reaches(a2, eb, j),
        exists|j: usize|
            a1.len() <= (j as int) < a2.len() && !no_detached(#[trigger] a2[j as int]),
        a3.len() == a2.len(),
        forall|j: int| 0 <= j < a3.len() && !(a0.len() <= j < a1.len()) ==> a3[j] == a2[j],
        forall|j: int|
            a0.len() <= j < a1.len() ==> a3[j] == patch_state(a2[j], Edge::Id(eb)),
    ensures
        a3 == a0 + frag_states(
            Expr::Sequence(Box::new(aexp), Box::new(bexp)),
            a0.len() as int,
        ),
        forall|j: usize|
            a0.len() <= (j as int) < a3.len() && !no_detached(#[trigger] a3[j as int])
                ==> reaches(a3, ea, j),
        exists|j: usize|
            a0.len() <= (j as int) < a3.len() && !no_detached(#[trigger] a3[j as int]),
{
    let lo = a0.len() as int;
    let l1 = a1.len() as int;
    let l2 = a2.len() as int;
    let t = Edge::Id(eb);
    lemma_frag_basics(aexp, lo);
    lemma_frag_basics(bexp, l1);
    assert forall|j: int| 0 <= j < l1 implies a2[j] == a1[j] by {}
    // the patch rewired exactly the left fragment's open exits
    // the arena now extends the old one by exactly the sequence fragment
    let fa = frag_states(aexp, lo);
    let fb = frag_states(bexp, l1);
    let fs = frag_states(Expr::Sequence(Box::new(aexp), Box::new(bexp)), lo);
    assert(eid(frag_entry(bexp, lo + aexp.size())) == t);
    assert(fs == patched_frag(fa, t) + fb);
    assert(a3 =~= a0 + fs) by {
        assert forall|j: int| 0 <= j < a3.len() implies a3[j] == (a0 + fs)[j] by {
            if j < lo {
                assert(a3[j] == a2[j] && a2[j] == a1[j] && a1[j] == a0[j]);
            } else if j < l1 {
                assert(a1[j] == fa[j - lo]);
                assert(a2[j] == a1[j]);
                assert(patched_frag(fa, t)[j - lo] == patch_state(fa[j - lo], t));
                assert(fs[j - lo] == patch_state(fa[j - lo], t));
            } else {
                assert(a2[j] == fb[j - l1]);
                assert(a3[j] == a2[j]);
                assert(fs[j - lo] == fb[j - l1]);
            }
        }
    }
    // the left fragment is fully wired
    assert forall|j: int| lo <= j < l1 implies no_detached(a3[j]) by {
        lemma_patch_clean(a2[j], t);
    }
    // the right entry is reachable from the left entry through a patched exit
    assert forall|m: int, k: usize|
        0 <= m < a2.len() && #[trigger] has_succ(a2[m], k) implies has_succ(a3[m], k) by {
        if lo <= m < l1 {
            lemma_patch_keeps_succ(a2[m], t, k);
        }
    }
    let xj = choose|xj: usize| lo <= (xj as int) < l1 && !no_detached(a1[xj as int]);
    assert(reaches(a1, ea, xj));
    lemma_reach_carries(a1, a2, ea, xj);
    lemma_reach_carries(a2, a3, ea, xj);
    assert(!no_detached(a2[xj as int]));
    assert(a3[xj as int] == patch_state(a2[xj as int], t));
    lemma_patch_bearing_succ(a2[xj as int], eb);
    assert(has_succ(a3[xj as int], eb));
    lemma_reach_append(a3, ea, xj, eb);
    // every remaining open exit lies in the right fragment and is reachable
    assert forall|j: usize|
        lo <= (j as int) < a3.len() && !no_detached(#[trigger] a3[j as int]) implies reaches(
        a3,
        ea,
        j,
    ) by {
        assert(l1 <= (j as int) < l2);
        assert(a3[j as int] == a2[j as int]);
        assert(reaches(a2, eb, j));
        lemma_reach_carries(a2, a3, eb, j);
        lemma_reach_trans(a3, ea, eb, j);
    }
    let wj = choose|wj: usize| l1 <= (wj as int) < l2 && !no_detached(a2[wj as int]);
    assert(!no_detached(a3[wj as int]));
}

/// Assembly of an option fragment: the inner fragment plus a trailing split
/// into it; the inner exits and the split's own exit all stay open and are
/// reachable from the split, which is the entry.
proof fn lemma_opt_arm(a0: Seq<StateV>, a1: Seq<StateV>, a2: Seq<StateV>, eexp: Expr, ee: usize)
    requires
        a1 == a0 + frag_states(eexp, a0.len() as int),
        (ee as int) == frag_entry(eexp, a0.len() as int),
        a2 == a1.push(StateV::Split { out1: Edge::Id(ee), out2: Edge::Detached }),
        a1.len() < usize::MAX,
        forall|j: usize|
            a0.len() <= (j as int) < a1.len() && !no_detached(#[trigger] a1[j as int])
                ==> reaches(a1, ee, j),
    ensures
        a2 == a0 + frag_states(Expr::Optional(Box::new(eexp)), a0.len() as int),
        forall|j: usize|
            a0.len() <= (j as int) < a2.len() && !no_detached(#[trigger] a2[j as int])
                ==> reaches(a2, (a1.len() as usize), j),
        exists|j: usize|
            a0.len() <= (j as int) < a2.len() && !no_detached(#[trigger] a2[j as int]),
{
    let lo = a0.len() as int;
    let l1 = a1.len() as int;
    let sp = l1 as usize;
    lemma_frag_basics(eexp, lo);
    assert(a2 =~= a0 + frag_states(Expr::Optional(Box::new(eexp)), lo)) by {
        assert forall|j: int|
            0 <= j < a2.len() implies a2[j] == (a0 + frag_states(
            Expr::Optional(Box::new(eexp)),
            lo,
        ))[j] by {
            if lo <= j < l1 {
                assert(a1[j] == frag_states(eexp, lo)[j - lo]);
            }
        }
    }
    assert(!no_detached(a2[l1]));
    assert forall|m: int, k: usize|
        0 <= m < a1.len() && #[trigger] has_succ(a1[m], k) implies has_succ(a2[m], k) by {}
    assert forall|j: usize|
        lo <= (j as int) < a2.len() && !no_detached(#[trigger] a2[j as int]) implies reaches(
        a2,
        sp,
        j,
    ) by {
        if (j as int) == l1 {
            lemma_reach_refl(a2, sp);
        } else {
            assert(reaches(a1, ee, j));
            lemma_reach_carries(a1, a2, ee, j);
            assert(has_succ(a2[sp as int], ee));
            lemma_reach_prepend(a2, sp, ee, j);
        }
    }
}

/// Assembly of a repetition fragment: the inner fragment with its open exits
/// rewired to the trailing loop split, whose own exit is the only open one
/// left; it is reachable both from the split itself and from the inner entry.
proof fn lemma_loop_arm(a0: Seq<StateV>, a1: Seq<StateV>, af: Seq<StateV>, eexp: Expr, ee: usize)
    requires
        a1 == a0 + frag_states(eexp, a0.len() as int),
        (ee as int) == frag_entry(eexp, a0.len() as int),
        a1.len() < usize::MAX,
        af.len() == a1.len() + 1,
        forall|j: int| 0 <= j < a0.len() ==> af[j] == a1[j],
        forall|j: int|
            a0.len() <= j < a1.len() ==> af[j] == patch_state(
                a1[j],
                Edge::Id((a1.len() as usize)),
            ),
        af[a1.len() as int] == (StateV::Split { out1: Edge::Id(ee), out2: Edge::Detached }),
        forall|j: usize|
            a0.len() <= (j as int) < a1.len() && !no_detached(#[trigger] a1[j as int])
                ==> reaches(a1, ee, j),
        exists|j: usize|
            a0.len() <= (j as int) < a1.len() && !no_detached(#[trigger] a1[j as int]),
    ensures
        af == a0 + frag_states(Expr::OneOrMore(Box::new(eexp)), a0.len() as int),
        af == a0 + frag_states(Expr::ZeroOrMore(Box::new(eexp)), a0.len() as int),
        forall|j: usize|
            a0.len() <= (j as int) < af.len() && !no_detached(#[trigger] af[j as int])
                ==> reaches(af, ee, j) && reaches(af, (a1.len() as usize), j),
        exists|j: usize|
            a0.len() <= (j as int) < af.len() && !no_detached(#[trigger] af[j as int]),
{
    let lo = a0.len() as int;
    let l1 = a1.len() as int;
    let sp = l1 as usize;
    let t = Edge::Id(sp);
    lemma_frag_basics(eexp, lo);
    assert(eid(lo + eexp.size()) == t);
    assert(af =~= a0 + frag_states(Expr::OneOrMore(Box::new(eexp)), lo)) by {
        assert forall|j: int|
            0 <= j < af.len() implies af[j] == (a0 + frag_states(
            Expr::OneOrMore(Box::new(eexp)),
            lo,
        ))[j] by {
            if lo <= j < l1 {
                assert(a1[j] == frag_states(eexp, lo)[j - lo]);
                assert(patched_frag(frag_states(eexp, lo), t)[j - lo] == patch_state(
                    frag_states(eexp, lo)[j - lo],
                    t,
                ));
            }
        }
    }
    assert(frag_states(Expr::OneOrMore(Box::new(eexp)), lo) == frag_states(
        Expr::ZeroOrMore(Box::new(eexp)),
        lo,
    ));
    // the inner fragment is fully wired; only the split's exit is open
    assert forall|j: int| lo <= j < l1 implies no_detached(af[j]) by {
        lemma_patch_clean(a1[j], t);
    }
    assert(!no_detached(af[l1]));
    // the split is reachable from the inner entry through a patched exit
    assert forall|m: int, k: usize|
        0 <= m < a1.len() && #[trigger] has_succ(a1[m], k) implies has_succ(af[m], k) by {
        if lo <= m < l1 {
            lemma_patch_keeps_succ(a1[m], t, k);
        }
    }
    let xj = choose|xj: usize| lo <= (xj as int) < l1 && !no_detached(a1[xj as int]);
    assert(reaches(a1, ee, xj));
    lemma_reach_carries(a1, af, ee, xj);
    lemma_patch_bearing_succ(a1[xj as int], sp);
    assert(has_succ(af[xj as int], sp));
    lemma_reach_append(af, ee, xj, sp);
    lemma_reach_refl(af, sp);
    assert forall|j: usize|
        lo <= (j as int) < af.len() && !no_detached(#[trigger] af[j as int]) implies reaches(
        af,
        ee,
        j,
    ) && reaches(af, sp, j) by {
        assert((j as int) == l1);
    }
}

/// Assembly of an alternation fragment: both fragments followed by a split
/// into their entries; both exit sets stay open and are reachable from the
/// split, which is the entry.
proof fn lemma_or_arm(
    a0: Seq<StateV>,
    a1: Seq<StateV>,
    a2: Seq<StateV>,
    af: Seq<StateV>,
    aexp: Expr,
    bexp: Expr,
    ea: usize,
    eb: usize,
)
    requires
        a1 == a0 + frag_states(aexp, a0.len() as int),
        a2 == a1 + frag_states(bexp, a1.len() as int),
        (ea as int) == frag_entry(aexp, a0.len() as int),
        (eb as int) == frag_entry(bexp, a1.len() as int),
        af == a2.push(StateV::Split { out1: Edge::Id(ea), out2: Edge::Id(eb) }),
        a2.len() < usize::MAX,
        forall|j: usize|
            a0.len() <= (j as int) < a1.len() && !no_detached(#[trigger] a1[j as int])
                ==> reaches(a1, ea, j),
        exists|j: usize|
            a0.len() <= (j as int) < a1.len() && !no_detached(#[trigger] a1[j as int]),
        forall|j: usize|
            a1.len() <= (j as int) < a2.len() && !no_detached(#[trigger] a2[j as int])
                ==> reaches(a2, eb, j),
    ensures
        af == a0 + frag_states(Expr::Or(Box::new(aexp), Box::new(bexp)), a0.len() as int),
        forall|j: usize|
            a0.len() <= (j as int) < af.len() && !no_detached(#[trigger] af[j as int])
                ==> reaches(af, (a2.len() as usize), j),
        exists|j: usize|
            a0.len() <= (j as int) < af.len() && !no_detached(#[trigger] af[j as int]),
{
    let lo = a0.len() as int;
    let l1 = a1.len() as int;
    let l2 = a2.len() as int;
    let sp = l2 as usize;
    lemma_frag_basics(aexp, lo);
    lemma_frag_basics(bexp, l1);
    assert(af =~= a0 + frag_states(Expr::Or(Box::new(aexp), Box::new(bexp)), lo)) by {
        assert forall|j: int|
            0 <= j < af.len() implies af[j] == (a0 + frag_states(
            Expr::Or(Box::new(aexp), Box::new(bexp)),
            lo,
        ))[j] by {
            if lo <= j < l1 {
                assert(a2[j] == a1[j] && a1[j] == frag_states(aexp, lo)[j - lo]);
            } else if l1 <= j < l2 {
                assert(a2[j] == frag_states(bexp, l1)[j - l1]);
            }
        }
    }
    assert forall|m: int, k: usize|
        0 <= m < a1.len() && #[trigger] has_succ(a1[m], k) implies has_succ(af[m], k) by {}
    assert forall|m: int, k: usize|
        0 <= m < a2.len() && #[trigger] has_succ(a2[m], k) implies has_succ(af[m], k) by {}
    let xj = choose|xj: usize| lo <= (xj as int) < l1 && !no_detached(a1[xj as int]);
    assert(!no_detached(af[xj as int]));
    assert forall|j: usize|
        lo <= (j as int) < af.len() && !no_detached(#[trigger] af[j as int]) implies reaches(
        af,
        sp,
        j,
    ) by {
        if (j as int) < l1 {
            assert(a1[j as int] == af[j as int]);
            assert(reaches(a1, ea, j));
            lemma_reach_carries(a1, af, ea, j);
            assert(has_succ(af[sp as int], ea));
            lemma_reach_prepend(af, sp, ea, j);
        } else if (j as int) < l2 {
            assert(a2[j as int] == af[j as int]);
            assert(reaches(a2, eb, j));
            lemma_reach_carries(a2, af, eb, j);
            assert(has_succ(af[sp as int], eb));
            lemma_reach_prepend(af, sp, eb, j);
        }
    }
}

impl NFA {
    /// Compile a syntax tree: build its fragment, patch every exit that is
    /// still open to the terminal transition, and record the entry index as
    /// the start. The finished graph has no `Detached` transition reachable
    /// from the start.
    pub fn from_expr(expr: &Expr) -> (nfa: NFA)
        requires
            expr.single_byte_chars(),
        ensures
            nfa.arena().len() == expr.size(),
            (nfa.spec_start() as int) < nfa.arena().len(),
            arena_wf(nfa.arena()),
            forall|j: usize|
                reaches(nfa.arena(), nfa.spec_start(), j) ==> no_detached(
                    #[trigger] nfa.arena()[j as int],
                ),
            expr.is_literal_chain() ==> forall|j: int|
                0 <= j < nfa.arena().len() ==> consuming_state(#[trigger] nfa.arena()[j])
                    && state_key_terminates(nfa.arena(), nfa.arena()[j]),
            expr.is_token_tree() ==> all_keys_terminate(nfa.arena()),
            nfa.arena() == patched_frag(frag_states(*expr, 0), Edge::End),
            (nfa.spec_start() as int) == frag_entry(*expr, 0),
            forall|j: int| 0 <= j < nfa.arena().len() ==> no_detached(#[trigger] nfa.arena()[j]),
    {
        let mut nfa = Self::new();
        proof {
            assert(all_keys_terminate(nfa.arena()));
        }
        let start = nfa.build_expr(expr, Ghost(expr.is_token_tree()));
        let ghost a0 = nfa.arena();
        nfa.update_outputs(start, Edge::End);
        nfa.start = start;
        let ns = nfa.num_states();
        proof {
            let a1 = nfa.arena();
            assert(a1.len() == ns);
            let vs = choose|vs: Seq<usize>|
                vs[0] == start && #[trigger] patch_trace(a0, a1, vs, Edge::End);
            assert forall|j: int|
                0 <= j < a1.len() implies a1[j] == a0[j] || a1[j] == patch_state(
                a0[j],
                Edge::End,
            ) by {
                if vs.contains(j as usize) {
                    let m = choose|m: int| 0 <= m < vs.len() && vs[m] == j as usize;
                    assert(a1[j] == patch_state(a0[vs[m] as int], Edge::End));
                }
            }
            assert forall|j: usize| reaches(a1, start, j) implies no_detached(
                #[trigger] a1[j as int],
            ) by {
                lemma_trace_clean(a0, a1, vs, j);
            }
            if expr.is_literal_chain() {
                assert forall|j: int| 0 <= j < a1.len() implies consuming_state(#[trigger] a1[j])
                    && state_key_terminates(a1, a1[j]) by {
                    assert(consuming_state(a0[j]));
                    if vs.contains(j as usize) {
                        let m = choose|m: int| 0 <= m < vs.len() && vs[m] == j as usize;
                        assert(a1[j] == patch_state(a0[vs[m] as int], Edge::End));
                    }
                    lemma_consuming_terminates(a1, a1[j]);
                }
            }
            if expr.is_token_tree() {
                assert forall|j: int| 0 <= j < a1.len() implies state_key_terminates(
                    a1,
                    #[trigger] a1[j],
                ) by {
                    let f = choose|f: nat| spec_state_key(a0, a0[j], f) is Some;
                    lemma_state_key_patch_end(a0, a1, a0[j], f);
                    assert(spec_state_key(a1, a1[j], f) is Some);
                }
            }
            assert(a0.len() == a1.len() && a1.len() == ns);
            lemma_from_expr_exact(a0, a1, vs, *expr, start);
        }
        nfa
    }

    /// Lower one syntax-tree node into fresh arena entries and return the
    /// fragment's entry index. The fragment is appended after the existing
    /// arena, which is left untouched, it only links within itself, and its
    /// not-yet-wired exits stay `Detached` for the caller to patch.
    /// Sequencing: build both fragments, then link every open exit of the left one into the right entry.
    #[verifier::rlimit(100)]
    #[verifier::spinoff_prover]
    fn build_seq_node(&mut self, a: &Expr, b: &Expr, Ghost(tok): Ghost<bool>, Ghost(wexp): Ghost<Expr>) -> (entry: usize)
        requires
            wexp == Expr::Sequence(Box::new(*a), Box::new(*b)),
            wexp.single_byte_chars(),
            arena_wf(old(self).arena()),
            tok ==> wexp.is_token_tree() && all_keys_terminate(old(self).arena()),
        ensures
            final(self).spec_start() == old(self).spec_start(),
            final(self).arena() == old(self).arena() + frag_states(
                wexp,
                old(self).arena().len() as int,
            ),
            (entry as int) == frag_entry(wexp, old(self).arena().len() as int),
            forall|j: usize|
                old(self).arena().len() <= (j as int) < final(self).arena().len() && !no_detached(
                    #[trigger] final(self).arena()[j as int],
                ) ==> reaches(final(self).arena(), entry, j),
            exists|j: usize|
                old(self).arena().len() <= (j as int) < final(self).arena().len() && !no_detached(
                    #[trigger] final(self).arena()[j as int],
                ),
            tok ==> all_keys_terminate(final(self).arena()),
        decreases a.size() + b.size(), 0int,
    {
        let ghost a0 = self.arena();
        let ghost lo = a0.len() as int;
        proof {
            lemma_size_pos(*b);
        }
        let left_id = self.build_expr(a, Ghost(tok));
        let ghost a1 = self.arena();
        let ghost l1 = a1.len() as int;
        proof {
            lemma_size_pos(*a);
        }
        let right_id = self.build_expr(b, Ghost(tok));
        let ghost a2 = self.arena();
        let ghost l2 = a2.len() as int;
        let n_mid = self.states.len();
        proof {
            assert(a2.len() == n_mid);
        }
        self.seq_link(left_id, right_id, Ghost(lo), Ghost(l1), Ghost(tok));
        proof {
            lemma_seq_arm(a0, a1, a2, self.arena(), *a, *b, left_id, right_id);
        }
        left_id
    }

    /// Option: build the inner fragment and append a split into it; both exits stay open.
    fn build_opt_node(&mut self, e: &Expr, Ghost(tok): Ghost<bool>, Ghost(wexp): Ghost<Expr>) -> (entry: usize)
        requires
            wexp == Expr::Optional(Box::new(*e)),
            wexp.single_byte_chars(),
            arena_wf(old(self).arena()),
            tok ==> wexp.is_token_tree() && all_keys_terminate(old(self).arena()),
        ensures
            final(self).spec_start() == old(self).spec_start(),
            final(self).arena() == old(self).arena() + frag_states(
                wexp,
                old(self).arena().len() as int,
            ),
            (entry as int) == frag_entry(wexp, old(self).arena().len() as int),
            forall|j: usize|
                old(self).arena().len() <= (j as int) < final(self).arena().len() && !no_detached(
                    #[trigger] final(self).arena()[j as int],
                ) ==> reaches(final(self).arena(), entry, j),
            exists|j: usize|
                old(self).arena().len() <= (j as int) < final(self).arena().len() && !no_detached(
                    #[trigger] final(self).arena()[j as int],
                ),
            tok ==> all_keys_terminate(final(self).arena()),
        decreases e.size() + 1, 0int,
    {
        let ghost a0 = self.arena();
        let ghost lo = a0.len() as int;
        let expr_id = self.build_expr(e, Ghost(tok));
        let ghost a1 = self.arena();
        let s = State::split(Edge::Id(expr_id), Edge::Detached);
        self.states.push(s);
        let n_states = self.states.len();
        proof {
            assert(self.arena().len() == n_states);
            assert(self.arena() =~= a1.push(s@));
            if tok {
                assert(e.is_literal_chain());
                assert(consuming_state(a1[expr_id as int]));
                lemma_terminate_after_split_push(a1, self.arena(), expr_id);
            }
            lemma_opt_arm(a0, a1, self.arena(), *e, expr_id);
        }
        self.states.len() - 1
    }

    /// One-or-more: build the inner fragment, append the loop split, patch the inner exits to it; entry is the inner entry.
    fn build_plus_node(&mut self, e: &Expr, Ghost(tok): Ghost<bool>, Ghost(wexp): Ghost<Expr>) -> (entry: usize)
        requires
            wexp == Expr::OneOrMore(Box::new(*e)),
            wexp.single_byte_chars(),
            arena_wf(old(self).arena()),
            tok ==> wexp.is_token_tree() && all_keys_terminate(old(self).arena()),
        ensures
            final(self).spec_start() == old(self).spec_start(),
            final(self).arena() == old(self).arena() + frag_states(
                wexp,
                old(self).arena().len() as int,
            ),
            (entry as int) == frag_entry(wexp, old(self).arena().len() as int),
            forall|j: usize|
                old(self).arena().len() <= (j as int) < final(self).arena().len() && !no_detached(
                    #[trigger] final(self).arena()[j as int],
                ) ==> reaches(final(self).arena(), entry, j),
            exists|j: usize|
                old(self).arena().len() <= (j as int) < final(self).arena().len() && !no_detached(
                    #[trigger] final(self).arena()[j as int],
                ),
            tok ==> all_keys_terminate(final(self).arena()),
        decreases e.size() + 1, 0int,
    {
        let ghost a0 = self.arena();
        let ghost lo = a0.len() as int;
        let expr_id = self.build_expr(e, Ghost(tok));
        let ghost a1 = self.arena();
        proof {
            if tok {
                assert(e.is_literal_chain());
                assert(consuming_state(self.arena()[expr_id as int]));
            }
        }
        let split_id = self.loop_split(expr_id, Ghost(lo), Ghost(tok));
        let n_states = self.states.len();
        proof {
            let af = self.arena();
            assert(af.len() == n_states);
            assert forall|j: int| 0 <= j < lo implies af[j] == a1[j] by {
                assert(af.take(lo)[j] == af[j]);
                assert(a1.take(lo)[j] == a1[j]);
            }
            lemma_loop_arm(a0, a1, af, *e, expr_id);
        }
        expr_id
    }

    /// Zero-or-more: like one-or-more, but the split itself is the entry so the body may be skipped.
    fn build_star_node(&mut self, e: &Expr, Ghost(tok): Ghost<bool>, Ghost(wexp): Ghost<Expr>) -> (entry: usize)
        requires
            wexp == Expr::ZeroOrMore(Box::new(*e)),
            wexp.single_byte_chars(),
            arena_wf(old(self).arena()),
            tok ==> wexp.is_token_tree() && all_keys_terminate(old(self).arena()),
        ensures
            final(self).spec_start() == old(self).spec_start(),
            final(self).arena() == old(self).arena() + frag_states(
                wexp,
                old(self).arena().len() as int,
            ),
            (entry as int) == frag_entry(wexp, old(self).arena().len() as int),
            forall|j: usize|
                old(self).arena().len() <= (j as int) < final(self).arena().len() && !no_detached(
                    #[trigger] final(self).arena()[j as int],
                ) ==> reaches(final(self).arena(), entry, j),
            exists|j: usize|
                old(self).arena().len() <= (j as int) < final(self).arena().len() && !no_detached(
                    #[trigger] final(self).arena()[j as int],
                ),
            tok ==> all_keys_terminate(final(self).arena()),
        decreases e.size() + 1, 0int,
    {
        let ghost a0 = self.arena();
        let ghost lo = a0.len() as int;
        let expr_id = self.build_expr(e, Ghost(tok));
        let ghost a1 = self.arena();
        proof {
            if tok {
                assert(e.is_literal_chain());
                assert(consuming_state(self.arena()[expr_id as int]));
            }
        }
        let split_id = self.loop_split(expr_id, Ghost(lo), Ghost(tok));
        let n_states = self.states.len();
        proof {
            let af = self.arena();
            assert(af.len() == n_states);
            assert forall|j: int| 0 <= j < lo implies af[j] == a1[j] by {
                assert(af.take(lo)[j] == af[j]);
                assert(a1.take(lo)[j] == a1[j]);
            }
            lemma_loop_arm(a0, a1, af, *e, expr_id);
        }
        split_id
    }

    /// Alternation: build both fragments and append a split into their entries; both exit sets stay open.
    fn build_or_node(&mut self, a: &Expr, b: &Expr, Ghost(tok): Ghost<bool>, Ghost(wexp): Ghost<Expr>) -> (entry: usize)
        requires
            wexp == Expr::Or(Box::new(*a), Box::new(*b)),
            wexp.single_byte_chars(),
            arena_wf(old(self).arena()),
            tok ==> wexp.is_token_tree() && all_keys_terminate(old(self).arena()),
        ensures
            final(self).spec_start() == old(self).spec_start(),
            final(self).arena() == old(self).arena() + frag_states(
                wexp,
                old(self).arena().len() as int,
            ),
            (entry as int) == frag_entry(wexp, old(self).arena().len() as int),
            forall|j: usize|
                old(self).arena().len() <= (j as int) < final(self).arena().len() && !no_detached(
                    #[trigger] final(self).arena()[j as int],
                ) ==> reaches(final(self).arena(), entry, j),
            exists|j: usize|
                old(self).arena().len() <= (j as int) < final(self).arena().len() && !no_detached(
                    #[trigger] final(self).arena()[j as int],
                ),
            tok ==> all_keys_terminate(final(self).arena()),
        decreases a.size() + b.size() + 1, 0int,
    {
        let ghost a0 = self.arena();
        let ghost lo = a0.len() as int;
        proof {
            lemma_size_pos(*b);
        }
        let expr1_id = self.build_expr(a, Ghost(false));
        let ghost a1 = self.arena();
        proof {
            lemma_size_pos(*a);
        }
        let expr2_id = self.build_expr(b, Ghost(false));
        let ghost a2 = self.arena();
        let s = State::split(Edge::Id(expr1_id), Edge::Id(expr2_id));
        self.states.push(s);
        let n_states = self.states.len();
        proof {
            assert(self.arena().len() == n_states);
            assert(self.arena() =~= a2.push(s@));
            lemma_or_arm(a0, a1, a2, self.arena(), *a, *b, expr1_id, expr2_id);
        }
        self.states.len() - 1
    }

    /// Lower one syntax-tree node into fresh arena entries and return the
    /// fragment's entry index. The arena extends by exactly `frag_states` of
    /// the node, the entry is `frag_entry`, the old arena is untouched, and
    /// the fragment's still-open exits are all reachable from the entry.
    fn build_expr(&mut self, expr: &Expr, Ghost(tok): Ghost<bool>) -> (entry: usize)
        requires
            expr.single_byte_chars(),
            arena_wf(old(self).arena()),
            tok ==> expr.is_token_tree() && all_keys_terminate(old(self).arena()),
        ensures
            final(self).spec_start() == old(self).spec_start(),
            final(self).arena().len() == old(self).arena().len() + (*expr).size(),
            arena_wf(final(self).arena()),
            old(self).arena().len() <= (entry as int) < final(self).arena().len(),
            final(self).arena().take(old(self).arena().len() as int) == old(self).arena(),
            slice_contained(
                final(self).arena(),
                old(self).arena().len() as int,
                final(self).arena().len() as int,
            ),
            (*expr).is_literal_chain() ==> forall|j: int|
                old(self).arena().len() <= j < final(self).arena().len() ==> consuming_state(
                    #[trigger] final(self).arena()[j],
                ),
            tok ==> all_keys_terminate(final(self).arena()),
            final(self).arena() == old(self).arena() + frag_states(
                *expr,
                old(self).arena().len() as int,
            ),
            (entry as int) == frag_entry(*expr, old(self).arena().len() as int),
            forall|j: usize|
                old(self).arena().len() <= (j as int) < final(self).arena().len() && !no_detached(
                    #[trigger] final(self).arena()[j as int],
                ) ==> reaches(final(self).arena(), entry, j),
            exists|j: usize|
                old(self).arena().len() <= (j as int) < final(self).arena().len() && !no_detached(
                    #[trigger] final(self).arena()[j as int],
                ),
        decreases expr.size(), 1int,
    {
        let ghost a0 = self.arena();
        let ghost lo = a0.len() as int;
        let id = match expr {
            Expr::Any => {
                let s = State::state(ConditionChar::Any, Edge::Detached);
                self.states.push(s);
                proof {
                    assert(self.arena() =~= a0.push(s@));
                    assert(self.arena() =~= a0 + frag_states(*expr, lo));
                    lemma_reach_refl(self.arena(), lo as usize);
                    assert(!no_detached(self.arena()[lo]));
                    if tok {
                        lemma_terminate_after_push(a0, self.arena(), s@);
                    }
                }
                self.states.len() - 1
            },
            Expr::Single(c) => {
                let s = State::state(ConditionChar::one(*c), Edge::Detached);
                self.states.push(s);
                proof {
                    assert(self.arena() =~= a0.push(s@));
                    assert(self.arena() =~= a0 + frag_states(*expr, lo));
                    lemma_reach_refl(self.arena(), lo as usize);
                    assert(!no_detached(self.arena()[lo]));
                    if tok {
                        lemma_terminate_after_push(a0, self.arena(), s@);
                    }
                }
                self.states.len() - 1
            },
            Expr::Class(chars) => {
                let s = State::state(ConditionChar::class(clone_chars(chars)), Edge::Detached);
                self.states.push(s);
                proof {
                    assert(self.arena() =~= a0.push(s@));
                    assert(self.arena() =~= a0 + frag_states(*expr, lo));
                    lemma_reach_refl(self.arena(), lo as usize);
                    assert(!no_detached(self.arena()[lo]));
                    if tok {
                        lemma_terminate_after_push(a0, self.arena(), s@);
                    }
                }
                self.states.len() - 1
            },
            Expr::Sequence(a, b) => {
                proof {
                    assert(*expr == Expr::Sequence(Box::new(**a), Box::new(**b)));
                }
                self.build_seq_node(a, b, Ghost(tok), Ghost(*expr))
            },
            Expr::Optional(e) => {
                proof {
                    assert(*expr == Expr::Optional(Box::new(**e)));
                }
                self.build_opt_node(e, Ghost(tok), Ghost(*expr))
            },
            Expr::OneOrMore(e) => {
                proof {
                    assert(*expr == Expr::OneOrMore(Box::new(**e)));
                }
                self.build_plus_node(e, Ghost(tok), Ghost(*expr))
            },
            Expr::ZeroOrMore(e) => {
                proof {
                    assert(*expr == Expr::ZeroOrMore(Box::new(**e)));
                }
                self.build_star_node(e, Ghost(tok), Ghost(*expr))
            },
            Expr::Or(a, b) => {
                proof {
                    assert(*expr == Expr::Or(Box::new(**a), Box::new(**b)));
                }
                self.build_or_node(a, b, Ghost(tok), Ghost(*expr))
            },
        };
        let n_final = self.states.len();
        proof {
            let af = self.arena();
            assert(af.len() == n_final);
            lemma_frag_basics(*expr, lo);
            lemma_frag_wf(*expr, lo);
            assert(af.take(lo) =~= a0) by {
                assert forall|j: int| 0 <= j < lo implies af.take(lo)[j] == a0[j] by {
                    assert(af[j] == (a0 + frag_states(*expr, lo))[j]);
                }
            }
            assert forall|j: int| lo <= j < af.len() implies state_in(
                #[trigger] af[j],
                lo,
                af.len() as int,
            ) by {
                assert(af[j] == frag_states(*expr, lo)[j - lo]);
            }
            assert forall|j: int| 0 <= j < af.len() implies state_wf(
                #[trigger] af[j],
                af.len() as int,
            ) by {
                if j < lo {
                    assert(af[j] == a0[j]);
                    assert(state_wf(a0[j], lo));
                } else {
                    assert(state_in(af[j], lo, af.len() as int));
                }
            }
            if (*expr).is_literal_chain() {
                lemma_frag_literal(*expr, lo);
                assert forall|j: int| lo <= j < af.len() implies consuming_state(
                    #[trigger] af[j],
                ) by {
                    assert(af[j] == frag_states(*expr, lo)[j - lo]);
                }
            }
        }
        id
    }

    /// Wire a completed left fragment into the right fragment that follows
    /// it: patch every open exit reachable from `left_id` -- which is every
    /// open exit of the slice `[lo, mid)` -- to `Edge::Id(right_id)`, leaving
    /// everything else untouched.
    fn seq_link(
        &mut self,
        left_id: usize,
        right_id: usize,
        Ghost(lo): Ghost<int>,
        Ghost(mid): Ghost<int>,
        Ghost(tok): Ghost<bool>,
    )
        requires
            arena_wf(old(self).arena()),
            0 <= lo <= (left_id as int) < mid <= (right_id as int) < old(self).arena().len(),
            slice_contained(old(self).arena(), lo, mid),
            slice_contained(old(self).arena(), mid, old(self).arena().len() as int),
            forall|j: usize|
                lo <= (j as int) < mid && !no_detached(#[trigger] old(self).arena()[j as int])
                    ==> reaches(old(self).arena(), left_id, j),
            tok ==> all_keys_terminate(old(self).arena()),
        ensures
            final(self).spec_start() == old(self).spec_start(),
            final(self).arena().len() == old(self).arena().len(),
            arena_wf(final(self).arena()),
            forall|j: int|
                0 <= j < final(self).arena().len() && !(lo <= j < mid) ==> final(self).arena()[j]
                    == old(self).arena()[j],
            forall|j: int|
                lo <= j < mid ==> final(self).arena()[j] == patch_state(
                    old(self).arena()[j],
                    Edge::Id(right_id),
                ),
            tok ==> all_keys_terminate(final(self).arena()),
    {
        let ghost a2 = self.arena();
        self.update_outputs(left_id, Edge::Id(right_id));
        let n_states = self.states.len();
        proof {
            let a3 = self.arena();
            assert(a3.len() == n_states);
            let vs = choose|vs: Seq<usize>|
                vs[0] == left_id && #[trigger] patch_trace(a2, a3, vs, Edge::Id(right_id));
            let t = Edge::Id(right_id);
            assert forall|m: int| 0 <= m < vs.len() implies lo <= (#[trigger] vs[m] as int)
                < mid by {
                lemma_trace_members_reachable(a2, a3, vs, t, m);
                lemma_reaches_in_slice(a2, lo, mid, left_id, vs[m]);
            }
            assert forall|j: int| 0 <= j < a3.len() && !(lo <= j < mid) implies a3[j] == a2[j] by {
                if vs.contains(j as usize) {
                    let m = choose|m: int| 0 <= m < vs.len() && vs[m] == j as usize;
                    assert(lo <= (vs[m] as int) < mid);
                    assert(false);
                }
            }
            assert forall|j: int| lo <= j < mid implies a3[j] == patch_state(a2[j], t) by {
                if vs.contains(j as usize) {
                    let m = choose|m: int| 0 <= m < vs.len() && vs[m] == j as usize;
                    assert(a3[vs[m] as int] == patch_state(a2[vs[m] as int], t));
                } else {
                    if !no_detached(a2[j]) {
                        lemma_patch_links_reachable(a2, a3, vs, t, lo, mid, j as usize);
                        assert(false);
                    }
                    lemma_patch_noop(a2[j], t);
                }
            }
            if tok {
                assert(state_in(a2[right_id as int], mid, a2.len() as int));
                lemma_seq_tok(a2, a3, vs, right_id, mid, a2.len() as int);
            }
        }
    }

    /// Append the loop split of a repetition fragment -- a split looping back
    /// to the fragment's entry, exit still open -- and patch the fragment's
    /// open exits to it.
    fn loop_split(&mut self, expr_id: usize, Ghost(lo): Ghost<int>, Ghost(tok): Ghost<bool>) -> (split_id: usize)
        requires
            arena_wf(old(self).arena()),
            0 <= lo <= (expr_id as int) < old(self).arena().len(),
            slice_contained(old(self).arena(), lo, old(self).arena().len() as int),
            forall|j: usize|
                lo <= (j as int) < old(self).arena().len() && !no_detached(
                    #[trigger] old(self).arena()[j as int],
                ) ==> reaches(old(self).arena(), expr_id, j),
            tok ==> all_keys_terminate(old(self).arena()) && consuming_state(
                old(self).arena()[expr_id as int],
            ),
        ensures
            final(self).spec_start() == old(self).spec_start(),
            final(self).arena().len() == old(self).arena().len() + 1,
            (split_id as int) == old(self).arena().len(),
            arena_wf(final(self).arena()),
            final(self).arena().take(lo) == old(self).arena().take(lo),
            slice_contained(final(self).arena(), lo, final(self).arena().len() as int),
            forall|j: int|
                lo <= j < old(self).arena().len() ==> final(self).arena()[j] == patch_state(
                    old(self).arena()[j],
                    Edge::Id(split_id),
                ),
            final(self).arena()[old(self).arena().len() as int] == (StateV::Split {
                out1: Edge::Id(expr_id),
                out2: Edge::Detached,
            }),
            tok ==> all_keys_terminate(final(self).arena()),
    {
        let ghost a1 = self.arena();
        let ghost l1 = a1.len() as int;
        let s = State::split(Edge::Id(expr_id), Edge::Detached);
        self.states.push(s);
        let split_id = self.states.len() - 1;
        let ghost a2 = self.arena();
        proof {
            assert(a2 =~= a1.push(s@));
            assert forall|j: int| 0 <= j < l1 implies a2[j] == a1[j] by {}
            assert(slice_contained(a2, lo, l1));
            if tok {
                lemma_terminate_after_split_push(a1, a2, expr_id);
            }
        }
        self.update_outputs(expr_id, Edge::Id(split_id));
        let n_states = self.states.len();
        proof {
            let a3 = self.arena();
            assert(a3.len() == n_states);
            let vs = choose|vs: Seq<usize>|
                vs[0] == expr_id && #[trigger] patch_trace(a2, a3, vs, Edge::Id(split_id));
            assert forall|m: int| 0 <= m < vs.len() implies lo <= (#[trigger] vs[m] as int)
                < l1 by {
                lemma_trace_members_reachable(a2, a3, vs, Edge::Id(split_id), m);
                lemma_reaches_in_slice(a2, lo, l1, expr_id, vs[m]);
            }
            assert forall|j: int| 0 <= j < a3.len() && !(lo <= j < l1) implies a3[j] == a2[j] by {
                if vs.contains(j as usize) {
                    let m = choose|m: int| 0 <= m < vs.len() && vs[m] == j as usize;
                    assert(lo <= (vs[m] as int) < l1);
                    assert(false);
                }
            }
            assert forall|j: int| lo <= j < l1 implies a3[j] == patch_state(
                a1[j],
                Edge::Id(split_id),
            ) by {
                assert(a2[j] == a1[j]);
                if vs.contains(j as usize) {
                    let m = choose|m: int| 0 <= m < vs.len() && vs[m] == j as usize;
                    assert(a3[vs[m] as int] == patch_state(a2[vs[m] as int], Edge::Id(split_id)));
                } else {
                    if !no_detached(a2[j]) {
                        assert(reaches(a1, expr_id, j as usize));
                        lemma_reach_carries(a1, a2, expr_id, j as usize);
                        lemma_patch_links_reachable(
                            a2,
                            a3,
                            vs,
                            Edge::Id(split_id),
                            lo,
                            l1,
                            j as usize,
                        );
                        assert(false);
                    }
                    lemma_patch_noop(a2[j], Edge::Id(split_id));
                }
            }
            assert(a3[l1] == a2[l1]);
            assert(a3.take(lo) =~= a1.take(lo)) by {
                assert forall|j: int| 0 <= j < lo implies a3[j] == a1[j] by {}
            }
            assert forall|j: int| lo <= j < a3.len() implies state_in(
                #[trigger] a3[j],
                lo,
                a3.len() as int,
            ) by {
                if lo <= j < l1 {
                    assert(state_in(a2[j], lo, l1));
                    if vs.contains(j as usize) {
                        let m = choose|m: int| 0 <= m < vs.len() && vs[m] == j as usize;
                        assert(a3[j] == patch_state(a2[j], Edge::Id(split_id)));
                    }
                } else {
                    assert(a3[j] == a2[j]);
                }
            }
            if tok {
                assert forall|j: int|
                    0 <= j < a3.len() implies a3[j] == a2[j] || a3[j] == patch_state(
                    a2[j],
                    Edge::Id(split_id),
                ) by {
                    if vs.contains(j as usize) {
                        let m = choose|m: int| 0 <= m < vs.len() && vs[m] == j as usize;
                        assert(a3[j] == patch_state(a2[j], Edge::Id(split_id)));
                    }
                }
                assert(a3[split_id as int] == a2[split_id as int]);
                assert(consuming_state(a3[expr_id as int])) by {
                    if vs.contains(expr_id) {
                        let m = choose|m: int| 0 <= m < vs.len() && vs[m] == expr_id;
                        assert(a3[expr_id as int] == patch_state(a2[expr_id as int], Edge::Id(split_id)));
                    }
                }
                assert(spec_state_key(a3, a3[expr_id as int], 1) is Some);
                assert(spec_state_key(a3, a3[split_id as int], 2) is Some);
                lemma_terminate_after_patch(a2, a3, split_id, 2);
            }
        }
        split_id
    }
}

/// A fresh character vector with the same contents.
fn clone_chars(v: &Vec<char>) -> (r: Vec<char>)
    ensures
        r@ == v@,
{
    let mut r: Vec<char> = Vec::new();
    let mut i: usize = 0;
    while i < v.len()
        invariant
            i <= v@.len(),
            r@ == v@.take(i as int),
        decreases v@.len() - i,
    {
        r.push(v[i]);
        i = i + 1;
        proof {
            assert(v@.take(i as int) =~= v@.take(i as int - 1).push(v@[i as int - 1]));
        }
    }
    proof {
        assert(v@.take(v@.len() as int) =~= v@);
    }
    r
}

/// Fuel-indexed priority of a state: the byte value for a literal match, 0
/// for `Any` and classes, and for splits the smaller priority of the two
/// successors, following epsilon chains. `None` when the chain is longer than
/// the fuel allows; on the graphs the builder produces some fuel always
/// suffices.
pub open spec fn spec_state_key(a: Seq<StateV>, s: StateV, fuel: nat) -> Option<nat>
    decreases fuel, 1int,
{
    match s {
        StateV::State { condition, out } => spec_trans_key(a, condition, out, fuel),
        StateV::Split { out1, out2 } => {
            let k1 = spec_trans_key(a, CondV::Epsilon, out1, fuel);
            let k2 = spec_trans_key(a, CondV::Epsilon, out2, fuel);
            if k1 is Some && k2 is Some {
                if k1->Some_0 <= k2->Some_0 {
                    k1
                } else {
                    k2
                }
            } else {
                None
            }
        },
    }
}

/// Fuel-indexed priority of one transition, resolved as `spec_state_key`
/// describes; an `Epsilon` condition follows the edge, and a dead epsilon end
/// is least preferred.
pub open spec fn spec_trans_key(a: Seq<StateV>, c: CondV, out: Edge, fuel: nat) -> Option<nat>
    decreases fuel, 0int,
{
    match c {
        CondV::One(b) => Some(b as nat),
        CondV::Any => Some(0),
        CondV::Class(_) => Some(0),
        CondV::Epsilon => match out {
            Edge::Id(id) => if fuel == 0 || (id as int) >= a.len() {
                None
            } else {
                spec_state_key(a, a[id as int], (fuel - 1) as nat)
            },
            _ => Some(usize::MAX as nat),
        },
    }
}

/// Some fuel resolves the state's priority.
pub open spec fn state_key_terminates(a: Seq<StateV>, s: StateV) -> bool {
    exists|f: nat| spec_state_key(a, s, f) is Some
}

/// Some fuel resolves the transition's priority.
pub open spec fn trans_key_terminates(a: Seq<StateV>, c: CondV, out: Edge) -> bool {
    exists|f: nat| spec_trans_key(a, c, out, f) is Some
}

/// The least fuel resolving the state's priority.
pub open spec fn state_key_fuel(a: Seq<StateV>, s: StateV) -> nat {
    choose|f: nat|
        spec_state_key(a, s, f) is Some && (forall|g: nat|
            g < f ==> spec_state_key(a, s, g) is None)
}

/// The least fuel resolving the transition's priority.
pub open spec fn trans_key_fuel(a: Seq<StateV>, c: CondV, out: Edge) -> nat {
    choose|f: nat|
        spec_trans_key(a, c, out, f) is Some && (forall|g: nat|
            g < f ==> spec_trans_key(a, c, out, g) is None)
}

/// The state's priority: its value at the least sufficient fuel.
pub open spec fn state_key(a: Seq<StateV>, s: StateV) -> nat {
    spec_state_key(a, s, state_key_fuel(a, s))->Some_0
}

/// The transition's priority: its value at the least sufficient fuel.
pub open spec fn trans_key(a: Seq<StateV>, c: CondV, out: Edge) -> nat {
    spec_trans_key(a, c, out, trans_key_fuel(a, c, out))->Some_0
}

/// If some fuel resolves the state, the least such fuel is well defined.
proof fn lemma_state_min_fuel(a: Seq<StateV>, s: StateV, f: nat)
    requires
        spec_state_key(a, s, f) is Some,
    ensures
        spec_state_key(a, s, state_key_fuel(a, s)) is Some,
        state_key_fuel(a, s) <= f,
        forall|g: nat| g < state_key_fuel(a, s) ==> spec_state_key(a, s, g) is None,
    decreases f,
{
    if exists|g: nat| g < f && spec_state_key(a, s, g) is Some {
        let g = choose|g: nat| g < f && spec_state_key(a, s, g) is Some;
        lemma_state_min_fuel(a, s, g);
    } else {
        assert(spec_state_key(a, s, f) is Some && (forall|g: nat|
            g < f ==> spec_state_key(a, s, g) is None));
        let m = state_key_fuel(a, s);
        assert(spec_state_key(a, s, m) is Some && (forall|g: nat|
            g < m ==> spec_state_key(a, s, g) is None));
        if m > f {
            assert(spec_state_key(a, s, f) is None);
        }
    }
}

/// If some fuel resolves the transition, the least such fuel is well defined.
proof fn lemma_trans_min_fuel(a: Seq<StateV>, c: CondV, out: Edge, f: nat)
    requires
        spec_trans_key(a, c, out, f) is Some,
    ensures
        spec_trans_key(a, c, out, trans_key_fuel(a, c, out)) is Some,
        trans_key_fuel(a, c, out) <= f,
        forall|g: nat| g < trans_key_fuel(a, c, out) ==> spec_trans_key(a, c, out, g) is None,
    decreases f,
{
    if exists|g: nat| g < f && spec_trans_key(a, c, out, g) is Some {
        let g = choose|g: nat| g < f && spec_trans_key(a, c, out, g) is Some;
        lemma_trans_min_fuel(a, c, out, g);
    } else {
        assert(spec_trans_key(a, c, out, f) is Some && (forall|g: nat|
            g < f ==> spec_trans_key(a, c, out, g) is None));
        let m = trans_key_fuel(a, c, out);
        assert(spec_trans_key(a, c, out, m) is Some && (forall|g: nat|
            g < m ==> spec_trans_key(a, c, out, g) is None));
        if m > f {
            assert(spec_trans_key(a, c, out, f) is None);
        }
    }
}

/// Once enough fuel resolves a state's priority, more fuel gives the same
/// value.
proof fn lemma_state_mono(a: Seq<StateV>, s: StateV, f1: nat, f2: nat)
    requires
        f1 <= f2,
        spec_state_key(a, s, f1) is Some,
    ensures
        spec_state_key(a, s, f2) == spec_state_key(a, s, f1),
    decreases f1, 1int,
{
    match s {
        StateV::State { condition, out } => {
            lemma_trans_mono(a, condition, out, f1, f2);
        },
        StateV::Split { out1, out2 } => {
            lemma_trans_mono(a, CondV::Epsilon, out1, f1, f2);
            lemma_trans_mono(a, CondV::Epsilon, out2, f1, f2);
        },
    }
}

/// Once enough fuel resolves a transition's priority, more fuel gives the
/// same value.
proof fn lemma_trans_mono(a: Seq<StateV>, c: CondV, out: Edge, f1: nat, f2: nat)
    requires
        f1 <= f2,
        spec_trans_key(a, c, out, f1) is Some,
    ensures
        spec_trans_key(a, c, out, f2) == spec_trans_key(a, c, out, f1),
    decreases f1, 0int,
{
    match c {
        CondV::Epsilon => match out {
            Edge::Id(id) => {
                assert(f1 >= 1);
                lemma_state_mono(a, a[id as int], (f1 - 1) as nat, (f2 - 1) as nat);
            },
            _ => {},
        },
        _ => {},
    }
}

/// A literal match state ranks by its byte value, whatever its successor.
pub proof fn lemma_priority_one(a: Seq<StateV>, b: u8, out: Edge)
    ensures
        state_key_terminates(a, StateV::State { condition: CondV::One(b), out }),
        state_key(a, StateV::State { condition: CondV::One(b), out }) == b as nat,
{
    let s = StateV::State { condition: CondV::One(b), out };
    assert(spec_state_key(a, s, 0) is Some);
    lemma_state_min_fuel(a, s, 0);
}

/// A wildcard match state always has the maximal preference 0.
pub proof fn lemma_priority_any(a: Seq<StateV>, out: Edge)
    ensures
        state_key_terminates(a, StateV::State { condition: CondV::Any, out }),
        state_key(a, StateV::State { condition: CondV::Any, out }) == 0,
{
    let s = StateV::State { condition: CondV::Any, out };
    assert(spec_state_key(a, s, 0) is Some);
    lemma_state_min_fuel(a, s, 0);
}

/// A class match state has priority 0 regardless of its contents.
pub proof fn lemma_priority_class(a: Seq<StateV>, cs: Seq<u8>, out: Edge)
    ensures
        state_key_terminates(a, StateV::State { condition: CondV::Class(cs), out }),
        state_key(a, StateV::State { condition: CondV::Class(cs), out }) == 0,
{
    let s = StateV::State { condition: CondV::Class(cs), out };
    assert(spec_state_key(a, s, 0) is Some);
    lemma_state_min_fuel(a, s, 0);
}

/// A dead-end epsilon transition -- one that terminates without consuming --
/// is least preferred.
pub proof fn lemma_priority_dead_end(a: Seq<StateV>, out: Edge)
    requires
        !(out matches Edge::Id(_)),
    ensures
        state_key_terminates(a, StateV::State { condition: CondV::Epsilon, out }),
        state_key(a, StateV::State { condition: CondV::Epsilon, out }) == usize::MAX as nat,
{
    let s = StateV::State { condition: CondV::Epsilon, out };
    assert(spec_state_key(a, s, 0) is Some);
    lemma_state_min_fuel(a, s, 0);
}

impl State {
    /// A consuming state.
    pub fn state(condition: ConditionChar, out: Edge) -> (r: State)
        ensures
            r@ == (StateV::State { condition: condition@, out }),
    {
        State::State { condition, out }
    }

    /// A split state.
    pub fn split(out1: Edge, out2: Edge) -> (r: State)
        ensures
            r@ == (StateV::Split { out1, out2 }),
    {
        State::Split { out1, out2 }
    }

    /// The greedy-priority key of this state within `nfa`: lower wins. Keyed
    /// by greediness and the byte value of the condition; split states take
    /// the better of their two successors, following epsilon chains. The
    /// recursion carries no visited set, so it is only callable on graphs
    /// whose epsilon chains bottom out, which the builder's structural
    /// invariant provides.
    pub fn get_priority_key(&self, nfa: &NFA) -> (r: usize)
        requires
            state_key_terminates(nfa.arena(), self@),
        ensures
            r == state_key(nfa.arena(), self@),
        decreases state_key_fuel(nfa.arena(), self@), 1int,
    {
        let ghost a = nfa.arena();
        proof {
            let f0 = choose|f: nat| spec_state_key(a, self@, f) is Some;
            lemma_state_min_fuel(a, self@, f0);
        }
        let ghost fs = state_key_fuel(a, self@);
        match self {
            State::State { condition, out } => {
                proof {
                    assert(spec_trans_key(a, condition@, *out, fs) is Some);
                    lemma_trans_min_fuel(a, condition@, *out, fs);
                }
                let r = Self::get_transition_priority_key(condition, out, nfa);
                proof {
                    lemma_trans_mono(a, condition@, *out, trans_key_fuel(a, condition@, *out), fs);
                }
                r
            },
            State::Split { out1, out2 } => {
                proof {
                    assert(spec_trans_key(a, CondV::Epsilon, *out1, fs) is Some);
                    assert(spec_trans_key(a, CondV::Epsilon, *out2, fs) is Some);
                    lemma_trans_min_fuel(a, CondV::Epsilon, *out1, fs);
                    lemma_trans_min_fuel(a, CondV::Epsilon, *out2, fs);
                }
                let eps1 = ConditionChar::Epsilon;
                let k1 = Self::get_transition_priority_key(&eps1, out1, nfa);
                let k2 = Self::get_transition_priority_key(&eps1, out2, nfa);
                proof {
                    lemma_trans_mono(a, CondV::Epsilon, *out1, trans_key_fuel(a, CondV::Epsilon, *out1), fs);
                    lemma_trans_mono(a, CondV::Epsilon, *out2, trans_key_fuel(a, CondV::Epsilon, *out2), fs);
                }
                if k1 <= k2 {
                    k1
                } else {
                    k2
                }
            },
        }
    }

    /// The priority contribution of one transition: a byte's value for a
    /// literal, 0 for `Any` and classes, and for the non-consuming sentinel
    /// the linked state's own key, or the maximum value when the transition
    /// terminates without consuming.
    fn get_transition_priority_key(condition: &ConditionChar, out: &Edge, nfa: &NFA) -> (r: usize)
        requires
            trans_key_terminates(nfa.arena(), condition@, *out),
        ensures
            r == trans_key(nfa.arena(), condition@, *out),
        decreases trans_key_fuel(nfa.arena(), condition@, *out), 0int,
    {
        let ghost a = nfa.arena();
        proof {
            let f0 = choose|f: nat| spec_trans_key(a, condition@, *out, f) is Some;
            lemma_trans_min_fuel(a, condition@, *out, f0);
        }
        let ghost ft = trans_key_fuel(a, condition@, *out);
        match condition {
            ConditionChar::One(c) => *c as usize,
            ConditionChar::Any => 0,
            ConditionChar::Epsilon => {
                match out {
                    Edge::Id(id) => {
                        proof {
                            assert(ft >= 1 && (*id as int) < a.len());
                            assert(spec_state_key(a, a[*id as int], (ft - 1) as nat) is Some);
                            lemma_state_min_fuel(a, a[*id as int], (ft - 1) as nat);
                        }
                        let next_state = nfa.get_state(*id).unwrap();
                        let r = next_state.get_priority_key(nfa);
                        proof {
                            lemma_state_mono(
                                a,
                                a[*id as int],
                                state_key_fuel(a, a[*id as int]),
                                (ft - 1) as nat,
                            );
                        }
                        r
                    },
                    _ => usize::MAX,
                }
            },
            ConditionChar::Class(_) => 0,
        }
    }
}

} // verus!
