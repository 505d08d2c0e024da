//! Chip-agnostic assignment of requirements to candidates.
//!
//! Every scarce thing is an opaque [`Res`] token. A [`Requirement`] offers
//! candidate allocations, each a set of tokens it would lock; a solver gives at
//! most one candidate to each requirement so that no two share a token. A pool of
//! N channels is N distinct tokens, so "demand <= capacity" needs no rule of its
//! own.

use vstd::prelude::*;

use crate::mcu_pinout::PinId;
use crate::order;
use crate::order::order_of;
use crate::order::picked;
use crate::text;
use crate::tokens::keys_of;
use crate::tokens::Bag;
use crate::tokens::Token;
use crate::tokens::TokenKey;

verus! {

/// An exclusion token.
#[derive(Copy, Clone, Debug, PartialEq, Eq, Hash)]
pub enum Res {
    /// A whole peripheral instance, e.g. `Inst("USART", 2)`.
    Inst(&'static str, u8),
    /// One channel of a DMA controller pool, e.g. `Pool("DMA1", 3)`.
    Pool(&'static str, u8),
    /// A physical pin.
    Pin(PinId),
    /// A part of an instance, such as an ADC input channel.
    Sub(&'static str, u8, u8),
    /// An internal route, e.g. `Route("comp_tim_break", comp, tim, brk)`.
    Route(&'static str, u8, u8, u8),
}

impl Token for Res {
    open spec fn key(&self) -> TokenKey {
        match *self {
            Res::Inst(s, a) => TokenKey { kind: 0, name: s@, a: a as int, b: 0, c: 0 },
            Res::Pool(s, a) => TokenKey { kind: 1, name: s@, a: a as int, b: 0, c: 0 },
            Res::Pin(p) => TokenKey {
                kind: 2,
                name: Seq::empty(),
                a: p.port as int,
                b: p.num as int,
                c: 0,
            },
            Res::Sub(s, a, b) => TokenKey { kind: 3, name: s@, a: a as int, b: b as int, c: 0 },
            Res::Route(s, a, b, c) => TokenKey {
                kind: 4,
                name: s@,
                a: a as int,
                b: b as int,
                c: c as int,
            },
        }
    }

    fn is(&self, other: &Self) -> (r: bool) {
        match (*self, *other) {
            (Res::Inst(s, a), Res::Inst(t, x)) => a == x && text::same(s, t),
            (Res::Pool(s, a), Res::Pool(t, x)) => a == x && text::same(s, t),
            (Res::Pin(p), Res::Pin(q)) => p.port == q.port && p.num == q.num,
            (Res::Sub(s, a, b), Res::Sub(t, x, y)) => a == x && b == y && text::same(s, t),
            (Res::Route(s, a, b, c), Res::Route(t, x, y, z)) => a == x && b == y && c == z
                && text::same(s, t),
            _ => false,
        }
    }
}

/// A set of locked tokens.
pub type ResBag = Bag<Res>;

/// One way to satisfy a requirement: the tokens it would lock, and a label.
#[derive(Clone, Debug, PartialEq, Eq)]
pub struct Candidate {
    pub label: String,
    pub tokens: Vec<Res>,
}

impl Candidate {
    /// What the candidate locks.
    pub open spec fn locks(&self) -> Set<TokenKey> {
        keys_of(self.tokens@)
    }

    /// A candidate with the given label and tokens.
    pub fn new(label: &str, tokens: Vec<Res>) -> (r: Self)
        ensures
            r.label@ == label@,
            r.tokens == tokens,
    {
        Candidate { label: label.to_owned(), tokens }
    }

    /// Whether every token this candidate needs is free given `used`.
    pub fn fits(&self, used: &ResBag) -> (r: bool)
        ensures
            r == self.locks().disjoint(used@),
    {
        let mut i: usize = 0;
        while i < self.tokens.len()
            invariant
                i <= self.tokens@.len(),
                forall|j: int| 0 <= j < i ==> !used@.contains((#[trigger] self.tokens@[j]).key()),
            decreases self.tokens@.len() - i,
        {
            if used.contains(&self.tokens[i]) {
                proof {
                    assert(self.locks().contains(self.tokens@[i as int].key()));
                }
                return false;
            }
            i += 1;
        }
        true
    }
}

/// A demand: an id and the candidates that satisfy it, in preference order.
#[derive(Clone, Debug)]
pub struct Requirement {
    pub id: u32,
    pub candidates: Vec<Candidate>,
}

/// The outcome of solving a set of requirements.
#[derive(Clone, Debug, PartialEq, Eq)]
pub struct Solution {
    /// `(requirement id, chosen candidate index)` of each satisfied requirement.
    pub assigned: Vec<(u32, usize)>,
    /// Ids of requirements without a conflict-free candidate.
    pub unmet: Vec<u32>,
    /// The search ran out of nodes before it had proved either way: the
    /// result is then a partial one, no proof that there is none.
    pub indeterminate: bool,
}

impl Default for Solution {
    fn default() -> (r: Self)
        ensures
            r.assigned@ == Seq::<(u32, usize)>::empty(),
            r.unmet@ == Seq::<u32>::empty(),
            !r.indeterminate,
    {
        Solution { assigned: Vec::new(), unmet: Vec::new(), indeterminate: false }
    }
}

impl Solution {
    /// Whether every requirement was satisfied.
    pub fn is_feasible(&self) -> (r: bool)
        ensures
            r == (self.unmet@.len() == 0),
    {
        self.unmet.len() == 0
    }
}

/// The first candidate from position `k` on that fits, when there is one.
pub open spec fn first_fit(cands: Seq<Candidate>, used: Set<TokenKey>, k: int) -> Option<int>
    decreases cands.len() - k,
{
    if k < 0 || k >= cands.len() {
        None
    } else if cands[k].locks().disjoint(used) {
        Some(k)
    } else {
        first_fit(cands, used, k + 1)
    }
}

/// What the first `n` requirements lock when each takes its first fit in turn.
pub open spec fn greedy_used(reqs: Seq<Requirement>, n: int) -> Set<TokenKey>
    decreases n, 0int,
{
    if n <= 0 {
        Set::empty()
    } else {
        match greedy_pick(reqs, n - 1) {
            Some(k) => greedy_used(reqs, n - 1).union(reqs[n - 1].candidates@[k].locks()),
            None => greedy_used(reqs, n - 1),
        }
    }
}

/// The candidate that requirement `i` takes, when all before it have taken theirs.
pub open spec fn greedy_pick(reqs: Seq<Requirement>, i: int) -> Option<int>
    decreases i, 1int,
{
    if i < 0 {
        None
    } else {
        first_fit(reqs[i].candidates@, greedy_used(reqs, i), 0)
    }
}

/// The greedy assignments of the first `n` requirements.
pub open spec fn greedy_assigned(reqs: Seq<Requirement>, n: int) -> Seq<(u32, usize)>
    decreases n,
{
    if n <= 0 {
        Seq::empty()
    } else {
        match greedy_pick(reqs, n - 1) {
            Some(k) => greedy_assigned(reqs, n - 1).push((reqs[n - 1].id, k as usize)),
            None => greedy_assigned(reqs, n - 1),
        }
    }
}

/// The ids among the first `n` requirements that greedy assignment leaves out.
pub open spec fn greedy_unmet(reqs: Seq<Requirement>, n: int) -> Seq<u32>
    decreases n,
{
    if n <= 0 {
        Seq::empty()
    } else {
        match greedy_pick(reqs, n - 1) {
            Some(k) => greedy_unmet(reqs, n - 1),
            None => greedy_unmet(reqs, n - 1).push(reqs[n - 1].id),
        }
    }
}

/// Greedy first-fit assignment: requirements in order, each locks its first
/// candidate that collides with nothing locked before.
pub fn assign_greedy(reqs: &[Requirement]) -> (r: Solution)
    ensures
        r.assigned@ == greedy_assigned(reqs@, reqs@.len() as int),
        r.unmet@ == greedy_unmet(reqs@, reqs@.len() as int),
        !r.indeterminate,
{
    let mut used: ResBag = Bag::new();
    let mut sol: Solution = Solution { assigned: Vec::new(), unmet: Vec::new(), indeterminate: false };
    let mut i: usize = 0;
    while i < reqs.len()
        invariant
            i <= reqs@.len(),
            used.wf(),
            used@ == greedy_used(reqs@, i as int),
            sol.assigned@ == greedy_assigned(reqs@, i as int),
            sol.unmet@ == greedy_unmet(reqs@, i as int),
            !sol.indeterminate,
        decreases reqs@.len() - i,
    {
        let cands: &Vec<Candidate> = &reqs[i].candidates;
        let mut k: usize = 0;
        while k < cands.len() && !cands[k].fits(&used)
            invariant
                k <= cands@.len(),
                first_fit(cands@, used@, 0) == first_fit(cands@, used@, k as int),
            decreases cands@.len() - k,
        {
            k += 1;
        }
        proof {
            reveal_with_fuel(greedy_used, 2);
            assert(greedy_pick(reqs@, i as int) == first_fit(cands@, used@, 0));
        }
        if k < cands.len() {
            used.extend(&cands[k].tokens);
            sol.assigned.push((reqs[i].id, k));
        } else {
            sol.unmet.push(reqs[i].id);
        }
        i += 1;
    }
    sol
}

/// One candidate for each requirement, by requirement index, no two of which
/// share a token.
pub open spec fn consistent(reqs: Seq<Requirement>, choice: Seq<int>) -> bool {
    &&& choice.len() == reqs.len()
    &&& forall|i: int|
        0 <= i < reqs.len() ==> 0 <= #[trigger] choice[i] < reqs[i].candidates@.len()
    &&& forall|i: int, j: int|
        0 <= i < j < reqs.len() ==> (#[trigger] locked_by(reqs, choice, i)).disjoint(
            #[trigger] locked_by(reqs, choice, j),
        )
}

/// What requirement `i` locks under a choice.
pub open spec fn locked_by(reqs: Seq<Requirement>, choice: Seq<int>, i: int) -> Set<TokenKey> {
    reqs[i].candidates@[choice[i]].locks()
}

/// Whether all requirements can be satisfied together.
pub open spec fn satisfiable(reqs: Seq<Requirement>) -> bool {
    exists|choice: Seq<int>| consistent(reqs, choice)
}

/// How the search for a complete assignment ends.
#[derive(Copy, Clone, Debug, PartialEq, Eq, Structural)]
pub enum Search {
    Complete,
    Infeasible,
    BudgetExhausted,
}

/// Where the search stands when it ends: its verdict, the candidates picked so
/// far in the order of the search, and the nodes it has visited.
pub ghost struct Trace {
    pub verdict: Search,
    pub picks: Seq<usize>,
    pub nodes: int,
}

/// The depth-first search: the requirement at position `pos` of `order` tries its
/// candidates from `idx` on; each candidate that fits is a node, and leads to the
/// next requirement; where none leads to a complete assignment, the search steps
/// back.
pub open spec fn explore(
    reqs: Seq<Requirement>,
    order: Seq<usize>,
    pos: int,
    idx: int,
    used: Set<TokenKey>,
    picks: Seq<usize>,
    budget: int,
    nodes: int,
) -> Trace
    decreases order.len() - pos, reqs[order[pos] as int].candidates@.len() - idx,
{
    if pos < 0 || pos >= order.len() {
        Trace { verdict: Search::Complete, picks, nodes }
    } else {
        let cands = reqs[order[pos] as int].candidates@;
        if idx < 0 || idx >= cands.len() {
            Trace { verdict: Search::Infeasible, picks, nodes }
        } else if !cands[idx].locks().disjoint(used) {
            explore(reqs, order, pos, idx + 1, used, picks, budget, nodes)
        } else if nodes + 1 > budget {
            Trace { verdict: Search::BudgetExhausted, picks, nodes: nodes + 1 }
        } else {
            let sub = explore(
                reqs,
                order,
                pos + 1,
                0,
                used.union(cands[idx].locks()),
                picks.push(idx as usize),
                budget,
                nodes + 1,
            );
            if sub.verdict == Search::Infeasible {
                explore(reqs, order, pos, idx + 1, used, picks, budget, sub.nodes)
            } else {
                sub
            }
        }
    }
}

/// The picks of a search as pairs of requirement id and candidate index.
pub open spec fn pick_pairs(
    reqs: Seq<Requirement>,
    order: Seq<usize>,
    picks: Seq<usize>,
) -> Seq<(u32, usize)> {
    Seq::new(picks.len(), |p: int| (reqs[order[p] as int].id, picks[p]))
}

/// The number of candidates of the first `n` requirements, at least one each.
pub open spec fn candidate_total(reqs: Seq<Requirement>, n: int) -> int
    decreases n,
{
    if n <= 0 {
        0
    } else {
        candidate_total(reqs, n - 1) + (if reqs[n - 1].candidates@.len() > 0 {
            reqs[n - 1].candidates@.len() as int
        } else {
            1
        })
    }
}

/// How many nodes a search would visit at most, on a machine without limits.
pub open spec fn wished_budget(reqs: Seq<Requirement>) -> int {
    1_000_000 + candidate_total(reqs, reqs.len() as int) * reqs.len() * 64
}

/// How many nodes a search may visit: no more than a counter can go beyond.
pub open spec fn budget_for(reqs: Seq<Requirement>) -> int {
    if wished_budget(reqs) < usize::MAX {
        wished_budget(reqs)
    } else {
        usize::MAX - 1
    }
}

/// Fewest candidates first.
pub open spec fn search_order(reqs: Seq<Requirement>) -> Seq<usize> {
    order_of(Seq::new(reqs.len(), |i: int| reqs[i].candidates@.len() as u64))
}

/// The whole search.
pub open spec fn search(reqs: Seq<Requirement>) -> Trace {
    explore(
        reqs,
        search_order(reqs),
        0,
        0,
        Set::empty(),
        Seq::empty(),
        budget_for(reqs),
        0,
    )
}

/// Pairs in ascending order of their requirement id.
pub open spec fn by_id(pairs: Seq<(u32, usize)>) -> Seq<(u32, usize)> {
    picked(pairs, order_of(pairs.map_values(|p: (u32, usize)| p.0 as u64)))
}

/// The picks, position by position of `order`, are candidates of their
/// requirements, and no two share a token.
pub open spec fn picks_agree(reqs: Seq<Requirement>, order: Seq<usize>, picks: Seq<usize>) -> bool {
    &&& picks.len() <= order.len()
    &&& forall|p: int|
        0 <= p < picks.len() ==> (#[trigger] picks[p])
            < reqs[order[p] as int].candidates@.len()
    &&& forall|p: int, q: int|
        0 <= p < q < picks.len() ==> (#[trigger] pick_locks(reqs, order, picks, p)).disjoint(
            #[trigger] pick_locks(reqs, order, picks, q),
        )
}

/// What the pick at position `p` locks.
pub open spec fn pick_locks(
    reqs: Seq<Requirement>,
    order: Seq<usize>,
    picks: Seq<usize>,
    p: int,
) -> Set<TokenKey> {
    reqs[order[p] as int].candidates@[picks[p] as int].locks()
}

/// `used` is what the picks lock together.
pub open spec fn used_by_picks(
    reqs: Seq<Requirement>,
    order: Seq<usize>,
    picks: Seq<usize>,
    used: Set<TokenKey>,
) -> bool {
    forall|k: TokenKey| #[trigger]
        used.contains(k) <==> exists|p: int|
            0 <= p < picks.len() && #[trigger] pick_locks(reqs, order, picks, p).contains(k)
}

proof fn picks_extend(
    reqs: Seq<Requirement>,
    order: Seq<usize>,
    picks: Seq<usize>,
    used: Set<TokenKey>,
    idx: int,
)
    requires
        picks_agree(reqs, order, picks),
        used_by_picks(reqs, order, picks, used),
        picks.len() < order.len(),
        0 <= idx < reqs[order[picks.len() as int] as int].candidates@.len(),
        reqs[order[picks.len() as int] as int].candidates@.len() <= usize::MAX,
        reqs[order[picks.len() as int] as int].candidates@[idx].locks().disjoint(used),
    ensures
        picks_agree(reqs, order, picks.push(idx as usize)),
        used_by_picks(
            reqs,
            order,
            picks.push(idx as usize),
            used.union(reqs[order[picks.len() as int] as int].candidates@[idx].locks()),
        ),
{
    let n = picks.len() as int;
    let more = picks.push(idx as usize);
    let new = reqs[order[n] as int].candidates@[idx].locks();
    assert(pick_locks(reqs, order, more, n) == new);
    assert forall|p: int| 0 <= p < n implies pick_locks(reqs, order, more, p) == #[trigger] pick_locks(
        reqs,
        order,
        picks,
        p,
    ) by {}
    assert forall|p: int, q: int| 0 <= p < q < more.len() implies (#[trigger] pick_locks(
        reqs,
        order,
        more,
        p,
        )).disjoint(#[trigger] pick_locks(reqs, order, more, q)) by {
        if q < n {
            assert(pick_locks(reqs, order, picks, p).disjoint(pick_locks(reqs, order, picks, q)));
        } else {
            assert forall|k: TokenKey| pick_locks(reqs, order, more, p).contains(
                k,
            ) implies !new.contains(k) by {
                assert(pick_locks(reqs, order, picks, p).contains(k));
                assert(used.contains(k));
            }
        }
    }
    assert forall|p: int| 0 <= p < more.len() implies (#[trigger] more[p])
        < reqs[order[p] as int].candidates@.len() by {
        if p < n {
            assert(more[p] == picks[p]);
        }
    }
    assert(picks_agree(reqs, order, more));
    let all = used.union(new);
    assert forall|k: TokenKey| #[trigger]
        all.contains(k) <==> exists|p: int|
            0 <= p < more.len() && #[trigger] pick_locks(reqs, order, more, p).contains(k) by {
        if used.contains(k) {
            let p = choose|p: int|
                0 <= p < n && #[trigger] pick_locks(reqs, order, picks, p).contains(k);
            assert(pick_locks(reqs, order, more, p).contains(k));
        }
        if new.contains(k) {
            assert(pick_locks(reqs, order, more, n).contains(k));
        }
        if exists|p: int|
            0 <= p < more.len() && #[trigger] pick_locks(reqs, order, more, p).contains(k) {
            let p = choose|p: int|
                0 <= p < more.len() && #[trigger] pick_locks(reqs, order, more, p).contains(k);
            if p < n {
                assert(pick_locks(reqs, order, picks, p).contains(k));
            }
        }
    }
}

/// A search that ends complete has picked one candidate for every requirement,
/// and no two picks share a token.
pub proof fn explore_is_sound(
    reqs: Seq<Requirement>,
    order: Seq<usize>,
    pos: int,
    idx: int,
    used: Set<TokenKey>,
    picks: Seq<usize>,
    budget: int,
    nodes: int,
)
    requires
        0 <= pos <= order.len(),
        0 <= idx,
        picks.len() == pos,
        picks_agree(reqs, order, picks),
        used_by_picks(reqs, order, picks, used),
        forall|p: int|
            0 <= p < order.len() ==> reqs[(#[trigger] order[p]) as int].candidates@.len()
                <= usize::MAX,
    ensures
        ({
            let t = explore(reqs, order, pos, idx, used, picks, budget, nodes);
            t.verdict == Search::Complete ==> t.picks.len() == order.len() && picks_agree(
                reqs,
                order,
                t.picks,
            )
        }),
    decreases order.len() - pos, reqs[order[pos] as int].candidates@.len() - idx,
{
    if pos < order.len() {
        let cands = reqs[order[pos] as int].candidates@;
        if idx < cands.len() {
            if !cands[idx].locks().disjoint(used) {
                explore_is_sound(reqs, order, pos, idx + 1, used, picks, budget, nodes);
            } else if nodes + 1 <= budget {
                assert(reqs[order[pos] as int].candidates@.len() <= usize::MAX);
                picks_extend(reqs, order, picks, used, idx);
                let more = used.union(cands[idx].locks());
                let sub = explore(
                    reqs,
                    order,
                    pos + 1,
                    0,
                    more,
                    picks.push(idx as usize),
                    budget,
                    nodes + 1,
                );
                explore_is_sound(
                    reqs,
                    order,
                    pos + 1,
                    0,
                    more,
                    picks.push(idx as usize),
                    budget,
                    nodes + 1,
                );
                if sub.verdict == Search::Infeasible {
                    explore_is_sound(reqs, order, pos, idx + 1, used, picks, budget, sub.nodes);
                }
            }
        }
    }
}

/// A search does not end infeasible while a complete assignment extends its picks.
pub proof fn explore_is_complete(
    reqs: Seq<Requirement>,
    order: Seq<usize>,
    pos: int,
    idx: int,
    used: Set<TokenKey>,
    picks: Seq<usize>,
    budget: int,
    nodes: int,
    full: Seq<usize>,
)
    requires
        0 <= pos <= order.len(),
        0 <= idx,
        picks.len() == pos,
        picks_agree(reqs, order, picks),
        used_by_picks(reqs, order, picks, used),
        full.len() == order.len(),
        picks_agree(reqs, order, full),
        picks == full.take(pos),
        pos < order.len() ==> idx <= full[pos],
        forall|p: int|
            0 <= p < order.len() ==> reqs[(#[trigger] order[p]) as int].candidates@.len()
                <= usize::MAX,
    ensures
        explore(reqs, order, pos, idx, used, picks, budget, nodes).verdict != Search::Infeasible,
    decreases order.len() - pos, reqs[order[pos] as int].candidates@.len() - idx,
{
    if pos < order.len() {
        let cands = reqs[order[pos] as int].candidates@;
        assert(full[pos] < cands.len());
        if idx < full[pos] {
            if !cands[idx].locks().disjoint(used) {
                explore_is_complete(reqs, order, pos, idx + 1, used, picks, budget, nodes, full);
            } else if nodes + 1 <= budget {
                let sub = explore(
                    reqs,
                    order,
                    pos + 1,
                    0,
                    used.union(cands[idx].locks()),
                    picks.push(idx as usize),
                    budget,
                    nodes + 1,
                );
                if sub.verdict == Search::Infeasible {
                    explore_is_complete(
                        reqs,
                        order,
                        pos,
                        idx + 1,
                        used,
                        picks,
                        budget,
                        sub.nodes,
                        full,
                    );
                }
            }
        } else {
            let new = cands[idx].locks();
            assert(new == pick_locks(reqs, order, full, pos));
            assert(new.disjoint(used)) by {
                assert forall|k: TokenKey| used.contains(k) implies !new.contains(k) by {
                    let p = choose|p: int|
                        0 <= p < picks.len() && #[trigger] pick_locks(
                            reqs,
                            order,
                            picks,
                            p,
                        ).contains(k);
                    assert(picks[p] == full[p]);
                    assert(pick_locks(reqs, order, full, p).disjoint(
                        pick_locks(reqs, order, full, pos),
                    ));
                    assert(pick_locks(reqs, order, full, p).contains(k));
                }
            }
            if nodes + 1 <= budget {
                assert(reqs[order[pos] as int].candidates@.len() <= usize::MAX);
                picks_extend(reqs, order, picks, used, idx);
                assert(picks.push(idx as usize) =~= full.take(pos + 1));
                explore_is_complete(
                    reqs,
                    order,
                    pos + 1,
                    0,
                    used.union(new),
                    picks.push(idx as usize),
                    budget,
                    nodes + 1,
                    full,
                );
            }
        }
    }
}

/// Where an index stands in an order.
spec fn place_of(order: Seq<usize>, i: int) -> int {
    choose|p: int| 0 <= p < order.len() && #[trigger] order[p] == i
}

/// Picks in search order, rearranged by requirement, are a consistent choice.
proof fn picks_give_choice(reqs: Seq<Requirement>, order: Seq<usize>, picks: Seq<usize>) -> (choice:
    Seq<int>)
    requires
        reqs.len() <= usize::MAX,
        is_arrangement(order, reqs.len() as int),
        picks.len() == order.len(),
        picks_agree(reqs, order, picks),
    ensures
        consistent(reqs, choice),
        forall|p: int| 0 <= p < order.len() ==> choice[(#[trigger] order[p]) as int] == picks[p],
{
    let choice = Seq::new(reqs.len(), |i: int| picks[place_of(order, i)] as int);
    assert forall|i: int| 0 <= i < reqs.len() implies 0 <= #[trigger] place_of(order, i)
        < order.len() && order[place_of(order, i)] == i by {
        assert(order.contains(i as usize));
    }
    assert forall|p: int| 0 <= p < order.len() implies choice[(#[trigger] order[p]) as int]
        == picks[p] by {
        assert(order[place_of(order, order[p] as int)] == order[p]);
        if place_of(order, order[p] as int) != p {
            assert(order.no_duplicates());
        }
    }
    assert forall|i: int| 0 <= i < reqs.len() implies 0 <= #[trigger] choice[i]
        < reqs[i].candidates@.len() by {
        assert(picks[place_of(order, i)] < reqs[order[place_of(order, i)] as int].candidates@.len());
    }
    assert forall|i: int, j: int| 0 <= i < j < reqs.len() implies (#[trigger] locked_by(
        reqs,
        choice,
        i,
        )).disjoint(#[trigger] locked_by(reqs, choice, j)) by {
        let p = place_of(order, i);
        let q = place_of(order, j);
        assert(order[p] == i && order[q] == j);
        assert(locked_by(reqs, choice, i) == pick_locks(reqs, order, picks, p));
        assert(locked_by(reqs, choice, j) == pick_locks(reqs, order, picks, q));
        if p < q {
        } else {
            assert(pick_locks(reqs, order, picks, q).disjoint(
                pick_locks(reqs, order, picks, p),
            ));
        }
    }
    choice
}

/// `order` lists each of the first `n` indices once.
pub open spec fn is_arrangement(order: Seq<usize>, n: int) -> bool {
    &&& order.len() == n
    &&& order.no_duplicates()
    &&& forall|p: int| 0 <= p < order.len() ==> (#[trigger] order[p]) < n
    &&& forall|i: int| 0 <= i < n ==> #[trigger] order.contains(i as usize)
}

/// The order of the search goes through every requirement once.
pub proof fn search_order_arranges(reqs: Seq<Requirement>)
    requires
        reqs.len() <= usize::MAX,
    ensures
        is_arrangement(search_order(reqs), reqs.len() as int),
{
    let keys = Seq::new(reqs.len(), |i: int| reqs[i].candidates@.len() as u64);
    order::order_of_is_stable(keys);
    assert forall|i: int| 0 <= i < reqs.len() implies #[trigger] order_of(keys).contains(
        i as usize,
    ) by {
        order::stable_order_covers(keys, order_of(keys), keys.len() as int, i);
    }
}

/// The search is right either way: a complete end comes with a consistent choice
/// that it picked, and an infeasible end means that there is none.
pub proof fn search_is_exact(reqs: Seq<Requirement>)
    requires
        reqs.len() <= usize::MAX,
        forall|i: int| 0 <= i < reqs.len() ==> (#[trigger] reqs[i]).candidates@.len() <= usize::MAX,
    ensures
        search(reqs).verdict == Search::Complete ==> {
            &&& search(reqs).picks.len() == reqs.len()
            &&& exists|choice: Seq<int>|
                consistent(reqs, choice) && forall|p: int|
                    0 <= p < reqs.len() ==> choice[(#[trigger] search_order(reqs)[p]) as int]
                        == search(reqs).picks[p]
        },
        search(reqs).verdict == Search::Infeasible ==> !satisfiable(reqs),
{
    let order = search_order(reqs);
    search_order_arranges(reqs);
    let none = Seq::<usize>::empty();
    assert(picks_agree(reqs, order, none));
    assert(used_by_picks(reqs, order, none, Set::empty()));
    assert forall|p: int| 0 <= p < order.len() implies reqs[(
    #[trigger] order[p]) as int].candidates@.len() <= usize::MAX by {
        assert(order[p] < reqs.len());
    }
    explore_is_sound(reqs, order, 0, 0, Set::empty(), none, budget_for(reqs), 0);
    if search(reqs).verdict == Search::Complete {
        let choice = picks_give_choice(reqs, order, search(reqs).picks);
    }
    if search(reqs).verdict == Search::Infeasible && satisfiable(reqs) {
        let choice = choose|choice: Seq<int>| consistent(reqs, choice);
        let full = Seq::new(order.len(), |p: int| choice[order[p] as int] as usize);
        assert forall|p: int| 0 <= p < full.len() implies (#[trigger] full[p])
            < reqs[order[p] as int].candidates@.len() && full[p] == choice[order[p] as int] by {
            assert(order[p] < reqs.len());
            assert(0 <= choice[order[p] as int] < reqs[order[p] as int].candidates@.len());
        }
        assert forall|p: int, q: int| 0 <= p < q < full.len() implies (#[trigger] pick_locks(
            reqs,
            order,
            full,
            p,
            )).disjoint(#[trigger] pick_locks(reqs, order, full, q)) by {
            let i = order[p] as int;
            let j = order[q] as int;
            assert(full[p] == choice[i] && full[q] == choice[j]);
            assert(i != j);
            assert(pick_locks(reqs, order, full, p) == locked_by(reqs, choice, i));
            assert(pick_locks(reqs, order, full, q) == locked_by(reqs, choice, j));
            if i < j {
            } else {
                assert(locked_by(reqs, choice, j).disjoint(locked_by(reqs, choice, i)));
            }
        }
        assert(none =~= full.take(0));
        assert(picks_agree(reqs, order, full));
        explore_is_complete(reqs, order, 0, 0, Set::empty(), none, budget_for(reqs), 0, full);
    }
}

/// `assigned` lists, in the order of `at`, each requirement's id with the candidate
/// chosen for it.
pub open spec fn lists_choice(
    reqs: Seq<Requirement>,
    choice: Seq<int>,
    at: Seq<usize>,
    assigned: Seq<(u32, usize)>,
) -> bool {
    &&& is_arrangement(at, reqs.len() as int)
    &&& assigned.len() == reqs.len()
    &&& forall|p: int|
        0 <= p < assigned.len() ==> (#[trigger] assigned[p]).0 == reqs[at[p] as int].id
            && assigned[p].1 == choice[at[p] as int]
}

/// `assigned` is a consistent choice: one candidate for every requirement, no two of
/// which share a token, in ascending order of the requirements' ids.
pub open spec fn assigns_all(reqs: Seq<Requirement>, assigned: Seq<(u32, usize)>) -> bool {
    &&& exists|choice: Seq<int>, at: Seq<usize>|
        consistent(reqs, choice) && #[trigger] lists_choice(reqs, choice, at, assigned)
    &&& forall|p: int, q: int|
        0 <= p < q < assigned.len() ==> (#[trigger] assigned[p]).0 <= (#[trigger] assigned[q]).0
}

/// A search that ends complete gives every requirement one candidate, by ascending id.
pub proof fn search_assigns_all(reqs: Seq<Requirement>)
    requires
        reqs.len() <= usize::MAX,
        forall|i: int| 0 <= i < reqs.len() ==> (#[trigger] reqs[i]).candidates@.len() <= usize::MAX,
    ensures
        search(reqs).verdict == Search::Complete ==> assigns_all(
            reqs,
            by_id(pick_pairs(reqs, search_order(reqs), search(reqs).picks)),
        ),
{
    search_is_exact(reqs);
    search_order_arranges(reqs);
    if search(reqs).verdict == Search::Complete {
        let order = search_order(reqs);
        let pairs = pick_pairs(reqs, order, search(reqs).picks);
        let keys = pairs.map_values(|p: (u32, usize)| p.0 as u64);
        let o = order_of(keys);
        let assigned = by_id(pairs);
        order::order_of_is_stable(keys);
        let choice = choose|choice: Seq<int>|
            consistent(reqs, choice) && forall|p: int|
                0 <= p < reqs.len() ==> choice[(#[trigger] order[p]) as int]
                    == search(reqs).picks[p];
        let at = Seq::new(o.len(), |p: int| order[o[p] as int]);
        assert forall|p: int| 0 <= p < at.len() implies (#[trigger] at[p]) < reqs.len() by {
            assert(o[p] < order.len());
        }
        assert forall|p: int, q: int| 0 <= p < at.len() && 0 <= q < at.len() && p != q implies at[p]
            != at[q] by {
            assert(o[p] != o[q]);
            assert(o[p] < order.len() && o[q] < order.len());
        }
        assert forall|i: int| 0 <= i < reqs.len() implies #[trigger] at.contains(i as usize) by {
            assert(order.contains(i as usize));
            let p = choose|p: int| 0 <= p < order.len() && order[p] == i as usize;
            order::stable_order_covers(keys, o, keys.len() as int, p);
            let q = choose|q: int| 0 <= q < o.len() && o[q] == p as usize;
            assert(at[q] == i as usize);
        }
        assert forall|p: int| 0 <= p < assigned.len() implies (#[trigger] assigned[p]).0
            == reqs[at[p] as int].id && assigned[p].1 == choice[at[p] as int] by {
            assert(o[p] < order.len());
            assert(assigned[p] == pairs[o[p] as int]);
            assert(order[o[p] as int] < reqs.len());
        }
        assert(lists_choice(reqs, choice, at, assigned));
        assert forall|p: int, q: int| 0 <= p < q < assigned.len() implies (
        #[trigger] assigned[p]).0 <= (#[trigger] assigned[q]).0 by {
            assert(o[p] < keys.len() && o[q] < keys.len());
            assert(keys[o[p] as int] <= keys[o[q] as int]);
        }
    }
}

proof fn first_fit_fits(cands: Seq<Candidate>, used: Set<TokenKey>, k: int)
    requires
        0 <= k,
    ensures
        first_fit(cands, used, k) matches Some(x) ==> 0 <= x < cands.len()
            && cands[x].locks().disjoint(used),
    decreases cands.len() - k,
{
    if k < cands.len() && !cands[k].locks().disjoint(used) {
        first_fit_fits(cands, used, k + 1);
    }
}

proof fn greedy_used_grows(reqs: Seq<Requirement>, i: int, n: int)
    requires
        0 <= i < n,
    ensures
        greedy_pick(reqs, i) matches Some(k) ==> reqs[i].candidates@[k].locks().subset_of(
            greedy_used(reqs, n),
        ),
    decreases n,
{
    if i < n - 1 {
        greedy_used_grows(reqs, i, n - 1);
    }
}

/// Greedy assignment is sound: each pick is a candidate of its requirement, and
/// two requirements that both got one share no token.
pub proof fn greedy_is_sound(reqs: Seq<Requirement>, i: int, j: int)
    requires
        0 <= i < j,
        greedy_pick(reqs, i) is Some,
        greedy_pick(reqs, j) is Some,
    ensures
        0 <= greedy_pick(reqs, i)->0 < reqs[i].candidates@.len(),
        0 <= greedy_pick(reqs, j)->0 < reqs[j].candidates@.len(),
        reqs[i].candidates@[greedy_pick(reqs, i)->0].locks().disjoint(
            reqs[j].candidates@[greedy_pick(reqs, j)->0].locks(),
        ),
{
    first_fit_fits(reqs[i].candidates@, greedy_used(reqs, i), 0);
    first_fit_fits(reqs[j].candidates@, greedy_used(reqs, j), 0);
    greedy_used_grows(reqs, i, j);
}

proof fn greedy_unmet_empty(reqs: Seq<Requirement>, n: int, i: int)
    requires
        0 <= i < n,
        greedy_unmet(reqs, n).len() == 0,
    ensures
        greedy_pick(reqs, i) is Some,
    decreases n,
{
    if i < n - 1 {
        greedy_unmet_empty(reqs, n - 1, i);
    }
}

/// Where greedy assignment leaves nothing out, all requirements can be satisfied.
pub proof fn greedy_complete_is_satisfiable(reqs: Seq<Requirement>)
    requires
        greedy_unmet(reqs, reqs.len() as int).len() == 0,
    ensures
        satisfiable(reqs),
{
    let choice = Seq::new(reqs.len(), |i: int| greedy_pick(reqs, i)->0);
    assert forall|i: int| 0 <= i < reqs.len() implies 0 <= #[trigger] choice[i]
        < reqs[i].candidates@.len() by {
        greedy_unmet_empty(reqs, reqs.len() as int, i);
        first_fit_fits(reqs[i].candidates@, greedy_used(reqs, i), 0);
    }
    assert forall|i: int, j: int| 0 <= i < j < reqs.len() implies (#[trigger] locked_by(
        reqs,
        choice,
        i,
        )).disjoint(#[trigger] locked_by(reqs, choice, j)) by {
        greedy_unmet_empty(reqs, reqs.len() as int, i);
        greedy_unmet_empty(reqs, reqs.len() as int, j);
        greedy_is_sound(reqs, i, j);
    }
    assert(consistent(reqs, choice));
}

/// Most-constrained-first backtracking. It finds a complete assignment if there is
/// one, so it never reports a satisfiable set as infeasible; where its node budget
/// ends first, the result is the greedy one and marked `indeterminate`.
pub fn assign_backtracking(reqs: &[Requirement]) -> (r: Solution)
    ensures
        match search(reqs@).verdict {
            Search::Complete => {
                &&& r.assigned@ == by_id(
                    pick_pairs(reqs@, search_order(reqs@), search(reqs@).picks),
                )
                &&& r.unmet@.len() == 0
                &&& !r.indeterminate
            },
            Search::Infeasible => {
                &&& r.assigned@ == greedy_assigned(reqs@, reqs@.len() as int)
                &&& r.unmet@ == greedy_unmet(reqs@, reqs@.len() as int)
                &&& !r.indeterminate
            },
            Search::BudgetExhausted => {
                &&& r.assigned@ == greedy_assigned(reqs@, reqs@.len() as int)
                &&& r.unmet@ == greedy_unmet(reqs@, reqs@.len() as int)
                &&& r.indeterminate
            },
        },
        r.unmet@.len() == 0 ==> satisfiable(reqs@),
        !r.indeterminate ==> (r.unmet@.len() == 0 <==> satisfiable(reqs@)),
        !r.indeterminate && satisfiable(reqs@) ==> assigns_all(reqs@, r.assigned@),
{
    let ghost rs = reqs@;
    let mut keys: Vec<u64> = Vec::new();
    let mut i: usize = 0;
    while i < reqs.len()
        invariant
            i <= reqs@.len(),
            keys@ =~= Seq::new(i as nat, |j: int| reqs@[j].candidates@.len() as u64),
        decreases reqs@.len() - i,
    {
        keys.push(reqs[i].candidates.len() as u64);
        i += 1;
    }
    proof {
        assert(keys@ =~= Seq::new(rs.len(), |j: int| rs[j].candidates@.len() as u64));
    }
    let order: Vec<usize> = order::stable_order(&keys);
    let budget: usize = node_budget(reqs);
    let mut used: ResBag = Bag::new();
    let mut chosen: Vec<(u32, usize)> = Vec::new();
    let mut nodes: usize = 0;
    proof {
        assert(picks_in(chosen@) =~= Seq::<usize>::empty());
        assert(chosen@ =~= pick_pairs(rs, order@, picks_in(chosen@)));
        assert forall|j: int| 0 <= j < rs.len() implies (#[trigger] rs[j]).candidates@.len()
            <= usize::MAX by {
            assert(rs[j].candidates.len() <= usize::MAX);
        }
        search_is_exact(rs);
        search_assigns_all(rs);
    }
    let verdict: Search = backtrack(reqs, &order, 0, &mut used, &mut chosen, budget, &mut nodes);
    match verdict {
        Search::Complete => {
            let mut ids: Vec<u64> = Vec::new();
            let mut k: usize = 0;
            while k < chosen.len()
                invariant
                    k <= chosen@.len(),
                    ids@ =~= chosen@.map_values(|p: (u32, usize)| p.0 as u64).take(k as int),
                decreases chosen@.len() - k,
            {
                ids.push(chosen[k].0 as u64);
                k += 1;
            }
            proof {
                assert(ids@ =~= chosen@.map_values(|p: (u32, usize)| p.0 as u64));
            }
            let o: Vec<usize> = order::stable_order(&ids);
            let assigned: Vec<(u32, usize)> = order::pick(&chosen, &o);
            Solution { assigned, unmet: Vec::new(), indeterminate: false }
        },
        Search::Infeasible => {
            proof {
                if greedy_unmet(rs, rs.len() as int).len() == 0 {
                    greedy_complete_is_satisfiable(rs);
                }
            }
            assign_greedy(reqs)
        },
        Search::BudgetExhausted => {
            proof {
                if greedy_unmet(rs, rs.len() as int).len() == 0 {
                    greedy_complete_is_satisfiable(rs);
                }
            }
            let mut g: Solution = assign_greedy(reqs);
            g.indeterminate = true;
            g
        },
    }
}

/// What `chosen` stands for as picks of the search.
spec fn picks_in(chosen: Seq<(u32, usize)>) -> Seq<usize> {
    chosen.map_values(|p: (u32, usize)| p.1)
}

fn backtrack(
    reqs: &[Requirement],
    order: &[usize],
    pos: usize,
    used: &mut ResBag,
    chosen: &mut Vec<(u32, usize)>,
    budget: usize,
    nodes: &mut usize,
) -> (r: Search)
    requires
        pos <= order@.len(),
        forall|p: int| 0 <= p < order@.len() ==> (#[trigger] order@[p]) < reqs@.len(),
        old(used).wf(),
        old(chosen)@.len() == pos,
        old(chosen)@ == pick_pairs(reqs@, order@, picks_in(old(chosen)@)),
        *old(nodes) <= budget,
        budget < usize::MAX,
    ensures
        final(used).wf(),
        ({
            let t = explore(
                reqs@,
                order@,
                pos as int,
                0,
                old(used)@,
                picks_in(old(chosen)@),
                budget as int,
                *old(nodes) as int,
            );
            &&& r == t.verdict
            &&& *final(nodes) == t.nodes
            &&& r == Search::Infeasible ==> final(used)@ == old(used)@ && final(chosen)@ == old(
                chosen,
            )@ && *final(nodes) <= budget
            &&& r == Search::Complete ==> final(chosen)@ == pick_pairs(reqs@, order@, t.picks)
        }),
    decreases order@.len() - pos,
{
    if pos == order.len() {
        return Search::Complete;
    }
    let depth: usize = order.len();
    let req: &Requirement = &reqs[order[pos]];
    let ghost used0 = used@;
    let ghost chosen0 = chosen@;
    let ghost picks0 = picks_in(chosen@);
    let ghost whole = explore(
        reqs@,
        order@,
        pos as int,
        0,
        used0,
        picks0,
        budget as int,
        *nodes as int,
    );
    let mut idx: usize = 0;
    while idx < req.candidates.len()
        invariant
            pos < depth,
            depth == order@.len(),
            idx <= req.candidates@.len(),
            *req == reqs@[order@[pos as int] as int],
            forall|p: int| 0 <= p < order@.len() ==> (#[trigger] order@[p]) < reqs@.len(),
            used.wf(),
            used@ == used0,
            chosen@ == chosen0,
            chosen0.len() == pos,
            picks0 == picks_in(chosen0),
            chosen0 == pick_pairs(reqs@, order@, picks0),
            *nodes <= budget,
            budget < usize::MAX,
            used0 == old(used)@,
            chosen0 == old(chosen)@,
            whole == explore(
                reqs@,
                order@,
                pos as int,
                0,
                used0,
                picks0,
                budget as int,
                *old(nodes) as int,
            ),
            whole == explore(
                reqs@,
                order@,
                pos as int,
                idx as int,
                used0,
                picks0,
                budget as int,
                *nodes as int,
            ),
        decreases req.candidates@.len() - idx,
    {
        let cand: &Candidate = &req.candidates[idx];
        if cand.fits(used) {
            *nodes = *nodes + 1;
            if *nodes > budget {
                return Search::BudgetExhausted;
            }
            used.extend(&cand.tokens);
            chosen.push((req.id, idx));
            proof {
                assert(picks_in(chosen@) =~= picks0.push(idx));
                assert(chosen@ =~= pick_pairs(reqs@, order@, picks0.push(idx)));
            }
            match backtrack(reqs, order, pos + 1, used, chosen, budget, nodes) {
                Search::Complete => {
                    return Search::Complete;
                },
                Search::BudgetExhausted => {
                    return Search::BudgetExhausted;
                },
                Search::Infeasible => {},
            }
            chosen.pop();
            used.remove_all(&cand.tokens);
            proof {
                assert(chosen@ =~= chosen0);
                assert(used@ =~= used0);
            }
        }
        idx += 1;
    }
    Search::Infeasible
}

proof fn candidate_total_bounds(reqs: Seq<Requirement>, i: int, n: int)
    requires
        0 <= i <= n,
    ensures
        i <= candidate_total(reqs, i) <= candidate_total(reqs, n),
    decreases n,
{
    if i < n {
        candidate_total_bounds(reqs, i, n - 1);
    } else if n > 0 {
        candidate_total_bounds(reqs, n - 1, n - 1);
    }
}

/// A node cap derived from the problem's size, never from the clock.
fn node_budget(reqs: &[Requirement]) -> (r: usize)
    ensures
        r == budget_for(reqs@),
{
    let n: usize = reqs.len();
    let ghost total = candidate_total(reqs@, n as int);
    let ghost spread_all = total * n;
    proof {
        candidate_total_bounds(reqs@, n as int, n as int);
        assert(n > 0 ==> total <= total * n) by (nonlinear_arith)
            requires
                total >= 0,
        ;
        assert(total * n >= 0) by (nonlinear_arith)
            requires
                total >= 0,
                n >= 0,
        ;
        assert(wished_budget(reqs@) == 1_000_000 + spread_all * 64);
    }
    let mut cands: usize = 0;
    let mut i: usize = 0;
    while i < n
        invariant
            i <= n,
            n == reqs@.len(),
            total == candidate_total(reqs@, n as int),
            cands == candidate_total(reqs@, i as int),
            n > 0 ==> total <= spread_all,
            wished_budget(reqs@) == 1_000_000 + spread_all * 64,
        decreases n - i,
    {
        proof {
            candidate_total_bounds(reqs@, i + 1, n as int);
        }
        let len: usize = reqs[i].candidates.len();
        let step: usize = if len > 0 {
            len
        } else {
            1
        };
        match cands.checked_add(step) {
            Some(c) => {
                cands = c;
            },
            None => {
                return usize::MAX - 1;
            },
        }
        i += 1;
    }
    let spread: usize = match cands.checked_mul(n) {
        Some(s) => s,
        None => {
            return usize::MAX - 1;
        },
    };
    let nodes: usize = match spread.checked_mul(64) {
        Some(s) => s,
        None => {
            return usize::MAX - 1;
        },
    };
    match nodes.checked_add(1_000_000) {
        Some(b) => if b < usize::MAX {
            b
        } else {
            usize::MAX - 1
        },
        None => usize::MAX - 1,
    }
}

} // verus!
