//! Bipartite matching by augmenting paths.
//!
//! The left side holds scarce resources, the right side pins; `adj[u]` lists the
//! right vertices that left vertex `u` may take, most wanted first.

use vstd::prelude::*;

verus! {

/// The lists as mathematical values.
pub open spec fn lists(adj: Seq<Vec<usize>>) -> Seq<Seq<usize>> {
    adj.map_values(|v: Vec<usize>| v@)
}

/// Where a search for an augmenting path ends: whether it found one, which right
/// vertices it has seen, and who holds each right vertex then.
pub ghost struct Hunt {
    pub ok: bool,
    pub seen: Seq<bool>,
    pub mate: Seq<Option<usize>>,
}

/// The search for left vertex `u` from position `idx` of its list on: an unseen
/// right vertex is taken when it is free, or when its holder finds another one.
/// `fuel` bounds the depth; every step down sees one vertex more, so as much fuel
/// as there are unseen vertices is never used up.
pub open spec fn hunt(
    fuel: nat,
    adj: Seq<Seq<usize>>,
    u: int,
    idx: int,
    seen: Seq<bool>,
    mate: Seq<Option<usize>>,
) -> Hunt
    decreases fuel, adj[u].len() - idx,
{
    if idx < 0 || idx >= adj[u].len() {
        Hunt { ok: false, seen, mate }
    } else {
        let v = adj[u][idx] as int;
        if seen[v] {
            hunt(fuel, adj, u, idx + 1, seen, mate)
        } else if fuel == 0 {
            Hunt { ok: false, seen, mate }
        } else {
            match mate[v] {
                None => Hunt {
                    ok: true,
                    seen: seen.update(v, true),
                    mate: mate.update(v, Some(u as usize)),
                },
                Some(w) => {
                    let sub = hunt(
                        (fuel - 1) as nat,
                        adj,
                        w as int,
                        0,
                        seen.update(v, true),
                        mate,
                    );
                    if sub.ok {
                        Hunt { ok: true, seen: sub.seen, mate: sub.mate.update(v, Some(u as usize)) }
                    } else {
                        hunt(fuel, adj, u, idx + 1, sub.seen, sub.mate)
                    }
                },
            }
        }
    }
}

/// How many of the first `n` entries are false.
pub open spec fn unseen(seen: Seq<bool>, n: int) -> nat
    decreases n,
{
    if n <= 0 {
        0
    } else {
        unseen(seen, n - 1) + (if seen[n - 1] {
            0nat
        } else {
            1
        })
    }
}

proof fn unseen_update(seen: Seq<bool>, n: int, v: int)
    requires
        0 <= n <= seen.len(),
        0 <= v < seen.len(),
        !seen[v],
    ensures
        unseen(seen.update(v, true), n) == unseen(seen, n) - (if v < n {
            1int
        } else {
            0
        }),
    decreases n,
{
    if n > 0 {
        unseen_update(seen, n - 1, v);
    }
}

/// Everything that `a` has seen, `b` has seen too.
pub open spec fn sees_more(a: Seq<bool>, b: Seq<bool>) -> bool {
    &&& a.len() == b.len()
    &&& forall|i: int| 0 <= i < a.len() && #[trigger] a[i] ==> b[i]
}

proof fn unseen_shrinks(a: Seq<bool>, b: Seq<bool>, n: int)
    requires
        sees_more(a, b),
        0 <= n <= a.len(),
    ensures
        unseen(b, n) <= unseen(a, n),
    decreases n,
{
    if n > 0 {
        unseen_shrinks(a, b, n - 1);
        assert(a[n - 1] ==> b[n - 1]);
    }
}

/// The lists name right vertices, and holders are left vertices.
pub open spec fn sized(adj: Seq<Seq<usize>>, mate: Seq<Option<usize>>) -> bool {
    &&& adj.len() <= usize::MAX
    &&& forall|u: int, k: int|
        0 <= u < adj.len() && 0 <= k < adj[u].len() ==> (#[trigger] adj[u][k]) < mate.len()
    &&& forall|v: int|
        0 <= v < mate.len() ==> (#[trigger] mate[v] matches Some(u) ==> u < adj.len())
}

/// A search only sees more, and a search that fails moves nobody.
proof fn hunt_facts(
    fuel: nat,
    adj: Seq<Seq<usize>>,
    u: int,
    idx: int,
    seen: Seq<bool>,
    mate: Seq<Option<usize>>,
)
    requires
        sized(adj, mate),
        0 <= u < adj.len(),
        0 <= idx,
        seen.len() == mate.len(),
    ensures
        ({
            let h = hunt(fuel, adj, u, idx, seen, mate);
            &&& sees_more(seen, h.seen)
            &&& h.mate.len() == mate.len()
            &&& sized(adj, h.mate)
            &&& !h.ok ==> h.mate == mate
        }),
    decreases fuel, adj[u].len() - idx,
{
    if idx < adj[u].len() {
        let v = adj[u][idx] as int;
        assert(adj[u][idx] < mate.len());
        if seen[v] {
            hunt_facts(fuel, adj, u, idx + 1, seen, mate);
        } else if fuel > 0 {
            let more = seen.update(v, true);
            match mate[v] {
                None => {
                    assert(sized(adj, mate.update(v, Some(u as usize))));
                },
                Some(w) => {
                    let f = (fuel - 1) as nat;
                    let sub = hunt(f, adj, w as int, 0, more, mate);
                    hunt_facts(f, adj, w as int, 0, more, mate);
                    assert(sees_more(seen, sub.seen)) by {
                        assert forall|i: int| 0 <= i < seen.len() && #[trigger] seen[i] implies sub.seen[i] by {
                            assert(more[i]);
                        }
                    }
                    if sub.ok {
                        assert(sized(adj, sub.mate.update(v, Some(u as usize))));
                    } else {
                        hunt_facts(fuel, adj, u, idx + 1, sub.seen, sub.mate);
                        let h = hunt(fuel, adj, u, idx + 1, sub.seen, sub.mate);
                        assert(sees_more(seen, h.seen)) by {
                            assert forall|i: int| 0 <= i < seen.len() && #[trigger] seen[i] implies h.seen[i] by {
                                assert(sub.seen[i]);
                            }
                        }
                    }
                },
            }
        }
    }
}

/// With as much fuel as there are unseen vertices, more makes no difference.
proof fn fuel_is_enough(
    f: nat,
    g: nat,
    adj: Seq<Seq<usize>>,
    u: int,
    idx: int,
    seen: Seq<bool>,
    mate: Seq<Option<usize>>,
)
    requires
        sized(adj, mate),
        0 <= u < adj.len(),
        0 <= idx,
        seen.len() == mate.len(),
        unseen(seen, seen.len() as int) <= f,
        unseen(seen, seen.len() as int) <= g,
    ensures
        hunt(f, adj, u, idx, seen, mate) == hunt(g, adj, u, idx, seen, mate),
    decreases unseen(seen, seen.len() as int), adj[u].len() - idx,
{
    if idx < adj[u].len() {
        let v = adj[u][idx] as int;
        assert(adj[u][idx] < mate.len());
        if seen[v] {
            fuel_is_enough(f, g, adj, u, idx + 1, seen, mate);
        } else {
            unseen_update(seen, seen.len() as int, v);
            let more = seen.update(v, true);
            if let Some(w) = mate[v] {
                let f1 = (f - 1) as nat;
                let g1 = (g - 1) as nat;
                fuel_is_enough(f1, g1, adj, w as int, 0, more, mate);
                let sub = hunt(f1, adj, w as int, 0, more, mate);
                hunt_facts(f1, adj, w as int, 0, more, mate);
                if !sub.ok {
                    unseen_shrinks(more, sub.seen, seen.len() as int);
                    fuel_is_enough(f, g, adj, u, idx + 1, sub.seen, sub.mate);
                }
            }
        }
    }
}

/// Look for a right vertex for `u`, moving holders aside where they can move.
fn aug(u: usize, adj: &[Vec<usize>], seen: &mut Vec<bool>, mate: &mut Vec<Option<usize>>) -> (r: bool)
    requires
        sized(lists(adj@), old(mate)@),
        u < adj@.len(),
        old(seen)@.len() == old(mate)@.len(),
    ensures
        ({
            let n = old(seen)@.len() as int;
            let h = hunt(unseen(old(seen)@, n), lists(adj@), u as int, 0, old(seen)@, old(mate)@);
            &&& r == h.ok
            &&& final(seen)@ == h.seen
            &&& final(mate)@ == h.mate
        }),
        sized(lists(adj@), final(mate)@),
        final(seen)@.len() == old(seen)@.len(),
        final(mate)@.len() == old(mate)@.len(),
    decreases unseen(old(seen)@, old(seen)@.len() as int),
{
    let ghost n = seen@.len() as int;
    let ghost fuel = unseen(seen@, n);
    let ghost whole = hunt(fuel, lists(adj@), u as int, 0, seen@, mate@);
    proof {
        hunt_facts(fuel, lists(adj@), u as int, 0, seen@, mate@);
    }
    let mut k: usize = 0;
    while k < adj[u as usize].len()
        invariant
            u < adj@.len(),
            k <= adj@[u as int]@.len(),
            sized(lists(adj@), mate@),
            seen@.len() == n,
            mate@.len() == n,
            n == old(seen)@.len(),
            n == old(mate)@.len(),
            fuel == unseen(old(seen)@, n),
            unseen(seen@, n) <= fuel,
            whole == hunt(fuel, lists(adj@), u as int, 0, old(seen)@, old(mate)@),
            whole == hunt(fuel, lists(adj@), u as int, k as int, seen@, mate@),
        decreases adj@[u as int]@.len() - k,
    {
        let v: usize = adj[u][k];
        proof {
            assert(lists(adj@)[u as int][k as int] < mate@.len());
        }
        if !seen[v] {
            let ghost before = seen@;
            proof {
                unseen_update(before, n, v as int);
            }
            seen.set(v, true);
            match mate[v] {
                None => {
                    mate.set(v, Some(u));
                    return true;
                },
                Some(w) => {
                    let ghost here = mate@;
                    let ghost more = seen@;
                    proof {
                        fuel_is_enough(
                            (fuel - 1) as nat,
                            unseen(more, n),
                            lists(adj@),
                            w as int,
                            0,
                            more,
                            here,
                        );
                        hunt_facts(unseen(more, n), lists(adj@), w as int, 0, more, here);
                    }
                    if aug(w, adj, seen, mate) {
                        mate.set(v, Some(u));
                        return true;
                    }
                    proof {
                        unseen_shrinks(more, seen@, n);
                    }
                },
            }
        }
        k += 1;
    }
    false
}

/// Nothing seen yet.
pub open spec fn fresh(n: int) -> Seq<bool> {
    Seq::new(n as nat, |i: int| false)
}

/// Who holds each of `n` right vertices after the first `u` left vertices have
/// looked for one in turn.
pub open spec fn mates(adj: Seq<Seq<usize>>, n: int, u: int) -> Seq<Option<usize>>
    decreases u,
{
    if u <= 0 {
        Seq::new(n as nat, |i: int| None)
    } else {
        hunt(n as nat, adj, u - 1, 0, fresh(n), mates(adj, n, u - 1)).mate
    }
}

/// The last of the first `n` right vertices that left vertex `u` holds.
pub open spec fn held_by(mate: Seq<Option<usize>>, u: int, n: int) -> Option<usize>
    decreases n,
{
    if n <= 0 {
        None
    } else if mate[n - 1] == Some(u as usize) {
        Some((n - 1) as usize)
    } else {
        held_by(mate, u, n - 1)
    }
}

/// The matching, by left vertex.
pub open spec fn matching(adj: Seq<Seq<usize>>, n: int) -> Seq<Option<usize>> {
    let mate = mates(adj, n, adj.len() as int);
    Seq::new(adj.len(), |u: int| held_by(mate, u, n))
}

proof fn unseen_fresh(n: int, k: int)
    requires
        0 <= k <= n,
    ensures
        unseen(fresh(n), k) == k,
    decreases k,
{
    if k > 0 {
        unseen_fresh(n, k - 1);
    }
}

/// Match left vertices to right vertices, as many as can be.
pub fn kuhn(adj: &[Vec<usize>], n_right: usize) -> (r: Vec<Option<usize>>)
    requires
        forall|u: int, k: int|
            0 <= u < adj@.len() && 0 <= k < adj@[u]@.len() ==> (#[trigger] adj@[u]@[k]) < n_right,
    ensures
        r@ == matching(lists(adj@), n_right as int),
{
    let left: usize = adj.len();
    let mut mate: Vec<Option<usize>> = Vec::new();
    let mut z: usize = 0;
    while z < n_right
        invariant
            z <= n_right,
            mate@ =~= Seq::<Option<usize>>::new(z as nat, |i: int| None),
        decreases n_right - z,
    {
        mate.push(None);
        z += 1;
    }
    let mut u: usize = 0;
    while u < left
        invariant
            u <= left,
            left == adj@.len(),
            mate@.len() == n_right,
            sized(lists(adj@), mate@),
            mate@ == mates(lists(adj@), n_right as int, u as int),
        decreases left - u,
    {
        let mut seen: Vec<bool> = Vec::new();
        let mut k: usize = 0;
        while k < n_right
            invariant
                k <= n_right,
                seen@ =~= Seq::new(k as nat, |i: int| false),
            decreases n_right - k,
        {
            seen.push(false);
            k += 1;
        }
        proof {
            assert(seen@ =~= fresh(n_right as int));
            unseen_fresh(n_right as int, n_right as int);
        }
        aug(u, adj, &mut seen, &mut mate);
        u += 1;
    }
    let mut out: Vec<Option<usize>> = Vec::new();
    let mut x: usize = 0;
    while x < left
        invariant
            x <= left,
            left == adj@.len(),
            mate@.len() == n_right,
            mate@ == mates(lists(adj@), n_right as int, adj@.len() as int),
            out@.len() == x,
            forall|y: int| 0 <= y < x ==> out@[y] == held_by(mate@, y, n_right as int),
        decreases left - x,
    {
        let mut v: usize = n_right;
        let mut found: Option<usize> = None;
        while v > 0 && found.is_none()
            invariant
                v <= n_right,
                mate@.len() == n_right,
                found is None ==> held_by(mate@, x as int, n_right as int) == held_by(
                    mate@,
                    x as int,
                    v as int,
                ),
                found is Some ==> held_by(mate@, x as int, n_right as int) == found,
            decreases v,
        {
            if let Some(w) = mate[v - 1] {
                if w == x {
                    found = Some(v - 1);
                }
            }
            v -= 1;
        }
        out.push(found);
        x += 1;
    }
    proof {
        assert(out@ =~= matching(lists(adj@), n_right as int));
    }
    out
}

/// Every holder has the vertex it holds on its list.
pub open spec fn holds_listed(adj: Seq<Seq<usize>>, mate: Seq<Option<usize>>) -> bool {
    forall|v: int|
        0 <= v < mate.len() ==> (#[trigger] mate[v] matches Some(u) ==> u < adj.len()
            && adj[u as int].contains(v as usize))
}

/// Nobody holds two vertices.
pub open spec fn holds_once(mate: Seq<Option<usize>>) -> bool {
    forall|v: int, w: int|
        0 <= v < w < mate.len() && (#[trigger] mate[v]) is Some ==> mate[v] != #[trigger] mate[w]
}

/// `x` holds one of the vertices.
pub open spec fn holder(mate: Seq<Option<usize>>, x: int) -> bool {
    exists|v: int| 0 <= v < mate.len() && #[trigger] mate[v] == Some(x as usize)
}

/// `x` holds none of the vertices that have not been seen.
spec fn holds_no_unseen(mate: Seq<Option<usize>>, seen: Seq<bool>, x: int) -> bool {
    forall|v: int| 0 <= v < mate.len() && #[trigger] mate[v] == Some(x as usize) ==> seen[v]
}

/// What a search does to the holdings: `u` gains an unseen vertex if it succeeds,
/// seen vertices stay where they are, and nobody else gains or loses one for good.
proof fn hunt_moves(
    fuel: nat,
    adj: Seq<Seq<usize>>,
    u: int,
    idx: int,
    seen: Seq<bool>,
    mate: Seq<Option<usize>>,
)
    requires
        sized(adj, mate),
        holds_listed(adj, mate),
        holds_once(mate),
        0 <= u < adj.len(),
        0 <= idx,
        seen.len() == mate.len(),
        mate.len() <= usize::MAX,
        holds_no_unseen(mate, seen, u),
    ensures
        ({
            let h = hunt(fuel, adj, u, idx, seen, mate);
            &&& holds_listed(adj, h.mate)
            &&& h.ok ==> exists|v: int|
                0 <= v < mate.len() && !seen[v] && #[trigger] h.mate[v] == Some(u as usize)
            &&& forall|v: int| 0 <= v < mate.len() && seen[v] ==> #[trigger] h.mate[v] == mate[v]
            &&& forall|x: int| 0 <= x < adj.len() && #[trigger] holder(mate, x) ==> holder(h.mate, x)
            &&& forall|v: int, x: int|
                #![trigger h.mate[v], holds_no_unseen(mate, seen, x)]
                0 <= v < mate.len() && 0 <= x < adj.len() && h.mate[v] == Some(x as usize) && x != u
                    && holds_no_unseen(mate, seen, x) ==> seen[v]
            &&& forall|v: int, w: int|
                0 <= v < w < mate.len() && (#[trigger] h.mate[v]) is Some && h.mate[v]
                    == #[trigger] h.mate[w] ==> h.mate[v] == Some(u as usize) && (seen[v] || seen[w])
        }),
    decreases fuel, adj[u].len() - idx,
{
    if idx < adj[u].len() {
        let v = adj[u][idx] as int;
        assert(adj[u][idx] < mate.len());
        let h = hunt(fuel, adj, u, idx, seen, mate);
        if seen[v] {
            hunt_moves(fuel, adj, u, idx + 1, seen, mate);
        } else if fuel > 0 {
            let more = seen.update(v, true);
            match mate[v] {
                None => {
                    assert(h.mate[v] == Some(u as usize));
                    assert(adj[u].contains(v as usize));
                    assert forall|x: int| 0 <= x < adj.len() && #[trigger] holder(
                        mate,
                        x,
                    ) implies holder(h.mate, x) by {
                        let y = choose|y: int|
                            0 <= y < mate.len() && #[trigger] mate[y] == Some(x as usize);
                        assert(h.mate[y] == Some(x as usize));
                    }
                },
                Some(w) => {
                    let f = (fuel - 1) as nat;
                    let sub = hunt(f, adj, w as int, 0, more, mate);
                    assert(w != u);
                    assert(holds_no_unseen(mate, more, w as int)) by {
                        assert forall|y: int| 0 <= y < mate.len() && #[trigger] mate[y] == Some(
                            w,
                        ) implies more[y] by {
                            if y < v {
                                assert(mate[y] != mate[v]);
                            } else if y > v {
                                assert(mate[v] != mate[y]);
                            }
                        }
                    }
                    assert(holds_no_unseen(mate, more, u)) by {
                        assert forall|y: int| 0 <= y < mate.len() && #[trigger] mate[y] == Some(
                            u as usize,
                        ) implies more[y] by {
                            assert(seen[y]);
                        }
                    }
                    hunt_facts(f, adj, w as int, 0, more, mate);
                    hunt_moves(f, adj, w as int, 0, more, mate);
                    assert(sub.mate[v] == mate[v]);
                    if sub.ok {
                        let got = choose|y: int|
                            0 <= y < mate.len() && !more[y] && #[trigger] sub.mate[y] == Some(w);
                        assert(got != v);
                        assert(h.mate =~= sub.mate.update(v, Some(u as usize)));
                        assert(h.mate[v] == Some(u as usize));
                        assert(adj[u].contains(v as usize));
                        assert forall|x: int| 0 <= x < adj.len() && #[trigger] holder(
                            mate,
                            x,
                        ) implies holder(h.mate, x) by {
                            assert(holder(sub.mate, x));
                            let y = choose|y: int|
                                0 <= y < sub.mate.len() && #[trigger] sub.mate[y] == Some(
                                    x as usize,
                                );
                            if y == v {
                                assert(x == w);
                                assert(h.mate[got] == Some(x as usize));
                            } else {
                                assert(h.mate[y] == Some(x as usize));
                            }
                        }
                        assert forall|y: int, x: int|
                            #![trigger h.mate[y], holds_no_unseen(mate, seen, x)]
                            0 <= y < mate.len() && 0 <= x < adj.len() && h.mate[y] == Some(
                                x as usize,
                            ) && x != u && holds_no_unseen(mate, seen, x) implies seen[y] by {
                            assert(y != v);
                            assert(sub.mate[y] == Some(x as usize));
                            assert(holds_no_unseen(mate, more, x)) by {
                                assert forall|z: int| 0 <= z < mate.len() && #[trigger] mate[z]
                                    == Some(x as usize) implies more[z] by {
                                    assert(seen[z]);
                                }
                            }
                            if x == w {
                                assert(mate[v] == Some(w));
                                assert(seen[v]);
                            } else {
                                assert(more[y]);
                            }
                        }
                        assert forall|y: int, z: int|
                            0 <= y < z < mate.len() && (#[trigger] h.mate[y]) is Some && h.mate[y]
                                == #[trigger] h.mate[z] implies h.mate[y] == Some(u as usize) && (
                        seen[y] || seen[z]) by {
                            if y == v || z == v {
                                let other = if y == v { z } else { y };
                                assert(h.mate[other] == Some(u as usize));
                                assert(sub.mate[other] == Some(u as usize));
                                assert(more[other]);
                            } else {
                                assert(sub.mate[y] == h.mate[y] && sub.mate[z] == h.mate[z]);
                                assert(sub.mate[y] == Some(w));
                                if more[y] {
                                    assert(mate[y] == Some(w));
                                    if y < v {
                                        assert(mate[y] != mate[v]);
                                    } else {
                                        assert(mate[v] != mate[y]);
                                    }
                                } else {
                                    assert(mate[z] == Some(w));
                                    if z < v {
                                        assert(mate[z] != mate[v]);
                                    } else {
                                        assert(mate[v] != mate[z]);
                                    }
                                }
                            }
                        }
                        assert forall|y: int| 0 <= y < mate.len() && seen[y] implies #[trigger] h.mate[y]
                            == mate[y] by {
                            assert(more[y]);
                            assert(sub.mate[y] == mate[y]);
                        }
                        assert(holds_listed(adj, h.mate)) by {
                            assert forall|y: int| 0 <= y < h.mate.len() implies (
                            #[trigger] h.mate[y] matches Some(t) ==> t < adj.len()
                                && adj[t as int].contains(y as usize)) by {
                                if y != v {
                                    assert(h.mate[y] == sub.mate[y]);
                                }
                            }
                        }
                    } else {
                        assert(sub.mate == mate);
                        assert(holds_no_unseen(mate, sub.seen, u)) by {
                            assert forall|y: int| 0 <= y < mate.len() && #[trigger] mate[y] == Some(
                                u as usize,
                            ) implies sub.seen[y] by {
                                assert(more[y]);
                            }
                        }
                        hunt_moves(fuel, adj, u, idx + 1, sub.seen, mate);
                        assert forall|y: int| 0 <= y < mate.len() && seen[y] implies sub.seen[y] by {
                            assert(more[y]);
                        }
                        assert forall|y: int, x: int|
                            #![trigger h.mate[y], holds_no_unseen(mate, seen, x)]
                            0 <= y < mate.len() && 0 <= x < adj.len() && h.mate[y] == Some(
                                x as usize,
                            ) && x != u && holds_no_unseen(mate, seen, x) implies seen[y] by {
                            assert(holds_no_unseen(mate, sub.seen, x)) by {
                                assert forall|z: int| 0 <= z < mate.len() && #[trigger] mate[z]
                                    == Some(x as usize) implies sub.seen[z] by {
                                    assert(seen[z]);
                                }
                            }
                            assert(sub.seen[y]);
                            assert(h.mate[y] == mate[y]);
                        }
                        assert forall|y: int, z: int|
                            0 <= y < z < mate.len() && (#[trigger] h.mate[y]) is Some && h.mate[y]
                                == #[trigger] h.mate[z] implies h.mate[y] == Some(u as usize) && (
                        seen[y] || seen[z]) by {
                            if sub.seen[y] {
                                assert(h.mate[y] == mate[y]);
                            } else {
                                assert(h.mate[z] == mate[z]);
                            }
                        }
                        assert(h.ok ==> exists|y: int|
                            0 <= y < mate.len() && !seen[y] && #[trigger] h.mate[y] == Some(
                                u as usize,
                            )) by {
                            if h.ok {
                                let y = choose|y: int|
                                    0 <= y < mate.len() && !sub.seen[y] && #[trigger] h.mate[y]
                                        == Some(u as usize);
                                assert(h.mate[y] == Some(u as usize));
                            }
                        }
                    }
                },
            }
        }
    }
}

/// A set of right vertices, all of them held, that no holder's list leaves.
pub open spec fn closed_set(adj: Seq<Seq<usize>>, mate: Seq<Option<usize>>, s: Set<int>) -> bool {
    forall|v: int| #[trigger]
        s.contains(v) ==> 0 <= v < mate.len() && mate[v] is Some && list_within(
            adj,
            mate[v]->0 as int,
            0,
            s,
        )
}

/// From position `idx` on, the list of `u` stays within `s`.
pub open spec fn list_within(adj: Seq<Seq<usize>>, u: int, idx: int, s: Set<int>) -> bool {
    forall|k: int| idx <= k < adj[u].len() ==> s.contains(#[trigger] adj[u][k] as int)
}

/// A search that starts inside a closed set finds nothing.
proof fn hunt_is_stuck(
    fuel: nat,
    adj: Seq<Seq<usize>>,
    u: int,
    idx: int,
    seen: Seq<bool>,
    mate: Seq<Option<usize>>,
    s: Set<int>,
)
    requires
        sized(adj, mate),
        0 <= u < adj.len(),
        0 <= idx,
        seen.len() == mate.len(),
        closed_set(adj, mate, s),
        list_within(adj, u, idx, s),
    ensures
        !hunt(fuel, adj, u, idx, seen, mate).ok,
    decreases fuel, adj[u].len() - idx,
{
    if idx < adj[u].len() {
        let v = adj[u][idx] as int;
        assert(s.contains(adj[u][idx] as int));
        if seen[v] {
            hunt_is_stuck(fuel, adj, u, idx + 1, seen, mate, s);
        } else if fuel > 0 {
            let w = mate[v]->0;
            let more = seen.update(v, true);
            let f = (fuel - 1) as nat;
            assert(mate[v] is Some);
            hunt_is_stuck(f, adj, w as int, 0, more, mate, s);
            hunt_facts(f, adj, w as int, 0, more, mate);
            let sub = hunt(f, adj, w as int, 0, more, mate);
            hunt_is_stuck(fuel, adj, u, idx + 1, sub.seen, mate, s);
        }
    }
}

/// A search moves nobody out of a closed set.
proof fn hunt_keeps_closed(
    fuel: nat,
    adj: Seq<Seq<usize>>,
    u: int,
    idx: int,
    seen: Seq<bool>,
    mate: Seq<Option<usize>>,
    s: Set<int>,
)
    requires
        sized(adj, mate),
        0 <= u < adj.len(),
        0 <= idx,
        seen.len() == mate.len(),
        closed_set(adj, mate, s),
    ensures
        forall|v: int| #[trigger]
            s.contains(v) ==> hunt(fuel, adj, u, idx, seen, mate).mate[v] == mate[v],
    decreases fuel, adj[u].len() - idx,
{
    if idx < adj[u].len() {
        let v = adj[u][idx] as int;
        assert(adj[u][idx] < mate.len());
        if seen[v] {
            hunt_keeps_closed(fuel, adj, u, idx + 1, seen, mate, s);
        } else if fuel > 0 {
            let more = seen.update(v, true);
            match mate[v] {
                None => {
                    assert(!s.contains(v));
                },
                Some(w) => {
                    let f = (fuel - 1) as nat;
                    let sub = hunt(f, adj, w as int, 0, more, mate);
                    hunt_facts(f, adj, w as int, 0, more, mate);
                    hunt_keeps_closed(f, adj, w as int, 0, more, mate, s);
                    if sub.ok {
                        if s.contains(v) {
                            hunt_is_stuck(f, adj, w as int, 0, more, mate, s);
                        }
                    } else {
                        hunt_keeps_closed(fuel, adj, u, idx + 1, sub.seen, mate, s);
                    }
                },
            }
        }
    }
}

/// The right vertices that have been seen.
pub open spec fn seen_set(seen: Seq<bool>) -> Set<int> {
    Set::new(|v: int| 0 <= v < seen.len() && seen[v])
}

/// A search that fails has seen everything on the list, and every vertex that it
/// has newly seen is held by someone whose whole list it has seen.
proof fn failed_hunt_closes(
    fuel: nat,
    adj: Seq<Seq<usize>>,
    u: int,
    idx: int,
    seen: Seq<bool>,
    mate: Seq<Option<usize>>,
)
    requires
        sized(adj, mate),
        0 <= u < adj.len(),
        0 <= idx,
        seen.len() == mate.len(),
        unseen(seen, seen.len() as int) <= fuel,
        !hunt(fuel, adj, u, idx, seen, mate).ok,
    ensures
        ({
            let h = hunt(fuel, adj, u, idx, seen, mate);
            &&& list_within(adj, u, idx, seen_set(h.seen))
            &&& forall|v: int|
                0 <= v < seen.len() && !seen[v] && #[trigger] h.seen[v] ==> mate[v] is Some
                    && list_within(adj, mate[v]->0 as int, 0, seen_set(h.seen))
        }),
    decreases fuel, adj[u].len() - idx,
{
    hunt_facts(fuel, adj, u, idx, seen, mate);
    let h = hunt(fuel, adj, u, idx, seen, mate);
    if idx < adj[u].len() {
        let v = adj[u][idx] as int;
        assert(adj[u][idx] < mate.len());
        if seen[v] {
            failed_hunt_closes(fuel, adj, u, idx + 1, seen, mate);
            assert(h.seen[v]);
            assert forall|k: int| idx <= k < adj[u].len() implies seen_set(h.seen).contains(
                #[trigger] adj[u][k] as int,
            ) by {
                if k > idx {
                    assert(list_within(adj, u, idx + 1, seen_set(h.seen)));
                }
            }
        } else {
            unseen_update(seen, seen.len() as int, v);
            assert(fuel > 0);
            let more = seen.update(v, true);
            let w = mate[v]->0;
            let f = (fuel - 1) as nat;
            let sub = hunt(f, adj, w as int, 0, more, mate);
            hunt_facts(f, adj, w as int, 0, more, mate);
            failed_hunt_closes(f, adj, w as int, 0, more, mate);
            unseen_shrinks(more, sub.seen, seen.len() as int);
            failed_hunt_closes(fuel, adj, u, idx + 1, sub.seen, mate);
            hunt_facts(fuel, adj, u, idx + 1, sub.seen, mate);
            assert(more[v]);
            assert(sub.seen[v]);
            assert(h.seen[v]);
            assert(seen_set(sub.seen).subset_of(seen_set(h.seen))) by {
                assert forall|x: int| seen_set(sub.seen).contains(x) implies seen_set(
                    h.seen,
                ).contains(x) by {
                    assert(sub.seen[x]);
                }
            }
            assert forall|k: int| idx <= k < adj[u].len() implies seen_set(h.seen).contains(
                #[trigger] adj[u][k] as int,
            ) by {
                if k > idx {
                    assert(list_within(adj, u, idx + 1, seen_set(h.seen)));
                }
            }
            assert forall|x: int| 0 <= x < seen.len() && !seen[x] && #[trigger] h.seen[x] implies mate[x] is Some
                && list_within(adj, mate[x]->0 as int, 0, seen_set(h.seen)) by {
                if sub.seen[x] {
                    if x == v {
                        assert(list_within(adj, w as int, 0, seen_set(sub.seen)));
                    } else {
                        assert(!more[x]);
                        assert(list_within(adj, mate[x]->0 as int, 0, seen_set(sub.seen)));
                    }
                    let t = mate[x]->0 as int;
                    assert forall|k: int| 0 <= k < adj[t].len() implies seen_set(
                        h.seen,
                    ).contains(#[trigger] adj[t][k] as int) by {
                        assert(seen_set(sub.seen).contains(adj[t][k] as int));
                    }
                }
            }
        }
    }
}

/// The lists name right vertices.
pub open spec fn names_right(adj: Seq<Seq<usize>>, n: int) -> bool {
    &&& adj.len() <= usize::MAX
    &&& 0 <= n <= usize::MAX
    &&& forall|u: int, k: int|
        0 <= u < adj.len() && 0 <= k < adj[u].len() ==> (#[trigger] adj[u][k]) < n
}

/// After each left vertex has looked in turn, the holdings are a matching, and the
/// vertices that went without have their lists within a closed set.
proof fn mates_facts(adj: Seq<Seq<usize>>, n: int, u: int) -> (s: Set<int>)
    requires
        names_right(adj, n),
        0 <= u <= adj.len(),
    ensures
        mates(adj, n, u).len() == n,
        sized(adj, mates(adj, n, u)),
        holds_listed(adj, mates(adj, n, u)),
        holds_once(mates(adj, n, u)),
        closed_set(adj, mates(adj, n, u), s),
        forall|x: int| u <= x < adj.len() ==> !#[trigger] holder(mates(adj, n, u), x),
        forall|x: int|
            0 <= x < u ==> #[trigger] holder(mates(adj, n, u), x) || list_within(adj, x, 0, s),
    decreases u,
{
    if u == 0 {
        let m = mates(adj, n, 0);
        assert forall|x: int| 0 <= x < adj.len() implies !#[trigger] holder(m, x) by {
            if holder(m, x) {
                let v = choose|v: int| 0 <= v < m.len() && #[trigger] m[v] == Some(x as usize);
                assert(m[v] is None);
            }
        }
        Set::empty()
    } else {
        let s0 = mates_facts(adj, n, u - 1);
        let m = mates(adj, n, u - 1);
        let seen = fresh(n);
        let h = hunt(n as nat, adj, u - 1, 0, seen, m);
        let m1 = mates(adj, n, u);
        assert(m1 == h.mate);
        assert(holds_no_unseen(m, seen, u - 1)) by {
            assert(!holder(m, u - 1));
        }
        hunt_facts(n as nat, adj, u - 1, 0, seen, m);
        hunt_moves(n as nat, adj, u - 1, 0, seen, m);
        hunt_keeps_closed(n as nat, adj, u - 1, 0, seen, m, s0);
        assert(holds_once(m1)) by {
            assert forall|v: int, w: int|
                0 <= v < w < m1.len() && (#[trigger] m1[v]) is Some implies m1[v]
                != #[trigger] m1[w] by {
                if m1[v] == m1[w] {
                    assert(seen[v] || seen[w]);
                }
            }
        }
        assert forall|x: int| u <= x < adj.len() implies !#[trigger] holder(m1, x) by {
            assert(!holder(m, x));
            if holder(m1, x) {
                let v = choose|v: int| 0 <= v < m1.len() && #[trigger] m1[v] == Some(x as usize);
                assert(holds_no_unseen(m, seen, x)) by {
                    assert forall|z: int| 0 <= z < m.len() && #[trigger] m[z] == Some(
                        x as usize,
                    ) implies seen[z] by {
                        assert(holder(m, x));
                    }
                }
                assert(seen[v]);
            }
        }
        if h.ok {
            assert(holder(m1, u - 1)) by {
                let v = choose|v: int|
                    0 <= v < m.len() && !seen[v] && #[trigger] h.mate[v] == Some(
                        (u - 1) as usize,
                    );
                assert(m1[v] == Some((u - 1) as usize));
            }
            assert(closed_set(adj, m1, s0)) by {
                assert forall|v: int| #[trigger] s0.contains(v) implies 0 <= v < m1.len()
                    && m1[v] is Some && list_within(adj, m1[v]->0 as int, 0, s0) by {
                    assert(m1[v] == m[v]);
                }
            }
            assert forall|x: int| 0 <= x < u implies #[trigger] holder(m1, x) || list_within(
                adj,
                x,
                0,
                s0,
            ) by {
                if x < u - 1 {
                    assert(holder(m, x) || list_within(adj, x, 0, s0));
                }
            }
            s0
        } else {
            unseen_fresh(n, n);
            failed_hunt_closes(n as nat, adj, u - 1, 0, seen, m);
            let t = seen_set(h.seen);
            let s = s0.union(t);
            assert(closed_set(adj, m1, s)) by {
                assert forall|v: int| #[trigger] s.contains(v) implies 0 <= v < m1.len()
                    && m1[v] is Some && list_within(adj, m1[v]->0 as int, 0, s) by {
                    if s0.contains(v) {
                        assert(list_within(adj, m[v]->0 as int, 0, s0));
                    } else {
                        assert(h.seen[v]);
                        assert(!seen[v]);
                        assert(list_within(adj, m[v]->0 as int, 0, t));
                    }
                }
            }
            assert forall|x: int| 0 <= x < u implies #[trigger] holder(m1, x) || list_within(
                adj,
                x,
                0,
                s,
            ) by {
                if x < u - 1 {
                    assert(holder(m, x) || list_within(adj, x, 0, s0));
                } else {
                    assert(list_within(adj, u - 1, 0, t));
                }
            }
            s
        }
    }
}

proof fn held_by_finds(mate: Seq<Option<usize>>, u: int, n: int)
    requires
        0 <= n <= mate.len(),
        mate.len() <= usize::MAX,
    ensures
        held_by(mate, u, n) matches Some(v) ==> v < n && mate[v as int] == Some(u as usize),
        held_by(mate, u, n) is None ==> forall|v: int|
            0 <= v < n ==> #[trigger] mate[v] != Some(u as usize),
    decreases n,
{
    if n > 0 {
        held_by_finds(mate, u, n - 1);
    }
}

/// A matching gives each left vertex at most one right vertex of its list, and no
/// right vertex twice.
pub open spec fn is_matching(adj: Seq<Seq<usize>>, m: Seq<Option<usize>>) -> bool {
    &&& m.len() == adj.len()
    &&& forall|u: int|
        0 <= u < m.len() ==> (#[trigger] m[u] matches Some(v) ==> adj[u].contains(v))
    &&& forall|u: int, w: int|
        0 <= u < w < m.len() && (#[trigger] m[u]) is Some ==> m[u] != #[trigger] m[w]
}

/// The left vertices that got one.
pub open spec fn matched(m: Seq<Option<usize>>) -> Set<int> {
    Set::new(|u: int| 0 <= u < m.len() && m[u] is Some)
}

/// The result is a matching.
pub proof fn matching_is_valid(adj: Seq<Seq<usize>>, n: int)
    requires
        names_right(adj, n),
    ensures
        is_matching(adj, matching(adj, n)),
        forall|u: int|
            0 <= u < adj.len() ==> (#[trigger] matching(adj, n)[u] matches Some(v) ==> v < n),
{
    let s = mates_facts(adj, n, adj.len() as int);
    let mate = mates(adj, n, adj.len() as int);
    let m = matching(adj, n);
    assert forall|u: int| 0 <= u < m.len() implies (#[trigger] m[u] matches Some(v) ==> v < n
        && adj[u].contains(v) && mate[v as int] == Some(u as usize)) by {
        held_by_finds(mate, u, n);
        if let Some(v) = m[u] {
            assert(mate[v as int] == Some(u as usize));
        }
    }
    assert forall|u: int, w: int| 0 <= u < w < m.len() && (#[trigger] m[u]) is Some implies m[u]
        != #[trigger] m[w] by {
        if m[u] == m[w] {
            assert(mate[m[u]->0 as int] == Some(u as usize));
            assert(mate[m[w]->0 as int] == Some(w as usize));
        }
    }
}

proof fn injection_len(d: Set<int>, h: Set<int>, f: spec_fn(int) -> int)
    requires
        d.finite(),
        h.finite(),
        forall|a: int| #[trigger] d.contains(a) ==> h.contains(f(a)),
        forall|a: int, b: int| #[trigger]
            d.contains(a) && #[trigger] d.contains(b) && f(a) == f(b) ==> a == b,
    ensures
        d.len() <= h.len(),
    decreases d.len(),
{
    if d.len() > 0 {
        let a = d.choose();
        assert(d.contains(a));
        assert(h.contains(f(a)));
        let d1 = d.remove(a);
        let h1 = h.remove(f(a));
        assert forall|b: int| #[trigger] d1.contains(b) implies h1.contains(f(b)) by {
            assert(d.contains(b));
        }
        assert forall|x: int, y: int| #[trigger] d1.contains(x) && #[trigger] d1.contains(y) && f(x)
            == f(y) implies x == y by {
            assert(d.contains(x) && d.contains(y));
        }
        injection_len(d1, h1, f);
    }
}

/// No matching gives a vertex to more left vertices.
pub proof fn matching_is_maximum(adj: Seq<Seq<usize>>, n: int, m: Seq<Option<usize>>)
    requires
        names_right(adj, n),
        is_matching(adj, m),
    ensures
        matched(m).finite(),
        matched(matching(adj, n)).finite(),
        matched(m).len() <= matched(matching(adj, n)).len(),
{
    let l = adj.len() as int;
    let s = mates_facts(adj, n, l);
    let mate = mates(adj, n, l);
    let best = matching(adj, n);
    vstd::set_lib::lemma_int_range(0, l);
    let all = vstd::set_lib::set_int_range(0, l);
    let d = matched(m);
    let h = matched(best);
    assert(d.subset_of(all));
    assert(h.subset_of(all));
    vstd::set_lib::lemma_len_subset(d, all);
    vstd::set_lib::lemma_len_subset(h, all);
    assert forall|x: int| 0 <= x < l implies (#[trigger] h.contains(x) <==> holder(mate, x)) by {
        held_by_finds(mate, x, n);
        if h.contains(x) {
            let v = best[x]->0 as int;
            assert(mate[v] == Some(x as usize));
        }
        if holder(mate, x) {
            let v = choose|v: int| 0 <= v < mate.len() && #[trigger] mate[v] == Some(x as usize);
            assert(best[x] is Some);
        }
    }
    let f = |x: int|
        if list_within(adj, x, 0, s) {
            mate[m[x]->0 as int]->0 as int
        } else {
            x
        };
    assert forall|x: int| #[trigger] d.contains(x) && list_within(adj, x, 0, s) implies s.contains(
        m[x]->0 as int,
    ) by {
        assert(adj[x].contains(m[x]->0));
        let k = choose|k: int| 0 <= k < adj[x].len() && adj[x][k] == m[x]->0;
        assert(s.contains(adj[x][k] as int));
    }
    assert forall|x: int| #[trigger] d.contains(x) implies h.contains(f(x)) by {
        if list_within(adj, x, 0, s) {
            let v = m[x]->0 as int;
            assert(s.contains(v));
            assert(mate[v] is Some);
            assert(mate[v] == Some(f(x) as usize));
            assert(holder(mate, f(x)));
            assert(h.contains(f(x)) <==> holder(mate, f(x)));
        } else {
            assert(holder(mate, x) || list_within(adj, x, 0, s));
            assert(h.contains(x) <==> holder(mate, x));
        }
    }
    assert forall|x: int, y: int| #[trigger] d.contains(x) && #[trigger] d.contains(y) && f(x)
        == f(y) implies x == y by {
        let inx = list_within(adj, x, 0, s);
        let iny = list_within(adj, y, 0, s);
        if inx && iny {
            let v = m[x]->0 as int;
            let w = m[y]->0 as int;
            assert(s.contains(v) && s.contains(w));
            assert(mate[v] is Some && mate[w] is Some);
            if v < w {
                assert(mate[v] != mate[w]);
            } else if w < v {
                assert(mate[w] != mate[v]);
            }
            assert(m[x] == m[y]);
            if x < y {
                assert(m[x] != m[y]);
            } else if y < x {
                assert(m[y] != m[x]);
            }
        } else if inx {
            let v = m[x]->0 as int;
            assert(s.contains(v));
            assert(list_within(adj, mate[v]->0 as int, 0, s));
        } else if iny {
            let w = m[y]->0 as int;
            assert(s.contains(w));
            assert(list_within(adj, mate[w]->0 as int, 0, s));
        }
    }
    injection_len(d, h, f);
}

} // verus!
