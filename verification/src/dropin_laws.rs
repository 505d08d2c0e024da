//! What a compatible candidate is worth: its gates, their order, and the order of the
//! answers.

use vstd::prelude::*;

use crate::dropin::best_match;
use crate::dropin::best_row;
use crate::dropin::blocks;
use crate::dropin::cand_at;
use crate::dropin::cand_pins;
use crate::dropin::is_analog;
use crate::dropin::outcome_of_tier;
use crate::dropin::tier_of;
use crate::dropin::verdict;
use crate::dropin::verdicts;
use crate::dropin::wired_at;
use crate::dropin::wires;
use crate::dropin::worst_tier;
use crate::dropin::CapRow;
use crate::dropin::MatchConfig;
use crate::dropin::MatchTier;
use crate::dropin::PosOutcome;
use crate::dropin::PosView;
use crate::dropin::PowerMode;
use crate::dropin::Strictness;
use crate::dropin_search::candidates;
use crate::dropin_search::compatible_key;
use crate::dropin_search::count_bound;
use crate::dropin_search::count_of;
use crate::dropin_search::counts;
use crate::dropin_search::is_candidate;
use crate::dropin_search::judged;
use crate::dropin_search::judged_score_fits;
use crate::dropin_search::ranked_candidates;
use crate::dropin_search::replacements;
use crate::dropin_search::same_positions;
use crate::dropin_search::score_key;
use crate::dropin_search::scores_fit;
use crate::dropin_search::CandView;
use crate::dropin_search::Counted;
use crate::dropin_search::FootView;
use crate::dropin_search::PartView;
use crate::dropin_search::SourceView;
use crate::h523_design::LockView;
use crate::mcu_pinout::PinId;
use crate::order::order_of;
use crate::order::order_of_is_stable;
use crate::order::picked;
use crate::phys_pinout::class_of_package;
use crate::phys_pinout::function_of;
use crate::phys_pinout::FnView;
use crate::phys_pinout::PhysView;
use crate::select::class_name;
use crate::text::before;
use crate::texts::sorted_texts;
use crate::texts::text_ranks;

verus! {

/// An analog signal is served by the very same signal or not at all, however loose the
/// match.
pub proof fn analog_is_exact(
    want: (Seq<char>, Seq<char>),
    cap: (Seq<char>, Seq<char>),
    af: Option<u8>,
    mode: Strictness,
)
    requires
        is_analog(class_name(want.0)),
    ensures
        tier_of(want, cap, af, mode) is Some <==> want == cap,
{
}

/// Whether one strictness admits all that another admits.
pub open spec fn is_looser(a: Strictness, b: Strictness) -> bool {
    a == b || a == Strictness::ExactInstanceRole || b == Strictness::ClassOnly
}

proof fn row_grows(
    want: (Seq<char>, Seq<char>),
    caps: Seq<CapRow>,
    pin: PinId,
    a: Strictness,
    b: Strictness,
    x: Option<(MatchTier, int)>,
    y: Option<(MatchTier, int)>,
    n: int,
)
    requires
        is_looser(a, b),
        x is Some ==> y is Some,
    ensures
        best_row(want, caps, pin, a, x, n) is Some ==> best_row(want, caps, pin, b, y, n) is Some,
    decreases n,
{
    if n > 0 {
        row_grows(want, caps, pin, a, b, x, y, n - 1);
    }
}

proof fn match_grows(
    want: (Seq<char>, Seq<char>),
    caps: Seq<CapRow>,
    pins: Seq<PinId>,
    a: Strictness,
    b: Strictness,
    n: int,
)
    requires
        is_looser(a, b),
    ensures
        best_match(want, caps, pins, a, n) is Some ==> best_match(want, caps, pins, b, n) is Some,
    decreases n,
{
    if n > 0 {
        match_grows(want, caps, pins, a, b, n - 1);
        row_grows(
            want,
            caps,
            pins[n - 1],
            a,
            b,
            best_match(want, caps, pins, a, n - 1),
            best_match(want, caps, pins, b, n - 1),
            caps.len() as int,
        );
    }
}

proof fn worst_grows(
    ws: Seq<LockView>,
    caps: Seq<CapRow>,
    pins: Seq<PinId>,
    a: Strictness,
    b: Strictness,
    n: int,
)
    requires
        is_looser(a, b),
    ensures
        worst_tier(ws, caps, pins, a, n) is Some ==> worst_tier(ws, caps, pins, b, n) is Some,
    decreases n,
{
    if n > 0 {
        worst_grows(ws, caps, pins, a, b, n - 1);
        match_grows(ws[n - 1].key, caps, pins, a, b, pins.len() as int);
    }
}

/// A position that does not block under one strictness does not block under a looser one.
pub proof fn looser_blocks_less(
    wired: Seq<LockView>,
    p: PhysView,
    cand: Option<FnView>,
    caps: Seq<CapRow>,
    a: MatchConfig,
    b: MatchConfig,
)
    requires
        is_looser(a.strictness, b.strictness),
        a.power_mode == b.power_mode,
    ensures
        !blocks(verdict(wired, p, cand, caps, a).outcome, a.power_mode) ==> !blocks(
            verdict(wired, p, cand, caps, b).outcome,
            b.power_mode,
        ),
{
    if let FnView::Gpio(pins) = function_of(p.s) {
        let ws = wires(wired, pins, pins.len() as int);
        worst_grows(ws, caps, cand_pins(cand), a.strictness, b.strictness, ws.len() as int);
    }
}

proof fn none_counted(v: Seq<PosView>, what: Counted, n: int)
    requires
        0 <= n <= v.len(),
    ensures
        count_of(v, what, n) == 0 <==> forall|i: int|
            0 <= i < n ==> !counts(#[trigger] v[i], what),
    decreases n,
{
    count_bound(v, what, n);
    if n > 0 {
        count_bound(v, what, n - 1);
        none_counted(v, what, n - 1);
        assert(counts(v[n - 1], what) || !counts(v[n - 1], what));
    }
}

/// Whether the candidate's position blocks at none of the source's positions.
pub open spec fn nothing_blocks(
    wired: Seq<LockView>,
    source: FootView,
    cand: FootView,
    caps: Seq<CapRow>,
    cfg: MatchConfig,
) -> bool {
    forall|i: int|
        0 <= i < source.pins.len() ==> !blocks(
            verdict(wired, #[trigger] source.pins[i], cand_at(cand.pins, source.pins[i].p), caps, cfg).outcome,
            cfg.power_mode,
        )
}

/// A candidate is compatible exactly where the footprints have the same positions and no
/// position blocks.
pub proof fn compatible_iff(
    wired: Seq<LockView>,
    source: FootView,
    name: Seq<char>,
    cand: FootView,
    caps: Seq<CapRow>,
    cfg: MatchConfig,
)
    ensures
        judged(wired, source, name, cand, caps, cfg).compatible <==> same_positions(
            source.pins,
            cand.pins,
        ) && nothing_blocks(wired, source, cand, caps, cfg),
{
    let v = verdicts(wired, source.pins, cand.pins, caps, cfg);
    none_counted(v, Counted::Blocker(cfg.power_mode), v.len() as int);
    assert forall|i: int| 0 <= i < source.pins.len() implies v[i] == verdict(
        wired,
        #[trigger] source.pins[i],
        cand_at(cand.pins, source.pins[i].p),
        caps,
        cfg,
    ) by {}
    if nothing_blocks(wired, source, cand, caps, cfg) {
        assert forall|i: int| 0 <= i < v.len() implies !counts(
            #[trigger] v[i],
            Counted::Blocker(cfg.power_mode),
        ) by {
            assert(v[i] == verdict(
                wired,
                source.pins[i],
                cand_at(cand.pins, source.pins[i].p),
                caps,
                cfg,
            ));
        }
    }
    if count_of(v, Counted::Blocker(cfg.power_mode), v.len() as int) == 0 {
        assert forall|i: int| 0 <= i < source.pins.len() implies !blocks(
            verdict(wired, #[trigger] source.pins[i], cand_at(cand.pins, source.pins[i].p), caps, cfg).outcome,
            cfg.power_mode,
        ) by {
            assert(!counts(v[i], Counted::Blocker(cfg.power_mode)));
        }
    }
}

/// A candidate that is compatible stays so when the match is loosened.
pub proof fn looser_keeps_compatible(
    wired: Seq<LockView>,
    source: FootView,
    name: Seq<char>,
    cand: FootView,
    caps: Seq<CapRow>,
    a: MatchConfig,
    b: MatchConfig,
)
    requires
        is_looser(a.strictness, b.strictness),
        a.power_mode == b.power_mode,
    ensures
        judged(wired, source, name, cand, caps, a).compatible ==> judged(
            wired,
            source,
            name,
            cand,
            caps,
            b,
        ).compatible,
{
    compatible_iff(wired, source, name, cand, caps, a);
    compatible_iff(wired, source, name, cand, caps, b);
    if nothing_blocks(wired, source, cand, caps, a) {
        assert forall|i: int| 0 <= i < source.pins.len() implies !blocks(
            verdict(wired, #[trigger] source.pins[i], cand_at(cand.pins, source.pins[i].p), caps, b).outcome,
            b.power_mode,
        ) by {
            looser_blocks_less(
                wired,
                source.pins[i],
                cand_at(cand.pins, source.pins[i].p),
                caps,
                a,
                b,
            );
        }
    }
}

/// What is compatible when a supply under an unused pin is refused is compatible when it
/// is only warned of, and what the warning admits is what ignoring it admits: the
/// functions, the supplies and the dedicated lines are judged alike in every power mode.
pub proof fn power_mode_only_gates_asymmetry(
    wired: Seq<LockView>,
    source: FootView,
    name: Seq<char>,
    cand: FootView,
    caps: Seq<CapRow>,
    strictness: Strictness,
)
    ensures
        ({
            let of = |m: PowerMode|
                judged(
                    wired,
                    source,
                    name,
                    cand,
                    caps,
                    MatchConfig { strictness, power_mode: m },
                );
            &&& of(PowerMode::Reject).compatible ==> of(PowerMode::Warn).compatible
            &&& of(PowerMode::Warn).compatible <==> of(PowerMode::Ignore).compatible
            &&& of(PowerMode::Warn).compatible && of(PowerMode::Warn).warnings == 0 ==> of(
                PowerMode::Reject,
            ).compatible
        }),
{
    let r = MatchConfig { strictness, power_mode: PowerMode::Reject };
    let w = MatchConfig { strictness, power_mode: PowerMode::Warn };
    let g = MatchConfig { strictness, power_mode: PowerMode::Ignore };
    compatible_iff(wired, source, name, cand, caps, r);
    compatible_iff(wired, source, name, cand, caps, w);
    compatible_iff(wired, source, name, cand, caps, g);
    let at = |i: int, c: MatchConfig|
        verdict(wired, source.pins[i], cand_at(cand.pins, source.pins[i].p), caps, c).outcome;
    let v = verdicts(wired, source.pins, cand.pins, caps, w);
    none_counted(v, Counted::Outcome(PosOutcome::PowerAsym), v.len() as int);
    if nothing_blocks(wired, source, cand, caps, r) {
        assert forall|i: int| 0 <= i < source.pins.len() implies !blocks(
            verdict(wired, #[trigger] source.pins[i], cand_at(cand.pins, source.pins[i].p), caps, w).outcome,
            w.power_mode,
        ) by {
            assert(!blocks(at(i, r), PowerMode::Reject));
        }
    }
    if nothing_blocks(wired, source, cand, caps, w) {
        assert forall|i: int| 0 <= i < source.pins.len() implies !blocks(
            verdict(wired, #[trigger] source.pins[i], cand_at(cand.pins, source.pins[i].p), caps, g).outcome,
            g.power_mode,
        ) by {
            assert(!blocks(at(i, w), PowerMode::Warn));
        }
        if count_of(v, Counted::Outcome(PosOutcome::PowerAsym), v.len() as int) == 0 {
            assert forall|i: int| 0 <= i < source.pins.len() implies !blocks(
                verdict(wired, #[trigger] source.pins[i], cand_at(cand.pins, source.pins[i].p), caps, r).outcome,
                r.power_mode,
            ) by {
                assert(!blocks(at(i, w), PowerMode::Warn));
                assert(!counts(v[i], Counted::Outcome(PosOutcome::PowerAsym)));
                assert(v[i].outcome == at(i, w));
            }
        }
    }
    if nothing_blocks(wired, source, cand, caps, g) {
        assert forall|i: int| 0 <= i < source.pins.len() implies !blocks(
            verdict(wired, #[trigger] source.pins[i], cand_at(cand.pins, source.pins[i].p), caps, w).outcome,
            w.power_mode,
        ) by {
            assert(!blocks(at(i, g), PowerMode::Ignore));
        }
    }
}

/// Whether a candidate's pin offers a signal that serves the wired one.
pub open spec fn serves(
    want: (Seq<char>, Seq<char>),
    caps: Seq<CapRow>,
    pins: Seq<PinId>,
    mode: Strictness,
) -> bool {
    exists|k: int|
        0 <= k < caps.len() && pins.contains(caps[k].pin) && tier_of(
            want,
            (#[trigger] caps[k]).key,
            caps[k].af,
            mode,
        ) is Some
}

proof fn row_is_right(
    want: (Seq<char>, Seq<char>),
    caps: Seq<CapRow>,
    pin: PinId,
    mode: Strictness,
    acc: Option<(MatchTier, int)>,
    n: int,
)
    requires
        0 <= n <= caps.len(),
    ensures
        best_row(want, caps, pin, mode, acc, n) is Some <==> acc is Some || exists|k: int|
            0 <= k < n && caps[k].pin == pin && tier_of(
                want,
                (#[trigger] caps[k]).key,
                caps[k].af,
                mode,
            ) is Some,
    decreases n,
{
    if n > 0 {
        row_is_right(want, caps, pin, mode, acc, n - 1);
        let c = caps[n - 1];
        if c.pin == pin && tier_of(want, c.key, c.af, mode) is Some {
            assert(caps[n - 1].pin == pin);
        }
    }
}

proof fn match_is_right(
    want: (Seq<char>, Seq<char>),
    caps: Seq<CapRow>,
    pins: Seq<PinId>,
    mode: Strictness,
    n: int,
)
    requires
        0 <= n <= pins.len(),
    ensures
        best_match(want, caps, pins, mode, n) is Some <==> serves(
            want,
            caps,
            pins.take(n),
            mode,
        ),
    decreases n,
{
    if n > 0 {
        match_is_right(want, caps, pins, mode, n - 1);
        let had = pins.take(n - 1);
        let now = pins.take(n);
        row_is_right(
            want,
            caps,
            pins[n - 1],
            mode,
            best_match(want, caps, pins, mode, n - 1),
            caps.len() as int,
        );
        if serves(want, caps, had, mode) {
            let k = choose|k: int|
                0 <= k < caps.len() && had.contains(caps[k].pin) && tier_of(
                    want,
                    (#[trigger] caps[k]).key,
                    caps[k].af,
                    mode,
                ) is Some;
            let x = choose|x: int| 0 <= x < had.len() && had[x] == caps[k].pin;
            assert(now[x] == caps[k].pin);
        }
        assert(now[n - 1] == pins[n - 1]);
        if serves(want, caps, now, mode) {
            let k = choose|k: int|
                0 <= k < caps.len() && now.contains(caps[k].pin) && tier_of(
                    want,
                    (#[trigger] caps[k]).key,
                    caps[k].af,
                    mode,
                ) is Some;
            let x = choose|x: int| 0 <= x < now.len() && now[x] == caps[k].pin;
            if x < n - 1 {
                assert(had[x] == caps[k].pin);
            }
        }
    }
}

proof fn worst_is_right(
    ws: Seq<LockView>,
    caps: Seq<CapRow>,
    pins: Seq<PinId>,
    mode: Strictness,
    n: int,
)
    requires
        0 <= n <= ws.len(),
    ensures
        worst_tier(ws, caps, pins, mode, n) is Some <==> forall|k: int|
            0 <= k < n ==> serves((#[trigger] ws[k]).key, caps, pins, mode),
    decreases n,
{
    if n > 0 {
        worst_is_right(ws, caps, pins, mode, n - 1);
        match_is_right(ws[n - 1].key, caps, pins, mode, pins.len() as int);
        assert(pins.take(pins.len() as int) =~= pins);
        assert(ws[n - 1] == ws[n - 1]);
    }
}

/// Whether nothing is wired to a position's pins.
pub open spec fn is_unused(wired: Seq<LockView>, pins: Seq<PinId>) -> bool {
    forall|k: int| 0 <= k < wired.len() ==> !pins.contains((#[trigger] wired[k]).pin)
}

/// Whether what a candidate has at a position can stand in for what the source has there:
/// the very same rails at a supply, a signal that serves every wired function, no supply
/// under an unused pin where that is refused, and no other line where the source has a
/// dedicated one.
pub open spec fn stands_in(
    wired: Seq<LockView>,
    p: PhysView,
    there: Option<FnView>,
    caps: Seq<CapRow>,
    cfg: MatchConfig,
) -> bool {
    match function_of(p.s) {
        FnView::Power(want) => there == Some(FnView::Power(want)),
        FnView::Gpio(pins) => {
            &&& forall|k: int|
                0 <= k < wired.len() && pins.contains((#[trigger] wired[k]).pin) ==> serves(
                    wired[k].key,
                    caps,
                    cand_pins(there),
                    cfg.strictness,
                )
            &&& is_unused(wired, pins) && cfg.power_mode == PowerMode::Reject ==> !(
            there matches Some(FnView::Power(_)))
        },
        FnView::Dedicated(tokens) => match there {
            None => true,
            Some(FnView::Nc) => true,
            Some(FnView::Dedicated(have)) => sorted_texts(tokens) == sorted_texts(have),
            _ => false,
        },
        FnView::Nc => true,
    }
}

proof fn passes_where_it_stands_in(
    wired: Seq<LockView>,
    p: PhysView,
    there: Option<FnView>,
    caps: Seq<CapRow>,
    cfg: MatchConfig,
)
    ensures
        !blocks(verdict(wired, p, there, caps, cfg).outcome, cfg.power_mode) <==> stands_in(
            wired,
            p,
            there,
            caps,
            cfg,
        ),
{
    let o = verdict(wired, p, there, caps, cfg).outcome;
    if let FnView::Gpio(pins) = function_of(p.s) {
        let ws = wires(wired, pins, pins.len() as int);
        let offered = cand_pins(there);
        worst_is_right(ws, caps, offered, cfg.strictness, ws.len() as int);
        assert forall|k: int| 0 <= k < wired.len() && pins.contains((#[trigger] wired[k]).pin) implies ws.contains(
            wired[k],
        ) by {
            let x = choose|x: int| 0 <= x < pins.len() && pins[x] == wired[k].pin;
            wired_is_listed(wired, pins, pins.len() as int, x, k);
        }
        assert forall|y: int| 0 <= y < ws.len() implies wired.contains(#[trigger] ws[y])
            && pins.contains(ws[y].pin) by {
            listed_is_wired(wired, pins, pins.len() as int, y);
        }
        if ws.len() > 0 {
            let t = worst_tier(ws, caps, offered, cfg.strictness, ws.len() as int);
            assert(o == outcome_of_tier(t));
            assert(wired.contains(ws[0]) && pins.contains(ws[0].pin));
            let w = choose|k: int| 0 <= k < wired.len() && wired[k] == ws[0];
            assert(pins.contains(wired[w].pin));
            assert(!is_unused(wired, pins));
            if t is Some {
                assert forall|k: int|
                    0 <= k < wired.len() && pins.contains((#[trigger] wired[k]).pin) implies serves(
                    wired[k].key,
                    caps,
                    offered,
                    cfg.strictness,
                ) by {
                    let y = choose|y: int| 0 <= y < ws.len() && ws[y] == wired[k];
                    assert(serves(ws[y].key, caps, offered, cfg.strictness));
                }
            } else {
                let y = choose|y: int|
                    0 <= y < ws.len() && !serves((#[trigger] ws[y]).key, caps, offered, cfg.strictness);
                let k = choose|k: int| 0 <= k < wired.len() && wired[k] == ws[y];
                assert(!serves(wired[k].key, caps, offered, cfg.strictness));
            }
        } else {
            assert(is_unused(wired, pins)) by {
                assert forall|k: int| 0 <= k < wired.len() implies !pins.contains(
                    (#[trigger] wired[k]).pin,
                ) by {
                    if pins.contains(wired[k].pin) {
                        let y = choose|y: int| 0 <= y < ws.len() && ws[y] == wired[k];
                    }
                }
            }
        }
    }
}

/// A candidate is compatible exactly where the footprints have the same positions and what
/// it has at each of them can stand in for what the source has there.
pub proof fn compatible_means_it_stands_in(
    wired: Seq<LockView>,
    source: FootView,
    name: Seq<char>,
    cand: FootView,
    caps: Seq<CapRow>,
    cfg: MatchConfig,
)
    ensures
        judged(wired, source, name, cand, caps, cfg).compatible <==> same_positions(
            source.pins,
            cand.pins,
        ) && forall|i: int|
            0 <= i < source.pins.len() ==> stands_in(
                wired,
                #[trigger] source.pins[i],
                cand_at(cand.pins, source.pins[i].p),
                caps,
                cfg,
            ),
{
    compatible_iff(wired, source, name, cand, caps, cfg);
    assert forall|i: int| 0 <= i < source.pins.len() implies (!blocks(
        verdict(wired, #[trigger] source.pins[i], cand_at(cand.pins, source.pins[i].p), caps, cfg).outcome,
        cfg.power_mode,
    ) <==> stands_in(
        wired,
        source.pins[i],
        cand_at(cand.pins, source.pins[i].p),
        caps,
        cfg,
    )) by {
        passes_where_it_stands_in(
            wired,
            source.pins[i],
            cand_at(cand.pins, source.pins[i].p),
            caps,
            cfg,
        );
    }
}

proof fn at_is_wired(wired: Seq<LockView>, pin: PinId, n: int, y: int)
    requires
        0 <= n <= wired.len(),
        0 <= y < wired_at(wired, pin, n).len(),
    ensures
        wired.contains(wired_at(wired, pin, n)[y]),
        wired_at(wired, pin, n)[y].pin == pin,
    decreases n,
{
    if n > 0 {
        let had = wired_at(wired, pin, n - 1);
        if y < had.len() {
            at_is_wired(wired, pin, n - 1, y);
        } else {
            assert(wired_at(wired, pin, n)[y] == wired[n - 1]);
        }
    }
}

/// What is listed for a position is wired to one of its pins.
pub proof fn listed_is_wired(wired: Seq<LockView>, pins: Seq<PinId>, n: int, y: int)
    requires
        0 <= n <= pins.len(),
        0 <= y < wires(wired, pins, n).len(),
    ensures
        wired.contains(wires(wired, pins, n)[y]),
        pins.contains(wires(wired, pins, n)[y].pin),
    decreases n,
{
    if n > 0 {
        let had = wires(wired, pins, n - 1);
        let here = wired_at(wired, pins[n - 1], wired.len() as int);
        if y < had.len() {
            listed_is_wired(wired, pins, n - 1, y);
            assert((had + here)[y] == had[y]);
        } else {
            at_is_wired(wired, pins[n - 1], wired.len() as int, y - had.len());
            assert((had + here)[y] == here[y - had.len()]);
        }
    }
}

proof fn wired_is_at(wired: Seq<LockView>, pin: PinId, n: int, k: int)
    requires
        0 <= k < n <= wired.len(),
        wired[k].pin == pin,
    ensures
        wired_at(wired, pin, n).contains(wired[k]),
    decreases n,
{
    let v = wired_at(wired, pin, n);
    if k == n - 1 {
        assert(v[v.len() - 1] == wired[k]);
    } else {
        wired_is_at(wired, pin, n - 1, k);
        let u = wired_at(wired, pin, n - 1);
        let y = choose|y: int| 0 <= y < u.len() && u[y] == wired[k];
        assert(v[y] == wired[k]);
    }
}

/// What is wired to a pin of a position is listed for it.
pub proof fn wired_is_listed(wired: Seq<LockView>, pins: Seq<PinId>, n: int, x: int, k: int)
    requires
        0 <= x < n <= pins.len(),
        0 <= k < wired.len(),
        pins[x] == wired[k].pin,
    ensures
        wires(wired, pins, n).contains(wired[k]),
    decreases n,
{
    let a = wires(wired, pins, n - 1);
    let b = wired_at(wired, pins[n - 1], wired.len() as int);
    if x == n - 1 {
        wired_is_at(wired, pins[x], wired.len() as int, k);
        let y = choose|y: int| 0 <= y < b.len() && b[y] == wired[k];
        assert((a + b)[a.len() + y] == wired[k]);
    } else {
        wired_is_listed(wired, pins, n - 1, x, k);
        let y = choose|y: int| 0 <= y < a.len() && a[y] == wired[k];
        assert((a + b)[y] == wired[k]);
    }
}

proof fn candidates_fit(
    s: SourceView,
    class: (Seq<char>, Seq<char>),
    parts: Seq<PartView>,
    cfg: MatchConfig,
    n: int,
)
    requires
        s.footprint.pins.len() <= u16::MAX,
        0 <= n <= parts.len(),
    ensures
        scores_fit(candidates(s, class, parts, cfg, n)),
        candidates(s, class, parts, cfg, n).len() <= n,
        forall|c: int|
            0 <= c < candidates(s, class, parts, cfg, n).len() ==> exists|i: int|
                0 <= i < n && is_candidate(parts, s.name, class, i) && is_judged(
                    s,
                    parts,
                    cfg,
                    i,
                    #[trigger] candidates(s, class, parts, cfg, n)[c],
                ),
    decreases n,
{
    if n > 0 {
        candidates_fit(s, class, parts, cfg, n - 1);
        let had = candidates(s, class, parts, cfg, n - 1);
        let v = candidates(s, class, parts, cfg, n);
        let p = parts[n - 1];
        if is_candidate(parts, s.name, class, n - 1) {
            judged_score_fits(s.wired, s.footprint, p.name, p.record->0, p.caps, cfg);
        }
        assert forall|c: int| 0 <= c < v.len() implies exists|i: int|
            0 <= i < n && is_candidate(parts, s.name, class, i) && is_judged(
                s,
                parts,
                cfg,
                i,
                #[trigger] v[c],
            ) by {
            if c < had.len() {
                assert(v[c] == had[c]);
                let i = choose|i: int|
                    0 <= i < n - 1 && is_candidate(parts, s.name, class, i) && is_judged(
                        s,
                        parts,
                        cfg,
                        i,
                        had[c],
                    );
                assert(is_judged(s, parts, cfg, i, v[c]));
            } else {
                assert(is_judged(s, parts, cfg, n - 1, v[c]));
            }
        }
        assert forall|k: int| 0 <= k < v.len() implies -0x1_0000_0000 < (#[trigger] v[k]).score
            < 0x1_0000_0000 by {
            if k < had.len() {
                assert(v[k] == had[k]);
            }
        }
    }
}

/// Whether a candidate is a part of the lineup, judged.
pub open spec fn is_judged(
    s: SourceView,
    parts: Seq<PartView>,
    cfg: MatchConfig,
    i: int,
    c: CandView,
) -> bool {
    c == judged(s.wired, s.footprint, parts[i].name, parts[i].record->0, parts[i].caps, cfg)
}

/// Whether one candidate goes before another: compatible ones first, then the higher
/// score, then the name.
pub open spec fn goes_before(a: CandView, b: CandView) -> bool {
    ||| a.compatible && !b.compatible
    ||| a.compatible == b.compatible && (a.score > b.score || (a.score == b.score && !before(
        b.name,
        a.name,
    )))
}

proof fn ranked_is_ordered(v: Seq<CandView>)
    requires
        scores_fit(v),
        v.len() <= usize::MAX,
    ensures
        ranked_candidates(v).len() == v.len(),
        forall|i: int, j: int|
            #![trigger ranked_candidates(v)[i], ranked_candidates(v)[j]]
            0 <= i < j < v.len() ==> goes_before(
                ranked_candidates(v)[i],
                ranked_candidates(v)[j],
            ),
        forall|i: int|
            0 <= i < v.len() ==> v.contains(#[trigger] ranked_candidates(v)[i]),
{
    let n = v.len() as int;
    let names = v.map_values(|c: CandView| c.name);
    let k1 = text_ranks(names);
    let o1 = order_of(k1);
    let a = picked(v, o1);
    let k2 = a.map_values(|c: CandView| score_key(c));
    let o2 = order_of(k2);
    let b = picked(a, o2);
    let k3 = b.map_values(|c: CandView| compatible_key(c));
    let o3 = order_of(k3);
    let r = picked(b, o3);
    order_of_is_stable(k1);
    order_of_is_stable(k2);
    order_of_is_stable(k3);
    crate::texts::ranks_follow_texts(names);
    assert forall|i: int| 0 <= i < n implies v.contains(#[trigger] r[i]) by {
        assert(o3[i] < n);
        assert(o2[o3[i] as int] < n);
        assert(o1[o2[o3[i] as int] as int] < n);
        assert(r[i] == v[o1[o2[o3[i] as int] as int] as int]);
    }
    assert forall|i: int, j: int| #![trigger r[i], r[j]] 0 <= i < j < n implies goes_before(
        r[i],
        r[j],
    ) by {
        let bi = o3[i] as int;
        let bj = o3[j] as int;
        assert(bi < n && bj < n);
        assert(k3[bi] == compatible_key(b[bi]) && k3[bj] == compatible_key(b[bj]));
        assert(r[i] == b[bi] && r[j] == b[bj]);
        if k3[bi] == k3[bj] {
            assert(bi < bj);
            let ai = o2[bi] as int;
            let aj = o2[bj] as int;
            assert(ai < n && aj < n);
            assert(b[bi] == a[ai] && b[bj] == a[aj]);
            assert(k2[ai] == score_key(a[ai]) && k2[aj] == score_key(a[aj]));
            let vi = o1[ai] as int;
            let vj = o1[aj] as int;
            assert(vi < n && vj < n);
            assert(a[ai] == v[vi] && a[aj] == v[vj]);
            assert(-0x1_0000_0000 < v[vi].score < 0x1_0000_0000);
            assert(-0x1_0000_0000 < v[vj].score < 0x1_0000_0000);
            if k2[ai] == k2[aj] {
                assert(ai < aj);
                assert(k1[vi] <= k1[vj]);
                assert(names[vi] == v[vi].name && names[vj] == v[vj].name);
            }
        }
    }
}

/// The answers are parts of the lineup with the source's land pattern, none of them of
/// the source's own line and package letter, and they come compatible ones first, then
/// by score, then by name.
pub proof fn replacements_are_ordered(s: SourceView, parts: Seq<PartView>, cfg: MatchConfig)
    requires
        s.footprint.pins.len() <= u16::MAX,
        parts.len() <= usize::MAX,
    ensures
        forall|i: int, j: int|
            #![trigger replacements(s, parts, cfg)[i], replacements(s, parts, cfg)[j]]
            0 <= i < j < replacements(s, parts, cfg).len() ==> goes_before(
                replacements(s, parts, cfg)[i],
                replacements(s, parts, cfg)[j],
            ),
        forall|c: int|
            0 <= c < replacements(s, parts, cfg).len() ==> class_of_package(s.footprint.pkg) is Some
                && exists|i: int|
                0 <= i < parts.len() && is_candidate(
                    parts,
                    s.name,
                    class_of_package(s.footprint.pkg)->0,
                    i,
                ) && is_judged(s, parts, cfg, i, #[trigger] replacements(s, parts, cfg)[c]),
{
    if let Some(class) = class_of_package(s.footprint.pkg) {
        let n = parts.len() as int;
        let v = candidates(s, class, parts, cfg, n);
        candidates_fit(s, class, parts, cfg, n);
        ranked_is_ordered(v);
        let r = replacements(s, parts, cfg);
        assert(r == ranked_candidates(v));
        assert forall|c: int| 0 <= c < r.len() implies exists|i: int|
            0 <= i < parts.len() && is_candidate(parts, s.name, class, i) && is_judged(
                s,
                parts,
                cfg,
                i,
                #[trigger] r[c],
            ) by {
            assert(v.contains(r[c]));
            let k = choose|k: int| 0 <= k < v.len() && v[k] == r[c];
            let i = choose|i: int|
                0 <= i < n && is_candidate(parts, s.name, class, i) && is_judged(
                    s,
                    parts,
                    cfg,
                    i,
                    v[k],
                );
            assert(is_judged(s, parts, cfg, i, r[c]));
        }
    }
}

/// Whether two judgements, under two configurations, are of one part of the lineup.
pub open spec fn of_one_part(
    s: SourceView,
    parts: Seq<PartView>,
    a: MatchConfig,
    b: MatchConfig,
    c: CandView,
    d: CandView,
) -> bool {
    exists|i: int|
        0 <= i < parts.len() && #[trigger] is_judged(s, parts, a, i, c) && is_judged(
            s,
            parts,
            b,
            i,
            d,
        )
}

proof fn candidates_align(
    s: SourceView,
    class: (Seq<char>, Seq<char>),
    parts: Seq<PartView>,
    a: MatchConfig,
    b: MatchConfig,
    n: int,
)
    requires
        0 <= n <= parts.len(),
    ensures
        candidates(s, class, parts, a, n).len() == candidates(s, class, parts, b, n).len(),
        candidates(s, class, parts, a, n).len() <= n,
        forall|k: int|
            0 <= k < candidates(s, class, parts, a, n).len() ==> of_one_part(
                s,
                parts,
                a,
                b,
                #[trigger] candidates(s, class, parts, a, n)[k],
                candidates(s, class, parts, b, n)[k],
            ),
    decreases n,
{
    if n > 0 {
        candidates_align(s, class, parts, a, b, n - 1);
        let had = candidates(s, class, parts, a, n - 1);
        let v = candidates(s, class, parts, a, n);
        let w = candidates(s, class, parts, b, n);
        assert forall|k: int| 0 <= k < v.len() implies of_one_part(
            s,
            parts,
            a,
            b,
            #[trigger] v[k],
            w[k],
        ) by {
            if k < had.len() {
                assert(v[k] == had[k]);
                assert(w[k] == candidates(s, class, parts, b, n - 1)[k]);
            } else {
                assert(is_judged(s, parts, a, n - 1, v[k]));
            }
        }
    }
}

proof fn ranked_keeps_all(v: Seq<CandView>, k: int)
    requires
        v.len() <= usize::MAX,
        0 <= k < v.len(),
    ensures
        ranked_candidates(v).len() == v.len(),
        ranked_candidates(v).contains(v[k]),
{
    let n = v.len() as int;
    let names = v.map_values(|c: CandView| c.name);
    let k1 = text_ranks(names);
    let o1 = order_of(k1);
    let a = picked(v, o1);
    let k2 = a.map_values(|c: CandView| score_key(c));
    let o2 = order_of(k2);
    let b = picked(a, o2);
    let k3 = b.map_values(|c: CandView| compatible_key(c));
    let o3 = order_of(k3);
    order_of_is_stable(k1);
    order_of_is_stable(k2);
    order_of_is_stable(k3);
    crate::order::stable_order_covers(k1, o1, n, k);
    let x = choose|x: int| 0 <= x < o1.len() && o1[x] == k as usize;
    crate::order::stable_order_covers(k2, o2, n, x);
    let y = choose|y: int| 0 <= y < o2.len() && o2[y] == x as usize;
    crate::order::stable_order_covers(k3, o3, n, y);
    let z = choose|z: int| 0 <= z < o3.len() && o3[z] == y as usize;
    assert(ranked_candidates(v)[z] == v[k]);
}

proof fn ranked_adds_none(v: Seq<CandView>, i: int)
    requires
        v.len() <= usize::MAX,
        0 <= i < ranked_candidates(v).len(),
    ensures
        v.contains(ranked_candidates(v)[i]),
{
    let names = v.map_values(|c: CandView| c.name);
    let k1 = text_ranks(names);
    let o1 = order_of(k1);
    let a = picked(v, o1);
    let k2 = a.map_values(|c: CandView| score_key(c));
    let o2 = order_of(k2);
    let b = picked(a, o2);
    let k3 = b.map_values(|c: CandView| compatible_key(c));
    let o3 = order_of(k3);
    order_of_is_stable(k1);
    order_of_is_stable(k2);
    order_of_is_stable(k3);
    assert(o3[i] < v.len());
    assert(o2[o3[i] as int] < v.len());
    assert(o1[o2[o3[i] as int] as int] < v.len());
    assert(ranked_candidates(v)[i] == v[o1[o2[o3[i] as int] as int] as int]);
}

/// Whether a row of one search is met by a row of another for the same part.
pub open spec fn is_met(
    s: SourceView,
    parts: Seq<PartView>,
    a: MatchConfig,
    b: MatchConfig,
    c: CandView,
) -> bool {
    exists|j: int|
        0 <= j < replacements(s, parts, b).len() && of_one_part(
            s,
            parts,
            a,
            b,
            c,
            #[trigger] replacements(s, parts, b)[j],
        )
}

/// Whether each row of one search is met by a row of the other for the same part.
pub open spec fn rows_are_met(
    s: SourceView,
    parts: Seq<PartView>,
    a: MatchConfig,
    b: MatchConfig,
) -> bool {
    forall|i: int|
        0 <= i < replacements(s, parts, a).len() ==> is_met(
            s,
            parts,
            a,
            b,
            #[trigger] replacements(s, parts, a)[i],
        )
}

/// A search has as many rows, and rows for the same parts, however strict it is and whatever
/// its power mode.
pub proof fn search_rows_meet(s: SourceView, parts: Seq<PartView>, a: MatchConfig, b: MatchConfig)
    requires
        parts.len() <= usize::MAX,
    ensures
        replacements(s, parts, a).len() == replacements(s, parts, b).len(),
        rows_are_met(s, parts, a, b),
{
    let ra = replacements(s, parts, a);
    let rb = replacements(s, parts, b);
    if let Some(class) = class_of_package(s.footprint.pkg) {
        let n = parts.len() as int;
        let v = candidates(s, class, parts, a, n);
        let w = candidates(s, class, parts, b, n);
        candidates_align(s, class, parts, a, b, n);
        if v.len() > 0 {
            ranked_keeps_all(v, 0);
            ranked_keeps_all(w, 0);
        } else {
            assert(ra.len() == 0 && rb.len() == 0) by {
                if ra.len() > 0 {
                    ranked_adds_none(v, 0);
                }
                if rb.len() > 0 {
                    ranked_adds_none(w, 0);
                }
            }
        }
        assert forall|i: int| 0 <= i < ra.len() implies is_met(s, parts, a, b, #[trigger] ra[i]) by {
            ranked_adds_none(v, i);
            let k = choose|k: int| 0 <= k < v.len() && v[k] == ra[i];
            assert(of_one_part(s, parts, a, b, v[k], w[k]));
            ranked_keeps_all(w, k);
            let j = choose|j: int| 0 <= j < rb.len() && rb[j] == w[k];
            assert(of_one_part(s, parts, a, b, ra[i], rb[j]));
        }
    }
}

/// Loosening the match loses no row of a search and adds none: each row of one search is
/// met by a row of the other for the same part, and where the stricter row is compatible,
/// so is the looser one.
pub proof fn looser_search_keeps_compatible(
    s: SourceView,
    parts: Seq<PartView>,
    a: MatchConfig,
    b: MatchConfig,
)
    requires
        is_looser(a.strictness, b.strictness),
        a.power_mode == b.power_mode,
        parts.len() <= usize::MAX,
    ensures
        replacements(s, parts, a).len() == replacements(s, parts, b).len(),
        rows_are_met(s, parts, a, b),
        rows_are_met(s, parts, b, a),
        forall|c: CandView, d: CandView| #[trigger]
            of_one_part(s, parts, a, b, c, d) && c.compatible ==> d.compatible,
{
    search_rows_meet(s, parts, a, b);
    search_rows_meet(s, parts, b, a);
    assert forall|c: CandView, d: CandView| #[trigger]
        of_one_part(s, parts, a, b, c, d) && c.compatible implies d.compatible by {
        let k = choose|k: int|
            0 <= k < parts.len() && #[trigger] is_judged(s, parts, a, k, c) && is_judged(
                s,
                parts,
                b,
                k,
                d,
            );
        let p = parts[k];
        looser_keeps_compatible(s.wired, s.footprint, p.name, p.record->0, p.caps, a, b);
    }
}

/// The search's wishes at one strictness and power mode.
pub open spec fn in_mode(strictness: Strictness, power_mode: PowerMode) -> MatchConfig {
    MatchConfig { strictness, power_mode }
}

/// The power mode loses no row of a search and adds none. A row that is compatible where a
/// supply under an unused pin is refused is compatible where it is only warned of, and one
/// that is warned of nothing is where it is refused; warning and ignoring admit the same rows.
pub proof fn power_mode_only_gates_a_search(
    s: SourceView,
    parts: Seq<PartView>,
    strictness: Strictness,
)
    requires
        parts.len() <= usize::MAX,
    ensures
        forall|m: PowerMode, n: PowerMode|
            #![trigger in_mode(strictness, m), in_mode(strictness, n)]
            replacements(s, parts, in_mode(strictness, m)).len() == replacements(
                s,
                parts,
                in_mode(strictness, n),
            ).len() && rows_are_met(s, parts, in_mode(strictness, m), in_mode(strictness, n)),
        forall|c: CandView, d: CandView| #[trigger]
            of_one_part(
                s,
                parts,
                in_mode(strictness, PowerMode::Reject),
                in_mode(strictness, PowerMode::Warn),
                c,
                d,
            ) ==> (c.compatible ==> d.compatible) && (d.compatible && d.warnings == 0
                ==> c.compatible),
        forall|c: CandView, d: CandView| #[trigger]
            of_one_part(
                s,
                parts,
                in_mode(strictness, PowerMode::Warn),
                in_mode(strictness, PowerMode::Ignore),
                c,
                d,
            ) ==> (c.compatible <==> d.compatible),
{
    assert forall|m: PowerMode, n: PowerMode|
        #![trigger in_mode(strictness, m), in_mode(strictness, n)]
        replacements(s, parts, in_mode(strictness, m)).len() == replacements(
            s,
            parts,
            in_mode(strictness, n),
        ).len() && rows_are_met(s, parts, in_mode(strictness, m), in_mode(strictness, n)) by {
        search_rows_meet(s, parts, in_mode(strictness, m), in_mode(strictness, n));
    }
    let r = in_mode(strictness, PowerMode::Reject);
    let w = in_mode(strictness, PowerMode::Warn);
    let g = in_mode(strictness, PowerMode::Ignore);
    assert forall|c: CandView, d: CandView| #[trigger]
        of_one_part(s, parts, r, w, c, d) implies (c.compatible ==> d.compatible) && (d.compatible
        && d.warnings == 0 ==> c.compatible) by {
        let k = choose|k: int|
            0 <= k < parts.len() && #[trigger] is_judged(s, parts, r, k, c) && is_judged(
                s,
                parts,
                w,
                k,
                d,
            );
        let p = parts[k];
        let h = p.record->0;
        power_mode_only_gates_asymmetry(s.wired, s.footprint, p.name, h, p.caps, strictness);
    }
    assert forall|c: CandView, d: CandView| #[trigger]
        of_one_part(s, parts, w, g, c, d) implies (c.compatible <==> d.compatible) by {
        let k = choose|k: int|
            0 <= k < parts.len() && #[trigger] is_judged(s, parts, w, k, c) && is_judged(
                s,
                parts,
                g,
                k,
                d,
            );
        let p = parts[k];
        let h = p.record->0;
        power_mode_only_gates_asymmetry(s.wired, s.footprint, p.name, h, p.caps, strictness);
    }
}

} // verus!
