//! What the verdicts on a candidate say: how well each position is served, what the counts
//! and the score are made of, and what a query leaves out.

use vstd::prelude::*;

use crate::dropin::best_match;
use crate::dropin::best_row;
use crate::dropin::cand_at;
use crate::dropin::cand_pins;
use crate::dropin::required_upto;
use crate::dropin::tier_of;
use crate::dropin::verdict;
use crate::dropin::verdicts;
use crate::dropin::wires;
use crate::dropin::worst_tier;
use crate::dropin::CapRow;
use crate::dropin::MatchConfig;
use crate::dropin::MatchTier;
use crate::dropin::PosOutcome;
use crate::dropin::PosView;
use crate::dropin::PowerMode;
use crate::dropin::Strictness;
use crate::dropin_laws::is_unused;
use crate::dropin_laws::listed_is_wired;
use crate::dropin_laws::wired_is_listed;
use crate::dropin_search::answers;
use crate::dropin_search::config_of;
use crate::dropin_search::count_of;
use crate::dropin_search::judged;
use crate::dropin_search::narrowed;
use crate::dropin_search::replacements;
use crate::dropin_search::CandView;
use crate::dropin_search::Counted;
use crate::dropin_search::FootView;
use crate::dropin_search::PartView;
use crate::dropin_search::QueryView;
use crate::dropin_search::SourceView;
use crate::h523_design::LockView;
use crate::mcu_pinout::PinId;
use crate::phys_pinout::function_of;
use crate::phys_pinout::FnView;
use crate::phys_pinout::PhysView;

verus! {

/// How far a match is from the very same signal.
pub open spec fn distance(t: MatchTier) -> int {
    match t {
        MatchTier::Exact => 0,
        MatchTier::ClassRole => 1,
        MatchTier::ClassOnly => 2,
    }
}

/// Whether a row serves a wired signal, at most so far from it.
pub open spec fn row_serves(
    want: (Seq<char>, Seq<char>),
    row: CapRow,
    mode: Strictness,
    far: int,
) -> bool {
    tier_of(want, row.key, row.af, mode) matches Some(t) && distance(t) <= far
}

/// Whether a row on one of the pins serves a wired signal, at most so far from it.
pub open spec fn is_served(
    want: (Seq<char>, Seq<char>),
    caps: Seq<CapRow>,
    pins: Seq<PinId>,
    mode: Strictness,
    far: int,
) -> bool {
    exists|k: int|
        0 <= k < caps.len() && pins.contains(caps[k].pin) && row_serves(
            want,
            #[trigger] caps[k],
            mode,
            far,
        )
}

/// Whether a match was found, at most so far away.
spec fn is_within(b: Option<(MatchTier, int)>, far: int) -> bool {
    b matches Some(x) && distance(x.0) <= far
}

proof fn best_row_is_best(
    want: (Seq<char>, Seq<char>),
    caps: Seq<CapRow>,
    pin: PinId,
    mode: Strictness,
    acc: Option<(MatchTier, int)>,
    n: int,
    far: int,
)
    requires
        0 <= n <= caps.len(),
    ensures
        is_within(best_row(want, caps, pin, mode, acc, n), far) <==> is_within(acc, far) || exists|
            k: int,
        |
            0 <= k < n && caps[k].pin == pin && row_serves(want, #[trigger] caps[k], mode, far),
    decreases n,
{
    if n > 0 {
        best_row_is_best(want, caps, pin, mode, acc, n - 1, far);
        let c = caps[n - 1];
        if c.pin == pin && row_serves(want, c, mode, far) {
            assert(row_serves(want, caps[n - 1], mode, far));
        }
    }
}

proof fn best_match_is_best(
    want: (Seq<char>, Seq<char>),
    caps: Seq<CapRow>,
    pins: Seq<PinId>,
    mode: Strictness,
    n: int,
    far: int,
)
    requires
        0 <= n <= pins.len(),
    ensures
        is_within(best_match(want, caps, pins, mode, n), far) <==> is_served(
            want,
            caps,
            pins.take(n),
            mode,
            far,
        ),
    decreases n,
{
    let now = pins.take(n);
    if n > 0 {
        best_match_is_best(want, caps, pins, mode, n - 1, far);
        best_row_is_best(
            want,
            caps,
            pins[n - 1],
            mode,
            best_match(want, caps, pins, mode, n - 1),
            caps.len() as int,
            far,
        );
        let had = pins.take(n - 1);
        assert(now[n - 1] == pins[n - 1]);
        if is_served(want, caps, had, mode, far) {
            let k = choose|k: int|
                0 <= k < caps.len() && had.contains(caps[k].pin) && row_serves(
                    want,
                    #[trigger] caps[k],
                    mode,
                    far,
                );
            let x = choose|x: int| 0 <= x < had.len() && had[x] == caps[k].pin;
            assert(now[x] == caps[k].pin);
        }
        if is_served(want, caps, now, mode, far) {
            let k = choose|k: int|
                0 <= k < caps.len() && now.contains(caps[k].pin) && row_serves(
                    want,
                    #[trigger] caps[k],
                    mode,
                    far,
                );
            let x = choose|x: int| 0 <= x < now.len() && now[x] == caps[k].pin;
            if x < n - 1 {
                assert(had[x] == caps[k].pin);
            }
        }
    }
}

proof fn worst_is_worst(
    ws: Seq<LockView>,
    caps: Seq<CapRow>,
    pins: Seq<PinId>,
    mode: Strictness,
    n: int,
    far: int,
)
    requires
        0 <= n <= ws.len(),
        0 <= far,
    ensures
        (worst_tier(ws, caps, pins, mode, n) matches Some(t) && distance(t) <= far) <==> forall|k: int|
            0 <= k < n ==> is_served((#[trigger] ws[k]).key, caps, pins, mode, far),
    decreases n,
{
    if n > 0 {
        worst_is_worst(ws, caps, pins, mode, n - 1, far);
        best_match_is_best(ws[n - 1].key, caps, pins, mode, pins.len() as int, far);
        assert(pins.take(pins.len() as int) =~= pins);
        assert(ws[n - 1] == ws[n - 1]);
    }
}

/// Whether all that is wired to a position's pins is served, at most so far from what it is.
pub open spec fn all_served(
    wired: Seq<LockView>,
    pins: Seq<PinId>,
    caps: Seq<CapRow>,
    there: Seq<PinId>,
    mode: Strictness,
    far: int,
) -> bool {
    forall|k: int|
        0 <= k < wired.len() && pins.contains((#[trigger] wired[k]).pin) ==> is_served(
            wired[k].key,
            caps,
            there,
            mode,
            far,
        )
}

proof fn listed_are_served(
    wired: Seq<LockView>,
    pins: Seq<PinId>,
    caps: Seq<CapRow>,
    there: Seq<PinId>,
    mode: Strictness,
    far: int,
)
    requires
        0 <= far,
    ensures
        ({
            let ws = wires(wired, pins, pins.len() as int);
            all_served(wired, pins, caps, there, mode, far) <==> (worst_tier(
                ws,
                caps,
                there,
                mode,
                ws.len() as int,
            ) matches Some(t) && distance(t) <= far)
        }),
{
    let ws = wires(wired, pins, pins.len() as int);
    worst_is_worst(ws, caps, there, mode, ws.len() as int, far);
    if all_served(wired, pins, caps, there, mode, far) {
        assert forall|y: int| 0 <= y < ws.len() implies is_served(
            (#[trigger] ws[y]).key,
            caps,
            there,
            mode,
            far,
        ) by {
            listed_is_wired(wired, pins, pins.len() as int, y);
            let k = choose|k: int| 0 <= k < wired.len() && wired[k] == ws[y];
            assert(is_served(wired[k].key, caps, there, mode, far));
        }
    }
    if forall|y: int| 0 <= y < ws.len() ==> is_served((#[trigger] ws[y]).key, caps, there, mode, far) {
        assert forall|k: int| 0 <= k < wired.len() && pins.contains((#[trigger] wired[k]).pin) implies is_served(
            wired[k].key,
            caps,
            there,
            mode,
            far,
        ) by {
            let x = choose|x: int| 0 <= x < pins.len() && pins[x] == wired[k].pin;
            wired_is_listed(wired, pins, pins.len() as int, x, k);
            let y = choose|y: int| 0 <= y < ws.len() && ws[y] == wired[k];
            assert(is_served(ws[y].key, caps, there, mode, far));
        }
    }
}

/// The verdict on a position with something wired is that of the worst served signal, each
/// served as well as any row on the candidate's pins can.
pub proof fn the_worst_of_the_best_counts(
    wired: Seq<LockView>,
    p: PhysView,
    pins: Seq<PinId>,
    there: Option<FnView>,
    caps: Seq<CapRow>,
    cfg: MatchConfig,
)
    requires
        function_of(p.s) == FnView::Gpio(pins),
        !is_unused(wired, pins),
    ensures
        ({
            let o = verdict(wired, p, there, caps, cfg).outcome;
            let mode = cfg.strictness;
            let at = cand_pins(there);
            &&& o == PosOutcome::ServiceableExact <==> all_served(wired, pins, caps, at, mode, 0)
            &&& o == PosOutcome::ServiceableClassRole <==> all_served(wired, pins, caps, at, mode, 1)
                && !all_served(wired, pins, caps, at, mode, 0)
            &&& o == PosOutcome::ServiceableClassOnly <==> all_served(wired, pins, caps, at, mode, 2)
                && !all_served(wired, pins, caps, at, mode, 1)
            &&& o == PosOutcome::FunctionFail <==> !all_served(wired, pins, caps, at, mode, 2)
        }),
{
    let ws = wires(wired, pins, pins.len() as int);
    let k = choose|k: int| 0 <= k < wired.len() && pins.contains((#[trigger] wired[k]).pin);
    let x = choose|x: int| 0 <= x < pins.len() && pins[x] == wired[k].pin;
    wired_is_listed(wired, pins, pins.len() as int, x, k);
    let y = choose|y: int| 0 <= y < ws.len() && ws[y] == wired[k];
    assert(ws.len() > 0);
    listed_are_served(wired, pins, caps, cand_pins(there), cfg.strictness, 0);
    listed_are_served(wired, pins, caps, cand_pins(there), cfg.strictness, 1);
    listed_are_served(wired, pins, caps, cand_pins(there), cfg.strictness, 2);
}

proof fn unused_lists_nothing(wired: Seq<LockView>, pins: Seq<PinId>)
    ensures
        is_unused(wired, pins) <==> wires(wired, pins, pins.len() as int).len() == 0,
{
    let ws = wires(wired, pins, pins.len() as int);
    if is_unused(wired, pins) && ws.len() > 0 {
        listed_is_wired(wired, pins, pins.len() as int, 0);
        let k = choose|k: int| 0 <= k < wired.len() && wired[k] == ws[0];
        assert(pins.contains(wired[k].pin));
    }
    if !is_unused(wired, pins) {
        let k = choose|k: int| 0 <= k < wired.len() && pins.contains((#[trigger] wired[k]).pin);
        let x = choose|x: int| 0 <= x < pins.len() && pins[x] == wired[k].pin;
        wired_is_listed(wired, pins, pins.len() as int, x, k);
    }
}

/// A pin with nothing wired is warned of exactly where the candidate has a supply under it
/// and supplies are not ignored; it is fine over a pin, and noted over anything else.
pub proof fn unused_pins_are_warned_of_supplies(
    wired: Seq<LockView>,
    p: PhysView,
    pins: Seq<PinId>,
    there: Option<FnView>,
    caps: Seq<CapRow>,
    cfg: MatchConfig,
)
    requires
        function_of(p.s) == FnView::Gpio(pins),
        is_unused(wired, pins),
    ensures
        ({
            let o = verdict(wired, p, there, caps, cfg).outcome;
            let supply = there is Some && there->0 is Power;
            let pin = there is Some && there->0 is Gpio;
            &&& o == PosOutcome::PowerAsym <==> supply && cfg.power_mode != PowerMode::Ignore
            &&& o == PosOutcome::UnusedOk <==> pin || (supply && cfg.power_mode == PowerMode::Ignore)
            &&& o == PosOutcome::UnusedRepurposed <==> !pin && !supply
        }),
{
    unused_lists_nothing(wired, pins);
}

/// How many of the first `n` verdicts have an outcome.
pub open spec fn how_many(v: Seq<PosView>, o: PosOutcome, n: int) -> int
    decreases n,
{
    if n <= 0 {
        0
    } else if v[n - 1].outcome == o {
        how_many(v, o, n - 1) + 1
    } else {
        how_many(v, o, n - 1)
    }
}

proof fn counted_is_how_many(v: Seq<PosView>, o: PosOutcome, n: int)
    ensures
        count_of(v, Counted::Outcome(o), n) == how_many(v, o, n),
    decreases n,
{
    if n > 0 {
        counted_is_how_many(v, o, n - 1);
    }
}

proof fn satisfied_is_how_many(v: Seq<PosView>, n: int)
    ensures
        count_of(v, Counted::Satisfied, n) == how_many(v, PosOutcome::PowerOk, n) + how_many(
            v,
            PosOutcome::ServiceableExact,
            n,
        ) + how_many(v, PosOutcome::ServiceableClassRole, n) + how_many(
            v,
            PosOutcome::ServiceableClassOnly,
            n,
        ),
    decreases n,
{
    if n > 0 {
        satisfied_is_how_many(v, n - 1);
    }
}

proof fn required_are_required(
    wired: Seq<LockView>,
    source: Seq<PhysView>,
    cand: Seq<PhysView>,
    caps: Seq<CapRow>,
    cfg: MatchConfig,
    n: int,
)
    requires
        0 <= n <= source.len(),
    ensures
        count_of(verdicts(wired, source, cand, caps, cfg), Counted::Required, n) == required_upto(
            wired,
            source,
            n,
        ),
    decreases n,
{
    if n > 0 {
        required_are_required(wired, source, cand, caps, cfg, n - 1);
        let p = source[n - 1];
        assert(verdicts(wired, source, cand, caps, cfg)[n - 1] == verdict(
            wired,
            p,
            cand_at(cand, p.p),
            caps,
            cfg,
        ));
    }
}

/// Each position of the source has one verdict, in order. A thousand points are given for
/// each position that is served by the same signal, four hundred for one served by the same
/// class and role, one hundred for one served by the same class, and two hundred for the
/// family; fifty are taken for each warning and thirty where nothing says that reset and
/// boot agree.
pub proof fn the_score_adds_up(
    wired: Seq<LockView>,
    source: FootView,
    name: Seq<char>,
    cand: FootView,
    caps: Seq<CapRow>,
    cfg: MatchConfig,
)
    ensures
        ({
            let c = judged(wired, source, name, cand, caps, cfg);
            let v = c.positions;
            let n = v.len() as int;
            &&& n == source.pins.len()
            &&& forall|i: int|
                0 <= i < n ==> (#[trigger] v[i]).position == source.pins[i].p
            &&& c.name == name && c.family == cand.fam && c.footprint == cand.pkg
            &&& c.same_family <==> source.fam == cand.fam
            &&& c.warnings == how_many(v, PosOutcome::PowerAsym, n)
            &&& c.n_satisfied == how_many(v, PosOutcome::PowerOk, n) + how_many(
                v,
                PosOutcome::ServiceableExact,
                n,
            ) + how_many(v, PosOutcome::ServiceableClassRole, n) + how_many(
                v,
                PosOutcome::ServiceableClassOnly,
                n,
            )
            &&& c.n_required == required_upto(wired, source.pins, n)
            &&& c.score == 1000 * how_many(v, PosOutcome::ServiceableExact, n) + 400 * how_many(
                v,
                PosOutcome::ServiceableClassRole,
                n,
            ) + 100 * how_many(v, PosOutcome::ServiceableClassOnly, n) - 50 * how_many(
                v,
                PosOutcome::PowerAsym,
                n,
            ) + (if source.fam == cand.fam {
                200int
            } else {
                0
            }) - (if c.reset_boot_unverified {
                30int
            } else {
                0
            })
            &&& c.reset_boot_unverified ==> source.fam != cand.fam
        }),
{
    let v = verdicts(wired, source.pins, cand.pins, caps, cfg);
    let n = v.len() as int;
    counted_is_how_many(v, PosOutcome::PowerAsym, n);
    counted_is_how_many(v, PosOutcome::ServiceableExact, n);
    counted_is_how_many(v, PosOutcome::ServiceableClassRole, n);
    counted_is_how_many(v, PosOutcome::ServiceableClassOnly, n);
    satisfied_is_how_many(v, n);
    required_are_required(wired, source.pins, cand.pins, caps, cfg, n);
}

/// Whether nothing at a position needs a match: it is no supply, and nothing is wired to it.
pub open spec fn needs_no_match(wired: Seq<LockView>, p: PhysView) -> bool {
    match function_of(p.s) {
        FnView::Power(_) => false,
        FnView::Gpio(pins) => is_unused(wired, pins),
        _ => true,
    }
}

/// A position more is one match more exactly where it is a supply or something is wired to
/// it.
pub proof fn supplies_and_wires_need_a_match(wired: Seq<LockView>, pins: Seq<PhysView>, n: int)
    requires
        0 <= n < pins.len(),
    ensures
        required_upto(wired, pins, 0) == 0,
        required_upto(wired, pins, n + 1) == required_upto(wired, pins, n) + (if needs_no_match(
            wired,
            pins[n],
        ) {
            0int
        } else {
            1
        }),
{
    if let FnView::Gpio(v) = function_of(pins[n].s) {
        unused_lists_nothing(wired, v);
    }
}

proof fn narrowing_drops(v: Seq<CandView>, q: QueryView, n: int, c: CandView)
    requires
        0 <= n <= v.len(),
    ensures
        narrowed(v, q, n).contains(c) <==> v.take(n).contains(c) && (q.family matches Some(f)
            ==> c.family == f) && (q.same_family_only ==> c.same_family),
    decreases n,
{
    let now = v.take(n);
    let r = narrowed(v, q, n);
    if n > 0 {
        narrowing_drops(v, q, n - 1, c);
        let had = v.take(n - 1);
        let s = narrowed(v, q, n - 1);
        assert(now[n - 1] == v[n - 1]);
        if had.contains(c) {
            let x = choose|x: int| 0 <= x < had.len() && had[x] == c;
            assert(now[x] == c);
        }
        if now.contains(c) && !had.contains(c) {
            let x = choose|x: int| 0 <= x < now.len() && now[x] == c;
            if x < n - 1 {
                assert(had[x] == c);
            }
            if r.len() > s.len() {
                assert(r[r.len() - 1] == c);
            }
        }
        if s.contains(c) {
            let x = choose|x: int| 0 <= x < s.len() && s[x] == c;
            assert(r[x] == c);
        }
        if r.contains(c) && !s.contains(c) {
            let x = choose|x: int| 0 <= x < r.len() && r[x] == c;
            if x < s.len() {
                assert(s[x] == c);
            }
            assert(c == v[n - 1]);
        }
    }
}

/// The answer to a query is what the search finds, but for other families than the one that
/// is asked for, and than the source's where only that one will do.
pub proof fn a_query_leaves_out_other_families(
    s: SourceView,
    parts: Seq<PartView>,
    q: QueryView,
    c: CandView,
)
    ensures
        answers(s, parts, q).contains(c) <==> {
            &&& replacements(s, parts, config_of(q)).contains(c)
            &&& q.family matches Some(f) ==> c.family == f
            &&& q.same_family_only ==> c.same_family
        },
{
    let v = replacements(s, parts, config_of(q));
    narrowing_drops(v, q, v.len() as int, c);
    assert(v.take(v.len() as int) =~= v);
}

} // verus!
