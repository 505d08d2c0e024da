//! What requirements claim, how a design of them changes, and what of a chip they use.

use vstd::prelude::*;

use crate::design_laws::locking_moves_one_signal;
use crate::frontend_order_laws::sorted_holds_all;
use crate::g474::PeripheralKind;
use crate::g474::TimerCompareSlot;
use crate::h523_design::unlocked;
use crate::h523_design::LockView;
use crate::lists::grows;
use crate::lists::in_either;
use crate::lists::pushed;
use crate::mcu_pinout::PinId;
use crate::mcu_raw::RawMcuData;
use crate::pinout::Signal;
use crate::requirements::claimed_signals;
use crate::requirements::comms_kind;
use crate::requirements::conversion_of;
use crate::requirements::conversions_upto;
use crate::requirements::is_held;
use crate::requirements::of_kind;
use crate::requirements::sequencers_upto;
use crate::requirements::untaken;
use crate::requirements::with_requirement;
use crate::requirements::with_spec;
use crate::requirements::without;
use crate::requirements::AdcConversionView;
use crate::requirements::Assignment;
use crate::requirements::FabricView;
use crate::requirements::RequirementSpec;
use crate::requirements::SequencerModel;
use crate::resources::free_upto;
use crate::resources::names_upto;
use crate::resources::resource_kind;
use crate::resources::resource_name;
use crate::resources::used_of;
use crate::resources::without_repeats;
use crate::resources::Resource;
use crate::text::before;
use crate::texts::sorted_texts;
use crate::texts::sorted_texts_ascend;
use crate::texts::text_ranks;

verus! {

/// Whether an assignment of a bus claims a signal: the two lines of the bus always, the
/// others where they are asked for.
pub open spec fn claims(a: Option<Assignment>, s: Signal) -> bool {
    match (a, s) {
        (Some(Assignment::Spi { instance, .. }), Signal::SpiMosi(x)) => x == instance,
        (Some(Assignment::Spi { instance, .. }), Signal::SpiSck(x)) => x == instance,
        (Some(Assignment::Spi { instance, needs_miso, .. }), Signal::SpiMiso(x)) => x == instance
            && needs_miso,
        (Some(Assignment::Spi { instance, needs_nss, .. }), Signal::SpiNss(x)) => x == instance
            && needs_nss,
        (Some(Assignment::I2c { instance, .. }), Signal::I2cSda(x)) => x == instance,
        (Some(Assignment::I2c { instance, .. }), Signal::I2cScl(x)) => x == instance,
        (Some(Assignment::I2c { instance, needs_smba }), Signal::I2cSmba(x)) => x == instance
            && needs_smba,
        (Some(Assignment::Usart { instance, .. }), Signal::UsartTx(x)) => x == instance,
        (Some(Assignment::Usart { instance, .. }), Signal::UsartRx(x)) => x == instance,
        (Some(Assignment::Usart { instance, flow_control, .. }), Signal::UsartCts(x)) => x
            == instance && flow_control,
        (Some(Assignment::Usart { instance, flow_control, .. }), Signal::UsartRts(x)) => x
            == instance && flow_control,
        (Some(Assignment::Usart { instance, synchronous, .. }), Signal::UsartCk(x)) => x == instance
            && synchronous,
        (Some(Assignment::Uart { instance, .. }), Signal::UartTx(x)) => x == instance,
        (Some(Assignment::Uart { instance, .. }), Signal::UartRx(x)) => x == instance,
        (Some(Assignment::Uart { instance, flow_control }), Signal::UartCts(x)) => x == instance
            && flow_control,
        (Some(Assignment::Uart { instance, flow_control }), Signal::UartRts(x)) => x == instance
            && flow_control,
        (Some(Assignment::Lpuart { instance, .. }), Signal::LpuartTx(x)) => x == instance,
        (Some(Assignment::Lpuart { instance, .. }), Signal::LpuartRx(x)) => x == instance,
        (Some(Assignment::Lpuart { instance, flow_control }), Signal::LpuartCts(x)) => x == instance
            && flow_control,
        (Some(Assignment::Lpuart { instance, flow_control }), Signal::LpuartRts(x)) => x == instance
            && flow_control,
        (Some(Assignment::Can { instance }), Signal::CanTx(x)) => x == instance,
        (Some(Assignment::Can { instance }), Signal::CanRx(x)) => x == instance,
        (Some(Assignment::Ucpd { instance }), Signal::UcpdCc1(x)) => x == instance,
        (Some(Assignment::Ucpd { instance }), Signal::UcpdCc2(x)) => x == instance,
        (Some(Assignment::Usb), Signal::UsbDp) => true,
        (Some(Assignment::Usb), Signal::UsbDm) => true,
        _ => false,
    }
}

proof fn in_two(a: Signal, b: Signal, s: Signal)
    ensures
        seq![a, b].contains(s) <==> s == a || s == b,
        seq![a].contains(s) <==> s == a,
{
    assert(seq![a, b][0] == a && seq![a, b][1] == b);
    assert(seq![a][0] == a);
}

/// A bus claims its own lines, those that are asked for, and no others.
pub proof fn a_bus_claims_its_lines(a: Option<Assignment>, s: Signal)
    ensures
        claimed_signals(a).contains(s) <==> claims(a, s),
{
    match a {
        Some(Assignment::Spi { instance, needs_miso, needs_nss }) => {
            let two = seq![Signal::SpiMosi(instance), Signal::SpiSck(instance)];
            let miso = seq![Signal::SpiMiso(instance)];
            let nss = seq![Signal::SpiNss(instance)];
            in_two(Signal::SpiMosi(instance), Signal::SpiSck(instance), s);
            in_two(Signal::SpiMiso(instance), s, s);
            in_two(Signal::SpiNss(instance), s, s);
            in_either(two, miso, s);
            in_either(two, nss, s);
            in_either(two + miso, nss, s);
        },
        Some(Assignment::I2c { instance, needs_smba }) => {
            let two = seq![Signal::I2cSda(instance), Signal::I2cScl(instance)];
            in_two(Signal::I2cSda(instance), Signal::I2cScl(instance), s);
            in_two(Signal::I2cSmba(instance), s, s);
            in_either(two, seq![Signal::I2cSmba(instance)], s);
        },
        Some(Assignment::Usart { instance, flow_control, synchronous }) => {
            let two = seq![Signal::UsartTx(instance), Signal::UsartRx(instance)];
            let flow = seq![Signal::UsartCts(instance), Signal::UsartRts(instance)];
            let clock = seq![Signal::UsartCk(instance)];
            in_two(Signal::UsartTx(instance), Signal::UsartRx(instance), s);
            in_two(Signal::UsartCts(instance), Signal::UsartRts(instance), s);
            in_two(Signal::UsartCk(instance), s, s);
            in_either(two, flow, s);
            in_either(two, clock, s);
            in_either(two + flow, clock, s);
        },
        Some(Assignment::Uart { instance, flow_control }) => {
            let two = seq![Signal::UartTx(instance), Signal::UartRx(instance)];
            let flow = seq![Signal::UartCts(instance), Signal::UartRts(instance)];
            in_two(Signal::UartTx(instance), Signal::UartRx(instance), s);
            in_two(Signal::UartCts(instance), Signal::UartRts(instance), s);
            in_either(two, flow, s);
        },
        Some(Assignment::Lpuart { instance, flow_control }) => {
            let two = seq![Signal::LpuartTx(instance), Signal::LpuartRx(instance)];
            let flow = seq![Signal::LpuartCts(instance), Signal::LpuartRts(instance)];
            in_two(Signal::LpuartTx(instance), Signal::LpuartRx(instance), s);
            in_two(Signal::LpuartCts(instance), Signal::LpuartRts(instance), s);
            in_either(two, flow, s);
        },
        Some(Assignment::Can { instance }) => {
            in_two(Signal::CanTx(instance), Signal::CanRx(instance), s);
        },
        Some(Assignment::Usb) => {
            in_two(Signal::UsbDp, Signal::UsbDm, s);
        },
        Some(Assignment::Ucpd { instance }) => {
            in_two(Signal::UcpdCc1(instance), Signal::UcpdCc2(instance), s);
        },
        _ => {},
    }
}

/// A new requirement comes last, with an id that no other has had and nothing given to it;
/// the others keep theirs.
pub proof fn a_new_requirement_is_fresh(d: FabricView, spec: RequirementSpec)
    requires
        d.wf(),
        d.next_id < u32::MAX,
    ensures
        ({
            let e = with_requirement(d, spec);
            let n = d.requirements.len() as int;
            &&& e.wf()
            &&& e.requirements.len() == n + 1 && e.requirements[n] == spec
            &&& e.assignments[n] is None
            &&& !d.ids.contains(e.ids[n])
            &&& e.next_id > d.next_id
            &&& e.pins == d.pins && e.locks == d.locks
            &&& forall|i: int|
                0 <= i < n ==> #[trigger] e.requirements[i] == d.requirements[i] && e.assignments[i]
                    == d.assignments[i] && e.ids[i] == d.ids[i]
        }),
{
    let e = with_requirement(d, spec);
    if d.ids.contains(d.next_id) {
        let i = choose|i: int| 0 <= i < d.ids.len() && d.ids[i] == d.next_id;
        assert(d.ids[i] < d.next_id);
    }
    assert forall|i: int, j: int|
        0 <= i < e.ids.len() && 0 <= j < e.ids.len() && i != j implies e.ids[i] != e.ids[j] by {
        if i < d.ids.len() {
            assert(d.ids[i] < d.next_id);
        }
        if j < d.ids.len() {
            assert(d.ids[j] < d.next_id);
        }
    }
}

/// Whether one requirement of a design is another's of another design, with its id and what
/// it was given.
pub open spec fn is_kept(d: FabricView, i: int, e: FabricView, j: int) -> bool {
    &&& e.requirements[j] == d.requirements[i]
    &&& e.assignments[j] == d.assignments[i]
    &&& e.ids[j] == d.ids[i]
}

/// Removing a requirement moves the later ones up by one and keeps each with its id and what
/// it was given; changing one takes away what it was given and leaves the others alone.
pub proof fn the_others_are_kept(d: FabricView, k: int, spec: RequirementSpec)
    requires
        d.wf(),
        0 <= k < d.requirements.len(),
    ensures
        ({
            let e = without(d, k);
            let f = with_spec(d, k, spec);
            let n = d.requirements.len() as int;
            &&& e.wf() && f.wf()
            &&& e.requirements.len() == n - 1 && f.requirements.len() == n
            &&& e.pins == d.pins && e.locks == d.locks && f.pins == d.pins && f.locks == d.locks
            &&& forall|i: int| 0 <= i < k ==> #[trigger] is_kept(d, i, e, i)
            &&& forall|i: int| k < i < n ==> #[trigger] is_kept(d, i, e, i - 1)
            &&& forall|i: int| 0 <= i < n && i != k ==> #[trigger] is_kept(d, i, f, i)
            &&& f.requirements[k] == spec && f.assignments[k] is None && f.ids[k] == d.ids[k]
        }),
{
    let e = without(d, k);
    assert forall|i: int, j: int|
        0 <= i < e.ids.len() && 0 <= j < e.ids.len() && i != j implies e.ids[i] != e.ids[j] by {
        let x = if i < k {
            i
        } else {
            i + 1
        };
        let y = if j < k {
            j
        } else {
            j + 1
        };
        assert(e.ids[i] == d.ids[x] && e.ids[j] == d.ids[y]);
    }
    assert forall|i: int| 0 <= i < e.ids.len() implies (#[trigger] e.ids[i]) < e.next_id by {
        let x = if i < k {
            i
        } else {
            i + 1
        };
        assert(e.ids[i] == d.ids[x]);
    }
}

proof fn untaken_are_free(
    locks: Seq<LockView>,
    key: (Seq<char>, Seq<char>),
    all: Seq<PinId>,
    n: int,
    p: PinId,
)
    requires
        0 <= n <= all.len(),
    ensures
        untaken(locks, key, all, n).contains(p) <==> all.take(n).contains(p) && forall|k: int|
            0 <= k < locks.len() && (#[trigger] locks[k]).key != key ==> locks[k].pin != p,
    decreases n,
{
    if n > 0 {
        untaken_are_free(locks, key, all, n - 1, p);
        grows(all, n, p);
        let q = all[n - 1];
        let others = unlocked(locks, key);
        let had = untaken(locks, key, all, n - 1);
        let now = untaken(locks, key, all, n);
        if is_held(others, q, others.len() as int) {
            let k = choose|k: int| 0 <= k < others.len() && (#[trigger] others[k]).pin == q;
            assert(others.contains(others[k]));
            locking_moves_one_signal(locks, key, q, others[k]);
            let x = choose|x: int| 0 <= x < locks.len() && locks[x] == others[k];
            assert(locks[x].key != key && locks[x].pin == q);
        } else {
            pushed(had, now, q, p);
            assert forall|k: int| 0 <= k < locks.len() && (#[trigger] locks[k]).key != key implies locks[k].pin
                != q by {
                locking_moves_one_signal(locks, key, q, locks[k]);
                assert(locks.contains(locks[k]));
                let x = choose|x: int| 0 <= x < others.len() && others[x] == locks[k];
                assert(others[x].pin != q);
            }
        }
    }
}

/// The pins that are offered for a signal are those of the list that no other signal is on;
/// its own pin is offered too.
pub proof fn offered_pins_are_free(
    locks: Seq<LockView>,
    key: (Seq<char>, Seq<char>),
    all: Seq<PinId>,
    p: PinId,
)
    ensures
        untaken(locks, key, all, all.len() as int).contains(p) <==> all.contains(p) && forall|k: int|
            0 <= k < locks.len() && (#[trigger] locks[k]).key != key ==> locks[k].pin != p,
{
    untaken_are_free(locks, key, all, all.len() as int, p);
    assert(all.take(all.len() as int) =~= all);
}

/// The requirements of a kind are those whose bus is of that kind, in order.
pub proof fn requirements_of_a_kind(specs: Seq<RequirementSpec>, kind: PeripheralKind, n: int, i: int)
    requires
        0 <= n <= specs.len(),
    ensures
        of_kind(specs, kind, n).contains(i) <==> 0 <= i < n && comms_kind(specs[i]) == Some(kind),
        forall|a: int, b: int|
            #![trigger of_kind(specs, kind, n)[a], of_kind(specs, kind, n)[b]]
            0 <= a < b < of_kind(specs, kind, n).len() ==> of_kind(specs, kind, n)[a] < of_kind(
                specs,
                kind,
                n,
            )[b],
        forall|a: int|
            0 <= a < of_kind(specs, kind, n).len() ==> 0 <= #[trigger] of_kind(specs, kind, n)[a]
                < n,
    decreases n,
{
    if n > 0 {
        requirements_of_a_kind(specs, kind, n - 1, i);
        let had = of_kind(specs, kind, n - 1);
        let now = of_kind(specs, kind, n);
        if comms_kind(specs[n - 1]) == Some(kind) {
            pushed(had, now, n - 1, i);
        }
    }
}

proof fn conversions_are(d: FabricView, raw: RawMcuData, group: u32, n: int, c: AdcConversionView)
    requires
        0 <= n <= d.assignments.len(),
    ensures
        conversions_upto(d, raw, group, n).contains(c) <==> exists|i: int|
            0 <= i < n && #[trigger] conversion_of(d, raw, group, i) == Some(c),
    decreases n,
{
    if n > 0 {
        conversions_are(d, raw, group, n - 1, c);
        let had = conversions_upto(d, raw, group, n - 1);
        let now = conversions_upto(d, raw, group, n);
        if let Some(x) = conversion_of(d, raw, group, n - 1) {
            pushed(had, now, x, c);
        }
    }
}

/// Whether a requirement is a conversion that asks for the sequencer of another.
pub open spec fn is_conversion_for(d: FabricView, k: int, i: int, c: AdcConversionView) -> bool {
    &&& d.assignments[k] == Some(
        Assignment::AdcConversion { adc: c.adc, channel: c.channel, purpose: c.purpose },
    )
    &&& d.requirements[k] matches RequirementSpec::AdcConversion { group, .. } && group == d.ids[i]
}

proof fn conversion_fields(d: FabricView, raw: RawMcuData, group: u32, i: int)
    ensures
        conversion_of(d, raw, group, i) matches Some(c) ==> d.assignments[i] == Some(
            Assignment::AdcConversion { adc: c.adc, channel: c.channel, purpose: c.purpose },
        ) && (d.requirements[i] matches RequirementSpec::AdcConversion { group: g, .. } && g == group),
{
}

/// Each requirement that was given a sequencer is listed with the conversions that ask for it.
pub proof fn sequencers_have_their_conversions(d: FabricView, raw: RawMcuData, n: int, i: int)
    requires
        0 <= i < n <= d.assignments.len(),
        d.assignments[i] matches Some(Assignment::AdcSequencer { .. }),
    ensures
        exists|x: int|
            0 <= x < sequencers_upto(d, raw, n).len() && is_sequencer_of(
                d,
                raw,
                i,
                #[trigger] sequencers_upto(d, raw, n)[x],
            ),
    decreases n,
{
    let now = sequencers_upto(d, raw, n);
    if i < n - 1 {
        sequencers_have_their_conversions(d, raw, n - 1, i);
        let had = sequencers_upto(d, raw, n - 1);
        let x = choose|x: int| 0 <= x < had.len() && is_sequencer_of(d, raw, i, #[trigger] had[x]);
        assert(now[x] == had[x]);
    } else {
        let s = now[now.len() - 1];
        assert forall|c: AdcConversionView| #[trigger] s.conversions.contains(c) <==> exists|k: int|
            0 <= k < d.assignments.len() && #[trigger] conversion_of(d, raw, d.ids[i], k) == Some(c) by {
            conversions_are(d, raw, d.ids[i], d.assignments.len() as int, c);
        }
        assert(is_sequencer_of(d, raw, i, s));
    }
}

/// Whether a model is that of the sequencer that a requirement was given.
pub open spec fn is_sequencer_of(d: FabricView, raw: RawMcuData, i: int, s: SequencerModel) -> bool {
    &&& d.assignments[i] == Some(
        Assignment::AdcSequencer { adc: s.adc, kind: s.kind, trigger: s.trigger },
    )
    &&& forall|c: AdcConversionView| #[trigger]
        s.conversions.contains(c) <==> exists|k: int|
            0 <= k < d.assignments.len() && #[trigger] conversion_of(d, raw, d.ids[i], k) == Some(c)
}

/// A conversion that is listed under a sequencer asks for it by its id, and is on the input
/// that the requirement was given.
pub proof fn a_conversion_asks_for_its_sequencer(
    d: FabricView,
    raw: RawMcuData,
    i: int,
    k: int,
    c: AdcConversionView,
)
    requires
        0 <= k < d.assignments.len(),
        0 <= i < d.ids.len(),
        conversion_of(d, raw, d.ids[i], k) == Some(c),
    ensures
        is_conversion_for(d, k, i, c),
{
    conversion_fields(d, raw, d.ids[i], k);
}

/// A phase leaves the first, third and fourth compare slot free; with a variable dead time
/// the fourth is taken too.
pub proof fn slots_that_a_phase_leaves()
    ensures
        free_upto(false, 4) == seq![
            TimerCompareSlot::Cr1,
            TimerCompareSlot::Cr3,
            TimerCompareSlot::Cr4,
        ],
        free_upto(true, 4) == seq![TimerCompareSlot::Cr1, TimerCompareSlot::Cr3],
{
    reveal_with_fuel(free_upto, 5);
    assert(free_upto(false, 4) =~= seq![
        TimerCompareSlot::Cr1,
        TimerCompareSlot::Cr3,
        TimerCompareSlot::Cr4,
    ]);
    assert(free_upto(true, 4) =~= seq![TimerCompareSlot::Cr1, TimerCompareSlot::Cr3]);
}

proof fn names_are(rs: Seq<Resource>, kind: Seq<char>, n: int, x: Seq<char>)
    requires
        0 <= n <= rs.len(),
    ensures
        names_upto(rs, kind, n).len() <= n,
        names_upto(rs, kind, n).contains(x) <==> exists|i: int|
            0 <= i < n && resource_kind(#[trigger] rs[i]) == kind && resource_name(rs[i]) == x,
    decreases n,
{
    if n > 0 {
        names_are(rs, kind, n - 1, x);
        let had = names_upto(rs, kind, n - 1);
        let now = names_upto(rs, kind, n);
        if resource_kind(rs[n - 1]) == kind {
            pushed(had, now, resource_name(rs[n - 1]), x);
        }
    }
}

/// A list without repeats of the one before holds what the list holds; and an ascending list
/// becomes one in which no text comes twice.
pub proof fn repeats_go(v: Seq<Seq<char>>, n: int, x: Seq<char>)
    requires
        0 <= n <= v.len(),
        forall|i: int, j: int|
            #![trigger v[i], v[j]]
            0 <= i < j < v.len() ==> !before(v[j], v[i]),
    ensures
        without_repeats(v, n).contains(x) <==> v.take(n).contains(x),
        n > 0 ==> without_repeats(v, n).len() > 0 && without_repeats(v, n).last() == v[n - 1],
        forall|i: int, j: int|
            #![trigger without_repeats(v, n)[i], without_repeats(v, n)[j]]
            0 <= i < j < without_repeats(v, n).len() ==> before(
                without_repeats(v, n)[i],
                without_repeats(v, n)[j],
            ),
    decreases n,
{
    if n > 0 {
        repeats_go(v, n - 1, x);
        grows(v, n, x);
        let had = without_repeats(v, n - 1);
        let now = without_repeats(v, n);
        let y = v[n - 1];
        if had.len() > 0 && had.last() == y {
            assert(had[had.len() - 1] == y);
            assert(had.contains(y));
        } else {
            pushed(had, now, y, x);
            assert forall|i: int, j: int|
                #![trigger now[i], now[j]]
                0 <= i < j < now.len() implies before(now[i], now[j]) by {
                if j == had.len() {
                    let l = had.last();
                    assert(l == v[n - 2]);
                    assert(!before(v[n - 1], v[n - 2]));
                    crate::text::before_total(l, y);
                    if i < had.len() - 1 {
                        assert(before(had[i], had[had.len() - 1]));
                        crate::text::before_transitive(had[i], l, y);
                    }
                } else {
                    assert(now[i] == had[i] && now[j] == had[j]);
                }
            }
        }
    }
}

/// What is listed as used of a kind are the names of the resources of that kind, in order and
/// each once.
pub proof fn used_are_listed_once(rs: Seq<Resource>, kind: Seq<char>, x: Seq<char>)
    requires
        rs.len() <= usize::MAX,
    ensures
        used_of(rs, kind).contains(x) <==> exists|i: int|
            0 <= i < rs.len() && resource_kind(#[trigger] rs[i]) == kind && resource_name(rs[i]) == x,
        forall|i: int, j: int|
            #![trigger used_of(rs, kind)[i], used_of(rs, kind)[j]]
            0 <= i < j < used_of(rs, kind).len() ==> before(
                used_of(rs, kind)[i],
                used_of(rs, kind)[j],
            ),
{
    let v = names_upto(rs, kind, rs.len() as int);
    names_are(rs, kind, rs.len() as int, x);
    sorted_texts_ascend(v);
    let s = sorted_texts(v);
    sorted_holds_all(v, text_ranks(v));
    assert(s.contains(x) <==> v.contains(x));
    repeats_go(s, s.len() as int, x);
    assert(s.take(s.len() as int) =~= s);
}

} // verus!
