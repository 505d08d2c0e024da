//! The stages of the front-end planner.

use vstd::prelude::*;

use crate::frontend_laws::caps_are_few;
use crate::frontend_laws::chosen_well;
use crate::frontend_laws::counts_are_bounded;
use crate::frontend_laws::pairs_are_apart;
use crate::frontend_laws::solve_is_sound;
use crate::frontend_laws::solved_well;
use crate::frontend_plan;
use crate::frontend_plan::amp_of;
use crate::frontend_plan::are_caps_of;
use crate::frontend_plan::are_options_of;
use crate::frontend_plan::bonded_view;
use crate::frontend_plan::cap_views;
use crate::frontend_plan::flags;
use crate::frontend_plan::gain_is_read;
use crate::frontend_plan::instances_in;
use crate::frontend_plan::out_adc_of;
use crate::frontend_plan::out_slots;
use crate::frontend_plan::amp_ends;
use crate::frontend_plan::comp_ends;
use crate::frontend_plan::slot_of;
use crate::frontend_plan::trigger_count;
use crate::frontend_plan::AdcRead;
use crate::frontend_plan::CapView;
use crate::frontend_plan::Ceiling;
use crate::frontend_plan::ChannelPlan;
use crate::frontend_plan::FrontEndPlan;
use crate::frontend_plan::OpampOutAdc;
use crate::frontend_plan::PairPlan;
use crate::frontend_plan::PinCap;
use crate::frontend_plan::PlanConfig;
use crate::frontend_plan::Slot;
use crate::frontend_plan::ZeroCrossOption;
use crate::frontend_slots::cross_slots;
use crate::frontend_slots::free_slot;
use crate::frontend_slots::opt_free;
use crate::frontend_slots::opt_view;
use crate::frontend_slots::pick_cross_slots;
use crate::frontend_slots::pick_free_slot;
use crate::matching;
use crate::mcu_pinout::pin_rank;
use crate::mcu_pinout::rows_of;
use crate::mcu_pinout::PinId;
use crate::mcu_pinout::PinSet;
use crate::mcu_raw::RawMcuData;
use crate::names;
use crate::names::has_name;
use crate::order;
use crate::order::order_of;
use crate::order::picked;
use crate::ranked;
use crate::ranked::ascends;
use crate::ranked::rank_in;
use crate::ranked::with;
use crate::ranked::with_all;
use crate::text;
use crate::text::decimal;
use crate::text::views;

verus! {

/// The output table of the amplifiers.
pub type OutView = Seq<(&'static str, Seq<Slot>)>;

/// Capabilities in pin order.
pub open spec fn in_pin_order(caps: Seq<CapView>) -> Seq<CapView> {
    picked(caps, order_of(caps.map_values(|c: CapView| pin_rank(c.pin) as u64)))
}

fn sort_caps(caps: &[PinCap]) -> (r: Vec<PinCap>)
    ensures
        cap_views(r@) == in_pin_order(cap_views(caps@)),
        r@.len() == caps@.len(),
{
    let ghost f = |c: CapView| pin_rank(c.pin) as u64;
    let ghost cs = cap_views(caps@);
    let mut keys: Vec<u64> = Vec::new();
    let mut i: usize = 0;
    while i < caps.len()
        invariant
            i <= caps@.len(),
            cs == cap_views(caps@),
            f == (|c: CapView| pin_rank(c.pin) as u64),
            keys@ =~= cs.map_values(f).take(i as int),
        decreases caps@.len() - i,
    {
        keys.push(caps[i].pin.rank());
        proof {
            assert(cs[i as int] == caps@[i as int]@);
        }
        i += 1;
    }
    proof {
        assert(keys@ =~= cs.map_values(f));
    }
    let o: Vec<usize> = order::stable_order(&keys);
    let mut out: Vec<PinCap> = Vec::new();
    let mut k: usize = 0;
    while k < o.len()
        invariant
            k <= o@.len(),
            o@.len() == caps@.len(),
            cs == cap_views(caps@),
            order::is_stable_order(keys@, o@, caps@.len() as int),
            out@.len() == k,
            forall|j: int| 0 <= j < k ==> (#[trigger] out@[j])@ == cs[o@[j] as int],
        decreases o@.len() - k,
    {
        assert(o@[k as int] < caps@.len());
        out.push(caps[o[k]].copy());
        k += 1;
    }
    proof {
        assert(cap_views(out@) =~= in_pin_order(cs));
    }
    out
}

/// The last of the first `n` capabilities that is of the pin.
pub open spec fn index_of(caps: Seq<CapView>, pin: PinId, n: int) -> Option<int>
    decreases n,
{
    if n <= 0 {
        None
    } else if caps[n - 1].pin == pin {
        Some(n - 1)
    } else {
        index_of(caps, pin, n - 1)
    }
}

pub proof fn index_of_finds(caps: Seq<CapView>, pin: PinId, n: int)
    requires
        0 <= n <= caps.len(),
    ensures
        index_of(caps, pin, n) matches Some(i) ==> 0 <= i < n && caps[i].pin == pin,
        index_of(caps, pin, n) is None ==> forall|i: int|
            0 <= i < n ==> (#[trigger] caps[i]).pin != pin,
    decreases n,
{
    if n > 0 {
        index_of_finds(caps, pin, n - 1);
    }
}

/// Where a pin stands.
pub open spec fn at_pin(caps: Seq<CapView>, pin: PinId) -> Option<int> {
    index_of(caps, pin, caps.len() as int)
}

fn find_pin(caps: &[PinCap], pin: PinId) -> (r: Option<usize>)
    ensures
        r is Some <==> at_pin(cap_views(caps@), pin) is Some,
        r matches Some(i) ==> at_pin(cap_views(caps@), pin) == Some(i as int) && i < caps@.len(),
{
    let ghost cs = cap_views(caps@);
    let mut i: usize = caps.len();
    while i > 0
        invariant
            i <= caps@.len(),
            cs == cap_views(caps@),
            at_pin(cs, pin) == index_of(cs, pin, i as int),
        decreases i,
    {
        proof {
            assert(cs[i - 1] == caps@[i - 1]@);
        }
        if caps[i - 1].pin == pin {
            return Some(i - 1);
        }
        i -= 1;
    }
    None
}

/// The amplifiers, or comparators, of a capability.
pub open spec fn parts_of(c: CapView, amp: bool) -> Seq<&'static str> {
    if amp {
        c.opamp
    } else {
        c.comp
    }
}

/// The amplifiers, or comparators, of the first `n` pins, ascending.
pub open spec fn part_names(caps: Seq<CapView>, amp: bool, n: int) -> Seq<&'static str>
    decreases n,
{
    if n <= 0 {
        Seq::empty()
    } else {
        let list = parts_of(caps[n - 1], amp);
        with_all(part_names(caps, amp, n - 1), list, list.len() as int)
    }
}

fn collect_parts(caps: &[PinCap], amp: bool) -> (r: Vec<&'static str>)
    ensures
        r@ == part_names(cap_views(caps@), amp, caps@.len() as int),
        ascends(r@),
{
    let ghost cs = cap_views(caps@);
    let mut out: Vec<&'static str> = Vec::new();
    let mut i: usize = 0;
    while i < caps.len()
        invariant
            i <= caps@.len(),
            cs == cap_views(caps@),
            ascends(out@),
            out@ == part_names(cs, amp, i as int),
        decreases caps@.len() - i,
    {
        proof {
            assert(cs[i as int] == caps@[i as int]@);
        }
        if amp {
            ranked::insert_all(&mut out, &caps[i].opamp);
        } else {
            ranked::insert_all(&mut out, &caps[i].comp);
        }
        i += 1;
    }
    out
}

/// The names of the first `n` pins ascend.
pub proof fn part_names_ascend(caps: Seq<CapView>, amp: bool, n: int)
    ensures
        ascends(part_names(caps, amp, n)),
    decreases n,
{
    if n > 0 {
        part_names_ascend(caps, amp, n - 1);
        let list = parts_of(caps[n - 1], amp);
        ranked::with_all_ascends(part_names(caps, amp, n - 1), list, list.len() as int);
    }
}

/// The options among the first `n` whose two pins are both there.
pub open spec fn usable_options(opts: Seq<ZeroCrossOption>, caps: Seq<CapView>, n: int) -> Seq<
    ZeroCrossOption,
>
    decreases n,
{
    if n <= 0 {
        Seq::empty()
    } else if at_pin(caps, opts[n - 1].plus) is Some && at_pin(caps, opts[n - 1].minus) is Some {
        usable_options(opts, caps, n - 1).push(opts[n - 1])
    } else {
        usable_options(opts, caps, n - 1)
    }
}

/// Both pins of every option are there.
pub open spec fn options_fit(opts: Seq<ZeroCrossOption>, caps: Seq<CapView>) -> bool {
    forall|i: int|
        0 <= i < opts.len() ==> at_pin(caps, (#[trigger] opts[i]).plus) is Some && at_pin(
            caps,
            opts[i].minus,
        ) is Some
}

/// The usable options are options, and their pins are there.
pub proof fn usable_fit(opts: Seq<ZeroCrossOption>, caps: Seq<CapView>, n: int)
    requires
        0 <= n <= opts.len(),
    ensures
        options_fit(usable_options(opts, caps, n), caps),
        usable_options(opts, caps, n).len() <= n,
        forall|i: int|
            0 <= i < usable_options(opts, caps, n).len() ==> opts.contains(
                #[trigger] usable_options(opts, caps, n)[i],
            ),
    decreases n,
{
    if n > 0 {
        usable_fit(opts, caps, n - 1);
        let less = usable_options(opts, caps, n - 1);
        let more = usable_options(opts, caps, n);
        assert forall|i: int| 0 <= i < more.len() implies opts.contains(#[trigger] more[i]) by {
            if i < less.len() {
                assert(more[i] == less[i]);
            } else {
                assert(more[i] == opts[n - 1]);
            }
        }
    }
}

fn keep_usable(opts: &[ZeroCrossOption], caps: &[PinCap]) -> (r: Vec<ZeroCrossOption>)
    ensures
        r@ == usable_options(opts@, cap_views(caps@), opts@.len() as int),
        options_fit(r@, cap_views(caps@)),
{
    let mut out: Vec<ZeroCrossOption> = Vec::new();
    let mut i: usize = 0;
    while i < opts.len()
        invariant
            i <= opts@.len(),
            out@ == usable_options(opts@, cap_views(caps@), i as int),
            options_fit(out@, cap_views(caps@)),
        decreases opts@.len() - i,
    {
        let o: ZeroCrossOption = opts[i];
        if find_pin(caps, o.plus).is_some() && find_pin(caps, o.minus).is_some() {
            out.push(o);
        }
        i += 1;
    }
    out
}

/// The comparators of the first `n` options, ascending.
pub open spec fn option_comps(opts: Seq<ZeroCrossOption>, n: int) -> Seq<&'static str>
    decreases n,
{
    if n <= 0 {
        Seq::empty()
    } else {
        with(option_comps(opts, n - 1), opts[n - 1].comp)
    }
}

fn collect_option_comps(opts: &[ZeroCrossOption]) -> (r: Vec<&'static str>)
    ensures
        r@ == option_comps(opts@, opts@.len() as int),
        ascends(r@),
{
    let mut out: Vec<&'static str> = Vec::new();
    let mut i: usize = 0;
    while i < opts.len()
        invariant
            i <= opts@.len(),
            ascends(out@),
            out@ == option_comps(opts@, i as int),
        decreases opts@.len() - i,
    {
        ranked::insert(&mut out, opts[i].comp);
        i += 1;
    }
    out
}

/// The most zero-cross pairs that comparators from position `i` on can add, when
/// `pins` are taken: each comparator takes one of its options or none.
pub open spec fn best_cross(
    opts: Seq<ZeroCrossOption>,
    comps: Seq<&'static str>,
    i: int,
    pins: Set<PinId>,
    taken: int,
    cap: int,
) -> int
    decreases comps.len() - i, opts.len() + 1,
{
    if taken >= cap {
        cap
    } else if i < 0 || i >= comps.len() {
        taken
    } else {
        best_option(opts, comps, i, 0, pins, taken, cap, best_cross(opts, comps, i + 1, pins, taken, cap))
    }
}

/// The better of `best` and what comparator `i` reaches with one of its options
/// from position `k` on.
pub open spec fn best_option(
    opts: Seq<ZeroCrossOption>,
    comps: Seq<&'static str>,
    i: int,
    k: int,
    pins: Set<PinId>,
    taken: int,
    cap: int,
    best: int,
) -> int
    decreases comps.len() - i, opts.len() - k,
{
    if i < 0 || i >= comps.len() || k < 0 || k >= opts.len() {
        best
    } else if opts[k].comp@ == comps[i]@ && !pins.contains(opts[k].plus) && !pins.contains(
        opts[k].minus,
    ) {
        let sub = best_cross(
            opts,
            comps,
            i + 1,
            pins.insert(opts[k].plus).insert(opts[k].minus),
            taken + 1,
            cap,
        );
        best_option(
            opts,
            comps,
            i,
            k + 1,
            pins,
            taken,
            cap,
            if sub > best {
                sub
            } else {
                best
            },
        )
    } else {
        best_option(opts, comps, i, k + 1, pins, taken, cap, best)
    }
}

/// The most zero-cross pairs with distinct comparators and pins, at most `cap`.
pub open spec fn most_crossed(opts: Seq<ZeroCrossOption>, cap: int) -> int {
    best_cross(opts, option_comps(opts, opts.len() as int), 0, Set::empty(), 0, cap)
}

fn search_cross(
    opts: &[ZeroCrossOption],
    comps: &[&'static str],
    i: usize,
    pins: &mut PinSet,
    taken: usize,
    cap: usize,
) -> (r: usize)
    requires
        i <= comps@.len(),
        old(pins).wf(),
    ensures
        final(pins).wf(),
        final(pins)@ == old(pins)@,
        r == best_cross(opts@, comps@, i as int, old(pins)@, taken as int, cap as int),
    decreases comps@.len() - i,
{
    if taken >= cap {
        return cap;
    }
    let depth: usize = comps.len();
    if i == depth {
        return taken;
    }
    let ghost free = pins@;
    let mut best: usize = search_cross(opts, comps, i + 1, pins, taken, cap);
    let mut k: usize = 0;
    while k < opts.len()
        invariant
            i < depth,
            depth == comps@.len(),
            k <= opts@.len(),
            taken < cap,
            pins.wf(),
            pins@ == free,
            free == old(pins)@,
            best_cross(opts@, comps@, i as int, free, taken as int, cap as int) == best_option(
                opts@,
                comps@,
                i as int,
                k as int,
                free,
                taken as int,
                cap as int,
                best as int,
            ),
        decreases opts@.len() - k,
    {
        let o: ZeroCrossOption = opts[k];
        if text::same(o.comp, comps[i]) && !pins.contains(&o.plus) && !pins.contains(&o.minus) {
            pins.insert(o.plus);
            pins.insert(o.minus);
            let sub: usize = search_cross(opts, comps, i + 1, pins, taken + 1, cap);
            if sub > best {
                best = sub;
            }
            pins.remove(o.plus);
            pins.remove(o.minus);
            proof {
                assert(pins@ =~= free);
            }
        }
        k += 1;
    }
    best
}

fn max_zero_cross(opts: &[ZeroCrossOption], cap: usize) -> (r: usize)
    ensures
        r == most_crossed(opts@, cap as int),
{
    let comps: Vec<&'static str> = collect_option_comps(opts);
    let mut pins: PinSet = PinSet::new();
    search_cross(opts, &comps, 0, &mut pins, 0, cap)
}

/// Whether a pin can drive an amplifier.
pub open spec fn is_amp_pin(caps: Seq<CapView>, pin: PinId) -> bool {
    match at_pin(caps, pin) {
        Some(i) => caps[i].opamp.len() > 0,
        None => false,
    }
}

/// Options by how many of their pins could drive an amplifier, then by comparator,
/// then by pins.
pub open spec fn thrifty(opts: Seq<ZeroCrossOption>, caps: Seq<CapView>) -> Seq<ZeroCrossOption> {
    let by_pins = picked(
        opts,
        order_of(
            opts.map_values(
                |o: ZeroCrossOption| (pin_rank(o.plus) * 0x2000_0000 + pin_rank(o.minus)) as u64,
            ),
        ),
    );
    let comps = option_comps(opts, opts.len() as int);
    let by_comp = picked(
        by_pins,
        order_of(by_pins.map_values(|o: ZeroCrossOption| rank_in(comps, o.comp) as u64)),
    );
    picked(
        by_comp,
        order_of(
            by_comp.map_values(
                |o: ZeroCrossOption|
                    flags(is_amp_pin(caps, o.plus), is_amp_pin(caps, o.minus)) as u64,
            ),
        ),
    )
}

proof fn rank_is_small(p: PinId)
    ensures
        0 <= pin_rank(p) < 0x2000_0000,
{
    let c = p.port;
    port_is_small(c);
}

proof fn port_is_small(c: char)
    ensures
        0 <= c as u32 as int <= 0x10ffff,
{
}

proof fn picked_fit(
    items: Seq<ZeroCrossOption>,
    keys: Seq<u64>,
    caps: Seq<CapView>,
)
    requires
        options_fit(items, caps),
        keys.len() == items.len(),
        items.len() <= usize::MAX,
    ensures
        options_fit(picked(items, order_of(keys)), caps),
        picked(items, order_of(keys)).len() == items.len(),
        forall|i: int|
            0 <= i < items.len() ==> items.contains(#[trigger] picked(items, order_of(keys))[i]),
{
    order::order_of_is_stable(keys);
    let o = order_of(keys);
    let r = picked(items, o);
    assert forall|i: int| 0 <= i < r.len() implies at_pin(caps, (#[trigger] r[i]).plus) is Some
        && at_pin(caps, r[i].minus) is Some by {
        assert(o[i] < items.len());
        assert(r[i] == items[o[i] as int]);
    }
    assert forall|i: int| 0 <= i < r.len() implies items.contains(#[trigger] r[i]) by {
        assert(o[i] < items.len());
        assert(r[i] == items[o[i] as int]);
    }
}

/// Sorting keeps the options.
pub proof fn thrifty_fit(opts: Seq<ZeroCrossOption>, caps: Seq<CapView>)
    requires
        options_fit(opts, caps),
        opts.len() <= usize::MAX,
    ensures
        options_fit(thrifty(opts, caps), caps),
        forall|i: int|
            0 <= i < thrifty(opts, caps).len() ==> opts.contains(#[trigger] thrifty(opts, caps)[i]),
{
    let k1 = opts.map_values(
        |o: ZeroCrossOption| (pin_rank(o.plus) * 0x2000_0000 + pin_rank(o.minus)) as u64,
    );
    let a = picked(opts, order_of(k1));
    let comps = option_comps(opts, opts.len() as int);
    let k2 = a.map_values(|o: ZeroCrossOption| rank_in(comps, o.comp) as u64);
    let b = picked(a, order_of(k2));
    let k3 = b.map_values(
        |o: ZeroCrossOption| flags(is_amp_pin(caps, o.plus), is_amp_pin(caps, o.minus)) as u64,
    );
    picked_fit(opts, k1, caps);
    picked_fit(a, k2, caps);
    picked_fit(b, k3, caps);
    let c = thrifty(opts, caps);
    assert forall|i: int| 0 <= i < c.len() implies opts.contains(#[trigger] c[i]) by {
        assert(b.contains(c[i]));
        let x = choose|x: int| 0 <= x < b.len() && b[x] == c[i];
        assert(a.contains(b[x]));
        let y = choose|y: int| 0 <= y < a.len() && a[y] == b[x];
        assert(opts.contains(a[y]));
    }
}

fn amp_pin(caps: &[PinCap], pin: PinId) -> (r: bool)
    ensures
        r == is_amp_pin(cap_views(caps@), pin),
{
    match find_pin(caps, pin) {
        Some(i) => {
            proof {
                assert(cap_views(caps@)[i as int] == caps@[i as int]@);
            }
            caps[i].opamp.len() > 0
        },
        None => false,
    }
}

fn sort_options(opts: &[ZeroCrossOption], caps: &[PinCap]) -> (r: Vec<ZeroCrossOption>)
    requires
        options_fit(opts@, cap_views(caps@)),
    ensures
        r@ == thrifty(opts@, cap_views(caps@)),
        options_fit(r@, cap_views(caps@)),
{
    let ghost cs = cap_views(caps@);
    let ghost f1 = |o: ZeroCrossOption|
        (pin_rank(o.plus) * 0x2000_0000 + pin_rank(o.minus)) as u64;
    let mut k1: Vec<u64> = Vec::new();
    let mut i: usize = 0;
    while i < opts.len()
        invariant
            i <= opts@.len(),
            f1 == (|o: ZeroCrossOption|
                (pin_rank(o.plus) * 0x2000_0000 + pin_rank(o.minus)) as u64),
            k1@ =~= opts@.map_values(f1).take(i as int),
        decreases opts@.len() - i,
    {
        proof {
            rank_is_small(opts@[i as int].plus);
            rank_is_small(opts@[i as int].minus);
        }
        k1.push(opts[i].plus.rank() * 0x2000_0000 + opts[i].minus.rank());
        i += 1;
    }
    let n: usize = opts.len();
    proof {
        assert(k1@ =~= opts@.map_values(f1));
        picked_fit(opts@, k1@, cs);
    }
    let by_pins: Vec<ZeroCrossOption> = order::sort_by_keys(opts, &k1);
    let comps: Vec<&'static str> = collect_option_comps(opts);
    let ghost f2 = |o: ZeroCrossOption| rank_in(comps@, o.comp) as u64;
    let mut k2: Vec<u64> = Vec::new();
    let mut j: usize = 0;
    while j < by_pins.len()
        invariant
            j <= by_pins@.len(),
            f2 == (|o: ZeroCrossOption| rank_in(comps@, o.comp) as u64),
            k2@ =~= by_pins@.map_values(f2).take(j as int),
        decreases by_pins@.len() - j,
    {
        k2.push(ranked::rank(&comps, &by_pins[j].comp) as u64);
        j += 1;
    }
    proof {
        assert(k2@ =~= by_pins@.map_values(f2));
        picked_fit(by_pins@, k2@, cs);
    }
    let by_comp: Vec<ZeroCrossOption> = order::sort_by_keys(&by_pins, &k2);
    let ghost f3 = |o: ZeroCrossOption|
        flags(is_amp_pin(cs, o.plus), is_amp_pin(cs, o.minus)) as u64;
    let mut k3: Vec<u64> = Vec::new();
    let mut m: usize = 0;
    while m < by_comp.len()
        invariant
            m <= by_comp@.len(),
            cs == cap_views(caps@),
            f3 == (|o: ZeroCrossOption|
                flags(is_amp_pin(cs, o.plus), is_amp_pin(cs, o.minus)) as u64),
            k3@ =~= by_comp@.map_values(f3).take(m as int),
        decreases by_comp@.len() - m,
    {
        let mut key: u64 = 0;
        if amp_pin(caps, by_comp[m].plus) {
            key += 1;
        }
        if amp_pin(caps, by_comp[m].minus) {
            key += 1;
        }
        k3.push(key);
        m += 1;
    }
    proof {
        assert(k3@ =~= by_comp@.map_values(f3));
        picked_fit(by_comp@, k3@, cs);
    }
    order::sort_by_keys(&by_comp, &k3)
}

/// A plan in the making: the ADC inputs in use, how each pin is read, the
/// comparators spent on zero-cross pairs, those pairs, the pairs with two
/// amplifiers, and the pins chosen so far.
pub ghost struct Sketch {
    pub used: Seq<Slot>,
    pub reads: Seq<Option<AdcRead>>,
    pub comps: Seq<&'static str>,
    pub crossed: Seq<(usize, usize, &'static str)>,
    pub gained: Seq<(usize, usize)>,
    pub chosen: Seq<usize>,
}

/// A plan in the making.
struct Draft {
    used: Vec<Slot>,
    reads: Vec<Option<AdcRead>>,
    comps: Vec<&'static str>,
    crossed: Vec<(usize, usize, &'static str)>,
    gained: Vec<(usize, usize)>,
    chosen: Vec<usize>,
}

impl View for Draft {
    type V = Sketch;

    closed spec fn view(&self) -> Sketch {
        Sketch {
            used: self.used@,
            reads: self.reads@,
            comps: self.comps@,
            crossed: self.crossed@,
            gained: self.gained@,
            chosen: self.chosen@,
        }
    }
}

/// Nothing planned for `n` pins.
pub open spec fn blank(n: int) -> Sketch {
    Sketch {
        used: Seq::empty(),
        reads: Seq::new(n as nat, |i: int| None),
        comps: Seq::empty(),
        crossed: Seq::empty(),
        gained: Seq::empty(),
        chosen: Seq::empty(),
    }
}

/// A direct read of an ADC input.
pub open spec fn direct(s: Slot) -> Option<AdcRead> {
    Some(AdcRead::Direct { adc: s.0, ch: s.1 })
}

/// A read of an amplifier's output.
pub open spec fn through(op: &'static str, s: Slot) -> Option<AdcRead> {
    Some(AdcRead::ViaOpamp { opamp: op, adc: s.0, ch: s.1 })
}

/// Carve one zero-cross pair, if more are wanted, its comparator and pins are free,
/// and both pins find an ADC input.
pub open spec fn carve_one(caps: Seq<CapView>, want: int, d: Sketch, o: ZeroCrossOption) -> Sketch {
    let a = at_pin(caps, o.plus)->0;
    let b = at_pin(caps, o.minus)->0;
    if d.crossed.len() >= want || has_name(d.comps, o.comp@) || d.reads[a] is Some
        || d.reads[b] is Some {
        d
    } else {
        match cross_slots(Some(caps[a].adc), Some(caps[b].adc), d.used) {
            (Some(s), Some(t)) => Sketch {
                used: d.used.push(s).push(t),
                reads: d.reads.update(a, direct(s)).update(b, direct(t)),
                comps: d.comps.push(o.comp),
                crossed: d.crossed.push((a as usize, b as usize, o.comp)),
                ..d
            },
            _ => d,
        }
    }
}

/// Carve pairs from the first `n` options.
pub open spec fn carve(
    caps: Seq<CapView>,
    want: int,
    opts: Seq<ZeroCrossOption>,
    n: int,
) -> Sketch
    decreases n,
{
    if n <= 0 {
        blank(caps.len() as int)
    } else {
        carve_one(caps, want, carve(caps, want, opts, n - 1), opts[n - 1])
    }
}

fn run_carve(caps: &[PinCap], want: usize, opts: &[ZeroCrossOption]) -> (r: Draft)
    requires
        options_fit(opts@, cap_views(caps@)),
    ensures
        r@ == carve(cap_views(caps@), want as int, opts@, opts@.len() as int),
        r@.reads.len() == caps@.len(),
{
    let ghost cs = cap_views(caps@);
    let mut reads: Vec<Option<AdcRead>> = Vec::new();
    let mut z: usize = 0;
    while z < caps.len()
        invariant
            z <= caps@.len(),
            reads@ =~= Seq::<Option<AdcRead>>::new(z as nat, |i: int| None),
        decreases caps@.len() - z,
    {
        reads.push(None);
        z += 1;
    }
    let mut d: Draft = Draft {
        used: Vec::new(),
        reads,
        comps: Vec::new(),
        crossed: Vec::new(),
        gained: Vec::new(),
        chosen: Vec::new(),
    };
    let mut i: usize = 0;
    proof {
        let e = blank(cs.len() as int);
        assert(d@.used =~= e.used);
        assert(d@.reads =~= e.reads);
        assert(d@.comps =~= e.comps);
        assert(d@.crossed =~= e.crossed);
        assert(d@.gained =~= e.gained);
        assert(d@.chosen =~= e.chosen);
    }
    while i < opts.len()
        invariant
            i <= opts@.len(),
            cs == cap_views(caps@),
            options_fit(opts@, cs),
            d@ == carve(cs, want as int, opts@, i as int),
            d.reads@.len() == caps@.len(),
        decreases opts@.len() - i,
    {
        let o: ZeroCrossOption = opts[i];
        let ghost before = d@;
        proof {
            assert(at_pin(cs, opts@[i as int].plus) is Some);
            index_of_finds(cs, o.plus, cs.len() as int);
            index_of_finds(cs, o.minus, cs.len() as int);
        }
        if d.crossed.len() < want {
            if let (Some(a), Some(b)) = (find_pin(caps, o.plus), find_pin(caps, o.minus)) {
                if !names::holds_name(&d.comps, o.comp) && d.reads[a].is_none()
                    && d.reads[b].is_none() {
                    proof {
                        assert(cs[a as int] == caps@[a as int]@);
                        assert(cs[b as int] == caps@[b as int]@);
                    }
                    if let (Some(s), Some(t)) = pick_cross_slots(
                        Some(&caps[a].adc),
                        Some(&caps[b].adc),
                        &d.used,
                    ) {
                        d.used.push(s);
                        d.used.push(t);
                        d.reads.set(a, Some(AdcRead::Direct { adc: s.0, ch: s.1 }));
                        d.reads.set(b, Some(AdcRead::Direct { adc: t.0, ch: t.1 }));
                        d.comps.push(o.comp);
                        d.crossed.push((a, b, o.comp));
                    }
                }
            }
        }
        proof {
            assert(d@ == carve_one(cs, want as int, before, o));
        }
        i += 1;
    }
    d
}

/// How many of the first `n` entries are there.
pub open spec fn count_some<T>(v: Seq<Option<T>>, n: int) -> int
    decreases n,
{
    if n <= 0 {
        0
    } else {
        count_some(v, n - 1) + (if v[n - 1] is Some {
            1int
        } else {
            0
        })
    }
}

/// The positions among the first `n` where there is an entry, ascending.
pub open spec fn somes<T>(v: Seq<Option<T>>, n: int) -> Seq<usize>
    decreases n,
{
    if n <= 0 {
        Seq::empty()
    } else if v[n - 1] is Some {
        somes(v, n - 1).push((n - 1) as usize)
    } else {
        somes(v, n - 1)
    }
}

/// What `somes` lists.
pub proof fn somes_facts<T>(v: Seq<Option<T>>, n: int)
    requires
        0 <= n <= v.len(),
        v.len() <= usize::MAX,
    ensures
        somes(v, n).len() == count_some(v, n),
        count_some(v, n) <= n,
        forall|k: int|
            0 <= k < somes(v, n).len() ==> (#[trigger] somes(v, n)[k]) < n
                && v[somes(v, n)[k] as int] is Some,
        forall|j: int, k: int|
            0 <= j < k < somes(v, n).len() ==> (#[trigger] somes(v, n)[j]) < (#[trigger] somes(
                v,
                n,
            )[k]),
        forall|i: int| 0 <= i < n && (#[trigger] v[i]) is Some ==> somes(v, n).contains(i as usize),
    decreases n,
{
    if n > 0 {
        somes_facts(v, n - 1);
        let a = somes(v, n - 1);
        let b = somes(v, n);
        assert forall|k: int| 0 <= k < b.len() implies (#[trigger] b[k]) < n
            && v[b[k] as int] is Some by {
            if k < a.len() {
                assert(b[k] == a[k]);
            }
        }
        assert forall|j: int, k: int| 0 <= j < k < b.len() implies (#[trigger] b[j]) < (
        #[trigger] b[k]) by {
            assert(b[j] == a[j]);
            if k < a.len() {
                assert(b[k] == a[k]);
            }
        }
        assert forall|i: int| 0 <= i < n && (#[trigger] v[i]) is Some implies b.contains(
            i as usize,
        ) by {
            if i < n - 1 {
                assert(a.contains(i as usize));
                let k = choose|k: int| 0 <= k < a.len() && a[k] == i as usize;
                assert(b[k] == i as usize);
            } else {
                assert(b[b.len() - 1] == i as usize);
            }
        }
    }
}

fn collect_reads(v: &[Option<AdcRead>]) -> (r: Vec<usize>)
    ensures
        r@ == somes(v@, v@.len() as int),
{
    let mut out: Vec<usize> = Vec::new();
    let mut i: usize = 0;
    while i < v.len()
        invariant
            i <= v@.len(),
            out@ == somes(v@, i as int),
        decreases v@.len() - i,
    {
        if v[i].is_some() {
            out.push(i);
        }
        i += 1;
    }
    out
}

fn collect_named(v: &[Option<&'static str>]) -> (r: Vec<usize>)
    ensures
        r@ == somes(v@, v@.len() as int),
{
    let mut out: Vec<usize> = Vec::new();
    let mut i: usize = 0;
    while i < v.len()
        invariant
            i <= v@.len(),
            out@ == somes(v@, i as int),
        decreases v@.len() - i,
    {
        if v[i].is_some() {
            out.push(i);
        }
        i += 1;
    }
    out
}

/// The pins among the first `n` that the amplifier, or comparator, reaches and that
/// are not blocked.
pub open spec fn reach(
    caps: Seq<CapView>,
    name: Seq<char>,
    amp: bool,
    blocked: Seq<Option<AdcRead>>,
    n: int,
) -> Seq<usize>
    decreases n,
{
    if n <= 0 {
        Seq::empty()
    } else if has_name(parts_of(caps[n - 1], amp), name) && blocked[n - 1] is None {
        reach(caps, name, amp, blocked, n - 1).push((n - 1) as usize)
    } else {
        reach(caps, name, amp, blocked, n - 1)
    }
}

/// What `reach` lists.
pub proof fn reach_facts(
    caps: Seq<CapView>,
    name: Seq<char>,
    amp: bool,
    blocked: Seq<Option<AdcRead>>,
    n: int,
)
    requires
        0 <= n <= caps.len(),
        caps.len() <= usize::MAX,
    ensures
        forall|k: int|
            0 <= k < reach(caps, name, amp, blocked, n).len() ==> {
                let i = #[trigger] reach(caps, name, amp, blocked, n)[k];
                i < n && has_name(parts_of(caps[i as int], amp), name) && blocked[i as int] is None
            },
    decreases n,
{
    if n > 0 {
        reach_facts(caps, name, amp, blocked, n - 1);
    }
}

fn collect_reach(caps: &[PinCap], name: &str, amp: bool, blocked: &[Option<AdcRead>]) -> (r: Vec<
    usize,
>)
    requires
        blocked@.len() == caps@.len(),
    ensures
        r@ == reach(cap_views(caps@), name@, amp, blocked@, caps@.len() as int),
{
    let ghost cs = cap_views(caps@);
    let mut out: Vec<usize> = Vec::new();
    let mut i: usize = 0;
    while i < caps.len()
        invariant
            i <= caps@.len(),
            blocked@.len() == caps@.len(),
            cs == cap_views(caps@),
            out@ == reach(cs, name@, amp, blocked@, i as int),
        decreases caps@.len() - i,
    {
        proof {
            assert(cs[i as int] == caps@[i as int]@);
        }
        let hit: bool = if amp {
            names::holds_name(&caps[i].opamp, name)
        } else {
            names::holds_name(&caps[i].comp, name)
        };
        if hit && blocked[i].is_none() {
            out.push(i);
        }
        i += 1;
    }
    out
}

/// The pins that each amplifier may take.
pub open spec fn amp_lists(
    caps: Seq<CapView>,
    ops: Seq<&'static str>,
    blocked: Seq<Option<AdcRead>>,
) -> Seq<Seq<usize>> {
    Seq::new(ops.len(), |l: int| reach(caps, ops[l]@, true, blocked, caps.len() as int))
}

/// The entries among the first `k` that are read already, or are not.
pub open spec fn read_or_not(
    list: Seq<usize>,
    reads: Seq<Option<AdcRead>>,
    read: bool,
    k: int,
) -> Seq<usize>
    decreases k,
{
    if k <= 0 {
        Seq::empty()
    } else if (reads[list[k - 1] as int] is Some) == read {
        read_or_not(list, reads, read, k - 1).push(list[k - 1])
    } else {
        read_or_not(list, reads, read, k - 1)
    }
}

/// The pins of a list, those that are read already first.
pub open spec fn read_first(list: Seq<usize>, reads: Seq<Option<AdcRead>>) -> Seq<usize> {
    let k = list.len() as int;
    read_or_not(list, reads, true, k) + read_or_not(list, reads, false, k)
}

/// The pins that each comparator may take, those that are read already first.
pub open spec fn comp_lists(
    caps: Seq<CapView>,
    comps: Seq<&'static str>,
    blocked: Seq<Option<AdcRead>>,
    reads: Seq<Option<AdcRead>>,
) -> Seq<Seq<usize>> {
    Seq::new(
        comps.len(),
        |l: int|
            read_first(reach(caps, comps[l]@, false, blocked, caps.len() as int), reads),
    )
}

pub proof fn read_or_not_facts(
    list: Seq<usize>,
    reads: Seq<Option<AdcRead>>,
    read: bool,
    k: int,
)
    requires
        0 <= k <= list.len(),
    ensures
        forall|j: int|
            0 <= j < read_or_not(list, reads, read, k).len() ==> list.contains(
                #[trigger] read_or_not(list, reads, read, k)[j],
            ),
    decreases k,
{
    if k > 0 {
        read_or_not_facts(list, reads, read, k - 1);
        let less = read_or_not(list, reads, read, k - 1);
        let more = read_or_not(list, reads, read, k);
        assert forall|j: int| 0 <= j < more.len() implies list.contains(#[trigger] more[j]) by {
            if j < less.len() {
                assert(more[j] == less[j]);
            } else {
                assert(more[j] == list[k - 1]);
            }
        }
    }
}

fn order_read_first(list: &[usize], reads: &[Option<AdcRead>]) -> (r: Vec<usize>)
    requires
        forall|k: int| 0 <= k < list@.len() ==> (#[trigger] list@[k]) < reads@.len(),
    ensures
        r@ == read_first(list@, reads@),
        forall|k: int| 0 <= k < r@.len() ==> list@.contains(#[trigger] r@[k]),
{
    let mut out: Vec<usize> = Vec::new();
    let mut i: usize = 0;
    while i < list.len()
        invariant
            i <= list@.len(),
            forall|k: int| 0 <= k < list@.len() ==> (#[trigger] list@[k]) < reads@.len(),
            out@ == read_or_not(list@, reads@, true, i as int),
        decreases list@.len() - i,
    {
        assert(list@[i as int] < reads@.len());
        if reads[list[i]].is_some() {
            out.push(list[i]);
        }
        i += 1;
    }
    let ghost first = out@;
    let mut j: usize = 0;
    proof {
        assert(out@ =~= first + read_or_not(list@, reads@, false, 0));
    }
    while j < list.len()
        invariant
            j <= list@.len(),
            forall|k: int| 0 <= k < list@.len() ==> (#[trigger] list@[k]) < reads@.len(),
            out@ == first + read_or_not(list@, reads@, false, j as int),
        decreases list@.len() - j,
    {
        assert(list@[j as int] < reads@.len());
        if reads[list[j]].is_none() {
            out.push(list[j]);
            proof {
                assert(out@ =~= first + read_or_not(list@, reads@, false, j + 1));
            }
        }
        j += 1;
    }
    proof {
        let n = list@.len() as int;
        read_or_not_facts(list@, reads@, true, n);
        read_or_not_facts(list@, reads@, false, n);
        let second = read_or_not(list@, reads@, false, n);
        assert forall|k: int| 0 <= k < out@.len() implies list@.contains(#[trigger] out@[k]) by {
            if k < first.len() {
                assert(out@[k] == first[k]);
            } else {
                assert(out@[k] == second[k - first.len()]);
            }
        }
    }
    out
}

/// Which name stands at which pin, and how many do.
pub ghost struct Placing {
    pub at: Seq<Option<&'static str>>,
    pub count: int,
}

/// The first `l` names put at the pins that the matching gave them, as long as
/// fewer than `budget` are placed.
pub open spec fn place_names(
    names: Seq<&'static str>,
    m: Seq<Option<usize>>,
    budget: int,
    l: int,
    n: int,
) -> Placing
    decreases l,
{
    if l <= 0 {
        Placing { at: Seq::new(n as nat, |i: int| None), count: 0 }
    } else {
        let p = place_names(names, m, budget, l - 1, n);
        match m[l - 1] {
            Some(i) => if p.count < budget {
                Placing { at: p.at.update(i as int, Some(names[l - 1])), count: p.count + 1 }
            } else {
                p
            },
            None => p,
        }
    }
}

fn put_names(list: &[&'static str], m: &[Option<usize>], budget: usize, n: usize) -> (r: Vec<
    Option<&'static str>,
>)
    requires
        list@.len() == m@.len(),
        forall|l: int| 0 <= l < m@.len() ==> (#[trigger] m@[l] matches Some(i) ==> i < n),
    ensures
        r@ == place_names(list@, m@, budget as int, m@.len() as int, n as int).at,
        r@.len() == n,
{
    let mut at: Vec<Option<&'static str>> = Vec::new();
    let mut z: usize = 0;
    while z < n
        invariant
            z <= n,
            at@ =~= Seq::<Option<&'static str>>::new(z as nat, |i: int| None),
        decreases n - z,
    {
        at.push(None);
        z += 1;
    }
    let mut count: usize = 0;
    let mut l: usize = 0;
    while l < m.len()
        invariant
            l <= m@.len(),
            list@.len() == m@.len(),
            at@.len() == n,
            count <= l,
            forall|x: int| 0 <= x < m@.len() ==> (#[trigger] m@[x] matches Some(i) ==> i < n),
            at@ == place_names(list@, m@, budget as int, l as int, n as int).at,
            count == place_names(list@, m@, budget as int, l as int, n as int).count,
        decreases m@.len() - l,
    {
        assert(m@[l as int] matches Some(i) ==> i < n);
        if let Some(i) = m[l] {
            if count < budget {
                at.set(i, Some(list[l]));
                count += 1;
            }
        }
        l += 1;
    }
    at
}

/// The channels that read the output of the amplifier at a pin.
pub open spec fn output_of(out: OutView, amps: Seq<Option<&'static str>>, i: int) -> Option<
    Seq<Slot>,
> {
    out_slots(out, amps[i]->0@, 0)
}

/// Read two amplifier pins through their amplifiers, if both find an input.
pub open spec fn gain_one(
    out: OutView,
    amps: Seq<Option<&'static str>>,
    d: Sketch,
    a: usize,
    b: usize,
) -> Sketch {
    match cross_slots(output_of(out, amps, a as int), output_of(out, amps, b as int), d.used) {
        (Some(s), Some(t)) => Sketch {
            used: d.used.push(s).push(t),
            reads: d.reads.update(a as int, through(amps[a as int]->0, s)).update(
                b as int,
                through(amps[b as int]->0, t),
            ),
            gained: d.gained.push((a, b)),
            ..d
        },
        _ => d,
    }
}

/// Pair amplifier pins two by two, the first `k` pairs.
pub open spec fn gain(
    out: OutView,
    amps: Seq<Option<&'static str>>,
    pins: Seq<usize>,
    d: Sketch,
    k: int,
) -> Sketch
    decreases k,
{
    if k <= 0 {
        d
    } else {
        gain_one(out, amps, gain(out, amps, pins, d, k - 1), pins[2 * (k - 1)], pins[2 * k - 1])
    }
}

/// An odd amplifier pin out is read through its amplifier alone.
pub open spec fn gain_last(
    out: OutView,
    amps: Seq<Option<&'static str>>,
    pins: Seq<usize>,
    d: Sketch,
) -> Sketch {
    if pins.len() % 2 == 1 {
        let i = pins.last();
        match opt_free(output_of(out, amps, i as int), d.used) {
            Some(s) => Sketch {
                used: d.used.push(s),
                reads: d.reads.update(i as int, through(amps[i as int]->0, s)),
                ..d
            },
            None => d,
        }
    } else {
        d
    }
}

/// All amplifier pins, paired and read.
pub open spec fn gain_all(out: OutView, amps: Seq<Option<&'static str>>, d: Sketch) -> Sketch {
    let pins = somes(amps, amps.len() as int);
    gain_last(out, amps, pins, gain(out, amps, pins, d, (pins.len() / 2) as int))
}

proof fn gain_len(out: OutView, amps: Seq<Option<&'static str>>, pins: Seq<usize>, d: Sketch, k: int)
    ensures
        gain(out, amps, pins, d, k).crossed == d.crossed,
        gain(out, amps, pins, d, k).comps == d.comps,
        gain(out, amps, pins, d, k).chosen == d.chosen,
        gain(out, amps, pins, d, k).gained.len() <= d.gained.len() + (if k > 0 {
            k
        } else {
            0
        }),
    decreases k,
{
    if k > 0 {
        gain_len(out, amps, pins, d, k - 1);
    }
}

fn run_gain(out: &OpampOutAdc, amps: &[Option<&'static str>], d: &mut Draft)
    requires
        amps@.len() == old(d)@.reads.len(),
    ensures
        final(d)@ == gain_all(out@, amps@, old(d)@),
        final(d)@.reads.len() == old(d)@.reads.len(),
        final(d)@.crossed == old(d)@.crossed,
        final(d)@.comps == old(d)@.comps,
        final(d)@.chosen == old(d)@.chosen,
        final(d)@.gained.len() <= old(d)@.gained.len() + amps@.len(),
{
    let pins: Vec<usize> = collect_named(amps);
    let ghost d0 = d@;
    let total: usize = amps.len();
    proof {
        somes_facts(amps@, amps@.len() as int);
    }
    let many: usize = pins.len();
    let half: usize = many / 2;
    let mut k: usize = 0;
    while k < half
        invariant
            k <= half,
            half == many / 2,
            many == pins@.len(),
            pins@.len() <= amps@.len(),
            pins@ == somes(amps@, amps@.len() as int),
            forall|j: int|
                0 <= j < pins@.len() ==> (#[trigger] pins@[j]) < amps@.len()
                    && amps@[pins@[j] as int] is Some,
            d.reads@.len() == amps@.len(),
            d0.reads.len() == amps@.len(),
            d@ == gain(out@, amps@, pins@, d0, k as int),
        decreases half - k,
    {
        let a: usize = pins[2 * k];
        let b: usize = pins[2 * k + 1];
        let ghost before = d@;
        assert(pins@[2 * k] < amps@.len());
        assert(pins@[2 * k + 1] < amps@.len());
        if let (Some(oa), Some(ob)) = (amps[a], amps[b]) {
            let x: Option<&Vec<Slot>> = out.get(oa);
            let y: Option<&Vec<Slot>> = out.get(ob);
            proof {
                assert(opt_view(x) == output_of(out@, amps@, a as int));
                assert(opt_view(y) == output_of(out@, amps@, b as int));
            }
            if let (Some(s), Some(t)) = pick_cross_slots(x, y, &d.used) {
                d.used.push(s);
                d.used.push(t);
                d.reads.set(a, Some(AdcRead::ViaOpamp { opamp: oa, adc: s.0, ch: s.1 }));
                d.reads.set(b, Some(AdcRead::ViaOpamp { opamp: ob, adc: t.0, ch: t.1 }));
                d.gained.push((a, b));
            }
        }
        proof {
            assert(d@ == gain_one(out@, amps@, before, a, b));
            assert(2 * (k + 1) - 1 == 2 * k + 1);
        }
        k += 1;
    }
    proof {
        gain_len(out@, amps@, pins@, d0, half as int);
    }
    if pins.len() % 2 == 1 {
        let i: usize = pins[pins.len() - 1];
        assert(pins@[pins@.len() - 1] < amps@.len());
        if let Some(op) = amps[i] {
            let x: Option<&Vec<Slot>> = out.get(op);
            proof {
                assert(opt_view(x) == output_of(out@, amps@, i as int));
            }
            if let Some(s) = pick_free_slot(x, &d.used) {
                d.used.push(s);
                d.reads.set(i, Some(AdcRead::ViaOpamp { opamp: op, adc: s.0, ch: s.1 }));
            }
        }
    }
}

/// The names among the first `n` that are not spent.
pub open spec fn unspent(names: Seq<&'static str>, spent: Seq<&'static str>, n: int) -> Seq<
    &'static str,
>
    decreases n,
{
    if n <= 0 {
        Seq::empty()
    } else if has_name(spent, names[n - 1]@) {
        unspent(names, spent, n - 1)
    } else {
        unspent(names, spent, n - 1).push(names[n - 1])
    }
}

fn keep_unspent(list: &[&'static str], spent: &[&'static str]) -> (r: Vec<&'static str>)
    ensures
        r@ == unspent(list@, spent@, list@.len() as int),
{
    let mut out: Vec<&'static str> = Vec::new();
    let mut i: usize = 0;
    while i < list.len()
        invariant
            i <= list@.len(),
            out@ == unspent(list@, spent@, i as int),
        decreases list@.len() - i,
    {
        if !names::holds_name(spent, list[i]) {
            out.push(list[i]);
        }
        i += 1;
    }
    out
}

/// Choose one pin more, if channels are left, the pin is not read yet, and it finds
/// a direct input.
pub open spec fn choose_one(caps: Seq<CapView>, channels: int, d: Sketch, i: usize) -> Sketch {
    if d.chosen.len() >= channels || d.reads[i as int] is Some {
        d
    } else {
        match free_slot(caps[i as int].adc, d.used, 0) {
            Some(s) => Sketch {
                used: d.used.push(s),
                reads: d.reads.update(i as int, direct(s)),
                chosen: d.chosen.push(i),
                ..d
            },
            None => d,
        }
    }
}

/// Choose pins from the first `k` of a list.
pub open spec fn choose_from(
    caps: Seq<CapView>,
    channels: int,
    list: Seq<usize>,
    d: Sketch,
    k: int,
) -> Sketch
    decreases k,
{
    if k <= 0 {
        d
    } else {
        choose_one(caps, channels, choose_from(caps, channels, list, d, k - 1), list[k - 1])
    }
}

fn run_choose(caps: &[PinCap], channels: usize, list: &[usize], d: &mut Draft)
    requires
        old(d)@.reads.len() == caps@.len(),
        forall|k: int| 0 <= k < list@.len() ==> (#[trigger] list@[k]) < caps@.len(),
    ensures
        final(d)@ == choose_from(
            cap_views(caps@),
            channels as int,
            list@,
            old(d)@,
            list@.len() as int,
        ),
        final(d)@.reads.len() == caps@.len(),
        final(d)@.crossed == old(d)@.crossed,
        final(d)@.gained == old(d)@.gained,
{
    let ghost cs = cap_views(caps@);
    let ghost d0 = d@;
    let mut k: usize = 0;
    while k < list.len()
        invariant
            k <= list@.len(),
            cs == cap_views(caps@),
            d.reads@.len() == caps@.len(),
            forall|j: int| 0 <= j < list@.len() ==> (#[trigger] list@[j]) < caps@.len(),
            d@ == choose_from(cs, channels as int, list@, d0, k as int),
            d@.crossed == d0.crossed,
            d@.gained == d0.gained,
        decreases list@.len() - k,
    {
        let i: usize = list[k];
        let ghost before = d@;
        assert(list@[k as int] < caps@.len());
        proof {
            assert(cs[i as int] == caps@[i as int]@);
        }
        if d.chosen.len() < channels && d.reads[i].is_none() {
            if let Some(s) = pick_free_slot(Some(&caps[i].adc), &d.used) {
                d.used.push(s);
                d.reads.set(i, Some(AdcRead::Direct { adc: s.0, ch: s.1 }));
                d.chosen.push(i);
            }
        }
        proof {
            assert(d@ == choose_one(cs, channels as int, before, i));
        }
        k += 1;
    }
}

/// The pins among the first `n` that are not read yet and have a direct input.
pub open spec fn spare(caps: Seq<CapView>, reads: Seq<Option<AdcRead>>, n: int) -> Seq<usize>
    decreases n,
{
    if n <= 0 {
        Seq::empty()
    } else if reads[n - 1] is None && caps[n - 1].adc.len() > 0 {
        spare(caps, reads, n - 1).push((n - 1) as usize)
    } else {
        spare(caps, reads, n - 1)
    }
}

/// Spare pins, those on fewer ADCs first.
pub open spec fn fillers(caps: Seq<CapView>, reads: Seq<Option<AdcRead>>) -> Seq<usize> {
    let list = spare(caps, reads, caps.len() as int);
    picked(
        list,
        order_of(
            list.map_values(
                |i: usize|
                    instances_in(
                        caps[i as int].adc,
                        caps[i as int].adc.len() as int,
                    ).len() as u64,
            ),
        ),
    )
}

fn collect_fillers(caps: &[PinCap], reads: &[Option<AdcRead>]) -> (r: Vec<usize>)
    requires
        reads@.len() == caps@.len(),
    ensures
        r@ == fillers(cap_views(caps@), reads@),
        forall|k: int| 0 <= k < r@.len() ==> (#[trigger] r@[k]) < caps@.len(),
{
    let ghost cs = cap_views(caps@);
    let ghost f = |i: usize|
        instances_in(cs[i as int].adc, cs[i as int].adc.len() as int).len() as u64;
    let mut list: Vec<usize> = Vec::new();
    let mut keys: Vec<u64> = Vec::new();
    let mut i: usize = 0;
    while i < caps.len()
        invariant
            i <= caps@.len(),
            reads@.len() == caps@.len(),
            cs == cap_views(caps@),
            f == (|x: usize|
                instances_in(cs[x as int].adc, cs[x as int].adc.len() as int).len() as u64),
            list@ == spare(cs, reads@, i as int),
            keys@ =~= list@.map_values(f),
            forall|k: int| 0 <= k < list@.len() ==> (#[trigger] list@[k]) < caps@.len(),
        decreases caps@.len() - i,
    {
        proof {
            assert(cs[i as int] == caps@[i as int]@);
        }
        if reads[i].is_none() && caps[i].adc.len() > 0 {
            list.push(i);
            keys.push(caps[i].adc_instance_count() as u64);
        }
        i += 1;
    }
    let many: usize = keys.len();
    proof {
        assert(keys@.len() == many);
        order::order_of_is_stable(keys@);
        let o = order_of(keys@);
        assert forall|k: int| 0 <= k < o.len() implies picked(list@, o)[k] < caps@.len() by {
            assert(o[k] < list@.len());
            assert(list@[o[k] as int] < caps@.len());
        }
    }
    order::sort_by_keys(&list, &keys)
}

/// Whether a pin is in a zero-cross pair or a pair with two amplifiers.
pub open spec fn is_paired(d: Sketch, i: int) -> bool {
    (exists|k: int|
        0 <= k < d.crossed.len() && ((#[trigger] d.crossed[k]).0 == i || d.crossed[k].1 == i)) || (
    exists|k: int|
        0 <= k < d.gained.len() && ((#[trigger] d.gained[k]).0 == i || d.gained[k].1 == i))
}

fn check_paired(d: &Draft, i: usize) -> (r: bool)
    ensures
        r == is_paired(d@, i as int),
{
    let ghost v = d@;
    let mut k: usize = 0;
    while k < d.crossed.len()
        invariant
            k <= d.crossed@.len(),
            v == d@,
            forall|j: int| 0 <= j < k ==> (#[trigger] v.crossed[j]).0 != i && v.crossed[j].1 != i,
        decreases d.crossed@.len() - k,
    {
        if d.crossed[k].0 == i || d.crossed[k].1 == i {
            assert(v.crossed[k as int].0 == i || v.crossed[k as int].1 == i);
            return true;
        }
        k += 1;
    }
    let mut m: usize = 0;
    while m < d.gained.len()
        invariant
            m <= d.gained@.len(),
            v == d@,
            forall|j: int| 0 <= j < m ==> (#[trigger] v.gained[j]).0 != i && v.gained[j].1 != i,
        decreases d.gained@.len() - m,
    {
        if d.gained[m].0 == i || d.gained[m].1 == i {
            assert(v.gained[m as int].0 == i || v.gained[m as int].1 == i);
            return true;
        }
        m += 1;
    }
    false
}

/// The chosen pins among the first `k` that are in no pair yet.
pub open spec fn unpaired(d: Sketch, k: int) -> Seq<usize>
    decreases k,
{
    if k <= 0 {
        Seq::empty()
    } else if is_paired(d, d.chosen[k - 1] as int) {
        unpaired(d, k - 1)
    } else {
        unpaired(d, k - 1).push(d.chosen[k - 1])
    }
}

/// The chosen pins that are in no pair yet, in pin order.
pub open spec fn singles(caps: Seq<CapView>, d: Sketch) -> Seq<usize> {
    let list = unpaired(d, d.chosen.len() as int);
    picked(list, order_of(list.map_values(|i: usize| pin_rank(caps[i as int].pin) as u64)))
}

proof fn unpaired_facts(d: Sketch, k: int)
    requires
        0 <= k <= d.chosen.len(),
    ensures
        unpaired(d, k).len() <= k,
        forall|j: int|
            0 <= j < unpaired(d, k).len() ==> d.chosen.contains(#[trigger] unpaired(d, k)[j]),
    decreases k,
{
    if k > 0 {
        unpaired_facts(d, k - 1);
        assert(d.chosen.contains(d.chosen[k - 1]));
    }
}

fn collect_singles(caps: &[PinCap], d: &Draft) -> (r: Vec<usize>)
    requires
        forall|k: int|
            0 <= k < d@.chosen.len() ==> (#[trigger] d@.chosen[k]) < caps@.len(),
    ensures
        r@ == singles(cap_views(caps@), d@),
        r@.len() <= d@.chosen.len(),
        forall|k: int| 0 <= k < r@.len() ==> d@.chosen.contains(#[trigger] r@[k]),
{
    let ghost cs = cap_views(caps@);
    let ghost v = d@;
    let ghost f = |i: usize| pin_rank(cs[i as int].pin) as u64;
    let mut list: Vec<usize> = Vec::new();
    let mut keys: Vec<u64> = Vec::new();
    let mut i: usize = 0;
    while i < d.chosen.len()
        invariant
            i <= d.chosen@.len(),
            v == d@,
            cs == cap_views(caps@),
            f == (|x: usize| pin_rank(cs[x as int].pin) as u64),
            forall|k: int| 0 <= k < v.chosen.len() ==> (#[trigger] v.chosen[k]) < caps@.len(),
            list@ == unpaired(v, i as int),
            keys@ =~= list@.map_values(f),
        decreases d.chosen@.len() - i,
    {
        let c: usize = d.chosen[i];
        assert(v.chosen[i as int] < caps@.len());
        proof {
            assert(cs[c as int] == caps@[c as int]@);
        }
        if !check_paired(d, c) {
            list.push(c);
            keys.push(caps[c].pin.rank());
        }
        i += 1;
    }
    proof {
        unpaired_facts(v, v.chosen.len() as int);
        order::order_of_is_stable(keys@);
        let o = order_of(keys@);
        assert forall|k: int| 0 <= k < o.len() implies v.chosen.contains(
            #[trigger] picked(list@, o)[k],
        ) by {
            assert(o[k] < list@.len());
            assert(v.chosen.contains(unpaired(v, v.chosen.len() as int)[o[k] as int]));
        }
    }
    order::sort_by_keys(&list, &keys)
}

/// The first pin of a list, from position `k` on, that is read on another ADC.
pub open spec fn partner(list: Seq<usize>, reads: Seq<Option<AdcRead>>, adc: Seq<char>, k: int) -> int
    decreases list.len() - k,
{
    if k < 0 || k >= list.len() {
        0
    } else if slot_of(reads[list[k] as int]->0).0@ != adc {
        k
    } else {
        partner(list, reads, adc, k + 1)
    }
}

/// Pair the pins of a list: the first one with the first that is read on another
/// ADC, else with the next one; a last odd one stays alone.
pub open spec fn pair_up(list: Seq<usize>, reads: Seq<Option<AdcRead>>) -> Seq<(usize, usize)>
    decreases list.len(),
{
    if list.len() == 0 {
        Seq::empty()
    } else {
        let rest = list.skip(1);
        if rest.len() == 0 {
            seq![(list[0], list[0])]
        } else {
            let p = partner(rest, reads, slot_of(reads[list[0] as int]->0).0@, 0);
            if 0 <= p < rest.len() {
                seq![(list[0], rest[p])] + pair_up(rest.remove(p), reads)
            } else {
                seq![(list[0], list[0])]
            }
        }
    }
}

pub proof fn partner_in_range(list: Seq<usize>, reads: Seq<Option<AdcRead>>, adc: Seq<char>, k: int)
    requires
        list.len() > 0,
    ensures
        0 <= partner(list, reads, adc, k) < list.len(),
    decreases list.len() - k,
{
    if 0 <= k < list.len() && slot_of(reads[list[k] as int]->0).0@ == adc {
        partner_in_range(list, reads, adc, k + 1);
    }
}

fn run_pair_up(list: &[usize], reads: &[Option<AdcRead>]) -> (r: Vec<(usize, usize)>)
    requires
        forall|k: int|
            0 <= k < list@.len() ==> (#[trigger] list@[k]) < reads@.len()
                && reads@[list@[k] as int] is Some,
    ensures
        r@ == pair_up(list@, reads@),
        r@.len() <= list@.len(),
        forall|k: int|
            0 <= k < r@.len() ==> list@.contains((#[trigger] r@[k]).0) && list@.contains(r@[k].1),
{
    let mut rest: Vec<usize> = frontend_plan::copy_list(list);
    let mut out: Vec<(usize, usize)> = Vec::new();
    proof {
        assert(out@ + pair_up(rest@, reads@) =~= pair_up(list@, reads@));
    }
    while rest.len() > 0
        invariant
            forall|k: int|
                0 <= k < rest@.len() ==> (#[trigger] rest@[k]) < reads@.len()
                    && reads@[rest@[k] as int] is Some && list@.contains(rest@[k]),
            out@ + pair_up(rest@, reads@) == pair_up(list@, reads@),
            out@.len() + rest@.len() <= list@.len(),
            forall|k: int|
                0 <= k < out@.len() ==> list@.contains((#[trigger] out@[k]).0) && list@.contains(
                    out@[k].1,
                ),
        decreases rest@.len(),
    {
        let ghost whole = rest@;
        let ghost done = out@;
        assert(rest@[0] < reads@.len());
        let first: usize = rest.remove(0);
        proof {
            assert(rest@ =~= whole.skip(1));
            assert forall|k: int| 0 <= k < rest@.len() implies (#[trigger] rest@[k]) < reads@.len()
                && reads@[rest@[k] as int] is Some && list@.contains(rest@[k]) by {
                assert(rest@[k] == whole[k + 1]);
            }
        }
        if rest.len() == 0 {
            out.push((first, first));
            proof {
                assert(out@ + pair_up(rest@, reads@) =~= done + seq![(first, first)]);
            }
        } else {
            let adc: &'static str = match reads[first] {
                Some(read) => read.adc(),
                None => "",
            };
            let mut p: usize = 0;
            let mut found: bool = false;
            while p < rest.len() && !found
                invariant
                    p <= rest@.len(),
                    rest@.len() > 0,
                    forall|k: int|
                        0 <= k < rest@.len() ==> (#[trigger] rest@[k]) < reads@.len()
                            && reads@[rest@[k] as int] is Some,
                    found ==> p < rest@.len(),
                    !found ==> partner(rest@, reads@, adc@, 0) == partner(
                        rest@,
                        reads@,
                        adc@,
                        p as int,
                    ),
                    found ==> partner(rest@, reads@, adc@, 0) == p,
                decreases
                        rest@.len() - p + (if found {
                            0int
                        } else {
                            1
                        }),
            {
                assert(rest@[p as int] < reads@.len());
                let other: &'static str = match reads[rest[p]] {
                    Some(read) => read.adc(),
                    None => "",
                };
                if !text::same(other, adc) {
                    found = true;
                } else {
                    p += 1;
                }
            }
            if !found {
                p = 0;
            }
            proof {
                partner_in_range(rest@, reads@, adc@, 0);
            }
            let ghost tail = rest@;
            let second: usize = rest.remove(p);
            proof {
                assert forall|k: int| 0 <= k < rest@.len() implies (#[trigger] rest@[k])
                    < reads@.len() && reads@[rest@[k] as int] is Some && list@.contains(
                    rest@[k],
                ) by {
                    assert(rest@[k] == tail[if k < p { k } else { k + 1 }]);
                }
                assert(second == tail[p as int]);
                assert(list@.contains(second));
            }
            out.push((first, second));
            proof {
                assert(pair_up(whole, reads@) == seq![(first, second)] + pair_up(
                    rest@,
                    reads@,
                ));
                assert(out@ + pair_up(rest@, reads@) =~= done + (seq![(first, second)] + pair_up(
                    rest@,
                    reads@,
                )));
            }
        }
    }
    proof {
        assert(out@ + pair_up(rest@, reads@) =~= out@);
    }
    out
}

/// Everything but the pairs' order: the sketch, the amplifiers and the comparators
/// at their pins.
pub ghost struct Solved {
    pub d: Sketch,
    pub amps: Seq<Option<&'static str>>,
    pub comps: Seq<Option<&'static str>>,
}

/// The plan of pins in pin order: carve the zero-cross pairs, place the amplifiers,
/// then the comparators, then fill up.
pub open spec fn solve(
    caps: Seq<CapView>,
    out: OutView,
    opts: Seq<ZeroCrossOption>,
    channels: int,
    target: int,
) -> Solved {
    let n = caps.len() as int;
    let fit = usable_options(opts, caps, opts.len() as int);
    let want = if target < channels / 2 {
        target
    } else {
        channels / 2
    };
    let list = thrifty(fit, caps);
    let z = carve(caps, want, list, list.len() as int);
    let left = channels - count_some(z.reads, n);
    let budget = if left > 0 {
        left
    } else {
        0
    };
    let ops = part_names(caps, true, n);
    let am = matching::matching(amp_lists(caps, ops, z.reads), n);
    let amps = place_names(ops, am, budget, ops.len() as int, n).at;
    let a = gain_all(out, amps, z);
    let every = part_names(caps, false, n);
    let cn = unspent(every, z.comps, every.len() as int);
    let cm = matching::matching(comp_lists(caps, cn, z.reads, a.reads), n);
    let comps = place_names(cn, cm, cn.len() as int, cn.len() as int, n).at;
    let b = Sketch { chosen: somes(a.reads, n), ..a };
    let watched = somes(comps, n);
    let c = choose_from(caps, channels, watched, b, watched.len() as int);
    let more = fillers(caps, c.reads);
    Solved { d: choose_from(caps, channels, more, c, more.len() as int), amps, comps }
}

/// The pairs by pin position: zero-cross pairs, pairs with two amplifiers, the rest.
pub open spec fn pair_indices(caps: Seq<CapView>, d: Sketch) -> Seq<(usize, usize)> {
    d.crossed.map_values(|x: (usize, usize, &'static str)| (x.0, x.1)) + d.gained + pair_up(
        singles(caps, d),
        d.reads,
    )
}

/// One channel of the plan.
pub open spec fn channel(caps: Seq<CapView>, s: Solved, i: int) -> ChannelPlan {
    ChannelPlan {
        pin: caps[i].pin,
        read: s.d.reads[i]->0,
        comp: s.comps[i],
        opamp: amp_of(s.d.reads[i]->0),
    }
}

/// One pair of the plan.
pub open spec fn pair_plan(caps: Seq<CapView>, s: Solved, k: int, a: int, b: int) -> PairPlan {
    let pos = channel(caps, s, a);
    let neg = channel(caps, s, b);
    PairPlan {
        index: k as usize,
        pos,
        neg,
        full_pga: pos.opamp is Some && neg.opamp is Some && pos.opamp->0@
            != neg.opamp->0@,
        cross_adc: a != b && slot_of(pos.read).0@ != slot_of(neg.read).0@,
        zero_cross: if k < s.d.crossed.len() {
            Some(s.d.crossed[k].2)
        } else {
            None
        },
    }
}

/// All pairs of the plan.
pub open spec fn pair_plans(caps: Seq<CapView>, s: Solved) -> Seq<PairPlan> {
    let idx = pair_indices(caps, s.d);
    Seq::new(idx.len(), |k: int| pair_plan(caps, s, k, idx[k].0 as int, idx[k].1 as int))
}

/// What a pair counts.
pub open spec fn pair_score(p: PairPlan, cfg: PlanConfig) -> int {
    (if p.zero_cross is Some {
        cfg.w_zero_cross as int
    } else {
        0
    }) + (if p.full_pga {
        cfg.w_pga_pair as int
    } else {
        amp_ends(p) * cfg.w_pga_single
    }) + comp_ends(p) * cfg.w_trigger + (if p.cross_adc {
        cfg.w_cross_adc as int
    } else {
        0
    })
}

/// What the first `n` pairs count together.
pub open spec fn score_of(pairs: Seq<PairPlan>, cfg: PlanConfig, n: int) -> int
    decreases n,
{
    if n <= 0 {
        0
    } else {
        score_of(pairs, cfg, n - 1) + pair_score(pairs[n - 1], cfg)
    }
}

/// The size of a weight.
pub open spec fn size(w: i32) -> int {
    if w < 0 {
        -w
    } else {
        w as int
    }
}

/// The most that one pair can count, either way.
pub open spec fn weight_bound(cfg: PlanConfig) -> int {
    size(cfg.w_zero_cross) + size(cfg.w_pga_pair) + 2 * size(cfg.w_pga_single) + 2 * size(
        cfg.w_trigger,
    ) + size(cfg.w_cross_adc)
}

/// The limits that the parts of a chip set.
pub open spec fn ceiling_of(caps: Seq<CapView>, opts: Seq<ZeroCrossOption>, channels: int) -> Ceiling {
    let n = caps.len() as int;
    let ops = part_names(caps, true, n).len() as int;
    let comps = part_names(caps, false, n).len() as int;
    let fit = usable_options(opts, caps, opts.len() as int);
    Ceiling {
        requested_channels: channels as usize,
        adc_pins: n as usize,
        comps: comps as usize,
        opamps: ops as usize,
        max_pga_pairs: (if ops / 2 < channels / 2 {
            ops / 2
        } else {
            channels / 2
        }) as usize,
        max_triggers: (if comps < channels {
            comps
        } else {
            channels
        }) as usize,
        max_zero_cross_pairs: most_crossed(fit, channels / 2) as usize,
    }
}

/// The explanations for the user.
pub open spec fn notes_of(c: Ceiling, channels: int, target: int, placed: int, missing: int) -> Seq<
    Seq<char>,
> {
    let triggers = decimal(c.max_triggers as int) + " of "@ + decimal(channels)
        + " channels can carry a hardware trigger (only "@ + decimal(c.comps as int)
        + " comparators exist)."@;
    let gain = "At most "@ + decimal(c.max_pga_pairs as int) + " of "@ + decimal(channels / 2)
        + " pairs can be full-PGA (both ends on distinct opamps) — "@ + decimal(c.opamps as int)
        + " opamps exist."@;
    let cross = "Zero-cross: ≤"@ + decimal(c.max_zero_cross_pairs as int)
        + " pairs can have a straddling comparator (COMP+ on one end, external COMP− on the other); it spends a comparator from the same pool as triggers."@;
    let short = "Only "@ + decimal(placed)
        + " analog-capable pins are bonded on this package — "@ + decimal(missing)
        + " requested channel(s) can't be placed. Pick a larger package."@;
    let base = seq![triggers, gain];
    let mid = if target > 0 || c.max_zero_cross_pairs > 0 {
        base.push(cross)
    } else {
        base
    };
    if missing > 0 {
        mid.push(short)
    } else {
        mid
    }
}

fn write_notes(c: &Ceiling, channels: usize, target: usize, placed: usize, missing: usize) -> (r: Vec<
    String,
>)
    ensures
        views(r@) == notes_of(
            *c,
            channels as int,
            target as int,
            placed as int,
            missing as int,
        ),
{
    let mut a: String = text::number(c.max_triggers as u64);
    a.append(" of ");
    text::push_number(&mut a, channels as u64);
    a.append(" channels can carry a hardware trigger (only ");
    text::push_number(&mut a, c.comps as u64);
    a.append(" comparators exist).");
    let mut b: String = "At most ".to_owned();
    text::push_number(&mut b, c.max_pga_pairs as u64);
    b.append(" of ");
    text::push_number(&mut b, (channels / 2) as u64);
    b.append(" pairs can be full-PGA (both ends on distinct opamps) — ");
    text::push_number(&mut b, c.opamps as u64);
    b.append(" opamps exist.");
    let mut out: Vec<String> = Vec::new();
    out.push(a);
    out.push(b);
    if target > 0 || c.max_zero_cross_pairs > 0 {
        let mut z: String = "Zero-cross: ≤".to_owned();
        text::push_number(&mut z, c.max_zero_cross_pairs as u64);
        z.append(
            " pairs can have a straddling comparator (COMP+ on one end, external COMP− on the other); it spends a comparator from the same pool as triggers.",
        );
        out.push(z);
    }
    if missing > 0 {
        let mut s: String = "Only ".to_owned();
        text::push_number(&mut s, placed as u64);
        s.append(" analog-capable pins are bonded on this package — ");
        text::push_number(&mut s, missing as u64);
        s.append(" requested channel(s) can't be placed. Pick a larger package.");
        out.push(s);
    }
    proof {
        assert(views(out@) =~= notes_of(
            *c,
            channels as int,
            target as int,
            placed as int,
            missing as int,
        ));
    }
    out
}

fn build_amp_lists(caps: &[PinCap], ops: &[&'static str], blocked: &[Option<AdcRead>]) -> (r: Vec<
    Vec<usize>,
>)
    requires
        blocked@.len() == caps@.len(),
    ensures
        matching::lists(r@) == amp_lists(cap_views(caps@), ops@, blocked@),
        forall|u: int, k: int|
            0 <= u < r@.len() && 0 <= k < r@[u]@.len() ==> (#[trigger] r@[u]@[k]) < caps@.len(),
{
    let ghost cs = cap_views(caps@);
    let ghost n = caps@.len() as int;
    let size: usize = caps.len();
    let mut out: Vec<Vec<usize>> = Vec::new();
    let mut l: usize = 0;
    while l < ops.len()
        invariant
            l <= ops@.len(),
            size == caps@.len(),
            n == caps@.len(),
            blocked@.len() == caps@.len(),
            cs == cap_views(caps@),
            out@.len() == l,
            forall|u: int|
                0 <= u < l ==> (#[trigger] out@[u])@ == reach(cs, ops@[u]@, true, blocked@, n),
            forall|u: int, k: int|
                0 <= u < l && 0 <= k < out@[u]@.len() ==> (#[trigger] out@[u]@[k]) < n,
        decreases ops@.len() - l,
    {
        let list: Vec<usize> = collect_reach(caps, ops[l], true, blocked);
        proof {
            reach_facts(cs, ops@[l as int]@, true, blocked@, n);
            assert forall|k: int| 0 <= k < list@.len() implies (#[trigger] list@[k]) < n by {
                assert(reach(cs, ops@[l as int]@, true, blocked@, n)[k] < n);
            }
        }
        out.push(list);
        l += 1;
    }
    proof {
        assert(matching::lists(out@) =~= amp_lists(cs, ops@, blocked@));
    }
    out
}

fn build_comp_lists(
    caps: &[PinCap],
    comps: &[&'static str],
    blocked: &[Option<AdcRead>],
    reads: &[Option<AdcRead>],
) -> (r: Vec<Vec<usize>>)
    requires
        blocked@.len() == caps@.len(),
        reads@.len() == caps@.len(),
    ensures
        matching::lists(r@) == comp_lists(cap_views(caps@), comps@, blocked@, reads@),
        forall|u: int, k: int|
            0 <= u < r@.len() && 0 <= k < r@[u]@.len() ==> (#[trigger] r@[u]@[k]) < caps@.len(),
{
    let ghost cs = cap_views(caps@);
    let ghost n = caps@.len() as int;
    let size: usize = caps.len();
    let mut out: Vec<Vec<usize>> = Vec::new();
    let mut l: usize = 0;
    while l < comps.len()
        invariant
            l <= comps@.len(),
            size == caps@.len(),
            n == caps@.len(),
            blocked@.len() == caps@.len(),
            reads@.len() == caps@.len(),
            cs == cap_views(caps@),
            out@.len() == l,
            forall|u: int|
                0 <= u < l ==> (#[trigger] out@[u])@ == read_first(
                    reach(cs, comps@[u]@, false, blocked@, n),
                    reads@,
                ),
            forall|u: int, k: int|
                0 <= u < l && 0 <= k < out@[u]@.len() ==> (#[trigger] out@[u]@[k]) < n,
        decreases comps@.len() - l,
    {
        let list: Vec<usize> = collect_reach(caps, comps[l], false, blocked);
        proof {
            reach_facts(cs, comps@[l as int]@, false, blocked@, n);
            assert forall|k: int| 0 <= k < list@.len() implies (#[trigger] list@[k]) < n by {
                assert(reach(cs, comps@[l as int]@, false, blocked@, n)[k] < n);
            }
        }
        let ordered: Vec<usize> = order_read_first(&list, reads);
        proof {
            assert forall|k: int| 0 <= k < ordered@.len() implies (#[trigger] ordered@[k]) < n by {
                assert(list@.contains(ordered@[k]));
                let x = choose|x: int| 0 <= x < list@.len() && list@[x] == ordered@[k];
                assert(list@[x] < n);
            }
        }
        out.push(ordered);
        l += 1;
    }
    proof {
        assert(matching::lists(out@) =~= comp_lists(cs, comps@, blocked@, reads@));
    }
    out
}

fn match_up(adj: &[Vec<usize>], n: usize) -> (r: Vec<Option<usize>>)
    requires
        forall|u: int, k: int|
            0 <= u < adj@.len() && 0 <= k < adj@[u]@.len() ==> (#[trigger] adj@[u]@[k]) < n,
    ensures
        r@ == matching::matching(matching::lists(adj@), n as int),
        r@.len() == adj@.len(),
        forall|u: int| 0 <= u < r@.len() ==> (#[trigger] r@[u] matches Some(v) ==> v < n),
{
    let left: usize = adj.len();
    proof {
        let l = matching::lists(adj@);
        assert(l.len() == left);
        assert forall|u: int, k: int| 0 <= u < l.len() && 0 <= k < l[u].len() implies (
        #[trigger] l[u][k]) < n by {
            assert(l[u] == adj@[u]@);
            assert(adj@[u]@[k] < n);
        }
        matching::matching_is_valid(l, n as int);
    }
    matching::kuhn(adj, n)
}

fn run_solve(
    caps: &[PinCap],
    out: &OpampOutAdc,
    opts: &[ZeroCrossOption],
    channels: usize,
    target: usize,
) -> (r: (Draft, Vec<Option<&'static str>>, Vec<Option<&'static str>>))
    ensures
        (Solved { d: r.0@, amps: r.1@, comps: r.2@ }) == solve(
            cap_views(caps@),
            out@,
            opts@,
            channels as int,
            target as int,
        ),
        solved_well(cap_views(caps@), out@, opts@, channels as int, Solved { d: r.0@, amps: r.1@, comps: r.2@ }),
{
    let ghost cs = cap_views(caps@);
    let n: usize = caps.len();
    let total: usize = opts.len();
    let half: usize = channels / 2;
    let fit: Vec<ZeroCrossOption> = keep_usable(opts, caps);
    let want: usize = if target < half {
        target
    } else {
        half
    };
    let list: Vec<ZeroCrossOption> = sort_options(&fit, caps);
    let mut d: Draft = run_carve(caps, want, &list);
    let ghost z = d@;
    let taken: Vec<usize> = collect_reads(&d.reads);
    let blocked: Vec<Option<AdcRead>> = frontend_plan::copy_list(&d.reads);
    proof {
        somes_facts(z.reads, n as int);
    }
    let budget: usize = if taken.len() < channels {
        channels - taken.len()
    } else {
        0
    };
    let ops: Vec<&'static str> = collect_parts(caps, true);
    let amp_adj: Vec<Vec<usize>> = build_amp_lists(caps, &ops, &blocked);
    let am: Vec<Option<usize>> = match_up(&amp_adj, n);
    let ghost amp_seq = amp_lists(cs, ops@, z.reads);
    proof {
        assert(matching::lists(amp_adj@).len() == amp_adj@.len());
        assert(amp_seq.len() == ops@.len());
    }
    let amps: Vec<Option<&'static str>> = put_names(&ops, &am, budget, n);
    run_gain(out, &amps, &mut d);
    let ghost a = d@;
    let every: Vec<&'static str> = collect_parts(caps, false);
    let cn: Vec<&'static str> = keep_unspent(&every, &d.comps);
    let comp_adj: Vec<Vec<usize>> = build_comp_lists(caps, &cn, &blocked, &d.reads);
    let cm: Vec<Option<usize>> = match_up(&comp_adj, n);
    let ghost comp_seq = comp_lists(cs, cn@, z.reads, a.reads);
    proof {
        assert(matching::lists(comp_adj@).len() == comp_adj@.len());
        assert(comp_seq.len() == cn@.len());
    }
    let comps: Vec<Option<&'static str>> = put_names(&cn, &cm, cn.len(), n);
    d.chosen = collect_reads(&d.reads);
    let ghost b = d@;
    proof {
        assert(b == (Sketch { chosen: somes(a.reads, n as int), ..a }));
    }
    let watched: Vec<usize> = collect_named(&comps);
    proof {
        somes_facts(comps@, n as int);
    }
    run_choose(caps, channels, &watched, &mut d);
    let more: Vec<usize> = collect_fillers(caps, &d.reads);
    run_choose(caps, channels, &more, &mut d);
    let ops_len: usize = ops.len();
    let every_len: usize = every.len();
    proof {
        assert(ops_len == ops@.len() && every_len == every@.len());
        solve_is_sound(cs, out@, opts@, channels as int, target as int);
    }
    (d, amps, comps)
}

fn make_channel(
    caps: &[PinCap],
    d: &Draft,
    comps: &[Option<&'static str>],
    i: usize,
    amps: Ghost<Seq<Option<&'static str>>>,
) -> (r: ChannelPlan)
    requires
        i < caps@.len(),
        d@.reads.len() == caps@.len(),
        d@.reads[i as int] is Some,
        comps@.len() == caps@.len(),
    ensures
        r == channel(cap_views(caps@), Solved { d: d@, amps: amps@, comps: comps@ }, i as int),
{
    proof {
        assert(cap_views(caps@)[i as int] == caps@[i as int]@);
    }
    let read: AdcRead = d.reads[i].unwrap();
    ChannelPlan { pin: caps[i].pin, read, comp: comps[i], opamp: read.opamp() }
}

fn differ(a: Option<&'static str>, b: Option<&'static str>) -> (r: bool)
    ensures
        r == (a is Some && b is Some && a->0@ != b->0@),
{
    match (a, b) {
        (Some(x), Some(y)) => !text::same(x, y),
        _ => false,
    }
}

fn make_pairs(
    caps: &[PinCap],
    d: &Draft,
    comps: &[Option<&'static str>],
    idx: &[(usize, usize)],
    amps: Ghost<Seq<Option<&'static str>>>,
) -> (r: Vec<PairPlan>)
    requires
        d@.reads.len() == caps@.len(),
        comps@.len() == caps@.len(),
        idx@ == pair_indices(cap_views(caps@), d@),
        forall|k: int|
            0 <= k < idx@.len() ==> (#[trigger] idx@[k]).0 < caps@.len() && idx@[k].1 < caps@.len()
                && d@.reads[idx@[k].0 as int] is Some && d@.reads[idx@[k].1 as int] is Some,
    ensures
        r@ == pair_plans(cap_views(caps@), Solved { d: d@, amps: amps@, comps: comps@ }),
{
    let ghost cs = cap_views(caps@);
    let ghost s = Solved { d: d@, amps: amps@, comps: comps@ };
    let mut out: Vec<PairPlan> = Vec::new();
    let mut k: usize = 0;
    while k < idx.len()
        invariant
            k <= idx@.len(),
            cs == cap_views(caps@),
            s == (Solved { d: d@, amps: amps@, comps: comps@ }),
            d@.reads.len() == caps@.len(),
                comps@.len() == caps@.len(),
            forall|j: int|
                0 <= j < idx@.len() ==> (#[trigger] idx@[j]).0 < caps@.len() && idx@[j].1
                    < caps@.len() && d@.reads[idx@[j].0 as int] is Some
                    && d@.reads[idx@[j].1 as int] is Some,
            out@.len() == k,
            forall|j: int|
                0 <= j < k ==> #[trigger] out@[j] == pair_plan(
                    cs,
                    s,
                    j,
                    idx@[j].0 as int,
                    idx@[j].1 as int,
                ),
        decreases idx@.len() - k,
    {
        let (a, b): (usize, usize) = idx[k];
        assert(idx@[k as int].0 < caps@.len());
        let pos: ChannelPlan = make_channel(caps, d, comps, a, amps);
        let neg: ChannelPlan = make_channel(caps, d, comps, b, amps);
        let full_pga: bool = differ(pos.opamp, neg.opamp);
        let cross_adc: bool = a != b && !text::same(pos.read.adc(), neg.read.adc());
        let zero_cross: Option<&'static str> = if k < d.crossed.len() {
            Some(d.crossed[k].2)
        } else {
            None
        };
        out.push(PairPlan { index: k, pos, neg, full_pga, cross_adc, zero_cross });
        k += 1;
    }
    proof {
        assert(out@ =~= pair_plans(cs, s));
    }
    out
}

fn list_pairs(caps: &[PinCap], d: &Draft) -> (r: Vec<(usize, usize)>)
    requires
        d@.reads.len() == caps@.len(),
        chosen_well(d@),
    ensures
        r@ == pair_indices(cap_views(caps@), d@),
{
    let ghost cs = cap_views(caps@);
    let mut out: Vec<(usize, usize)> = Vec::new();
    let ghost f = |x: (usize, usize, &'static str)| (x.0, x.1);
    let mut i: usize = 0;
    while i < d.crossed.len()
        invariant
            i <= d.crossed@.len(),
            f == (|x: (usize, usize, &'static str)| (x.0, x.1)),
            out@ =~= d.crossed@.map_values(f).take(i as int),
        decreases d.crossed@.len() - i,
    {
        out.push((d.crossed[i].0, d.crossed[i].1));
        i += 1;
    }
    let ghost first = out@;
    let mut j: usize = 0;
    while j < d.gained.len()
        invariant
            j <= d.gained@.len(),
            out@ =~= first + d.gained@.take(j as int),
        decreases d.gained@.len() - j,
    {
        out.push(d.gained[j]);
        j += 1;
    }
    let ghost second = out@;
    let rest: Vec<usize> = collect_singles(caps, d);
    proof {
        assert forall|k: int| 0 <= k < rest@.len() implies (#[trigger] rest@[k]) < d.reads@.len()
            && d.reads@[rest@[k] as int] is Some by {
            assert(d@.chosen.contains(rest@[k]));
            let y = choose|y: int| 0 <= y < d@.chosen.len() && d@.chosen[y] == rest@[k];
            assert(d@.chosen[y] < d@.reads.len());
        }
    }
    let others: Vec<(usize, usize)> = run_pair_up(&rest, &d.reads);
    let mut k: usize = 0;
    while k < others.len()
        invariant
            k <= others@.len(),
            out@ =~= second + others@.take(k as int),
        decreases others@.len() - k,
    {
        out.push(others[k]);
        k += 1;
    }
    proof {
        assert(out@ =~= pair_indices(cs, d@));
    }
    out
}

proof fn score_bound(p: PairPlan, cfg: PlanConfig)
    ensures
        -weight_bound(cfg) <= pair_score(p, cfg) <= weight_bound(cfg),
{
    let f = amp_ends(p);
    let g = comp_ends(p);
    assert(f == 0 || f == 1 || f == 2);
    assert(g == 0 || g == 1 || g == 2);
    let x = cfg.w_pga_single as int;
    let y = cfg.w_trigger as int;
    assert(f * x == if f == 0 {
        0
    } else if f == 1 {
        x
    } else {
        2 * x
    }) by (nonlinear_arith)
        requires
            f == 0 || f == 1 || f == 2,
    ;
    assert(g * y == if g == 0 {
        0
    } else if g == 1 {
        y
    } else {
        2 * y
    }) by (nonlinear_arith)
        requires
            g == 0 || g == 1 || g == 2,
    ;
}

fn score_pair(p: &PairPlan, cfg: &PlanConfig) -> (r: i64)
    ensures
        r == pair_score(*p, *cfg),
{
    let mut r: i64 = 0;
    if p.zero_cross.is_some() {
        r = r + cfg.w_zero_cross as i64;
    }
    if p.full_pga {
        r = r + cfg.w_pga_pair as i64;
    } else {
        if p.pos.opamp.is_some() {
            r = r + cfg.w_pga_single as i64;
        }
        if p.neg.opamp.is_some() {
            r = r + cfg.w_pga_single as i64;
        }
    }
    if p.pos.comp.is_some() {
        r = r + cfg.w_trigger as i64;
    }
    if p.neg.comp.is_some() {
        r = r + cfg.w_trigger as i64;
    }
    if p.cross_adc {
        r = r + cfg.w_cross_adc as i64;
    }
    proof {
        let f = amp_ends(*p);
        let g = comp_ends(*p);
        let x = cfg.w_pga_single as int;
        let y = cfg.w_trigger as int;
        assert(0 * x == 0 && 1 * x == x && 2 * x == x + x);
        assert(0 * y == 0 && 1 * y == y && 2 * y == y + y);
        assert(f == 0 || f == 1 || f == 2);
        assert(g == 0 || g == 1 || g == 2);
    }
    r
}

fn score_pairs(pairs: &[PairPlan], cfg: &PlanConfig, most: Ghost<int>) -> (r: i32)
    requires
        pairs@.len() <= most@,
        weight_bound(*cfg) * most@ <= i32::MAX,
    ensures
        r == score_of(pairs@, *cfg, pairs@.len() as int),
{
    let ghost w = weight_bound(*cfg);
    let mut r: i64 = 0;
    let mut i: usize = 0;
    while i < pairs.len()
        invariant
            i <= pairs@.len(),
            pairs@.len() <= most@,
            w == weight_bound(*cfg),
            0 <= w,
            w * most@ <= i32::MAX,
            r == score_of(pairs@, *cfg, i as int),
            -(w * i) <= r <= w * i,
        decreases pairs@.len() - i,
    {
        let s: i64 = score_pair(&pairs[i], cfg);
        proof {
            score_bound(pairs@[i as int], *cfg);
            assert(w * (i + 1) == w * i + w) by (nonlinear_arith);
            assert(w * (i + 1) <= w * most@) by (nonlinear_arith)
                requires
                    i + 1 <= most@,
                    0 <= w,
            ;
        }
        r = r + s;
        i += 1;
    }
    proof {
        assert(w * i <= w * most@) by (nonlinear_arith)
            requires
                i <= most@,
                0 <= w,
        ;
    }
    r as i32
}

/// Whether a plan on at most `pins` pins counts within what a score holds.
pub fn weights_fit(cfg: &PlanConfig, pins: usize) -> (r: bool)
    ensures
        r == (weight_bound(*cfg) * pins <= i32::MAX),
{
    let w: u128 = size_of_weight(cfg.w_zero_cross) + size_of_weight(cfg.w_pga_pair) + 2
        * size_of_weight(cfg.w_pga_single) + 2 * size_of_weight(cfg.w_trigger) + size_of_weight(
        cfg.w_cross_adc,
    );
    assert(w * pins <= 0x400000000 * 0xffffffffffffffff) by (nonlinear_arith)
        requires
            w <= 0x400000000,
            pins <= 0xffffffffffffffff,
    ;
    w * (pins as u128) <= 0x7fffffff
}

fn size_of_weight(w: i32) -> (r: u128)
    ensures
        r == size(w),
        r <= 0x80000000,
{
    if w < 0 {
        (-(w as i64)) as u128
    } else {
        w as u128
    }
}

/// What the planner returns for these pins.
pub open spec fn is_plan(
    r: FrontEndPlan,
    caps: Seq<CapView>,
    out: OutView,
    opts: Seq<ZeroCrossOption>,
    channels: int,
    cfg: PlanConfig,
) -> bool {
    let sorted = in_pin_order(caps);
    let s = solve(sorted, out, opts, channels, cfg.zero_cross_target as int);
    let placed = s.d.chosen.len() as int;
    let missing = if channels > placed {
        channels - placed
    } else {
        0
    };
    &&& r.pairs@ == pair_plans(sorted, s)
    &&& r.ceiling == ceiling_of(sorted, opts, channels)
    &&& r.unplaced_channels == missing
    &&& r.score == score_of(r.pairs@, cfg, r.pairs@.len() as int)
    &&& views(r.notes@) == notes_of(
        r.ceiling,
        channels,
        cfg.zero_cross_target as int,
        placed,
        missing,
    )
}

/// Plan `channels` channels on pins with these capabilities.
pub fn plan_from(
    caps: &[PinCap],
    out: &OpampOutAdc,
    opts: &[ZeroCrossOption],
    channels: usize,
    cfg: PlanConfig,
) -> (r: FrontEndPlan)
    requires
        weight_bound(cfg) * caps@.len() <= i32::MAX,
    ensures
        is_plan(r, cap_views(caps@), out@, opts@, channels as int, cfg),
        trigger_count(r.pairs@, r.pairs@.len() as int) <= r.ceiling.max_triggers,
        forall|i: int| 0 <= i < r.pairs@.len() ==> gain_is_read(#[trigger] r.pairs@[i]),
{
    let sorted: Vec<PinCap> = sort_caps(caps);
    let ghost cs = cap_views(sorted@);
    let n: usize = sorted.len();
    let ops: Vec<&'static str> = collect_parts(&sorted, true);
    let comps: Vec<&'static str> = collect_parts(&sorted, false);
    let fit: Vec<ZeroCrossOption> = keep_usable(opts, &sorted);
    let half: usize = channels / 2;
    let most: usize = max_zero_cross(&fit, half);
    let ceiling: Ceiling = Ceiling {
        requested_channels: channels,
        adc_pins: n,
        comps: comps.len(),
        opamps: ops.len(),
        max_pga_pairs: if ops.len() / 2 < half {
            ops.len() / 2
        } else {
            half
        },
        max_triggers: if comps.len() < channels {
            comps.len()
        } else {
            channels
        },
        max_zero_cross_pairs: most,
    };
    let (d, amp_at, comp_at) = run_solve(&sorted, out, opts, channels, cfg.zero_cross_target);
    let ghost s = Solved { d: d@, amps: amp_at@, comps: comp_at@ };
    let placed: usize = d.chosen.len();
    let idx: Vec<(usize, usize)> = list_pairs(&sorted, &d);
    proof {
        pairs_are_apart(cs, out@, opts@, channels as int, s);
        assert forall|k: int| 0 <= k < idx@.len() implies (#[trigger] idx@[k]).0 < n && idx@[k].1 < n
            && d@.reads[idx@[k].0 as int] is Some && d@.reads[idx@[k].1 as int] is Some by {
            assert(crate::frontend_laws::both_read(d@.reads, idx@[k]));
        }
    }
    let pairs: Vec<PairPlan> = make_pairs(&sorted, &d, &comp_at, &idx, Ghost(amp_at@));
    proof {
        counts_are_bounded(cs, out@, opts@, channels as int, s);
    }
    proof {
        assert forall|i: int| 0 <= i < pairs@.len() implies gain_is_read(#[trigger] pairs@[i]) by {
            assert(pairs@ == pair_plans(cs, s));
        }
    }
    let score: i32 = score_pairs(&pairs, &cfg, Ghost(caps@.len() as int));
    let missing: usize = if channels > placed {
        channels - placed
    } else {
        0
    };
    let notes: Vec<String> = write_notes(
        &ceiling,
        channels,
        cfg.zero_cross_target,
        placed,
        missing,
    );
    FrontEndPlan { pairs, ceiling, unplaced_channels: missing, score, notes }
}

/// The channels that are planned for: whole pairs, and at least one.
pub open spec fn even_channels(c: int) -> int {
    if c < 2 {
        2
    } else {
        (c + 1) / 2 * 2
    }
}

/// Plan a chip's front end on its pins, or on those that a package bonds.
pub fn plan(raw: &RawMcuData, bonded: Option<&PinSet>, cfg: PlanConfig) -> (r: FrontEndPlan)
    requires
        cfg.channels < usize::MAX,
        weight_bound(cfg) * rows_of(*raw).len() <= i32::MAX,
    ensures
        exists|caps: Seq<CapView>, opts: Seq<ZeroCrossOption>|
            are_caps_of(caps, *raw, bonded_view(bonded)) && are_options_of(
                opts,
                *raw,
                bonded_view(bonded),
            ) && #[trigger] is_plan(
                r,
                caps,
                out_adc_of(*raw),
                opts,
                even_channels(cfg.channels as int),
                cfg,
            ),
        trigger_count(r.pairs@, r.pairs@.len() as int) <= r.ceiling.max_triggers,
        forall|i: int| 0 <= i < r.pairs@.len() ==> gain_is_read(#[trigger] r.pairs@[i]),
{
    let caps: Vec<PinCap> = frontend_plan::capabilities(raw, bonded);
    let out: OpampOutAdc = frontend_plan::opamp_out_adc(raw);
    let opts: Vec<ZeroCrossOption> = frontend_plan::zero_cross_options(raw, bonded);
    let channels: usize = if cfg.channels < 2 {
        2
    } else {
        cfg.channels + cfg.channels % 2
    };
    proof {
        caps_are_few(cap_views(caps@), *raw, bonded_view(bonded));
        let w = weight_bound(cfg);
        let a = caps@.len() as int;
        let b = rows_of(*raw).len() as int;
        assert(w * a <= w * b) by (nonlinear_arith)
            requires
                0 <= w,
                a <= b,
        ;
    }
    let r: FrontEndPlan = plan_from(&caps, &out, &opts, channels, cfg);
    proof {
        assert(is_plan(
            r,
            cap_views(caps@),
            out_adc_of(*raw),
            opts@,
            even_channels(cfg.channels as int),
            cfg,
        ));
    }
    r
}

} // verus!
