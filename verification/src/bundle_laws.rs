//! What the generated code has for each class of instance: the singletons that it binds, the
//! bundles that it declares, and the values that it asks for.

use vstd::prelude::*;

use crate::class_laws::class_is_before_the_number;
use crate::class_laws::is_of_class;
use crate::codegen::behavior_text;
use crate::codegen::bundles_of;
use crate::codegen::comes_first;
use crate::codegen::dma_upto;
use crate::codegen::fabric_bundle;
use crate::codegen::fabric_instances;
use crate::codegen::fabric_upto;
use crate::codegen::first_at;
use crate::codegen::hole_defaults;
use crate::codegen::hole_fields;
use crate::codegen::holes_of;
use crate::codegen::holes_upto;
use crate::codegen::ident_char;
use crate::codegen::ident_of;
use crate::codegen::is_bound;
use crate::codegen::keeps;
use crate::codegen::leader;
use crate::codegen::placed_bundle;
use crate::codegen::placed_instances;
use crate::codegen::with_node;
use crate::codegen::BundleView;
use crate::codegen::HoleView;
use crate::codegen_laws::first_is_first;
use crate::codegen_laws::has_field;
use crate::codegen_laws::instances_are_right;
use crate::codegen_laws::nothing_kept_is_lost;
use crate::mcu_pinout::pin_name;
use crate::pin_plan::DmaView;
use crate::pin_plan::EdgeView;
use crate::pin_plan::NodeView;
use crate::pin_plan::PlacementView;
use crate::pin_plan::PlanView;
use crate::text::decimal;

verus! {

/// Whether a text is all digits.
pub open spec fn is_number(s: Seq<char>) -> bool {
    forall|i: int| 0 <= i < s.len() ==> '0' <= #[trigger] s[i] <= '9'
}

/// Whether the driver of a class takes its singleton by value.
pub open spec fn is_driven(c: Seq<char>) -> bool {
    ||| c == "USART"@
    ||| c == "UART"@
    ||| c == "LPUART"@
    ||| c == "SPI"@
    ||| c == "I2C"@
    ||| c == "TIM"@
    ||| c == "ADC"@
    ||| c == "DAC"@
    ||| c == "FDCAN"@
    ||| c == "HRTIM"@
}

/// Whether a text ends in a digit.
pub open spec fn ends_in_digit(s: Seq<char>) -> bool {
    s.len() > 0 && 48 <= s.last() as u32 <= 57
}

proof fn driven_end_in_letters(c: Seq<char>)
    requires
        is_driven(c),
    ensures
        !ends_in_digit(c),
{
    reveal_strlit("USART");
    reveal_strlit("UART");
    reveal_strlit("LPUART");
    reveal_strlit("SPI");
    reveal_strlit("I2C");
    reveal_strlit("TIM");
    reveal_strlit("ADC");
    reveal_strlit("DAC");
    reveal_strlit("FDCAN");
    reveal_strlit("HRTIM");
}

proof fn numbered_is_of_class(class: Seq<char>, number: Seq<char>)
    requires
        is_number(number),
        !ends_in_digit(class),
    ensures
        is_of_class(class + number, class),
{
    let name = class + number;
    assert(name.take(class.len() as int) =~= class);
    assert forall|i: int| class.len() <= i < name.len() implies 48 <= (
    #[trigger] name[i]) as u32 <= 57 by {
        assert(name[i] == number[i - class.len()]);
    }
}

/// The bundle of an instance binds its singleton where the class has a driver, whatever the
/// number of the instance.
pub proof fn driven_instances_are_bound(p: PlanView, class: Seq<char>, number: Seq<char>, k: int)
    requires
        is_driven(class),
        is_number(number),
        0 <= k < bundles_of(p).len(),
        bundles_of(p)[k].instance == class + number,
    ensures
        bundles_of(p)[k].bound,
{
    driven_end_in_letters(class);
    numbered_is_of_class(class, number);
    class_is_before_the_number(class + number, class);
    let placed = placed_instances(p);
    if k < placed.len() {
        assert(bundles_of(p)[k] == placed_bundle(p, placed[k]));
        assert(is_bound(placed[k]));
    } else {
        assert(bundles_of(p)[k] == fabric_bundle(p, fabric_instances(p)[k - placed.len()]));
    }
}

/// The bundle of an instance with pins binds no singleton where the class has no driver.
pub proof fn other_instances_are_not_bound(p: PlanView, class: Seq<char>, number: Seq<char>, k: int)
    requires
        !is_driven(class),
        !ends_in_digit(class),
        is_number(number),
        0 <= k < bundles_of(p).len(),
        bundles_of(p)[k].instance == class + number,
        !bundles_of(p)[k].pinless,
    ensures
        !bundles_of(p)[k].bound,
{
    numbered_is_of_class(class, number);
    class_is_before_the_number(class + number, class);
    let placed = placed_instances(p);
    if k < placed.len() {
        assert(bundles_of(p)[k] == placed_bundle(p, placed[k]));
    } else {
        assert(bundles_of(p)[k] == fabric_bundle(p, fabric_instances(p)[k - placed.len()]));
    }
}

/// Whether a bundle is that of an instance, without pins and bound.
pub open spec fn is_inner_bundle(b: BundleView, instance: Seq<char>) -> bool {
    b.instance == instance && b.pinless && b.bound
}

/// Whether an end of a route is a comparator, a DAC, an ADC or a timer.
pub open spec fn is_own_singleton(n: NodeView) -> bool {
    n.class == "COMP"@ || n.class == "DAC"@ || n.class == "ADC"@ || n.class == "TIM"@
}

proof fn ends_are_taken_up(
    placed: Seq<Seq<char>>,
    es: Seq<EdgeView>,
    n: int,
    i: int,
    node: NodeView,
)
    requires
        0 <= i < n <= es.len(),
        node == es[i].from || node == es[i].to,
        is_own_singleton(node),
    ensures
        placed.contains(node.class + decimal(node.instance as int)) || fabric_upto(
            placed,
            es,
            n,
        ).contains(node.class + decimal(node.instance as int)),
    decreases n,
{
    let s = node.class + decimal(node.instance as int);
    let had = fabric_upto(placed, es, n - 1);
    let mid = with_node(placed, had, es[n - 1].from);
    let all = fabric_upto(placed, es, n);
    if i < n - 1 {
        ends_are_taken_up(placed, es, n - 1, i, node);
        if !placed.contains(s) {
            let x = choose|x: int| 0 <= x < had.len() && had[x] == s;
            assert(mid[x] == s);
            assert(all[x] == s);
        }
    } else if !placed.contains(s) {
        if node == es[i].from {
            if !had.contains(s) {
                assert(mid.last() == s);
                assert(mid[mid.len() - 1] == s);
            } else {
                let x = choose|x: int| 0 <= x < had.len() && had[x] == s;
                assert(mid[x] == s);
            }
            let x = choose|x: int| 0 <= x < mid.len() && mid[x] == s;
            assert(all[x] == s);
        } else if !mid.contains(s) {
            assert(all.last() == s);
            assert(all[all.len() - 1] == s);
        } else {
            let x = choose|x: int| 0 <= x < mid.len() && mid[x] == s;
            assert(all[x] == s);
        }
    }
}

/// Each comparator, DAC, ADC or timer at the end of a route has a bundle; where no signal of
/// it is placed, one without pins that binds it.
pub proof fn route_ends_have_bundles(p: PlanView, i: int, node: NodeView)
    requires
        0 <= i < p.routes.len(),
        node == p.routes[i].from || node == p.routes[i].to,
        is_own_singleton(node),
    ensures
        exists|k: int|
            0 <= k < bundles_of(p).len() && (#[trigger] bundles_of(p)[k]).instance == node.class
                + decimal(node.instance as int),
        (forall|j: int|
            0 <= j < p.placements.len() ==> (#[trigger] p.placements[j]).signal.0 != node.class
                + decimal(node.instance as int)) ==> exists|k: int|
            0 <= k < bundles_of(p).len() && is_inner_bundle(
                #[trigger] bundles_of(p)[k],
                node.class + decimal(node.instance as int),
            ),
{
    let s = node.class + decimal(node.instance as int);
    let placed = placed_instances(p);
    let inner = fabric_instances(p);
    let n = p.placements.len() as int;
    ends_are_taken_up(placed, p.routes, p.routes.len() as int, i, node);
    instances_are_right(p.placements, n);
    if placed.contains(s) {
        let x = choose|x: int| 0 <= x < placed.len() && placed[x] == s;
        assert(bundles_of(p)[x] == placed_bundle(p, s));
        let j = choose|j: int| 0 <= j < n && (#[trigger] p.placements[j]).signal.0 == placed[x];
        assert(p.placements[j].signal.0 == s);
    } else {
        let x = choose|x: int| 0 <= x < inner.len() && inner[x] == s;
        assert(bundles_of(p)[placed.len() + x] == fabric_bundle(p, s));
        assert(is_inner_bundle(bundles_of(p)[placed.len() + x], s));
    }
}

/// Whether two placements claim one thing: a signal, or a pin by its name.
pub open spec fn claim_the_same(a: PlacementView, b: PlacementView) -> bool {
    a.signal == b.signal || (a.pin is Some && b.pin is Some && pin_name(a.pin->0) == pin_name(
        b.pin->0,
    ))
}

/// Every placement is a field of the bundle of its instance, unless another one claims the
/// same.
pub proof fn only_duplicates_are_dropped(p: PlanView, i: int)
    requires
        0 <= i < p.placements.len(),
        forall|j: int|
            0 <= j < p.placements.len() && j != i ==> !claim_the_same(
                #[trigger] p.placements[j],
                p.placements[i],
            ),
    ensures
        exists|a: int|
            0 <= a < bundles_of(p).len() && has_field(
                #[trigger] bundles_of(p)[a],
                p.placements[i].signal.0,
                (p.placements[i].signal.1, p.placements[i].pin),
            ),
{
    let ps = p.placements;
    assert(keeps(ps, i)) by {
        assert forall|j: int| 0 <= j < ps.len() && comes_first(ps, j, i) implies (
        #[trigger] ps[j]).signal != ps[i].signal && !crate::codegen::same_pin(ps[j], ps[i]) by {
            assert(j != i);
            assert(!claim_the_same(ps[j], ps[i]));
        }
    }
    nothing_kept_is_lost(p, i);
}

proof fn assignments_are_fields(ds: Seq<DmaView>, instance: Seq<char>, n: int, i: int)
    requires
        0 <= i < n <= ds.len(),
        ds[i].peripheral == instance,
    ensures
        dma_upto(ds, instance, n).contains((ident_of(ds[i].function) + "_dma"@, ds[i].channel)),
    decreases n,
{
    let f = (ident_of(ds[i].function) + "_dma"@, ds[i].channel);
    let all = dma_upto(ds, instance, n);
    if i < n - 1 {
        assignments_are_fields(ds, instance, n - 1, i);
        let had = dma_upto(ds, instance, n - 1);
        let x = choose|x: int| 0 <= x < had.len() && had[x] == f;
        assert(all[x] == f);
    } else {
        assert(all.last() == f);
    }
}

/// Each DMA assignment of an instance is a field of its bundle, named after the function.
pub proof fn assignments_are_in_the_bundle(p: PlanView, i: int, k: int)
    requires
        0 <= i < p.dma_assignments.len(),
        0 <= k < bundles_of(p).len(),
        bundles_of(p)[k].instance == p.dma_assignments[i].peripheral,
    ensures
        bundles_of(p)[k].dma.contains(
            (ident_of(p.dma_assignments[i].function) + "_dma"@, p.dma_assignments[i].channel),
        ),
{
    let placed = placed_instances(p);
    let s = bundles_of(p)[k].instance;
    if k < placed.len() {
        assert(bundles_of(p)[k] == placed_bundle(p, placed[k]));
    } else {
        assert(bundles_of(p)[k] == fabric_bundle(p, fabric_instances(p)[k - placed.len()]));
    }
    assignments_are_fields(p.dma_assignments, s, p.dma_assignments.len() as int, i);
}

/// An identifier is as long as the name, its letters are small, its digits stay, and
/// everything else becomes `_`.
pub proof fn identifiers_are_plain(s: Seq<char>, i: int)
    requires
        0 <= i < s.len(),
    ensures
        ident_of(s).len() == s.len(),
        'a' <= s[i] <= 'z' || '0' <= s[i] <= '9' ==> ident_of(s)[i] == s[i],
        'A' <= s[i] <= 'Z' ==> ident_of(s)[i] as u32 == s[i] as u32 + 32,
        !('a' <= s[i] <= 'z') && !('A' <= s[i] <= 'Z') && !('0' <= s[i] <= '9') ==> ident_of(s)[i]
            == '_',
{
}

/// A value that the generated configuration asks for: the class in small letters, what
/// follows the number, the type, and the default.
pub ghost struct Ask {
    pub lower: Seq<char>,
    pub suffix: Seq<char>,
    pub ty: Seq<char>,
    pub default: Seq<char>,
}

/// What the configuration asks for an instance of a bus.
pub open spec fn bus_ask(class: Seq<char>) -> Option<Ask> {
    if class == "USART"@ {
        Some(Ask { lower: "usart"@, suffix: "_baud"@, ty: "u32"@, default: "115_200"@ })
    } else if class == "UART"@ {
        Some(Ask { lower: "uart"@, suffix: "_baud"@, ty: "u32"@, default: "115_200"@ })
    } else if class == "LPUART"@ {
        Some(Ask { lower: "lpuart"@, suffix: "_baud"@, ty: "u32"@, default: "115_200"@ })
    } else if class == "SPI"@ {
        Some(Ask { lower: "spi"@, suffix: "_freq_hz"@, ty: "u32"@, default: "1_000_000"@ })
    } else if class == "I2C"@ {
        Some(Ask { lower: "i2c"@, suffix: "_freq_hz"@, ty: "u32"@, default: "100_000"@ })
    } else if class == "FDCAN"@ {
        Some(Ask { lower: "fdcan"@, suffix: "_bitrate"@, ty: "u32"@, default: "500_000"@ })
    } else {
        None
    }
}

/// Whether a hole is the one that is asked for.
pub open spec fn is_asked(h: HoleView, number: Seq<char>, a: Ask) -> bool {
    &&& h.name == a.lower + number + a.suffix
    &&& h.ty == a.ty
    &&& h.default == a.default
}

/// Whether a text holds another.
pub open spec fn is_within(part: Seq<char>, whole: Seq<char>) -> bool {
    exists|i: int| #[trigger] is_at(part, whole, i)
}

/// Whether a text holds another at a position.
pub open spec fn is_at(part: Seq<char>, whole: Seq<char>, i: int) -> bool {
    0 <= i <= whole.len() - part.len() && whole.subrange(i, i + part.len()) == part
}

proof fn digits_stay(number: Seq<char>)
    requires
        is_number(number),
    ensures
        ident_of(number) == number,
{
    assert(ident_of(number) =~= number) by {
        assert forall|i: int| 0 <= i < number.len() implies ident_char(#[trigger] number[i])
            == number[i] by {
            let c = number[i];
            assert('0' <= c && c <= '9');
            assert(48 <= c as u32 <= 57);
        }
    }
}

proof fn small_names(class: Seq<char>, number: Seq<char>)
    requires
        is_number(number),
    ensures
        class == "USART"@ ==> ident_of(class + number) == "usart"@ + number,
        class == "UART"@ ==> ident_of(class + number) == "uart"@ + number,
        class == "LPUART"@ ==> ident_of(class + number) == "lpuart"@ + number,
        class == "SPI"@ ==> ident_of(class + number) == "spi"@ + number,
        class == "I2C"@ ==> ident_of(class + number) == "i2c"@ + number,
        class == "FDCAN"@ ==> ident_of(class + number) == "fdcan"@ + number,
        class == "TIM"@ ==> ident_of(class + number) == "tim"@ + number,
        class == "HRTIM"@ ==> ident_of(class + number) == "hrtim"@ + number,
{
    digits_stay(number);
    assert(ident_of(class + number) =~= ident_of(class) + ident_of(number));
    reveal_strlit("USART");
    reveal_strlit("UART");
    reveal_strlit("LPUART");
    reveal_strlit("SPI");
    reveal_strlit("I2C");
    reveal_strlit("TIM");
    reveal_strlit("ADC");
    reveal_strlit("DAC");
    reveal_strlit("FDCAN");
    reveal_strlit("HRTIM");
    reveal_strlit("usart");
    reveal_strlit("uart");
    reveal_strlit("lpuart");
    reveal_strlit("spi");
    reveal_strlit("i2c");
    reveal_strlit("fdcan");
    reveal_strlit("tim");
    reveal_strlit("hrtim");
    assert(ident_of("USART"@) =~= "usart"@);
    assert(ident_of("UART"@) =~= "uart"@);
    assert(ident_of("LPUART"@) =~= "lpuart"@);
    assert(ident_of("SPI"@) =~= "spi"@);
    assert(ident_of("I2C"@) =~= "i2c"@);
    assert(ident_of("FDCAN"@) =~= "fdcan"@);
    assert(ident_of("TIM"@) =~= "tim"@);
    assert(ident_of("HRTIM"@) =~= "hrtim"@);
}

proof fn leaders_give_holes(ps: Seq<PlacementView>, n: int, l: int, h: HoleView)
    requires
        0 <= l < n <= ps.len(),
        leader(ps, l) == l,
        is_bound(ps[l].signal.0),
        holes_of(ps, ps[l].signal.0).contains(h),
    ensures
        holes_upto(ps, n).contains(h),
    decreases n,
{
    let all = holes_upto(ps, n);
    if l < n - 1 {
        leaders_give_holes(ps, n - 1, l, h);
        let had = holes_upto(ps, n - 1);
        let x = choose|x: int| 0 <= x < had.len() && had[x] == h;
        assert(all[x] == h);
    } else {
        let had = holes_upto(ps, n - 1);
        let more = holes_of(ps, ps[l].signal.0);
        let x = choose|x: int| 0 <= x < more.len() && more[x] == h;
        assert(all[had.len() + x] == h);
    }
}

proof fn placed_give_holes(ps: Seq<PlacementView>, i: int, h: HoleView)
    requires
        0 <= i < ps.len(),
        is_bound(ps[i].signal.0),
        holes_of(ps, ps[i].signal.0).contains(h),
    ensures
        holes_upto(ps, ps.len() as int).contains(h),
{
    let s = ps[i].signal.0;
    first_is_first(ps, s, 0, i);
    let l = first_at(ps, s, 0);
    first_is_first(ps, s, 0, l);
    assert(leader(ps, l) == l);
    leaders_give_holes(ps, ps.len() as int, l, h);
}

proof fn within_more(part: Seq<char>, whole: Seq<char>, pre: Seq<char>, post: Seq<char>)
    requires
        is_within(part, whole),
    ensures
        is_within(part, pre + whole + post),
{
    let i = choose|i: int| #[trigger] is_at(part, whole, i);
    let all = pre + whole + post;
    assert(all.subrange(pre.len() + i, pre.len() + i + part.len()) =~= whole.subrange(
        i,
        i + part.len(),
    ));
    assert(is_at(part, all, pre.len() + i));
}

proof fn within_parts(pre: Seq<char>, part: Seq<char>, post: Seq<char>)
    ensures
        is_within(part, pre + part + post),
{
    let all = pre + part + post;
    assert(all.subrange(pre.len() as int, (pre.len() + part.len()) as int) =~= part);
    assert(is_at(part, all, pre.len() as int));
}

proof fn joined(d: Seq<char>, p: Seq<char>, q: Seq<char>, r: Seq<char>, s: Seq<char>, t: Seq<char>)
    ensures
        d + p + q + r + s + t == d + (p + q + r + s + t),
{
    assert(d + p + q =~= d + (p + q));
    assert(d + (p + q) + r =~= d + (p + q + r));
    assert(d + (p + q + r) + s =~= d + (p + q + r + s));
    assert(d + (p + q + r + s) + t =~= d + (p + q + r + s + t));
}

proof fn appended(whole: Seq<char>, part: Seq<char>, more: Seq<char>)
    ensures
        is_within(part, whole) ==> is_within(part, whole + more),
        is_within(part, whole + (more + part)),
{
    let none = Seq::<char>::empty();
    if is_within(part, whole) {
        within_more(part, whole, none, more);
        assert(none + whole + more =~= whole + more);
    }
    within_parts(whole + more, part, none);
    assert(whole + more + part + none =~= whole + (more + part));
}

proof fn holes_are_written(v: Seq<HoleView>, n: int, x: int)
    requires
        0 <= x < n <= v.len(),
    ensures
        is_within("\n    pub "@ + v[x].name + ": "@ + v[x].ty + ",\n"@, hole_fields(v, n)),
        is_within("            "@ + v[x].name + ": "@ + v[x].default + ",\n"@, hole_defaults(v, n)),
    decreases n,
{
    let field = "\n    pub "@ + v[x].name + ": "@ + v[x].ty + ",\n"@;
    let value = "            "@ + v[x].name + ": "@ + v[x].default + ",\n"@;
    let none = Seq::<char>::empty();
    let a = hole_fields(v, n - 1);
    let b = hole_defaults(v, n - 1);
    if x < n - 1 {
        holes_are_written(v, n - 1, x);
        appended(
            a,
            field,
            "    /// "@ + v[n - 1].doc + "\n    pub "@ + v[n - 1].name + ": "@ + v[n - 1].ty + ",\n"@,
        );
        appended(b, value, "            "@ + v[n - 1].name + ": "@ + v[n - 1].default + ",\n"@);
    } else {
        let d = "    /// "@ + v[x].doc;
        joined(d, "\n    pub "@, v[x].name, ": "@, v[x].ty, ",\n"@);
        appended(a, field, d);
        appended(b, value, none);
        assert(none + value =~= value);
    }
}

proof fn a_hole_is_in_the_text(p: PlanView, h: HoleView)
    requires
        holes_upto(p.placements, p.placements.len() as int).contains(h),
    ensures
        is_within("\n    pub "@ + h.name + ": "@ + h.ty + ",\n"@, behavior_text(p)),
        is_within("            "@ + h.name + ": "@ + h.default + ",\n"@, behavior_text(p)),
{
    let v = holes_upto(p.placements, p.placements.len() as int);
    let n = v.len() as int;
    let x = choose|x: int| 0 <= x < v.len() && v[x] == h;
    holes_are_written(v, n, x);
    let field = "\n    pub "@ + h.name + ": "@ + h.ty + ",\n"@;
    let value = "            "@ + h.name + ": "@ + h.default + ",\n"@;
    let f = hole_fields(v, n);
    let d = hole_defaults(v, n);
    let all = behavior_text(p);
    let top = "\n/// Behavioral configuration you must supply — one field per value the pin\n/// plan cannot know (it carries no behavioral values by design). Adjust the\n/// defaults to your converter. Adding a routed peripheral adds a field here,\n/// so the design and its config can't silently drift.\n#[derive(Clone, Copy, Debug)]\npub struct Behavior {\n"@;
    let middle = "}\n\nimpl Default for Behavior {\n    fn default() -> Self {\n        Self {\n"@;
    let end = "        }\n    }\n}\n"@;
    assert(all =~= top + f + (middle + d + end));
    assert(all =~= (top + f + middle) + d + end);
    within_more(field, f, top, middle + d + end);
    within_more(value, d, top + f + middle, end);
}

/// A plan that places a signal of a serial port, an SPI, an I2C or an FDCAN asks for the
/// instance's rate: the configuration has a field that is named after it, with the usual
/// rate as its default.
pub proof fn placed_buses_ask_for_their_rate(p: PlanView, i: int, class: Seq<char>, number: Seq<char>)
    requires
        0 <= i < p.placements.len(),
        p.placements[i].signal.0 == class + number,
        is_number(number),
        bus_ask(class) is Some,
    ensures
        exists|x: int|
            0 <= x < holes_upto(p.placements, p.placements.len() as int).len() && is_asked(
                #[trigger] holes_upto(p.placements, p.placements.len() as int)[x],
                number,
                bus_ask(class)->0,
            ),
        ({
            let a = bus_ask(class)->0;
            &&& is_within(
                "\n    pub "@ + (a.lower + number + a.suffix) + ": "@ + a.ty + ",\n"@,
                behavior_text(p),
            )
            &&& is_within(
                "            "@ + (a.lower + number + a.suffix) + ": "@ + a.default + ",\n"@,
                behavior_text(p),
            )
        }),
{
    let ps = p.placements;
    let s = class + number;
    let a = bus_ask(class)->0;
    driven_end_in_letters(class);
    numbered_is_of_class(class, number);
    class_is_before_the_number(s, class);
    small_names(class, number);
    let made = holes_of(ps, s);
    apart_classes();
    assert(made.len() == 1);
    let h = made[0];
    assert(made.contains(h));
    placed_give_holes(ps, i, h);
    let v = holes_upto(ps, ps.len() as int);
    let x = choose|x: int| 0 <= x < v.len() && v[x] == h;
    assert(is_asked(v[x], number, a));
    a_hole_is_in_the_text(p, h);
}

proof fn apart_classes()
    ensures
        "SPI"@ != "USART"@ && "SPI"@ != "UART"@ && "SPI"@ != "LPUART"@,
        "I2C"@ != "USART"@ && "I2C"@ != "UART"@ && "I2C"@ != "LPUART"@ && "I2C"@ != "SPI"@,
        "FDCAN"@ != "USART"@ && "FDCAN"@ != "UART"@ && "FDCAN"@ != "LPUART"@,
        "FDCAN"@ != "SPI"@ && "FDCAN"@ != "I2C"@,
        "TIM"@ != "USART"@ && "TIM"@ != "UART"@ && "TIM"@ != "LPUART"@ && "TIM"@ != "SPI"@,
        "TIM"@ != "I2C"@ && "TIM"@ != "FDCAN"@,
        "HRTIM"@ != "USART"@ && "HRTIM"@ != "UART"@ && "HRTIM"@ != "LPUART"@ && "HRTIM"@ != "SPI"@,
        "HRTIM"@ != "I2C"@ && "HRTIM"@ != "FDCAN"@,
{
    reveal_strlit("USART");
    reveal_strlit("UART");
    reveal_strlit("LPUART");
    reveal_strlit("SPI");
    reveal_strlit("I2C");
    reveal_strlit("TIM");
    reveal_strlit("ADC");
    reveal_strlit("DAC");
    reveal_strlit("FDCAN");
    reveal_strlit("HRTIM");
    assert("I2C"@[0] == 'I' && "SPI"@[0] == 'S' && "TIM"@[0] == 'T');
    assert("FDCAN"@[0] == 'F' && "USART"@[0] == 'U' && "HRTIM"@[0] == 'H');
    assert("UART"@[0] == 'U' && "LPUART"@[0] == 'L');
}

/// A plan that places a PWM output of a timer asks for its switching frequency, and for its
/// dead time where the output has one.
pub proof fn placed_outputs_ask_for_their_timing(
    p: PlanView,
    i: int,
    class: Seq<char>,
    number: Seq<char>,
)
    requires
        0 <= i < p.placements.len(),
        p.placements[i].signal.0 == class + number,
        p.placements[i].role_kind is PwmOut,
        is_number(number),
        class == "TIM"@ || class == "HRTIM"@,
    ensures
        ({
            let name = (if class == "TIM"@ {
                "tim"@
            } else {
                "hrtim"@
            }) + number;
            let v = holes_upto(p.placements, p.placements.len() as int);
            &&& v.contains(
                HoleView {
                    name: name + "_freq_hz"@,
                    ty: "u32"@,
                    default: "100_000"@,
                    doc: "PWM switching frequency (Hz)"@,
                },
            )
            &&& p.placements[i].role_kind->PwmOut_dead_time ==> v.contains(
                HoleView {
                    name: name + "_dead_time_ns"@,
                    ty: "u16"@,
                    default: "0"@,
                    doc: "complementary dead-time (ns)"@,
                },
            )
        }),
{
    let ps = p.placements;
    let s = class + number;
    driven_end_in_letters(class);
    numbered_is_of_class(class, number);
    class_is_before_the_number(s, class);
    small_names(class, number);
    apart_classes();
    let made = holes_of(ps, s);
    assert(crate::codegen::drives_pwm(ps, s));
    assert(made.contains(made[0]));
    placed_give_holes(ps, i, made[0]);
    if ps[i].role_kind->PwmOut_dead_time {
        assert(crate::codegen::drives_dead_time(ps, s));
        assert(made.contains(made[1]));
        placed_give_holes(ps, i, made[1]);
    }
}

} // verus!
