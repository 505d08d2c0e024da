//! Firmware scaffolding from a pin plan: one bundle of typed singletons per peripheral,
//! the board that holds them, and the configuration that the plan cannot know. No driver
//! is initialised: that is left to whoever uses the bundles.

use vstd::prelude::*;

use crate::mcu_pinout::pin_name;
use crate::mcu_pinout::PinId;
use crate::pin_plan::dma_views;
use crate::pin_plan::edge_views;
use crate::pin_plan::placement_views;
use crate::pin_plan::DmaAssignment;
use crate::pin_plan::DmaView;
use crate::pin_plan::EdgeView;
use crate::pin_plan::FabricNode;
use crate::pin_plan::NodeView;
use crate::pin_plan::PinPlan;
use crate::pin_plan::Placement;
use crate::pin_plan::PlacementView;
use crate::pin_plan::PlanView;
use crate::pin_plan::RoleKind;
use crate::pin_plan::RouteEdge;
use crate::select;
use crate::select::class_name;
use crate::text;
use crate::text::decimal;
use crate::text::joined;
use crate::text::lower_char;
use crate::text::views;
use crate::texts::copy_text;

verus! {

/// Whether a class's singleton becomes a field of its bundle.
pub open spec fn is_bound_class(c: Seq<char>) -> bool {
    c == "USART"@ || c == "UART"@ || c == "LPUART"@ || c == "SPI"@ || c == "I2C"@ || c == "TIM"@
        || c == "ADC"@ || c == "DAC"@ || c == "FDCAN"@ || c == "HRTIM"@
}

/// Whether an instance's singleton becomes a field of its bundle.
pub open spec fn is_bound(instance: Seq<char>) -> bool {
    is_bound_class(class_name(instance))
}

/// The class of an instance: its name without the trailing digits.
pub fn class_of(instance: &str) -> (r: String)
    ensures
        r@ == class_name(instance@),
{
    select::class_of(instance)
}

/// Whether an instance's singleton becomes a field of its bundle.
pub fn is_tier1_instance(instance: &str) -> (r: bool)
    ensures
        r == is_bound(instance@),
{
    let class: String = class_of(instance);
    let c: &str = class.as_str();
    text::same(c, "USART") || text::same(c, "UART") || text::same(c, "LPUART") || text::same(
        c,
        "SPI",
    ) || text::same(c, "I2C") || text::same(c, "TIM") || text::same(c, "ADC") || text::same(
        c,
        "DAC",
    ) || text::same(c, "FDCAN") || text::same(c, "HRTIM")
}

/// The singleton that one end of a route is, if it is one of its own.
pub open spec fn singleton_of(n: NodeView) -> Option<Seq<char>> {
    if n.class == "COMP"@ || n.class == "DAC"@ || n.class == "ADC"@ || n.class == "TIM"@ {
        Some(n.class + decimal(n.instance as int))
    } else {
        None
    }
}

/// The singleton that one end of a route is, if it is one of its own.
pub fn fabric_instance_singleton(node: &FabricNode) -> (r: Option<String>)
    ensures
        r is Some <==> singleton_of(node@) is Some,
        r matches Some(s) ==> singleton_of(node@) == Some(s@),
{
    let c: &str = node.class.as_str();
    if text::same(c, "COMP") || text::same(c, "DAC") || text::same(c, "ADC") || text::same(c, "TIM") {
        let mut s: String = copy_text(c);
        let n: String = text::number(node.instance as u64);
        s.append(n.as_str());
        Some(s)
    } else {
        None
    }
}

/// Whether a character is an ASCII letter or digit.
pub open spec fn is_alphanumeric(c: char) -> bool {
    ('0' <= c && c <= '9') || ('a' <= c && c <= 'z') || ('A' <= c && c <= 'Z')
}

/// A character of an identifier: letters in lower case, digits, and `_` for the rest.
pub open spec fn ident_char(c: char) -> char {
    if is_alphanumeric(c) {
        lower_char(c)
    } else {
        '_'
    }
}

/// A name as an identifier.
pub open spec fn ident_of(s: Seq<char>) -> Seq<char> {
    s.map_values(|c: char| ident_char(c))
}

/// A name as an identifier.
pub fn ident(name: &str) -> (r: String)
    ensures
        r@ == ident_of(name@),
{
    let chars: Vec<char> = text::chars_of(name);
    let mut out: Vec<char> = Vec::new();
    let mut i: usize = 0;
    while i < chars.len()
        invariant
            i <= chars@.len(),
            out@.len() == i,
            forall|k: int| 0 <= k < i ==> (#[trigger] out@[k]) == ident_char(chars@[k]),
        decreases chars@.len() - i,
    {
        let c: char = chars[i];
        let d: char = if 'A' <= c && c <= 'Z' {
            ((c as u8) + 32) as char
        } else if ('0' <= c && c <= '9') || ('a' <= c && c <= 'z') {
            c
        } else {
            '_'
        };
        out.push(d);
        i += 1;
    }
    let r: String = text::string_of(&out);
    proof {
        assert(r@ =~= ident_of(name@));
    }
    r
}

/// The upper case of a character in Unicode.
pub uninterp spec fn unicode_upper(c: char) -> Seq<char>;

/// The lower case of a character in Unicode.
pub uninterp spec fn unicode_lower(c: char) -> Seq<char>;

/// `char::to_uppercase`: the characters that Unicode maps the character to; of an ASCII
/// letter its capital, of a digit the digit.
#[verifier::external_body]
fn to_upper(c: char) -> (r: String)
    ensures
        r@ == unicode_upper(c),
        'a' <= c <= 'z' ==> r@ == seq![((c as u32) - 32) as char],
        'A' <= c <= 'Z' ==> r@ == seq![c],
        '0' <= c <= '9' ==> r@ == seq![c],
{
    c.to_uppercase().to_string()
}

/// `char::to_lowercase`: the characters that Unicode maps the character to; of an ASCII
/// capital its small letter, of a digit the digit.
#[verifier::external_body]
fn to_lower(c: char) -> (r: String)
    ensures
        r@ == unicode_lower(c),
        'A' <= c <= 'Z' ==> r@ == seq![((c as u32) + 32) as char],
        'a' <= c <= 'z' ==> r@ == seq![c],
        '0' <= c <= '9' ==> r@ == seq![c],
{
    c.to_lowercase().to_string()
}

/// The first `n` characters of a name, the first one capital and the others small.
pub open spec fn bundle_name_upto(s: Seq<char>, n: int) -> Seq<char>
    decreases n,
{
    if n <= 0 {
        ""@
    } else {
        bundle_name_upto(s, n - 1) + (if n == 1 {
            unicode_upper(s[0])
        } else {
            unicode_lower(s[n - 1])
        })
    }
}

/// A name as the name of a bundle.
pub open spec fn bundle_name_of(s: Seq<char>) -> Seq<char> {
    bundle_name_upto(s, s.len() as int)
}

/// A name as the name of a bundle.
pub fn bundle_name(instance: &str) -> (r: String)
    ensures
        r@ == bundle_name_of(instance@),
{
    let chars: Vec<char> = text::chars_of(instance);
    let mut out: String = "".to_owned();
    let mut i: usize = 0;
    while i < chars.len()
        invariant
            i <= chars@.len(),
            chars@ == instance@,
            out@ == bundle_name_upto(instance@, i as int),
        decreases chars@.len() - i,
    {
        let c: String = if i == 0 {
            to_upper(chars[i])
        } else {
            to_lower(chars[i])
        };
        out.append(c.as_str());
        i += 1;
    }
    out
}

/// The first placement of an instance, from `k` on; the end if there is none.
pub open spec fn first_at(ps: Seq<PlacementView>, instance: Seq<char>, k: int) -> int
    decreases ps.len() - k,
{
    if k >= ps.len() {
        ps.len() as int
    } else if ps[k].signal.0 == instance {
        k
    } else {
        first_at(ps, instance, k + 1)
    }
}

/// The first placement of the instance that placement `i` is of.
pub open spec fn leader(ps: Seq<PlacementView>, i: int) -> int {
    first_at(ps, ps[i].signal.0, 0)
}

/// The instances among the first `n` placements, in order of their first placement.
pub open spec fn instances_upto(ps: Seq<PlacementView>, n: int) -> Seq<Seq<char>>
    decreases n,
{
    if n <= 0 {
        Seq::empty()
    } else if leader(ps, n - 1) == n - 1 {
        instances_upto(ps, n - 1).push(ps[n - 1].signal.0)
    } else {
        instances_upto(ps, n - 1)
    }
}

/// Whether one placement is taken up before another: instance by instance, and in order
/// within each.
pub open spec fn comes_first(ps: Seq<PlacementView>, j: int, i: int) -> bool {
    leader(ps, j) < leader(ps, i) || (leader(ps, j) == leader(ps, i) && j < i)
}

/// Whether two placements are on one pin.
pub open spec fn same_pin(a: PlacementView, b: PlacementView) -> bool {
    a.pin is Some && b.pin is Some && pin_name(a.pin->0) == pin_name(b.pin->0)
}

/// Whether a placement is kept: no earlier one has its signal, and none that is taken up
/// before it has its pin.
pub open spec fn keeps(ps: Seq<PlacementView>, i: int) -> bool {
    forall|j: int|
        0 <= j < ps.len() && comes_first(ps, j, i) ==> (#[trigger] ps[j]).signal != ps[i].signal
            && !same_pin(ps[j], ps[i])
}

/// How many of the first `n` placements are dropped.
pub open spec fn dropped_upto(ps: Seq<PlacementView>, n: int) -> int
    decreases n,
{
    if n <= 0 {
        0
    } else if keeps(ps, n - 1) {
        dropped_upto(ps, n - 1)
    } else {
        dropped_upto(ps, n - 1) + 1
    }
}

/// A field of a bundle: a role and its pin, if it has one.
#[derive(Clone, Debug)]
pub struct BundleEntry {
    pub role: String,
    pub pin: Option<PinId>,
}

/// The resources of one instance.
#[derive(Clone, Debug)]
pub struct Bundle {
    pub instance: String,
    /// Whether the instance has no pin here and is only used inside.
    pub pinless: bool,
    /// Whether the singleton is a field.
    pub bound: bool,
    pub entries: Vec<BundleEntry>,
    /// DMA fields and their channels.
    pub dma: Vec<(String, String)>,
}

/// A bundle as a mathematical value.
pub ghost struct BundleView {
    pub instance: Seq<char>,
    pub pinless: bool,
    pub bound: bool,
    pub entries: Seq<(Seq<char>, Option<PinId>)>,
    pub dma: Seq<(Seq<char>, Seq<char>)>,
}

/// The values of fields.
pub open spec fn entry_views(v: Seq<BundleEntry>) -> Seq<(Seq<char>, Option<PinId>)> {
    v.map_values(|e: BundleEntry| (e.role@, e.pin))
}

/// The values of DMA fields.
pub open spec fn dma_field_views(v: Seq<(String, String)>) -> Seq<(Seq<char>, Seq<char>)> {
    v.map_values(|d: (String, String)| (d.0@, d.1@))
}

impl View for Bundle {
    type V = BundleView;

    open spec fn view(&self) -> BundleView {
        BundleView {
            instance: self.instance@,
            pinless: self.pinless,
            bound: self.bound,
            entries: entry_views(self.entries@),
            dma: dma_field_views(self.dma@),
        }
    }
}

/// The values of bundles.
pub open spec fn bundle_views(v: Seq<Bundle>) -> Seq<BundleView> {
    v.map_values(|b: Bundle| b@)
}

/// The fields of an instance, from the first `n` placements.
pub open spec fn entries_upto(ps: Seq<PlacementView>, instance: Seq<char>, n: int) -> Seq<
    (Seq<char>, Option<PinId>),
>
    decreases n,
{
    if n <= 0 {
        Seq::empty()
    } else if ps[n - 1].signal.0 == instance && keeps(ps, n - 1) {
        entries_upto(ps, instance, n - 1).push((ps[n - 1].signal.1, ps[n - 1].pin))
    } else {
        entries_upto(ps, instance, n - 1)
    }
}

/// The DMA fields of an instance, from the first `n` assignments.
pub open spec fn dma_upto(ds: Seq<DmaView>, instance: Seq<char>, n: int) -> Seq<
    (Seq<char>, Seq<char>),
>
    decreases n,
{
    if n <= 0 {
        Seq::empty()
    } else if ds[n - 1].peripheral == instance {
        dma_upto(ds, instance, n - 1).push(
            (ident_of(ds[n - 1].function) + "_dma"@, ds[n - 1].channel),
        )
    } else {
        dma_upto(ds, instance, n - 1)
    }
}

/// Take up one end of a route, where it is a singleton of its own that is not there yet.
pub open spec fn with_node(placed: Seq<Seq<char>>, acc: Seq<Seq<char>>, n: NodeView) -> Seq<
    Seq<char>,
> {
    match singleton_of(n) {
        Some(s) => if placed.contains(s) || acc.contains(s) {
            acc
        } else {
            acc.push(s)
        },
        None => acc,
    }
}

/// The singletons of the first `n` routes that no placement names.
pub open spec fn fabric_upto(placed: Seq<Seq<char>>, es: Seq<EdgeView>, n: int) -> Seq<Seq<char>>
    decreases n,
{
    if n <= 0 {
        Seq::empty()
    } else {
        with_node(
            placed,
            with_node(placed, fabric_upto(placed, es, n - 1), es[n - 1].from),
            es[n - 1].to,
        )
    }
}

/// The bundle of an instance with placements.
pub open spec fn placed_bundle(p: PlanView, instance: Seq<char>) -> BundleView {
    BundleView {
        instance,
        pinless: false,
        bound: is_bound(instance),
        entries: entries_upto(p.placements, instance, p.placements.len() as int),
        dma: dma_upto(p.dma_assignments, instance, p.dma_assignments.len() as int),
    }
}

/// The bundle of an instance that is only used inside.
pub open spec fn fabric_bundle(p: PlanView, instance: Seq<char>) -> BundleView {
    BundleView {
        instance,
        pinless: true,
        bound: true,
        entries: Seq::empty(),
        dma: dma_upto(p.dma_assignments, instance, p.dma_assignments.len() as int),
    }
}

/// The instances with placements.
pub open spec fn placed_instances(p: PlanView) -> Seq<Seq<char>> {
    instances_upto(p.placements, p.placements.len() as int)
}

/// The instances that are only used inside.
pub open spec fn fabric_instances(p: PlanView) -> Seq<Seq<char>> {
    fabric_upto(placed_instances(p), p.routes, p.routes.len() as int)
}

/// All bundles of a plan.
pub open spec fn bundles_of(p: PlanView) -> Seq<BundleView> {
    placed_instances(p).map_values(|s: Seq<char>| placed_bundle(p, s)) + fabric_instances(
        p,
    ).map_values(|s: Seq<char>| fabric_bundle(p, s))
}

fn leader_of(ps: &[Placement], i: usize) -> (r: usize)
    requires
        i < ps@.len(),
    ensures
        r == leader(placement_views(ps@), i as int),
{
    let ghost v = placement_views(ps@);
    let inst: &str = ps[i].signal.peripheral.as_str();
    let mut k: usize = 0;
    while k < ps.len() && !text::same(ps[k].signal.peripheral.as_str(), inst)
        invariant
            k <= ps@.len(),
            i < ps@.len(),
            v == placement_views(ps@),
            inst@ == v[i as int].signal.0,
            first_at(v, inst@, 0) == first_at(v, inst@, k as int),
        decreases ps@.len() - k,
    {
        proof {
            assert(v[k as int] == ps@[k as int]@);
        }
        k += 1;
    }
    proof {
        if k < ps@.len() {
            assert(v[k as int] == ps@[k as int]@);
        }
    }
    k
}

fn leaders_of(ps: &[Placement]) -> (r: Vec<usize>)
    ensures
        r@.len() == ps@.len(),
        forall|i: int| 0 <= i < r@.len() ==> (#[trigger] r@[i]) == leader(placement_views(ps@), i),
{
    let mut out: Vec<usize> = Vec::new();
    let mut i: usize = 0;
    while i < ps.len()
        invariant
            i <= ps@.len(),
            out@.len() == i,
            forall|k: int| 0 <= k < i ==> (#[trigger] out@[k]) == leader(placement_views(ps@), k),
        decreases ps@.len() - i,
    {
        out.push(leader_of(ps, i));
        i += 1;
    }
    out
}

fn on_same_pin(a: &Placement, b: &Placement) -> (r: bool)
    ensures
        r == same_pin(a@, b@),
{
    match (a.pin, b.pin) {
        (Some(p), Some(q)) => {
            let x: String = p.name();
            let y: String = q.name();
            text::same(x.as_str(), y.as_str())
        },
        _ => false,
    }
}

fn is_kept(ps: &[Placement], leaders: &[usize], i: usize) -> (r: bool)
    requires
        i < ps@.len(),
        leaders@.len() == ps@.len(),
        forall|k: int|
            0 <= k < leaders@.len() ==> (#[trigger] leaders@[k]) == leader(placement_views(ps@), k),
    ensures
        r == keeps(placement_views(ps@), i as int),
{
    let ghost v = placement_views(ps@);
    proof {
        assert(v[i as int] == ps@[i as int]@);
    }
    let mut j: usize = 0;
    while j < ps.len()
        invariant
            j <= ps@.len(),
            i < ps@.len(),
            v == placement_views(ps@),
            v[i as int] == ps@[i as int]@,
            leaders@.len() == ps@.len(),
            forall|k: int| 0 <= k < leaders@.len() ==> (#[trigger] leaders@[k]) == leader(v, k),
            forall|k: int|
                0 <= k < j && comes_first(v, k, i as int) ==> (#[trigger] v[k]).signal
                    != v[i as int].signal && !same_pin(v[k], v[i as int]),
        decreases ps@.len() - j,
    {
        proof {
            assert(v[j as int] == ps@[j as int]@);
            assert(leaders@[j as int] == leader(v, j as int));
            assert(leaders@[i as int] == leader(v, i as int));
        }
        if leaders[j] < leaders[i] || (leaders[j] == leaders[i] && j < i) {
            assert(comes_first(v, j as int, i as int));
            let same_signal: bool = text::same(
                ps[j].signal.peripheral.as_str(),
                ps[i].signal.peripheral.as_str(),
            ) && text::same(ps[j].signal.role.as_str(), ps[i].signal.role.as_str());
            if same_signal || on_same_pin(&ps[j], &ps[i]) {
                assert(!(v[j as int].signal != v[i as int].signal && !same_pin(
                    v[j as int],
                    v[i as int],
                )));
                return false;
            }
        }
        j += 1;
    }
    true
}

fn kept_flags(ps: &[Placement], leaders: &[usize]) -> (r: Vec<bool>)
    requires
        leaders@.len() == ps@.len(),
        forall|k: int|
            0 <= k < leaders@.len() ==> (#[trigger] leaders@[k]) == leader(placement_views(ps@), k),
    ensures
        r@.len() == ps@.len(),
        forall|i: int| 0 <= i < r@.len() ==> (#[trigger] r@[i]) == keeps(placement_views(ps@), i),
{
    let mut out: Vec<bool> = Vec::new();
    let mut i: usize = 0;
    while i < ps.len()
        invariant
            i <= ps@.len(),
            leaders@.len() == ps@.len(),
            forall|k: int|
                0 <= k < leaders@.len() ==> (#[trigger] leaders@[k]) == leader(
                    placement_views(ps@),
                    k,
                ),
            out@.len() == i,
            forall|k: int| 0 <= k < i ==> (#[trigger] out@[k]) == keeps(placement_views(ps@), k),
        decreases ps@.len() - i,
    {
        out.push(is_kept(ps, leaders, i));
        i += 1;
    }
    out
}

fn count_dropped(flags: &[bool], ps: Ghost<Seq<PlacementView>>) -> (r: u64)
    requires
        flags@.len() == ps@.len(),
        forall|i: int| 0 <= i < flags@.len() ==> (#[trigger] flags@[i]) == keeps(ps@, i),
    ensures
        r == dropped_upto(ps@, ps@.len() as int),
{
    let mut n: u64 = 0;
    let mut i: usize = 0;
    while i < flags.len()
        invariant
            i <= flags@.len(),
            n <= i,
            flags@.len() == ps@.len(),
            forall|k: int| 0 <= k < flags@.len() ==> (#[trigger] flags@[k]) == keeps(ps@, k),
            n == dropped_upto(ps@, i as int),
        decreases flags@.len() - i,
    {
        assert(flags@[i as int] == keeps(ps@, i as int));
        if !flags[i] {
            n = n + 1;
        }
        i += 1;
    }
    n
}

fn instance_names(ps: &[Placement], leaders: &[usize]) -> (r: Vec<String>)
    requires
        leaders@.len() == ps@.len(),
        forall|k: int|
            0 <= k < leaders@.len() ==> (#[trigger] leaders@[k]) == leader(placement_views(ps@), k),
    ensures
        views(r@) == instances_upto(placement_views(ps@), ps@.len() as int),
{
    let ghost v = placement_views(ps@);
    let mut out: Vec<String> = Vec::new();
    let mut i: usize = 0;
    proof {
        assert(views(out@) =~= instances_upto(v, 0));
    }
    while i < ps.len()
        invariant
            i <= ps@.len(),
            v == placement_views(ps@),
            leaders@.len() == ps@.len(),
            forall|k: int| 0 <= k < leaders@.len() ==> (#[trigger] leaders@[k]) == leader(v, k),
            views(out@) == instances_upto(v, i as int),
        decreases ps@.len() - i,
    {
        proof {
            assert(v[i as int] == ps@[i as int]@);
            assert(leaders@[i as int] == leader(v, i as int));
        }
        if leaders[i] == i {
            let ghost had = out@;
            out.push(copy_text(ps[i].signal.peripheral.as_str()));
            proof {
                assert(views(out@) =~= views(had).push(v[i as int].signal.0));
            }
        }
        i += 1;
    }
    out
}

fn has_text(list: &[String], s: &str) -> (r: bool)
    ensures
        r == views(list@).contains(s@),
{
    let mut i: usize = 0;
    while i < list.len()
        invariant
            i <= list@.len(),
            forall|k: int| 0 <= k < i ==> views(list@)[k] != s@,
        decreases list@.len() - i,
    {
        assert(views(list@)[i as int] == list@[i as int]@);
        if text::same(list[i].as_str(), s) {
            return true;
        }
        i += 1;
    }
    false
}

fn take_node(placed: &[String], acc: &mut Vec<String>, node: &FabricNode)
    ensures
        views(final(acc)@) == with_node(views(placed@), views(old(acc)@), node@),
{
    if let Some(s) = fabric_instance_singleton(node) {
        if !has_text(placed, s.as_str()) && !has_text(acc, s.as_str()) {
            let ghost had = acc@;
            let ghost name = s@;
            acc.push(s);
            proof {
                assert(views(acc@) =~= views(had).push(name));
            }
        }
    }
}

fn fabric_names(placed: &[String], routes: &[RouteEdge]) -> (r: Vec<String>)
    ensures
        views(r@) == fabric_upto(views(placed@), edge_views(routes@), routes@.len() as int),
{
    let ghost es = edge_views(routes@);
    let mut out: Vec<String> = Vec::new();
    let mut i: usize = 0;
    proof {
        assert(views(out@) =~= fabric_upto(views(placed@), es, 0));
    }
    while i < routes.len()
        invariant
            i <= routes@.len(),
            es == edge_views(routes@),
            views(out@) == fabric_upto(views(placed@), es, i as int),
        decreases routes@.len() - i,
    {
        proof {
            assert(es[i as int] == routes@[i as int]@);
        }
        take_node(placed, &mut out, &routes[i].from);
        take_node(placed, &mut out, &routes[i].to);
        i += 1;
    }
    out
}

fn entries_of(ps: &[Placement], flags: &[bool], instance: &str) -> (r: Vec<BundleEntry>)
    requires
        flags@.len() == ps@.len(),
        forall|i: int|
            0 <= i < flags@.len() ==> (#[trigger] flags@[i]) == keeps(placement_views(ps@), i),
    ensures
        entry_views(r@) == entries_upto(placement_views(ps@), instance@, ps@.len() as int),
{
    let ghost v = placement_views(ps@);
    let mut out: Vec<BundleEntry> = Vec::new();
    let mut i: usize = 0;
    proof {
        assert(entry_views(out@) =~= entries_upto(v, instance@, 0));
    }
    while i < ps.len()
        invariant
            i <= ps@.len(),
            v == placement_views(ps@),
            flags@.len() == ps@.len(),
            forall|k: int| 0 <= k < flags@.len() ==> (#[trigger] flags@[k]) == keeps(v, k),
            entry_views(out@) == entries_upto(v, instance@, i as int),
        decreases ps@.len() - i,
    {
        proof {
            assert(v[i as int] == ps@[i as int]@);
            assert(flags@[i as int] == keeps(v, i as int));
        }
        if flags[i] && text::same(ps[i].signal.peripheral.as_str(), instance) {
            let ghost had = out@;
            out.push(BundleEntry { role: copy_text(ps[i].signal.role.as_str()), pin: ps[i].pin });
            proof {
                assert(entry_views(out@) =~= entry_views(had).push(
                    (v[i as int].signal.1, v[i as int].pin),
                ));
            }
        }
        i += 1;
    }
    out
}

fn dma_of(ds: &[DmaAssignment], instance: &str) -> (r: Vec<(String, String)>)
    ensures
        dma_field_views(r@) == dma_upto(dma_views(ds@), instance@, ds@.len() as int),
{
    let ghost v = dma_views(ds@);
    let mut out: Vec<(String, String)> = Vec::new();
    let mut i: usize = 0;
    proof {
        assert(dma_field_views(out@) =~= dma_upto(v, instance@, 0));
    }
    while i < ds.len()
        invariant
            i <= ds@.len(),
            v == dma_views(ds@),
            dma_field_views(out@) == dma_upto(v, instance@, i as int),
        decreases ds@.len() - i,
    {
        proof {
            assert(v[i as int] == ds@[i as int]@);
        }
        if text::same(ds[i].peripheral.as_str(), instance) {
            let mut field: String = ident(ds[i].function.as_str());
            field.append("_dma");
            let channel: String = copy_text(ds[i].channel.as_str());
            let ghost had = out@;
            let ghost pair = (field@, channel@);
            out.push((field, channel));
            proof {
                assert(dma_field_views(out@) =~= dma_field_views(had).push(pair));
            }
        }
        i += 1;
    }
    out
}

/// The bundles of a plan, and how many placements were dropped: of two placements of one
/// signal or on one pin, the one that is taken up first is kept.
pub fn group_bundles(plan: &PinPlan) -> (r: (Vec<Bundle>, u64))
    ensures
        bundle_views(r.0@) == bundles_of(plan@),
        r.1 == dropped_upto(plan@.placements, plan@.placements.len() as int),
{
    let ghost p = plan@;
    let leaders: Vec<usize> = leaders_of(&plan.placements);
    let flags: Vec<bool> = kept_flags(&plan.placements, &leaders);
    let placed: Vec<String> = instance_names(&plan.placements, &leaders);
    let inner: Vec<String> = fabric_names(&placed, &plan.routes);
    let ghost a = placed_instances(p);
    let ghost b = fabric_instances(p);
    let mut out: Vec<Bundle> = Vec::new();
    let mut i: usize = 0;
    while i < placed.len()
        invariant
            i <= placed@.len(),
            p == plan@,
            a == placed_instances(p),
            views(placed@) == a,
            flags@.len() == plan.placements@.len(),
            forall|k: int|
                0 <= k < flags@.len() ==> (#[trigger] flags@[k]) == keeps(p.placements, k),
            out@.len() == i,
            forall|k: int| 0 <= k < i ==> (#[trigger] out@[k])@ == placed_bundle(p, a[k]),
        decreases placed@.len() - i,
    {
        let name: &str = placed[i].as_str();
        proof {
            assert(a[i as int] == placed@[i as int]@);
        }
        out.push(
            Bundle {
                instance: copy_text(name),
                pinless: false,
                bound: is_tier1_instance(name),
                entries: entries_of(&plan.placements, &flags, name),
                dma: dma_of(&plan.dma_assignments, name),
            },
        );
        i += 1;
    }
    let mut j: usize = 0;
    while j < inner.len()
        invariant
            j <= inner@.len(),
            p == plan@,
            views(inner@) == b,
            out@.len() == a.len() + j,
            forall|k: int| 0 <= k < a.len() ==> (#[trigger] out@[k])@ == placed_bundle(p, a[k]),
            forall|k: int|
                a.len() <= k < a.len() + j ==> (#[trigger] out@[k])@ == fabric_bundle(
                    p,
                    b[k - a.len()],
                ),
        decreases inner@.len() - j,
    {
        let name: &str = inner[j].as_str();
        proof {
            assert(b[j as int] == inner@[j as int]@);
        }
        let none: Vec<BundleEntry> = Vec::new();
        proof {
            assert(entry_views(none@) =~= Seq::<(Seq<char>, Option<PinId>)>::empty());
        }
        out.push(
            Bundle {
                instance: copy_text(name),
                pinless: true,
                bound: true,
                entries: none,
                dma: dma_of(&plan.dma_assignments, name),
            },
        );
        j += 1;
    }
    proof {
        assert(bundle_views(out@) =~= bundles_of(p));
    }
    let n: u64 = count_dropped(&flags, Ghost(p.placements));
    (out, n)
}

/// The head of a generated module.
pub open spec fn header_text(package: Seq<char>, family: Seq<char>, dropped: int) -> Seq<char> {
    "// @generated by peri-planner from PinPlan (target "@ + package + " / "@ + family
        + ") — DO NOT EDIT.\n"@
        + "// One bundle of typed singletons per peripheral (instance + role-named pins).\n// peri-planner does NOT generate driver init — you construct each peripheral\n// from its bundle, in your own embassy version's idiom. Field NAMES are stable\n// across pin changes; only the pin TYPES change on regenerate, and embassy\n// constructors are generic over the pin, so your init is unaffected. e.g.:\n//   let b = Board::take(embassy_stm32::init(Default::default()));\n//   let uart = Uart::new(b.usart1.instance, b.usart1.rx, b.usart1.tx, Irqs, dma, cfg)?;\n"@
        + (if dropped > 0 {
        "// ⚠ "@ + decimal(dropped)
            + " signal(s) dropped — this design has pin/resource conflicts (e.g. two uses competing for one pad or instance). Resolve them in the planner; the firmware below covers only the conflict-free subset.\n"@
    } else {
        ""@
    }) + "#![allow(dead_code)]\n\nuse embassy_stm32::{peripherals, Peripherals};\n\n"@
}

fn header(package: &str, family: &str, dropped: u64) -> (r: String)
    ensures
        r@ == header_text(package@, family@, dropped as int),
{
    let mut s: String = "// @generated by peri-planner from PinPlan (target ".to_owned();
    s.append(package);
    s.append(" / ");
    s.append(family);
    s.append(") — DO NOT EDIT.\n");
    s.append("// One bundle of typed singletons per peripheral (instance + role-named pins).\n// peri-planner does NOT generate driver init — you construct each peripheral\n// from its bundle, in your own embassy version's idiom. Field NAMES are stable\n// across pin changes; only the pin TYPES change on regenerate, and embassy\n// constructors are generic over the pin, so your init is unaffected. e.g.:\n//   let b = Board::take(embassy_stm32::init(Default::default()));\n//   let uart = Uart::new(b.usart1.instance, b.usart1.rx, b.usart1.tx, Irqs, dma, cfg)?;\n");
    let mut w: String = "".to_owned();
    if dropped > 0 {
        w = "// ⚠ ".to_owned();
        let n: String = text::number(dropped);
        w.append(n.as_str());
        w.append(" signal(s) dropped — this design has pin/resource conflicts (e.g. two uses competing for one pad or instance). Resolve them in the planner; the firmware below covers only the conflict-free subset.\n");
    }
    s.append(w.as_str());
    s.append("#![allow(dead_code)]\n\nuse embassy_stm32::{peripherals, Peripherals};\n\n");
    s
}

/// The line of a field with a pin, or the note of one without.
pub open spec fn entry_line(e: (Seq<char>, Option<PinId>)) -> Seq<char> {
    match e.1 {
        Some(pin) => "    pub "@ + ident_of(e.0) + ": peripherals::"@ + pin_name(pin) + ",\n"@,
        None => "    // unplaced: "@ + e.0 + " (declared, no pin yet)\n"@,
    }
}

/// The lines of the first `n` fields.
pub open spec fn entry_lines(v: Seq<(Seq<char>, Option<PinId>)>, n: int) -> Seq<char>
    decreases n,
{
    if n <= 0 {
        ""@
    } else {
        entry_lines(v, n - 1) + entry_line(v[n - 1])
    }
}

/// The line of a DMA field.
pub open spec fn dma_line(d: (Seq<char>, Seq<char>)) -> Seq<char> {
    "    pub "@ + d.0 + ": peripherals::"@ + d.1 + ",\n"@
}

/// The lines of the first `n` DMA fields.
pub open spec fn dma_lines(v: Seq<(Seq<char>, Seq<char>)>, n: int) -> Seq<char>
    decreases n,
{
    if n <= 0 {
        ""@
    } else {
        dma_lines(v, n - 1) + dma_line(v[n - 1])
    }
}

/// The struct of a bundle.
pub open spec fn struct_text(b: BundleView) -> Seq<char> {
    "/// Resources for "@ + b.instance + (if b.pinless {
        " — internal fabric instance (no pins on this design).\n"@
    } else {
        " — pass to your own constructor.\n"@
    }) + "pub struct "@ + bundle_name_of(b.instance) + " {\n"@ + (if b.bound {
        "    pub instance: peripherals::"@ + b.instance + ",\n"@
    } else {
        ""@
    }) + entry_lines(b.entries, b.entries.len() as int) + dma_lines(b.dma, b.dma.len() as int)
        + "}\n\n"@
}

/// The structs of the first `n` bundles.
pub open spec fn struct_texts(v: Seq<BundleView>, n: int) -> Seq<char>
    decreases n,
{
    if n <= 0 {
        ""@
    } else {
        struct_texts(v, n - 1) + struct_text(v[n - 1])
    }
}

/// The line of a bundle in the board.
pub open spec fn field_line(b: BundleView) -> Seq<char> {
    "    pub "@ + ident_of(b.instance) + ": "@ + bundle_name_of(b.instance) + ",\n"@
}

/// The lines of the first `n` bundles in the board.
pub open spec fn field_lines(v: Seq<BundleView>, n: int) -> Seq<char>
    decreases n,
{
    if n <= 0 {
        ""@
    } else {
        field_lines(v, n - 1) + field_line(v[n - 1])
    }
}

/// What the first `n` fields are taken from; a field without a pin is not there.
pub open spec fn entry_parts(v: Seq<(Seq<char>, Option<PinId>)>, n: int, acc: Seq<Seq<char>>) -> Seq<
    Seq<char>,
>
    decreases n,
{
    if n <= 0 {
        acc
    } else {
        match v[n - 1].1 {
            Some(pin) => entry_parts(v, n - 1, acc).push(
                ident_of(v[n - 1].0) + ": p."@ + pin_name(pin),
            ),
            None => entry_parts(v, n - 1, acc),
        }
    }
}

/// What the first `n` DMA fields are taken from.
pub open spec fn dma_parts(v: Seq<(Seq<char>, Seq<char>)>, n: int, acc: Seq<Seq<char>>) -> Seq<
    Seq<char>,
>
    decreases n,
{
    if n <= 0 {
        acc
    } else {
        dma_parts(v, n - 1, acc).push(v[n - 1].0 + ": p."@ + v[n - 1].1)
    }
}

/// What the fields of a bundle are taken from.
pub open spec fn bundle_parts(b: BundleView) -> Seq<Seq<char>> {
    let own = if b.bound {
        Seq::empty().push("instance: p."@ + b.instance)
    } else {
        Seq::empty()
    };
    dma_parts(b.dma, b.dma.len() as int, entry_parts(b.entries, b.entries.len() as int, own))
}

/// The line that takes a bundle.
pub open spec fn take_line(b: BundleView) -> Seq<char> {
    "            "@ + ident_of(b.instance) + ": "@ + bundle_name_of(b.instance) + " { "@ + joined(
        bundle_parts(b),
        ", "@,
    ) + " },\n"@
}

/// The lines that take the first `n` bundles.
pub open spec fn take_lines(v: Seq<BundleView>, n: int) -> Seq<char>
    decreases n,
{
    if n <= 0 {
        ""@
    } else {
        take_lines(v, n - 1) + take_line(v[n - 1])
    }
}

/// The board-support module of a plan.
pub open spec fn board_text(p: PlanView) -> Seq<char> {
    let v = bundles_of(p);
    let n = v.len() as int;
    header_text(
        p.package,
        p.family,
        dropped_upto(p.placements, p.placements.len() as int),
    ) + struct_texts(v, n)
        + "/// Every peripheral this design uses, grouped into per-instance bundles.\npub struct Board {\n"@
        + field_lines(v, n)
        + "}\n\nimpl Board {\n    /// Destructure the embassy `Peripherals` into named per-peripheral bundles.\n    pub fn take(p: Peripherals) -> Self {\n        Self {\n"@
        + take_lines(v, n) + "        }\n    }\n}\n"@
}

fn write_entries(v: &[BundleEntry]) -> (r: String)
    ensures
        r@ == entry_lines(entry_views(v@), v@.len() as int),
{
    let ghost w = entry_views(v@);
    let mut s: String = "".to_owned();
    let mut i: usize = 0;
    while i < v.len()
        invariant
            i <= v@.len(),
            w == entry_views(v@),
            s@ == entry_lines(w, i as int),
        decreases v@.len() - i,
    {
        proof {
            assert(w[i as int] == (v@[i as int].role@, v@[i as int].pin));
        }
        let line: String = match v[i].pin {
            Some(pin) => {
                let mut l: String = "    pub ".to_owned();
                let f: String = ident(v[i].role.as_str());
                let n: String = pin.name();
                l.append(f.as_str());
                l.append(": peripherals::");
                l.append(n.as_str());
                l.append(",\n");
                l
            },
            None => {
                let mut l: String = "    // unplaced: ".to_owned();
                l.append(v[i].role.as_str());
                l.append(" (declared, no pin yet)\n");
                l
            },
        };
        s.append(line.as_str());
        i += 1;
    }
    s
}

fn write_dma(v: &[(String, String)]) -> (r: String)
    ensures
        r@ == dma_lines(dma_field_views(v@), v@.len() as int),
{
    let ghost w = dma_field_views(v@);
    let mut s: String = "".to_owned();
    let mut i: usize = 0;
    while i < v.len()
        invariant
            i <= v@.len(),
            w == dma_field_views(v@),
            s@ == dma_lines(w, i as int),
        decreases v@.len() - i,
    {
        proof {
            assert(w[i as int] == (v@[i as int].0@, v@[i as int].1@));
        }
        let mut l: String = "    pub ".to_owned();
        l.append(v[i].0.as_str());
        l.append(": peripherals::");
        l.append(v[i].1.as_str());
        l.append(",\n");
        s.append(l.as_str());
        i += 1;
    }
    s
}

fn write_struct(b: &Bundle) -> (r: String)
    ensures
        r@ == struct_text(b@),
{
    let mut s: String = "/// Resources for ".to_owned();
    let name: String = bundle_name(b.instance.as_str());
    let mut own: String = "".to_owned();
    if b.bound {
        own = "    pub instance: peripherals::".to_owned();
        own.append(b.instance.as_str());
        own.append(",\n");
    }
    let entries: String = write_entries(&b.entries);
    let dma: String = write_dma(&b.dma);
    s.append(b.instance.as_str());
    s.append(
        if b.pinless {
            " — internal fabric instance (no pins on this design).\n"
        } else {
            " — pass to your own constructor.\n"
        },
    );
    s.append("pub struct ");
    s.append(name.as_str());
    s.append(" {\n");
    s.append(own.as_str());
    s.append(entries.as_str());
    s.append(dma.as_str());
    s.append("}\n\n");
    s
}

fn write_field(b: &Bundle) -> (r: String)
    ensures
        r@ == field_line(b@),
{
    let mut s: String = "    pub ".to_owned();
    let f: String = ident(b.instance.as_str());
    let name: String = bundle_name(b.instance.as_str());
    s.append(f.as_str());
    s.append(": ");
    s.append(name.as_str());
    s.append(",\n");
    s
}

fn parts_of(b: &Bundle) -> (r: Vec<String>)
    ensures
        views(r@) == bundle_parts(b@),
{
    let ghost es = entry_views(b.entries@);
    let ghost ds = dma_field_views(b.dma@);
    let mut out: Vec<String> = Vec::new();
    proof {
        assert(views(out@) =~= Seq::<Seq<char>>::empty());
    }
    if b.bound {
        let mut l: String = "instance: p.".to_owned();
        l.append(b.instance.as_str());
        let ghost had = out@;
        let ghost t = l@;
        out.push(l);
        proof {
            assert(views(out@) =~= views(had).push(t));
        }
    }
    let ghost own = views(out@);
    let mut i: usize = 0;
    while i < b.entries.len()
        invariant
            i <= b.entries@.len(),
            es == entry_views(b.entries@),
            views(out@) == entry_parts(es, i as int, own),
        decreases b.entries@.len() - i,
    {
        let e: &BundleEntry = &b.entries[i];
        proof {
            assert(es[i as int] == (e.role@, e.pin));
        }
        if let Some(pin) = e.pin {
            let mut l: String = ident(e.role.as_str());
            let n: String = pin.name();
            l.append(": p.");
            l.append(n.as_str());
            let ghost had = out@;
            let ghost t = l@;
            out.push(l);
            proof {
                assert(views(out@) =~= views(had).push(t));
            }
        }
        i += 1;
    }
    let ghost acc = views(out@);
    let mut j: usize = 0;
    while j < b.dma.len()
        invariant
            j <= b.dma@.len(),
            ds == dma_field_views(b.dma@),
            views(out@) == dma_parts(ds, j as int, acc),
        decreases b.dma@.len() - j,
    {
        proof {
            assert(ds[j as int] == (b.dma@[j as int].0@, b.dma@[j as int].1@));
        }
        let mut l: String = copy_text(b.dma[j].0.as_str());
        l.append(": p.");
        l.append(b.dma[j].1.as_str());
        let ghost had = out@;
        let ghost t = l@;
        out.push(l);
        proof {
            assert(views(out@) =~= views(had).push(t));
        }
        j += 1;
    }
    out
}

fn write_take(b: &Bundle) -> (r: String)
    ensures
        r@ == take_line(b@),
{
    let mut s: String = "            ".to_owned();
    let f: String = ident(b.instance.as_str());
    let name: String = bundle_name(b.instance.as_str());
    let parts: Vec<String> = parts_of(b);
    let list: String = text::join(&parts, ", ");
    s.append(f.as_str());
    s.append(": ");
    s.append(name.as_str());
    s.append(" { ");
    s.append(list.as_str());
    s.append(" },\n");
    s
}

/// The board-support module of a plan: a bundle for each instance, a board that holds
/// them all, and the function that takes them out of the peripherals.
pub fn generate_board(plan: &PinPlan) -> (r: String)
    ensures
        r@ == board_text(plan@),
{
    let (bundles, dropped) = group_bundles(plan);
    let ghost v = bundles_of(plan@);
    let mut structs: String = "".to_owned();
    let mut fields: String = "".to_owned();
    let mut takes: String = "".to_owned();
    let mut i: usize = 0;
    while i < bundles.len()
        invariant
            i <= bundles@.len(),
            bundle_views(bundles@) == v,
            structs@ == struct_texts(v, i as int),
            fields@ == field_lines(v, i as int),
            takes@ == take_lines(v, i as int),
        decreases bundles@.len() - i,
    {
        proof {
            assert(v[i as int] == bundles@[i as int]@);
        }
        let a: String = write_struct(&bundles[i]);
        let b: String = write_field(&bundles[i]);
        let c: String = write_take(&bundles[i]);
        structs.append(a.as_str());
        fields.append(b.as_str());
        takes.append(c.as_str());
        i += 1;
    }
    proof {
        assert(bundles@.len() == v.len());
    }
    let mut s: String = header(
        plan.target.package.as_str(),
        plan.target.family.as_str(),
        dropped,
    );
    s.append(structs.as_str());
    s.append("/// Every peripheral this design uses, grouped into per-instance bundles.\npub struct Board {\n");
    s.append(fields.as_str());
    s.append("}\n\nimpl Board {\n    /// Destructure the embassy `Peripherals` into named per-peripheral bundles.\n    pub fn take(p: Peripherals) -> Self {\n        Self {\n");
    s.append(takes.as_str());
    s.append("        }\n    }\n}\n");
    s
}

/// A value that the plan cannot know: a field of the configuration.
#[derive(Clone, Debug)]
pub struct Hole {
    pub name: String,
    pub ty: &'static str,
    pub default: &'static str,
    pub doc: &'static str,
}

/// A hole as a mathematical value.
pub ghost struct HoleView {
    pub name: Seq<char>,
    pub ty: Seq<char>,
    pub default: Seq<char>,
    pub doc: Seq<char>,
}

impl View for Hole {
    type V = HoleView;

    open spec fn view(&self) -> HoleView {
        HoleView { name: self.name@, ty: self.ty@, default: self.default@, doc: self.doc@ }
    }
}

/// The values of holes.
pub open spec fn hole_views(v: Seq<Hole>) -> Seq<HoleView> {
    v.map_values(|h: Hole| h@)
}

/// Whether an instance drives a PWM output.
pub open spec fn drives_pwm(ps: Seq<PlacementView>, instance: Seq<char>) -> bool {
    exists|i: int|
        0 <= i < ps.len() && (#[trigger] ps[i]).signal.0 == instance
            && ps[i].role_kind is PwmOut
}

/// Whether an instance drives a PWM output with dead time.
pub open spec fn drives_dead_time(ps: Seq<PlacementView>, instance: Seq<char>) -> bool {
    exists|i: int|
        0 <= i < ps.len() && (#[trigger] ps[i]).signal.0 == instance
            && ps[i].role_kind is PwmOut && ps[i].role_kind->PwmOut_dead_time
}

/// The holes of an instance.
pub open spec fn holes_of(ps: Seq<PlacementView>, instance: Seq<char>) -> Seq<HoleView> {
    let c = class_name(instance);
    let id = ident_of(instance);
    let none = Seq::<HoleView>::empty();
    if c == "USART"@ || c == "UART"@ || c == "LPUART"@ {
        none.push(
            HoleView { name: id + "_baud"@, ty: "u32"@, default: "115_200"@, doc: "baud rate"@ },
        )
    } else if c == "SPI"@ {
        none.push(
            HoleView {
                name: id + "_freq_hz"@,
                ty: "u32"@,
                default: "1_000_000"@,
                doc: "SCK frequency (Hz)"@,
            },
        )
    } else if c == "I2C"@ {
        none.push(
            HoleView {
                name: id + "_freq_hz"@,
                ty: "u32"@,
                default: "100_000"@,
                doc: "bus frequency (Hz)"@,
            },
        )
    } else if c == "FDCAN"@ {
        none.push(
            HoleView {
                name: id + "_bitrate"@,
                ty: "u32"@,
                default: "500_000"@,
                doc: "nominal bitrate (bps)"@,
            },
        )
    } else if (c == "TIM"@ || c == "HRTIM"@) && drives_pwm(ps, instance) {
        let freq = none.push(
            HoleView {
                name: id + "_freq_hz"@,
                ty: "u32"@,
                default: "100_000"@,
                doc: "PWM switching frequency (Hz)"@,
            },
        );
        if drives_dead_time(ps, instance) {
            freq.push(
                HoleView {
                    name: id + "_dead_time_ns"@,
                    ty: "u16"@,
                    default: "0"@,
                    doc: "complementary dead-time (ns)"@,
                },
            )
        } else {
            freq
        }
    } else {
        none
    }
}

/// The holes of the instances among the first `n` placements, in order of their first
/// placement.
pub open spec fn holes_upto(ps: Seq<PlacementView>, n: int) -> Seq<HoleView>
    decreases n,
{
    if n <= 0 {
        Seq::empty()
    } else if leader(ps, n - 1) == n - 1 && is_bound(ps[n - 1].signal.0) {
        holes_upto(ps, n - 1) + holes_of(ps, ps[n - 1].signal.0)
    } else {
        holes_upto(ps, n - 1)
    }
}

fn has_pwm(ps: &[Placement], instance: &str, with_dead_time: bool) -> (r: bool)
    ensures
        r == (if with_dead_time {
            drives_dead_time(placement_views(ps@), instance@)
        } else {
            drives_pwm(placement_views(ps@), instance@)
        }),
{
    let ghost v = placement_views(ps@);
    let mut i: usize = 0;
    while i < ps.len()
        invariant
            i <= ps@.len(),
            v == placement_views(ps@),
            forall|k: int|
                0 <= k < i ==> !((#[trigger] v[k]).signal.0 == instance@ && v[k].role_kind is PwmOut
                    && (with_dead_time ==> v[k].role_kind->PwmOut_dead_time)),
        decreases ps@.len() - i,
    {
        proof {
            assert(v[i as int] == ps@[i as int]@);
        }
        if let RoleKind::PwmOut { dead_time, .. } = &ps[i].role_kind {
            if (*dead_time || !with_dead_time) && text::same(
                ps[i].signal.peripheral.as_str(),
                instance,
            ) {
                assert(v[i as int].role_kind is PwmOut);
                return true;
            }
        }
        i += 1;
    }
    false
}

fn hole(id: &str, suffix: &str, ty: &'static str, default: &'static str, doc: &'static str) -> (r: Hole)
    ensures
        r@ == (HoleView { name: id@ + suffix@, ty: ty@, default: default@, doc: doc@ }),
{
    let mut name: String = copy_text(id);
    name.append(suffix);
    Hole { name, ty, default, doc }
}

fn add_holes(out: &mut Vec<Hole>, ps: &[Placement], instance: &str)
    ensures
        hole_views(final(out)@) == hole_views(old(out)@) + holes_of(placement_views(ps@), instance@),
{
    let class: String = class_of(instance);
    let c: &str = class.as_str();
    let name: String = ident(instance);
    let id: &str = name.as_str();
    let ghost had = hole_views(out@);
    let ghost want = holes_of(placement_views(ps@), instance@);
    if text::same(c, "USART") || text::same(c, "UART") || text::same(c, "LPUART") {
        out.push(hole(id, "_baud", "u32", "115_200", "baud rate"));
    } else if text::same(c, "SPI") {
        out.push(hole(id, "_freq_hz", "u32", "1_000_000", "SCK frequency (Hz)"));
    } else if text::same(c, "I2C") {
        out.push(hole(id, "_freq_hz", "u32", "100_000", "bus frequency (Hz)"));
    } else if text::same(c, "FDCAN") {
        out.push(hole(id, "_bitrate", "u32", "500_000", "nominal bitrate (bps)"));
    } else if (text::same(c, "TIM") || text::same(c, "HRTIM")) && has_pwm(ps, instance, false) {
        out.push(hole(id, "_freq_hz", "u32", "100_000", "PWM switching frequency (Hz)"));
        if has_pwm(ps, instance, true) {
            out.push(hole(id, "_dead_time_ns", "u16", "0", "complementary dead-time (ns)"));
        }
    }
    proof {
        assert(hole_views(out@) =~= had + want);
    }
}

/// The values that the plan's peripherals need and the plan cannot know.
pub fn behavior_holes(plan: &PinPlan) -> (r: Vec<Hole>)
    ensures
        hole_views(r@) == holes_upto(plan@.placements, plan@.placements.len() as int),
{
    let ghost v = plan@.placements;
    let ps: &Vec<Placement> = &plan.placements;
    let mut out: Vec<Hole> = Vec::new();
    let mut i: usize = 0;
    proof {
        assert(hole_views(out@) =~= holes_upto(v, 0));
    }
    while i < ps.len()
        invariant
            i <= ps@.len(),
            v == placement_views(ps@),
            hole_views(out@) == holes_upto(v, i as int),
        decreases ps@.len() - i,
    {
        proof {
            assert(v[i as int] == ps@[i as int]@);
        }
        let inst: &str = ps[i].signal.peripheral.as_str();
        if leader_of(ps, i) == i && is_tier1_instance(inst) {
            add_holes(&mut out, ps, inst);
        }
        i += 1;
    }
    out
}

/// The declarations of the first `n` holes.
pub open spec fn hole_fields(v: Seq<HoleView>, n: int) -> Seq<char>
    decreases n,
{
    if n <= 0 {
        ""@
    } else {
        hole_fields(v, n - 1) + ("    /// "@ + v[n - 1].doc + "\n    pub "@ + v[n - 1].name + ": "@ + v[n
            - 1].ty + ",\n"@)
    }
}

/// The defaults of the first `n` holes.
pub open spec fn hole_defaults(v: Seq<HoleView>, n: int) -> Seq<char>
    decreases n,
{
    if n <= 0 {
        ""@
    } else {
        hole_defaults(v, n - 1) + ("            "@ + v[n - 1].name + ": "@ + v[n - 1].default
            + ",\n"@)
    }
}

/// The configuration of a plan.
pub open spec fn behavior_text(p: PlanView) -> Seq<char> {
    let v = holes_upto(p.placements, p.placements.len() as int);
    let n = v.len() as int;
    "\n/// Behavioral configuration you must supply — one field per value the pin\n/// plan cannot know (it carries no behavioral values by design). Adjust the\n/// defaults to your converter. Adding a routed peripheral adds a field here,\n/// so the design and its config can't silently drift.\n#[derive(Clone, Copy, Debug)]\npub struct Behavior {\n"@
        + hole_fields(v, n)
        + "}\n\nimpl Default for Behavior {\n    fn default() -> Self {\n        Self {\n"@
        + hole_defaults(v, n) + "        }\n    }\n}\n"@
}

/// Append the configuration that the plan cannot know.
pub fn write_behavior(s: &mut String, plan: &PinPlan)
    ensures
        final(s)@ == old(s)@ + behavior_text(plan@),
{
    let holes: Vec<Hole> = behavior_holes(plan);
    let ghost v = hole_views(holes@);
    let mut fields: String = "".to_owned();
    let mut defaults: String = "".to_owned();
    let mut i: usize = 0;
    while i < holes.len()
        invariant
            i <= holes@.len(),
            v == hole_views(holes@),
            fields@ == hole_fields(v, i as int),
            defaults@ == hole_defaults(v, i as int),
        decreases holes@.len() - i,
    {
        proof {
            assert(v[i as int] == holes@[i as int]@);
        }
        let h: &Hole = &holes[i];
        let mut f: String = "    /// ".to_owned();
        f.append(h.doc);
        f.append("\n    pub ");
        f.append(h.name.as_str());
        f.append(": ");
        f.append(h.ty);
        f.append(",\n");
        fields.append(f.as_str());
        let mut d: String = "            ".to_owned();
        d.append(h.name.as_str());
        d.append(": ");
        d.append(h.default);
        d.append(",\n");
        defaults.append(d.as_str());
        i += 1;
    }
    let mut b: String = "\n/// Behavioral configuration you must supply — one field per value the pin\n/// plan cannot know (it carries no behavioral values by design). Adjust the\n/// defaults to your converter. Adding a routed peripheral adds a field here,\n/// so the design and its config can't silently drift.\n#[derive(Clone, Copy, Debug)]\npub struct Behavior {\n".to_owned();
    b.append(fields.as_str());
    b.append("}\n\nimpl Default for Behavior {\n    fn default() -> Self {\n        Self {\n");
    b.append(defaults.as_str());
    b.append("        }\n    }\n}\n");
    s.append(b.as_str());
}

/// The whole module of a plan: the board and the configuration.
pub fn generate(plan: &PinPlan) -> (r: String)
    ensures
        r@ == board_text(plan@) + behavior_text(plan@),
{
    let mut s: String = generate_board(plan);
    write_behavior(&mut s, plan);
    s
}

} // verus!
