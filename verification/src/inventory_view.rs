//! The lines of a chip's inventory.

use vstd::prelude::*;

use crate::mcu::AdcInstance;
use crate::mcu::CommsInventory;
use crate::mcu::CompInstance;
use crate::mcu::DacInstance;
use crate::mcu::EdgeKind;
use crate::mcu::HrtimFabric;
use crate::mcu::McuDescriptor;
use crate::mcu::OpampInstance;
use crate::mcu::PeripheralEdge;
use crate::mcu::TimerInstance;
use crate::mcu::TimerKind;
use crate::text;
use crate::text::decimal;
use crate::text::joined;
use crate::text::views;
use crate::texts::copy_text;

verus! {

/// Instances by prefix and number.
pub open spec fn numbered_names(prefix: Seq<char>, nums: Seq<u8>) -> Seq<Seq<char>> {
    nums.map_values(|n: u8| prefix + decimal(n as int))
}

/// A list behind a label, or that there is none.
pub open spec fn list_line(label: Seq<char>, names: Seq<Seq<char>>) -> Seq<char> {
    if names.len() == 0 {
        label + "(none)"@
    } else {
        label + joined(names, ", "@)
    }
}

fn numbered(prefix: &str, nums: &[u8]) -> (r: Vec<String>)
    ensures
        views(r@) == numbered_names(prefix@, nums@),
{
    let mut r: Vec<String> = Vec::new();
    let mut i: usize = 0;
    proof {
        assert(views(r@) =~= numbered_names(prefix@, nums@).take(0));
    }
    while i < nums.len()
        invariant
            i <= nums@.len(),
            views(r@) == numbered_names(prefix@, nums@).take(i as int),
        decreases nums@.len() - i,
    {
        let mut s: String = copy_text(prefix);
        text::push_number(&mut s, nums[i] as u64);
        let ghost had = r@;
        let ghost t = s@;
        r.push(s);
        proof {
            assert(views(r@) =~= views(had).push(t));
            assert(views(r@) =~= numbered_names(prefix@, nums@).take(i + 1));
        }
        i += 1;
    }
    proof {
        assert(views(r@) =~= numbered_names(prefix@, nums@));
    }
    r
}

fn listed(label: &str, names: &[String]) -> (r: String)
    ensures
        r@ == list_line(label@, views(names@)),
{
    let mut s: String = copy_text(label);
    if names.len() == 0 {
        s.append("(none)");
    } else {
        let list: String = text::join(names, ", ");
        s.append(list.as_str());
    }
    s
}

fn add_line(lines: &mut Vec<String>, line: String)
    ensures
        views(final(lines)@) == views(old(lines)@).push(line@),
{
    let ghost had = lines@;
    let ghost t = line@;
    lines.push(line);
    proof {
        assert(views(lines@) =~= views(had).push(t));
    }
}

/// The numbers of the ADCs.
pub open spec fn adc_numbers(v: Seq<AdcInstance>) -> Seq<u8> {
    v.map_values(|a: AdcInstance| a.number)
}

/// The numbers of the comparators.
pub open spec fn comp_numbers(v: Seq<CompInstance>) -> Seq<u8> {
    v.map_values(|a: CompInstance| a.number)
}

/// The numbers of the amplifiers.
pub open spec fn opamp_numbers(v: Seq<OpampInstance>) -> Seq<u8> {
    v.map_values(|a: OpampInstance| a.number)
}

/// The names of the DACs, with their channels.
pub open spec fn dac_names(v: Seq<DacInstance>) -> Seq<Seq<char>> {
    v.map_values(
        |d: DacInstance|
            "DAC"@ + decimal(d.number as int) + " ×"@ + decimal(d.channels as int) + if d.fast {
                " (fast S&H)"@
            } else {
                ""@
            },
    )
}

/// The lines on the ADCs. The first ADC says for all which channels are fast.
pub open spec fn adc_lines(v: Seq<AdcInstance>) -> Seq<Seq<char>> {
    let head = seq![list_line("ADC: "@, numbered_names("ADC"@, adc_numbers(v)))];
    if v.len() > 0 && v[0].fast_channels@.len() > 0 {
        head.push("  fast channels: IN"@ + joined(numbered_names(""@, v[0].fast_channels@), ", IN"@))
    } else {
        head
    }
}

/// The analog lines.
pub open spec fn analog_lines(d: McuDescriptor) -> Seq<Seq<char>> {
    adc_lines(d.adcs@).push(list_line("DAC: "@, dac_names(d.dacs@))).push(
        list_line("COMP: "@, numbered_names("COMP"@, comp_numbers(d.comps@))),
    ).push(list_line("OPAMP: "@, numbered_names("OPAMP"@, opamp_numbers(d.opamps@))))
}

fn numbers_of_adcs(v: &[AdcInstance]) -> (r: Vec<u8>)
    ensures
        r@ == adc_numbers(v@),
{
    let mut r: Vec<u8> = Vec::new();
    let mut i: usize = 0;
    while i < v.len()
        invariant
            i <= v@.len(),
            r@ =~= adc_numbers(v@).take(i as int),
        decreases v@.len() - i,
    {
        r.push(v[i].number);
        i += 1;
    }
    proof {
        assert(r@ =~= adc_numbers(v@));
    }
    r
}

fn numbers_of_comps(v: &[CompInstance]) -> (r: Vec<u8>)
    ensures
        r@ == comp_numbers(v@),
{
    let mut r: Vec<u8> = Vec::new();
    let mut i: usize = 0;
    while i < v.len()
        invariant
            i <= v@.len(),
            r@ =~= comp_numbers(v@).take(i as int),
        decreases v@.len() - i,
    {
        r.push(v[i].number);
        i += 1;
    }
    proof {
        assert(r@ =~= comp_numbers(v@));
    }
    r
}

fn numbers_of_opamps(v: &[OpampInstance]) -> (r: Vec<u8>)
    ensures
        r@ == opamp_numbers(v@),
{
    let mut r: Vec<u8> = Vec::new();
    let mut i: usize = 0;
    while i < v.len()
        invariant
            i <= v@.len(),
            r@ =~= opamp_numbers(v@).take(i as int),
        decreases v@.len() - i,
    {
        r.push(v[i].number);
        i += 1;
    }
    proof {
        assert(r@ =~= opamp_numbers(v@));
    }
    r
}

fn names_of_dacs(v: &[DacInstance]) -> (r: Vec<String>)
    ensures
        views(r@) == dac_names(v@),
{
    let mut r: Vec<String> = Vec::new();
    let mut i: usize = 0;
    proof {
        assert(views(r@) =~= dac_names(v@).take(0));
    }
    while i < v.len()
        invariant
            i <= v@.len(),
            views(r@) == dac_names(v@).take(i as int),
        decreases v@.len() - i,
    {
        let mut s: String = "DAC".to_owned();
        text::push_number(&mut s, v[i].number as u64);
        s.append(" ×");
        text::push_number(&mut s, v[i].channels as u64);
        s.append(
            if v[i].fast {
                " (fast S&H)"
            } else {
                ""
            },
        );
        add_line(&mut r, s);
        proof {
            assert(views(r@) =~= dac_names(v@).take(i + 1));
        }
        i += 1;
    }
    proof {
        assert(views(r@) =~= dac_names(v@));
    }
    r
}

/// The analog lines of a chip's inventory.
pub fn analog(d: &McuDescriptor) -> (r: Vec<String>)
    ensures
        views(r@) == analog_lines(*d),
{
    let mut r: Vec<String> = Vec::new();
    let adcs: Vec<String> = numbered("ADC", &numbers_of_adcs(&d.adcs));
    add_line(&mut r, listed("ADC: ", &adcs));
    proof {
        assert(views(r@) =~= seq![list_line("ADC: "@, numbered_names("ADC"@, adc_numbers(d.adcs@)))]);
    }
    if d.adcs.len() > 0 && d.adcs[0].fast_channels.len() > 0 {
        let channels: Vec<String> = numbered("", &d.adcs[0].fast_channels);
        let mut s: String = "  fast channels: IN".to_owned();
        let list: String = text::join(&channels, ", IN");
        s.append(list.as_str());
        add_line(&mut r, s);
    }
    proof {
        assert(views(r@) == adc_lines(d.adcs@));
    }
    add_line(&mut r, listed("DAC: ", &names_of_dacs(&d.dacs)));
    add_line(&mut r, listed("COMP: ", &numbered("COMP", &numbers_of_comps(&d.comps))));
    add_line(&mut r, listed("OPAMP: ", &numbered("OPAMP", &numbers_of_opamps(&d.opamps))));
    r
}

/// The name of a kind of timer.
pub open spec fn timer_kind_label(k: TimerKind) -> Seq<char> {
    match k {
        TimerKind::Advanced => "Advanced"@,
        TimerKind::General32 => "GP 32-bit"@,
        TimerKind::General16 => "GP 16-bit"@,
        TimerKind::Basic => "Basic"@,
        TimerKind::LowPower => "Low-power"@,
    }
}

/// The name of a timer.
pub open spec fn timer_name(t: TimerInstance) -> Seq<char> {
    if t.kind == TimerKind::LowPower {
        "LPTIM"@ + decimal(t.number as int)
    } else {
        "TIM"@ + decimal(t.number as int)
    }
}

/// The names of the timers of a kind among the first `n`.
pub open spec fn timers_of_kind(v: Seq<TimerInstance>, k: TimerKind, n: int) -> Seq<Seq<char>>
    decreases n,
{
    if n <= 0 {
        Seq::empty()
    } else if v[n - 1].kind == k {
        timers_of_kind(v, k, n - 1).push(timer_name(v[n - 1]))
    } else {
        timers_of_kind(v, k, n - 1)
    }
}

/// The lines so far with that of a kind of timer, where there are timers of it.
pub open spec fn and_timers(lines: Seq<Seq<char>>, v: Seq<TimerInstance>, k: TimerKind) -> Seq<
    Seq<char>,
> {
    let names = timers_of_kind(v, k, v.len() as int);
    if names.len() == 0 {
        lines
    } else {
        lines.push("  "@ + timer_kind_label(k) + ": "@ + joined(names, ", "@))
    }
}

/// The lines on the timers, by kind.
pub open spec fn timer_lines(v: Seq<TimerInstance>) -> Seq<Seq<char>> {
    let a = and_timers(Seq::empty(), v, TimerKind::Advanced);
    let b = and_timers(a, v, TimerKind::General32);
    let c = and_timers(b, v, TimerKind::General16);
    let d = and_timers(c, v, TimerKind::Basic);
    and_timers(d, v, TimerKind::LowPower)
}

fn add_timers(lines: &mut Vec<String>, v: &[TimerInstance], k: TimerKind)
    ensures
        views(final(lines)@) == and_timers(views(old(lines)@), v@, k),
{
    let mut names: Vec<String> = Vec::new();
    let mut i: usize = 0;
    proof {
        assert(views(names@) =~= timers_of_kind(v@, k, 0));
    }
    while i < v.len()
        invariant
            i <= v@.len(),
            views(names@) == timers_of_kind(v@, k, i as int),
        decreases v@.len() - i,
    {
        if v[i].kind == k {
            let mut s: String = if k == TimerKind::LowPower {
                "LPTIM".to_owned()
            } else {
                "TIM".to_owned()
            };
            text::push_number(&mut s, v[i].number as u64);
            add_line(&mut names, s);
        }
        i += 1;
    }
    proof {
        assert(views(names@).len() == names@.len());
    }
    if names.len() > 0 {
        let mut s: String = "  ".to_owned();
        s.append(
            match k {
                TimerKind::Advanced => "Advanced",
                TimerKind::General32 => "GP 32-bit",
                TimerKind::General16 => "GP 16-bit",
                TimerKind::Basic => "Basic",
                TimerKind::LowPower => "Low-power",
            },
        );
        s.append(": ");
        let list: String = text::join(&names, ", ");
        s.append(list.as_str());
        add_line(lines, s);
    }
}

/// The lines on the timers of a chip's inventory.
pub fn timers(v: &[TimerInstance]) -> (r: Vec<String>)
    ensures
        views(r@) == timer_lines(v@),
{
    let mut r: Vec<String> = Vec::new();
    proof {
        assert(views(r@) =~= Seq::<Seq<char>>::empty());
    }
    add_timers(&mut r, v, TimerKind::Advanced);
    add_timers(&mut r, v, TimerKind::General32);
    add_timers(&mut r, v, TimerKind::General16);
    add_timers(&mut r, v, TimerKind::Basic);
    add_timers(&mut r, v, TimerKind::LowPower);
    r
}

/// The lines so far with that of a kind of bus, where there are instances of it.
pub open spec fn and_buses(lines: Seq<Seq<char>>, kind: Seq<char>, nums: Seq<u8>) -> Seq<Seq<char>> {
    if nums.len() == 0 {
        lines
    } else {
        lines.push("  "@ + kind + ": "@ + joined(numbered_names(kind, nums), ", "@))
    }
}

/// The lines so far, and one more if it holds.
pub open spec fn and_line(lines: Seq<Seq<char>>, holds: bool, line: Seq<char>) -> Seq<Seq<char>> {
    if holds {
        lines.push(line)
    } else {
        lines
    }
}

/// The lines on the buses.
pub open spec fn comms_lines(c: CommsInventory) -> Seq<Seq<char>> {
    let a = and_buses(Seq::empty(), "SPI"@, c.spi@);
    let b = and_buses(and_buses(a, "I2C"@, c.i2c@), "I3C"@, c.i3c@);
    let d = and_buses(and_buses(b, "USART"@, c.usart@), "UART"@, c.uart@);
    let e = and_buses(and_buses(d, "LPUART"@, c.lpuart@), "FDCAN"@, c.fdcan@);
    let f = and_line(and_buses(e, "UCPD"@, c.ucpd@), c.has_usb, "  USB"@);
    let g = if c.octospi == 1 {
        f.push("  OCTOSPI1"@)
    } else {
        and_line(f, c.octospi > 1, "  OCTOSPI ×"@ + decimal(c.octospi as int))
    };
    and_line(
        and_line(and_line(g, c.has_sdmmc, "  SDMMC1"@), c.has_fmc, "  FMC"@),
        c.has_hdmi_cec,
        "  HDMI-CEC"@,
    )
}

fn add_buses(lines: &mut Vec<String>, kind: &str, nums: &[u8])
    ensures
        views(final(lines)@) == and_buses(views(old(lines)@), kind@, nums@),
{
    if nums.len() > 0 {
        let names: Vec<String> = numbered(kind, nums);
        let mut s: String = "  ".to_owned();
        s.append(kind);
        s.append(": ");
        let list: String = text::join(&names, ", ");
        s.append(list.as_str());
        add_line(lines, s);
    }
}

fn add_if(lines: &mut Vec<String>, holds: bool, line: &str)
    ensures
        views(final(lines)@) == and_line(views(old(lines)@), holds, line@),
{
    if holds {
        add_line(lines, copy_text(line));
    }
}

/// The lines on the buses of a chip's inventory.
pub fn comms(c: &CommsInventory) -> (r: Vec<String>)
    ensures
        views(r@) == comms_lines(*c),
{
    let mut r: Vec<String> = Vec::new();
    proof {
        assert(views(r@) =~= Seq::<Seq<char>>::empty());
    }
    add_buses(&mut r, "SPI", &c.spi);
    add_buses(&mut r, "I2C", &c.i2c);
    add_buses(&mut r, "I3C", &c.i3c);
    add_buses(&mut r, "USART", &c.usart);
    add_buses(&mut r, "UART", &c.uart);
    add_buses(&mut r, "LPUART", &c.lpuart);
    add_buses(&mut r, "FDCAN", &c.fdcan);
    add_buses(&mut r, "UCPD", &c.ucpd);
    add_if(&mut r, c.has_usb, "  USB");
    if c.octospi == 1 {
        add_line(&mut r, "  OCTOSPI1".to_owned());
    } else if c.octospi > 1 {
        let mut s: String = "  OCTOSPI ×".to_owned();
        text::push_number(&mut s, c.octospi as u64);
        add_line(&mut r, s);
    }
    add_if(&mut r, c.has_sdmmc, "  SDMMC1");
    add_if(&mut r, c.has_fmc, "  FMC");
    add_if(&mut r, c.has_hdmi_cec, "  HDMI-CEC");
    r
}

/// The line on the high-resolution timer.
pub open spec fn hrtim_line(h: Option<HrtimFabric>) -> Seq<char> {
    match h {
        None => "  HRTIM: (not present on this MCU)"@,
        Some(x) => "  HRTIM: "@ + decimal(x.sub_timer_count as int) + " sub-timers, "@ + decimal(
            x.eev_count as int,
        ) + " EEV, "@ + decimal(x.flt_count as int) + " FLT, "@ + decimal(
            x.adc_trigger_count as int,
        ) + " ADC triggers"@,
    }
}

/// How many of the first `n` routes lead from a DAC to a comparator.
pub open spec fn dac_routes(v: Seq<PeripheralEdge>, n: int) -> int
    decreases n,
{
    if n <= 0 {
        0
    } else {
        dac_routes(v, n - 1) + match v[n - 1].kind {
            EdgeKind::DacToComp => 1int,
        }
    }
}

/// The lines on the power fabric.
pub open spec fn fabric_lines(d: McuDescriptor) -> Seq<Seq<char>> {
    seq![
        hrtim_line(d.hrtim),
        if d.edges@.len() == 0 {
            "  Inter-peripheral routing: (none)"@
        } else {
            "  DAC→COMP analog routes: "@ + decimal(dac_routes(d.edges@, d.edges@.len() as int))
        },
    ]
}

/// The lines on the power fabric of a chip's inventory.
pub fn fabric(d: &McuDescriptor) -> (r: Vec<String>)
    ensures
        views(r@) == fabric_lines(*d),
{
    let mut r: Vec<String> = Vec::new();
    let head: String = match &d.hrtim {
        None => "  HRTIM: (not present on this MCU)".to_owned(),
        Some(x) => {
            let mut s: String = "  HRTIM: ".to_owned();
            text::push_number(&mut s, x.sub_timer_count as u64);
            s.append(" sub-timers, ");
            text::push_number(&mut s, x.eev_count as u64);
            s.append(" EEV, ");
            text::push_number(&mut s, x.flt_count as u64);
            s.append(" FLT, ");
            text::push_number(&mut s, x.adc_trigger_count as u64);
            s.append(" ADC triggers");
            s
        },
    };
    add_line(&mut r, head);
    if d.edges.len() == 0 {
        add_line(&mut r, "  Inter-peripheral routing: (none)".to_owned());
    } else {
        let mut routes: u64 = 0;
        let mut i: usize = 0;
        while i < d.edges.len()
            invariant
                i <= d.edges@.len(),
                routes <= i,
                routes == dac_routes(d.edges@, i as int),
            decreases d.edges@.len() - i,
        {
            match d.edges[i].kind {
                EdgeKind::DacToComp => {
                    routes += 1;
                },
            }
            i += 1;
        }
        let mut s: String = "  DAC→COMP analog routes: ".to_owned();
        text::push_number(&mut s, routes);
        add_line(&mut r, s);
    }
    proof {
        assert(views(r@) =~= fabric_lines(*d));
    }
    r
}

} // verus!
