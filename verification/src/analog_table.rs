//! The differential pairs as they are shown: as a table, or as marks on the package.

use vstd::prelude::*;

use crate::analog_view;
use crate::analog_view::end_views;
use crate::analog_view::passes;
use crate::analog_view::AnalogFilter;
use crate::analog_view::DiffFrontEnd;
use crate::analog_view::EndView;
use crate::analog_view::Kind;
use crate::mcu_pinout::pin_name;
use crate::mcu_pinout::PinId;
use crate::text;
use crate::text::decimal;
use crate::text::lower;
use crate::text::views;
use crate::texts::copy_text;

verus! {

/// Whether a front end passes the filter, but for the chosen plus pin.
pub open spec fn is_kept(e: EndView, filter: AnalogFilter) -> bool {
    passes(e, filter.kind, filter.advanced, lower(filter.query@))
}

/// Whether a front end is in the table.
pub open spec fn in_table(e: EndView, filter: AnalogFilter) -> bool {
    is_kept(e, filter) && (filter.plus_pin is Some ==> e.plus_pin == filter.plus_pin->0)
}

/// The places of those among the first `n` that are in the table.
pub open spec fn table_upto(v: Seq<EndView>, filter: AnalogFilter, n: int) -> Seq<int>
    decreases n,
{
    if n <= 0 {
        Seq::empty()
    } else if in_table(v[n - 1], filter) {
        table_upto(v, filter, n - 1).push(n - 1)
    } else {
        table_upto(v, filter, n - 1)
    }
}

/// The places of the front ends that are in the table.
pub fn table_rows(all: &[DiffFrontEnd], filter: &AnalogFilter) -> (r: Vec<usize>)
    ensures
        r@.map_values(|i: usize| i as int) == table_upto(
            end_views(all@),
            *filter,
            all@.len() as int,
        ),
{
    let ghost v = end_views(all@);
    let q: String = text::to_lower(filter.query.as_str());
    let mut r: Vec<usize> = Vec::new();
    let mut i: usize = 0;
    proof {
        assert(r@.map_values(|i: usize| i as int) =~= table_upto(v, *filter, 0));
    }
    while i < all.len()
        invariant
            i <= all@.len(),
            v == end_views(all@),
            q@ == lower(filter.query@),
            r@.map_values(|i: usize| i as int) == table_upto(v, *filter, i as int),
        decreases all@.len() - i,
    {
        proof {
            assert(v[i as int] == all@[i as int]@);
        }
        let chosen: bool = match filter.plus_pin {
            Some(p) => all[i].plus_pin == p,
            None => true,
        };
        if chosen && analog_view::passes_base(&all[i], filter, q.as_str()) {
            let ghost had = r@;
            r.push(i);
            proof {
                assert(r@.map_values(|i: usize| i as int) =~= had.map_values(
                    |i: usize| i as int,
                ).push(i as int));
            }
        }
        i += 1;
    }
    r
}

/// Whether a chip has front ends of a kind.
pub fn has_kind(all: &[DiffFrontEnd], k: Kind) -> (r: bool)
    ensures
        r == exists|i: int| 0 <= i < all@.len() && (#[trigger] all@[i]).kind == k,
{
    let mut i: usize = 0;
    while i < all.len()
        invariant
            i <= all@.len(),
            forall|j: int| 0 <= j < i ==> (#[trigger] all@[j]).kind != k,
        decreases all@.len() - i,
    {
        if all[i].kind == k {
            return true;
        }
        i += 1;
    }
    false
}

/// A pin with its role.
pub open spec fn terminal(p: PinId, role: Seq<char>) -> Seq<char> {
    pin_name(p) + " ("@ + role + ")"@
}

fn write_terminal(p: PinId, role: &str) -> (r: String)
    ensures
        r@ == terminal(p, role@),
{
    let mut s: String = p.name();
    s.append(" (");
    s.append(role);
    s.append(")");
    s
}

/// The plus terminal of a front end.
pub fn plus_text(f: &DiffFrontEnd) -> (r: String)
    ensures
        r@ == terminal(f@.plus_pin, f@.plus_role@),
{
    write_terminal(f.plus_pin, f.plus_role)
}

/// The minus terminal of a front end, or what stands for it on the chip.
pub fn minus_text(f: &DiffFrontEnd) -> (r: String)
    ensures
        r@ == (match f@.minus {
            Some(m) => terminal(m.0, m.1@),
            None => match f@.kind {
                Kind::OpampPlus => "on-chip (PGA)"@,
                _ => "internal threshold"@,
            },
        }),
{
    match f.minus {
        Some((p, role)) => write_terminal(p, role),
        None => match f.kind {
            Kind::OpampPlus => "on-chip (PGA)".to_owned(),
            _ => "internal threshold".to_owned(),
        },
    }
}

/// The channel of a front end; in doubt, with a question mark.
pub fn channel_text(f: &DiffFrontEnd) -> (r: String)
    ensures
        r@ == (match f@.channel {
            Some(c) => if f@.channel_hedge {
                "ch"@ + decimal(c as int) + "?"@
            } else {
                "ch"@ + decimal(c as int)
            },
            None => "—"@,
        }),
{
    match f.channel {
        Some(c) => {
            let mut s: String = "ch".to_owned();
            text::push_number(&mut s, c as u64);
            if f.channel_hedge {
                s.append("?");
            }
            s
        },
        None => "—".to_owned(),
    }
}

/// What a pin is in the front ends that are kept: a plus terminal, a minus terminal, and
/// of which.
#[derive(Debug)]
pub struct PinMark {
    pub plus: bool,
    pub minus: bool,
    pub notes: Vec<String>,
}

/// A mark as a mathematical value.
pub ghost struct MarkView {
    pub plus: bool,
    pub minus: bool,
    pub notes: Seq<Seq<char>>,
}

impl View for PinMark {
    type V = MarkView;

    open spec fn view(&self) -> MarkView {
        MarkView { plus: self.plus, minus: self.minus, notes: views(self.notes@) }
    }
}

/// The mark of a pin with the first `n` front ends.
pub open spec fn mark_upto(v: Seq<EndView>, filter: AnalogFilter, p: PinId, n: int) -> MarkView
    decreases n,
{
    if n <= 0 {
        MarkView { plus: false, minus: false, notes: Seq::empty() }
    } else {
        let m = mark_upto(v, filter, p, n - 1);
        let e = v[n - 1];
        if !is_kept(e, filter) {
            m
        } else {
            let a = if e.plus_pin == p {
                MarkView {
                    plus: true,
                    notes: m.notes.push(e.instance@ + " + ("@ + e.plus_role@ + ")"@),
                    ..m
                }
            } else {
                m
            };
            match e.minus {
                Some(q) => if q.0 == p {
                    MarkView {
                        minus: true,
                        notes: a.notes.push(e.instance@ + " - ("@ + q.1@ + ")"@),
                        ..a
                    }
                } else {
                    a
                },
                None => a,
            }
        }
    }
}

fn add_note(notes: &mut Vec<String>, instance: &str, sign: &str, role: &str)
    ensures
        views(final(notes)@) == views(old(notes)@).push(instance@ + sign@ + role@ + ")"@),
{
    let mut s: String = copy_text(instance);
    s.append(sign);
    s.append(role);
    s.append(")");
    let ghost had = notes@;
    let ghost t = s@;
    notes.push(s);
    proof {
        assert(views(notes@) =~= views(had).push(t));
    }
}

/// The mark of a pin on the package.
pub fn pin_mark(all: &[DiffFrontEnd], filter: &AnalogFilter, p: PinId) -> (r: PinMark)
    ensures
        r@ == mark_upto(end_views(all@), *filter, p, all@.len() as int),
{
    let ghost v = end_views(all@);
    let q: String = text::to_lower(filter.query.as_str());
    let mut r: PinMark = PinMark { plus: false, minus: false, notes: Vec::new() };
    let mut i: usize = 0;
    proof {
        assert(r@.notes =~= Seq::<Seq<char>>::empty());
    }
    while i < all.len()
        invariant
            i <= all@.len(),
            v == end_views(all@),
            q@ == lower(filter.query@),
            r@ == mark_upto(v, *filter, p, i as int),
        decreases all@.len() - i,
    {
        proof {
            assert(v[i as int] == all@[i as int]@);
        }
        let f: &DiffFrontEnd = &all[i];
        if analog_view::passes_base(f, filter, q.as_str()) {
            if f.plus_pin == p {
                r.plus = true;
                add_note(&mut r.notes, f.instance, " + (", f.plus_role);
            }
            if let Some((m, role)) = f.minus {
                if m == p {
                    r.minus = true;
                    add_note(&mut r.notes, f.instance, " - (", role);
                }
            }
        }
        i += 1;
    }
    r
}

/// A line from the chosen plus pin to a minus pin.
#[derive(Debug)]
pub struct PairLink {
    pub to: PinId,
    pub kind: Kind,
    pub label: String,
}

/// A line as a mathematical value.
pub ghost struct LinkView {
    pub to: PinId,
    pub kind: Kind,
    pub label: Seq<char>,
}

impl View for PairLink {
    type V = LinkView;

    open spec fn view(&self) -> LinkView {
        LinkView { to: self.to, kind: self.kind, label: self.label@ }
    }
}

/// The values of lines.
pub open spec fn link_views(v: Seq<PairLink>) -> Seq<LinkView> {
    v.map_values(|l: PairLink| l@)
}

/// The line of a front end from a plus pin, where it has one.
pub open spec fn link_of(e: EndView, filter: AnalogFilter, plus: PinId) -> Option<LinkView> {
    match e.minus {
        Some(m) => if e.plus_pin == plus && is_kept(e, filter) {
            Some(
                LinkView {
                    to: m.0,
                    kind: e.kind,
                    label: match e.channel {
                        Some(c) => e.instance@ + " ch"@ + decimal(c as int),
                        None => e.instance@,
                    },
                },
            )
        } else {
            None
        },
        None => None,
    }
}

/// The lines of the first `n` front ends from a plus pin.
pub open spec fn links_from(v: Seq<EndView>, filter: AnalogFilter, plus: PinId, n: int) -> Seq<
    LinkView,
>
    decreases n,
{
    if n <= 0 {
        Seq::empty()
    } else {
        match link_of(v[n - 1], filter, plus) {
            Some(l) => links_from(v, filter, plus, n - 1).push(l),
            None => links_from(v, filter, plus, n - 1),
        }
    }
}

/// The lines from a plus pin to its partners.
pub fn pair_links(all: &[DiffFrontEnd], filter: &AnalogFilter, plus: PinId) -> (r: Vec<PairLink>)
    ensures
        link_views(r@) == links_from(end_views(all@), *filter, plus, all@.len() as int),
{
    let ghost v = end_views(all@);
    let q: String = text::to_lower(filter.query.as_str());
    let mut r: Vec<PairLink> = Vec::new();
    let mut i: usize = 0;
    proof {
        assert(link_views(r@) =~= links_from(v, *filter, plus, 0));
    }
    while i < all.len()
        invariant
            i <= all@.len(),
            v == end_views(all@),
            q@ == lower(filter.query@),
            link_views(r@) == links_from(v, *filter, plus, i as int),
        decreases all@.len() - i,
    {
        proof {
            assert(v[i as int] == all@[i as int]@);
        }
        let f: &DiffFrontEnd = &all[i];
        if f.plus_pin == plus && analog_view::passes_base(f, filter, q.as_str()) {
            if let Some((to, _)) = f.minus {
                let mut label: String = copy_text(f.instance);
                if let Some(c) = f.channel {
                    label.append(" ch");
                    text::push_number(&mut label, c as u64);
                }
                let l: PairLink = PairLink { to, kind: f.kind, label };
                let ghost had = r@;
                let ghost x = l@;
                r.push(l);
                proof {
                    assert(link_views(r@) =~= link_views(had).push(x));
                }
            }
        }
        i += 1;
    }
    r
}

} // verus!
