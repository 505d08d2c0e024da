//! What the marks and the lines of the analog map come from.

use vstd::prelude::*;

use crate::analog_table::is_kept;
use crate::analog_table::links_from;
use crate::analog_table::link_of;
use crate::analog_table::mark_upto;
use crate::analog_table::table_upto;
use crate::analog_view::AnalogFilter;
use crate::analog_view::EndView;
use crate::mcu_pinout::PinId;

verus! {

/// Whether a front end that is shown has its plus terminal on a pin.
pub open spec fn has_plus(v: Seq<EndView>, filter: AnalogFilter, p: PinId, n: int) -> bool {
    exists|i: int| 0 <= i < n && is_kept(#[trigger] v[i], filter) && v[i].plus_pin == p
}

/// Whether a front end that is shown has its minus terminal on a pin.
pub open spec fn has_minus(v: Seq<EndView>, filter: AnalogFilter, p: PinId, n: int) -> bool {
    exists|i: int|
        0 <= i < n && is_kept(#[trigger] v[i], filter) && v[i].minus is Some && (v[i].minus->0).0
            == p
}

/// A pin is marked for the terminals that it has in the front ends that are shown, with a note
/// for each of them.
pub proof fn marks_are_of_terminals(v: Seq<EndView>, filter: AnalogFilter, p: PinId, n: int)
    requires
        0 <= n <= v.len(),
    ensures
        mark_upto(v, filter, p, n).plus <==> has_plus(v, filter, p, n),
        mark_upto(v, filter, p, n).minus <==> has_minus(v, filter, p, n),
        mark_upto(v, filter, p, n).notes.len() > 0 <==> has_plus(v, filter, p, n) || has_minus(
            v,
            filter,
            p,
            n,
        ),
    decreases n,
{
    if n > 0 {
        marks_are_of_terminals(v, filter, p, n - 1);
        let e = v[n - 1];
        assert(is_kept(e, filter) && e.plus_pin == p ==> has_plus(v, filter, p, n));
        assert(is_kept(e, filter) && e.minus is Some && (e.minus->0).0 == p ==> has_minus(
            v,
            filter,
            p,
            n,
        ));
        if has_plus(v, filter, p, n - 1) {
            let i = choose|i: int|
                0 <= i < n - 1 && is_kept(#[trigger] v[i], filter) && v[i].plus_pin == p;
            assert(is_kept(v[i], filter));
        }
        if has_minus(v, filter, p, n - 1) {
            let i = choose|i: int|
                0 <= i < n - 1 && is_kept(#[trigger] v[i], filter) && v[i].minus is Some && (
                v[i].minus->0).0 == p;
            assert(is_kept(v[i], filter));
        }
    }
}

/// Whether a front end that is shown goes from one pin to another.
pub open spec fn joins(e: EndView, filter: AnalogFilter, plus: PinId, to: PinId) -> bool {
    is_kept(e, filter) && e.plus_pin == plus && e.minus is Some && (e.minus->0).0 == to
}

/// Each line on the map is of a front end between its two pins.
pub proof fn lines_are_of_front_ends(
    v: Seq<EndView>,
    filter: AnalogFilter,
    plus: PinId,
    n: int,
    k: int,
)
    requires
        0 <= n <= v.len(),
        0 <= k < links_from(v, filter, plus, n).len(),
    ensures
        exists|i: int|
            0 <= i < n && joins(#[trigger] v[i], filter, plus, links_from(v, filter, plus, n)[k].to)
                && v[i].kind == links_from(v, filter, plus, n)[k].kind,
    decreases n,
{
    if n > 0 {
        let had = links_from(v, filter, plus, n - 1);
        let l = links_from(v, filter, plus, n)[k];
        if k < had.len() {
            lines_are_of_front_ends(v, filter, plus, n - 1, k);
            assert(had[k] == l);
            let i = choose|i: int|
                0 <= i < n - 1 && joins(#[trigger] v[i], filter, plus, had[k].to) && v[i].kind
                    == had[k].kind;
            assert(joins(v[i], filter, plus, l.to));
        } else {
            assert(joins(v[n - 1], filter, plus, l.to));
        }
    }
}

/// Each front end between two pins that is shown is a line on the map.
pub proof fn each_front_end_is_a_line(
    v: Seq<EndView>,
    filter: AnalogFilter,
    plus: PinId,
    to: PinId,
    n: int,
    i: int,
)
    requires
        0 <= i < n <= v.len(),
        joins(v[i], filter, plus, to),
    ensures
        exists|k: int|
            0 <= k < links_from(v, filter, plus, n).len() && (#[trigger] links_from(
                v,
                filter,
                plus,
                n,
            )[k]).to == to && links_from(v, filter, plus, n)[k].kind == v[i].kind,
    decreases n,
{
    let now = links_from(v, filter, plus, n);
    if i < n - 1 {
        each_front_end_is_a_line(v, filter, plus, to, n - 1, i);
        let had = links_from(v, filter, plus, n - 1);
        let k = choose|k: int|
            0 <= k < had.len() && (#[trigger] had[k]).to == to && had[k].kind == v[i].kind;
        assert(now[k] == had[k]);
    } else {
        assert(link_of(v[i], filter, plus) is Some);
        assert(now[now.len() - 1].to == to);
    }
}

/// The table lists the places of the front ends that are shown, in order; where a pin is picked,
/// only those that have their plus terminal on it.
pub proof fn the_table_lists_what_is_shown(v: Seq<EndView>, filter: AnalogFilter, n: int)
    requires
        0 <= n <= v.len(),
    ensures
        forall|i: int|
            0 <= i < n ==> (table_upto(v, filter, n).contains(i) <==> is_kept(
                #[trigger] v[i],
                filter,
            ) && (filter.plus_pin matches Some(p) ==> v[i].plus_pin == p)),
        forall|a: int, b: int|
            #![trigger table_upto(v, filter, n)[a], table_upto(v, filter, n)[b]]
            0 <= a < b < table_upto(v, filter, n).len() ==> table_upto(v, filter, n)[a]
                < table_upto(v, filter, n)[b],
        forall|a: int|
            0 <= a < table_upto(v, filter, n).len() ==> 0 <= #[trigger] table_upto(v, filter, n)[a]
                < n,
    decreases n,
{
    if n > 0 {
        the_table_lists_what_is_shown(v, filter, n - 1);
        let had = table_upto(v, filter, n - 1);
        let now = table_upto(v, filter, n);
        assert forall|i: int| 0 <= i < n implies (now.contains(i) <==> is_kept(
            #[trigger] v[i],
            filter,
        ) && (filter.plus_pin matches Some(p) ==> v[i].plus_pin == p)) by {
            if i < n - 1 {
                if had.contains(i) {
                    let k = choose|k: int| 0 <= k < had.len() && had[k] == i;
                    assert(now[k] == i);
                }
                if now.contains(i) {
                    let k = choose|k: int| 0 <= k < now.len() && now[k] == i;
                    assert(k < had.len());
                    assert(had[k] == i);
                }
            } else {
                if now != had {
                    assert(now[now.len() - 1] == i);
                }
                if had.contains(i) {
                    let k = choose|k: int| 0 <= k < had.len() && had[k] == i;
                    assert(had[k] < n - 1);
                }
            }
        }
    }
}

} // verus!
