//! What the lists that a user browses show, in which order, and what can be chosen in them.

use vstd::prelude::*;

use crate::adc_candidates::channel_of;
use crate::adc_candidates::on_adc;
use crate::adc_candidates::ordered_on;
use crate::adc_candidates::places;
use crate::af_view::can_lock;
use crate::af_view::row_key;
use crate::af_view::shown_upto;
use crate::af_view::AfFilter;
use crate::analog_view::passes;
use crate::analog_view::EndView;
use crate::analog_view::Kind;
use crate::desc_asset::entry_for;
use crate::desc_asset::entry_starting;
use crate::desc_asset::entry_with;
use crate::desc_asset::AssetEntry;
use crate::design_laws::the_first_lock_is_read;
use crate::frontend_order_laws::sorted_holds_all;
use crate::g474::AdcInstance;
use crate::h523_design::one_each;
use crate::h523_design::pin_of;
use crate::h523_design::DesignView;
use crate::lists::grows;
use crate::lists::pushed;
use crate::mcu::chip_key;
use crate::mcu_pinout::pin_name;
use crate::mcu_pinout::AfRow;
use crate::order::order_of;
use crate::order::order_of_is_stable;
use crate::requirements::Assignment;
use crate::terminal_laws::starts;
use crate::text::has_part;
use crate::text::lower;
use vstd::utf8::encode_utf8;

verus! {

/// Whether a channel is one of the fast ones.
pub open spec fn is_fast(channel: u8) -> bool {
    1 <= channel <= 5
}

proof fn those_on_an_adc(v: Seq<Assignment>, adc: AdcInstance, n: int, a: Assignment)
    requires
        0 <= n <= v.len(),
    ensures
        on_adc(v, adc, n).len() <= n,
        on_adc(v, adc, n).contains(a) <==> v.take(n).contains(a) && (a matches Assignment::AdcConversion {
            adc: x,
            ..
        } && x == adc),
    decreases n,
{
    if n > 0 {
        those_on_an_adc(v, adc, n - 1, a);
        grows(v, n, a);
        if on_adc(v, adc, n) != on_adc(v, adc, n - 1) {
            pushed(on_adc(v, adc, n - 1), on_adc(v, adc, n), v[n - 1], a);
        }
    }
}

/// The choices on an ADC are the conversions on it, the fast channels first, each group by
/// channel.
pub proof fn fast_channels_come_first(v: Seq<Assignment>, adc: AdcInstance, a: Assignment)
    requires
        v.len() <= usize::MAX,
    ensures
        ordered_on(v, adc).contains(a) <==> v.contains(a) && (a matches Assignment::AdcConversion {
            adc: x,
            ..
        } && x == adc),
        forall|i: int, j: int|
            #![trigger ordered_on(v, adc)[i], ordered_on(v, adc)[j]]
            0 <= i < j < ordered_on(v, adc).len() ==> {
                let c = channel_of(ordered_on(v, adc)[i]);
                let d = channel_of(ordered_on(v, adc)[j]);
                &&& is_fast(d) ==> is_fast(c)
                &&& is_fast(c) == is_fast(d) ==> c <= d
            },
{
    let group = on_adc(v, adc, v.len() as int);
    let keys = places(group);
    let r = ordered_on(v, adc);
    let o = order_of(keys);
    those_on_an_adc(v, adc, v.len() as int, a);
    assert(v.take(v.len() as int) =~= v);
    sorted_holds_all(group, keys);
    order_of_is_stable(keys);
    assert(r.contains(a) <==> group.contains(a));
    assert forall|i: int, j: int|
        #![trigger r[i], r[j]]
        0 <= i < j < r.len() implies {
        let c = channel_of(r[i]);
        let d = channel_of(r[j]);
        &&& is_fast(d) ==> is_fast(c)
        &&& is_fast(c) == is_fast(d) ==> c <= d
    } by {
        let x = o[i] as int;
        let y = o[j] as int;
        assert(o[i] < group.len() && o[j] < group.len());
        assert(r[i] == group[x] && r[j] == group[y]);
        assert(keys[x] <= keys[y]);
    }
}

/// Whether a row is about a text, whatever the case of its letters.
pub open spec fn is_about(r: AfRow, q: Seq<char>) -> bool {
    ||| q.len() == 0
    ||| has_part(lower(r.signal.peripheral@), lower(q))
    ||| has_part(lower(r.signal.role@), lower(q))
    ||| has_part(lower(pin_name(r.pin)), lower(q))
}

/// A row is shown exactly where it is of the chosen peripheral and port, about what is
/// searched for, and locked to its pin where only those are asked for.
pub proof fn shown_rows_pass_each_filter(
    f: AfFilter,
    rows: Seq<AfRow>,
    design: Option<DesignView>,
    n: int,
    r: AfRow,
)
    requires
        0 <= n <= rows.len(),
    ensures
        shown_upto(f, rows, design, n).contains(r) <==> {
            &&& rows.take(n).contains(r)
            &&& f.peripheral matches Some(p) ==> r.signal.peripheral@ == p@
            &&& f.port matches Some(c) ==> r.pin.port == c
            &&& is_about(r, f.query@)
            &&& f.locked_only && design is Some ==> pin_of(
                design->0.locks,
                (r.signal.peripheral@, r.signal.role@),
                0,
            ) == Some(r.pin)
        },
    decreases n,
{
    if n > 0 {
        shown_rows_pass_each_filter(f, rows, design, n - 1, r);
        grows(rows, n, r);
        let had = shown_upto(f, rows, design, n - 1);
        let now = shown_upto(f, rows, design, n);
        if crate::af_view::is_shown(f, rows[n - 1], design) {
            pushed(had, now, rows[n - 1], r);
        }
    }
}

/// A row can be locked exactly where its signal is not on its pin already and no other signal
/// is.
pub proof fn locking_takes_no_pin_away(d: DesignView, r: AfRow)
    requires
        one_each(d.locks),
    ensures
        can_lock(d, r) <==> forall|i: int|
            0 <= i < d.locks.len() ==> (#[trigger] d.locks[i]).pin != r.pin,
{
    let key = row_key(r);
    the_first_lock_is_read(d.locks, key, r.pin);
    if can_lock(d, r) {
        assert forall|i: int| 0 <= i < d.locks.len() implies (#[trigger] d.locks[i]).pin != r.pin by {
            if d.locks[i].pin == r.pin {
                let k = choose|k: int|
                    0 <= k < d.locks.len() && (#[trigger] d.locks[k]).pin == r.pin && d.locks[k].key
                        == key;
                if k < i {
                    assert(d.locks[k].pin != d.locks[i].pin);
                } else if i < k {
                    assert(d.locks[i].pin != d.locks[k].pin);
                }
                let m = choose|m: int|
                    0 <= m < d.locks.len() && (#[trigger] d.locks[m]).key == key && Some(
                        d.locks[m].pin,
                    ) == pin_of(d.locks, key, 0);
                if k < m {
                    assert(d.locks[k].key != d.locks[m].key);
                } else if m < k {
                    assert(d.locks[m].key != d.locks[k].key);
                }
            }
        }
    }
}

/// A front end passes a filter exactly where it is of the chosen kind, has its minus on the
/// chip unless both terminals as pins are asked for too, and is about what is searched for.
pub proof fn front_ends_pass_each_filter(e: EndView, kind: Option<Kind>, advanced: bool, q: Seq<char>)
    ensures
        passes(e, kind, advanced, q) <==> {
            &&& kind matches Some(k) ==> e.kind == k
            &&& e.external_minus ==> advanced
            &&& q.len() == 0 || has_part(
                lower(
                    e.instance@ + " "@ + pin_name(e.plus_pin) + " "@ + e.plus_role@ + " "@ + (
                    match e.minus {
                        Some(m) => pin_name(m.0) + " "@ + m.1@,
                        None => Seq::<char>::empty(),
                    }),
                ),
                q,
            )
        },
{
}

proof fn the_entry_with(v: Seq<AssetEntry>, prefix: Seq<char>, k: int)
    requires
        0 <= k,
    ensures
        entry_with(v, prefix, k) matches Some(i) ==> k <= i < v.len() && v[i].prefix@ == prefix,
        entry_with(v, prefix, k) is None ==> forall|i: int|
            k <= i < v.len() ==> (#[trigger] v[i]).prefix@ != prefix,
    decreases v.len() - k,
{
    if k < v.len() {
        the_entry_with(v, prefix, k + 1);
    }
}

proof fn the_entry_starting(v: Seq<AssetEntry>, name: Seq<char>, k: int)
    requires
        0 <= k,
    ensures
        entry_starting(v, name, k) matches Some(i) ==> k <= i < v.len() && starts(name, v[i].prefix@)
            && forall|j: int| k <= j < i ==> !starts(name, (#[trigger] v[j]).prefix@),
        entry_starting(v, name, k) is None ==> forall|i: int|
            k <= i < v.len() ==> !starts(name, (#[trigger] v[i]).prefix@),
    decreases v.len() - k,
{
    if k < v.len() {
        the_entry_starting(v, name, k + 1);
    }
}

/// A chip's entry is the one of its line and package letter where its name is long enough and
/// there is one, else the first that its name begins with; none where there is neither.
pub proof fn a_chip_has_the_entry_of_its_line(v: Seq<AssetEntry>, name: Seq<char>)
    ensures
        entry_for(v, name) matches Some(i) ==> 0 <= i < v.len() && ((encode_utf8(name).len() >= 10
            && v[i].prefix@ == chip_key(name)) || (starts(name, v[i].prefix@) && forall|j: int|
            0 <= j < i ==> !starts(name, (#[trigger] v[j]).prefix@))),
        entry_for(v, name) is None ==> forall|i: int|
            0 <= i < v.len() ==> !starts(name, (#[trigger] v[i]).prefix@) && (encode_utf8(name).len()
                >= 10 ==> v[i].prefix@ != chip_key(name)),
        encode_utf8(name).len() >= 10 && (exists|i: int|
            0 <= i < v.len() && (#[trigger] v[i]).prefix@ == chip_key(name)) ==> (entry_for(
            v,
            name,
        ) matches Some(i) && v[i].prefix@ == chip_key(name)),
{
    the_entry_with(v, chip_key(name), 0);
    the_entry_starting(v, name, 0);
}

} // verus!
