//! Picking free ADC inputs.

use vstd::prelude::*;

use crate::frontend_plan::Slot;
use crate::ranked;
use crate::ranked::includes;
use crate::ranked::Ranked;
use crate::text;

verus! {

/// The first input from position `k` on that is not in use.
pub open spec fn free_slot(opts: Seq<Slot>, used: Seq<Slot>, k: int) -> Option<Slot>
    decreases opts.len() - k,
{
    if k < 0 || k >= opts.len() {
        None
    } else if includes(used, opts[k]) {
        free_slot(opts, used, k + 1)
    } else {
        Some(opts[k])
    }
}

/// The first free input of a list that may not be there.
pub open spec fn opt_free(opts: Option<Seq<Slot>>, used: Seq<Slot>) -> Option<Slot> {
    match opts {
        Some(o) => free_slot(o, used, 0),
        None => None,
    }
}

/// The list as a mathematical value.
pub open spec fn opt_view(opts: Option<&Vec<Slot>>) -> Option<Seq<Slot>> {
    match opts {
        Some(o) => Some(o@),
        None => None,
    }
}

/// The first input of `b` from position `k` on that is free and on another ADC
/// than `a`.
pub open spec fn other_adc(a: Slot, b: Seq<Slot>, used: Seq<Slot>, k: int) -> Option<Slot>
    decreases b.len() - k,
{
    if k < 0 || k >= b.len() {
        None
    } else if b[k].0@ != a.0@ && !includes(used, b[k]) {
        Some(b[k])
    } else {
        other_adc(a, b, used, k + 1)
    }
}

/// The first pair of free inputs on different ADCs, from position `k` of `a` on.
pub open spec fn cross_pair(a: Seq<Slot>, b: Seq<Slot>, used: Seq<Slot>, k: int) -> Option<
    (Slot, Slot),
>
    decreases a.len() - k,
{
    if k < 0 || k >= a.len() {
        None
    } else if includes(used, a[k]) {
        cross_pair(a, b, used, k + 1)
    } else {
        match other_adc(a[k], b, used, 0) {
            Some(s) => Some((a[k], s)),
            None => cross_pair(a, b, used, k + 1),
        }
    }
}

/// What is in use after one more input has been taken, if one has.
pub open spec fn used_after(used: Seq<Slot>, s: Option<Slot>) -> Seq<Slot> {
    match s {
        Some(x) => used.push(x),
        None => used,
    }
}

/// One input for each end: on different ADCs where two such are free, else any two
/// different free ones.
pub open spec fn cross_slots(
    a: Option<Seq<Slot>>,
    b: Option<Seq<Slot>>,
    used: Seq<Slot>,
) -> (Option<Slot>, Option<Slot>) {
    match (a, b) {
        (Some(x), Some(y)) => match cross_pair(x, y, used, 0) {
            Some((s, t)) => (Some(s), Some(t)),
            None => {
                let s = free_slot(x, used, 0);
                (s, free_slot(y, used_after(used, s), 0))
            },
        },
        _ => (opt_free(a, used), opt_free(b, used)),
    }
}

/// The first free input of a list, avoiding those in use.
pub fn pick_free_slot(opts: Option<&Vec<Slot>>, used: &[Slot]) -> (r: Option<Slot>)
    ensures
        r == opt_free(opt_view(opts), used@),
{
    match opts {
        Some(o) => {
            let mut k: usize = 0;
            while k < o.len()
                invariant
                    k <= o@.len(),
                    opt_view(opts) == Some(o@),
                    free_slot(o@, used@, 0) == free_slot(o@, used@, k as int),
                decreases o@.len() - k,
            {
                if !ranked::holds(used, &o[k]) {
                    return Some(o[k]);
                }
                k += 1;
            }
            None
        },
        None => None,
    }
}

/// Two inputs, one from each list, on different ADCs where that can be had,
/// avoiding those in use.
pub fn pick_cross_slots(a: Option<&Vec<Slot>>, b: Option<&Vec<Slot>>, used: &[Slot]) -> (r: (
    Option<Slot>,
    Option<Slot>,
))
    ensures
        r == cross_slots(opt_view(a), opt_view(b), used@),
{
    let (x, y): (&Vec<Slot>, &Vec<Slot>) = match (a, b) {
        (Some(x), Some(y)) => (x, y),
        _ => {
            return (pick_free_slot(a, used), pick_free_slot(b, used));
        },
    };
    let mut i: usize = 0;
    while i < x.len()
        invariant
            i <= x@.len(),
            opt_view(a) == Some(x@),
            opt_view(b) == Some(y@),
            cross_pair(x@, y@, used@, 0) == cross_pair(x@, y@, used@, i as int),
        decreases x@.len() - i,
    {
        if !ranked::holds(used, &x[i]) {
            let mut k: usize = 0;
            while k < y.len()
                invariant
                    i < x@.len(),
                    k <= y@.len(),
                    opt_view(a) == Some(x@),
                    opt_view(b) == Some(y@),
                    !includes(used@, x@[i as int]),
                    cross_pair(x@, y@, used@, 0) == cross_pair(x@, y@, used@, i as int),
                    other_adc(x@[i as int], y@, used@, 0) == other_adc(
                        x@[i as int],
                        y@,
                        used@,
                        k as int,
                    ),
                decreases y@.len() - k,
            {
                if !text::same(y[k].0, x[i].0) && !ranked::holds(used, &y[k]) {
                    return (Some(x[i]), Some(y[k]));
                }
                k += 1;
            }
        }
        i += 1;
    }
    let s: Option<Slot> = pick_free_slot(a, used);
    let mut more: Vec<Slot> = Vec::new();
    let mut c: usize = 0;
    while c < used.len()
        invariant
            c <= used@.len(),
            more@ =~= used@.take(c as int),
        decreases used@.len() - c,
    {
        more.push(used[c]);
        c += 1;
    }
    if let Some(t) = s {
        more.push(t);
    }
    proof {
        assert(more@ =~= used_after(used@, s));
    }
    let t: Option<Slot> = pick_free_slot(b, &more);
    (s, t)
}

/// A picked input is one of the list and not in use.
pub proof fn free_slot_is_free(opts: Seq<Slot>, used: Seq<Slot>, k: int)
    ensures
        free_slot(opts, used, k) matches Some(s) ==> opts.contains(s) && !includes(used, s),
    decreases opts.len() - k,
{
    if 0 <= k < opts.len() && includes(used, opts[k]) {
        free_slot_is_free(opts, used, k + 1);
    }
}

proof fn other_adc_is_free(a: Slot, b: Seq<Slot>, used: Seq<Slot>, k: int)
    ensures
        other_adc(a, b, used, k) matches Some(s) ==> b.contains(s) && !includes(used, s) && s.0@ != a.0@,
    decreases b.len() - k,
{
    if 0 <= k < b.len() && !(b[k].0@ != a.0@ && !includes(used, b[k])) {
        other_adc_is_free(a, b, used, k + 1);
    }
}

proof fn cross_pair_is_free(a: Seq<Slot>, b: Seq<Slot>, used: Seq<Slot>, k: int)
    ensures
        cross_pair(a, b, used, k) matches Some((s, t)) ==> a.contains(s) && b.contains(t) && !includes(
            used,
            s,
        ) && !includes(used, t) && s.0@ != t.0@,
    decreases a.len() - k,
{
    if 0 <= k < a.len() {
        other_adc_is_free(a[k], b, used, 0);
        cross_pair_is_free(a, b, used, k + 1);
    }
}

/// Two inputs picked together are of their lists, free, and different.
pub proof fn cross_slots_are_free(a: Seq<Slot>, b: Seq<Slot>, used: Seq<Slot>)
    requires
        cross_slots(Some(a), Some(b), used).0 is Some,
        cross_slots(Some(a), Some(b), used).1 is Some,
    ensures
        ({
            let s = cross_slots(Some(a), Some(b), used).0->0;
            let t = cross_slots(Some(a), Some(b), used).1->0;
            &&& a.contains(s)
            &&& b.contains(t)
            &&& !includes(used, s)
            &&& !includes(used, t)
            &&& !(s.0@ == t.0@ && s.1 == t.1)
        }),
{
    cross_pair_is_free(a, b, used, 0);
    free_slot_is_free(a, used, 0);
    if cross_pair(a, b, used, 0) is None {
        let s = free_slot(a, used, 0);
        let more = used_after(used, s);
        free_slot_is_free(b, more, 0);
        if let Some(x) = s {
            let t = free_slot(b, more, 0)->0;
            assert(more[used.len() as int] == x);
            if includes(used, t) {
                let i = choose|i: int| 0 <= i < used.len() && (#[trigger] used[i]).alike(&t);
                assert(more[i].alike(&t));
            }
            if x.0@ == t.0@ {
                assert(more[used.len() as int].alike(&t) <==> x.1 == t.1);
            }
        }
    }
}

} // verus!
