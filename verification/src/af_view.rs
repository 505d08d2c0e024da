//! The table of pins and alternate functions: which rows it shows, and what can be
//! locked there.

use vstd::prelude::*;

use crate::h523_design::pin_of;
use crate::h523_design::signal_on;
use crate::h523_design::DesignView;
use crate::h523_design::H523Design;
use crate::mcu_pinout;
use crate::mcu_pinout::pin_name;
use crate::mcu_pinout::rows_of;
use crate::mcu_pinout::AfRow;
use crate::mcu_pinout::PinId;
use crate::mcu_raw::RawMcuData;
use crate::text;
use crate::text::has_part;
use crate::text::lower;
use crate::texts::copy_text;

verus! {

/// Which rows are asked for.
#[derive(Clone, Debug)]
pub struct AfFilter {
    pub peripheral: Option<&'static str>,
    pub port: Option<char>,
    pub query: String,
    pub locked_only: bool,
}

impl Default for AfFilter {
    fn default() -> (r: Self)
        ensures
            r.peripheral is None,
            r.port is None,
            r.query@ == ""@,
            !r.locked_only,
    {
        AfFilter { peripheral: None, port: None, query: "".to_owned(), locked_only: false }
    }
}

/// The signal of a row.
pub open spec fn row_key(r: AfRow) -> (Seq<char>, Seq<char>) {
    (r.signal.peripheral@, r.signal.role@)
}

/// Whether a row matches a text, in any case.
pub open spec fn matches_query(r: AfRow, q: Seq<char>) -> bool {
    q.len() == 0 || has_part(lower(r.signal.peripheral@), lower(q)) || has_part(
        lower(r.signal.role@),
        lower(q),
    ) || has_part(lower(pin_name(r.pin)), lower(q))
}

/// Whether a row is shown. `design` is what can be locked in, if anything.
pub open spec fn is_shown(f: AfFilter, r: AfRow, design: Option<DesignView>) -> bool {
    &&& f.peripheral matches Some(p) ==> r.signal.peripheral@ == p@
    &&& f.port matches Some(c) ==> r.pin.port == c
    &&& matches_query(r, f.query@)
    &&& design matches Some(d) ==> f.locked_only ==> pin_of(d.locks, row_key(r), 0) == Some(r.pin)
}

/// The rows among the first `n` that are shown.
pub open spec fn shown_upto(f: AfFilter, rows: Seq<AfRow>, design: Option<DesignView>, n: int) -> Seq<
    AfRow,
>
    decreases n,
{
    if n <= 0 {
        Seq::empty()
    } else if is_shown(f, rows[n - 1], design) {
        shown_upto(f, rows, design, n - 1).push(rows[n - 1])
    } else {
        shown_upto(f, rows, design, n - 1)
    }
}

/// An optional design's value.
pub open spec fn opt_design(d: Option<&H523Design>) -> Option<DesignView> {
    match d {
        Some(x) => Some(x@),
        None => None,
    }
}

fn part_matches(s: &str, q: &str) -> (r: bool)
    ensures
        r == has_part(lower(s@), q@),
{
    let l: String = text::to_lower(s);
    text::contains(l.as_str(), q)
}

fn row_shown(f: &AfFilter, q: &str, r: &AfRow, design: Option<&H523Design>) -> (b: bool)
    requires
        q@ == lower(f.query@),
    ensures
        b == is_shown(*f, *r, opt_design(design)),
{
    if let Some(p) = f.peripheral {
        if !text::same(r.signal.peripheral, p) {
            return false;
        }
    }
    if let Some(c) = f.port {
        if r.pin.port != c {
            return false;
        }
    }
    let name: String = r.pin.name();
    let hit: bool = part_matches(r.signal.peripheral, q) || part_matches(r.signal.role, q)
        || part_matches(name.as_str(), q);
    if !hit {
        proof {
            if f.query@.len() == 0 {
                let s = lower(r.signal.peripheral@);
                assert(q@ =~= Seq::<char>::empty());
                assert(s.subrange(0, 0 + q@.len() as int) =~= q@);
                assert(has_part(s, q@));
            }
        }
        return false;
    }
    match design {
        Some(d) => if f.locked_only {
            match d.locked_pin(r.signal.peripheral, r.signal.role) {
                Some(p) => p == r.pin,
                None => false,
            }
        } else {
            true
        },
        None => true,
    }
}

/// The rows that are shown.
pub fn filter_rows(raw: &RawMcuData, f: &AfFilter, design: Option<&H523Design>) -> (r: Vec<AfRow>)
    ensures
        r@ == shown_upto(*f, rows_of(*raw), opt_design(design), rows_of(*raw).len() as int),
{
    let rows: Vec<AfRow> = mcu_pinout::af_rows(raw);
    let q: String = text::to_lower(f.query.as_str());
    let mut out: Vec<AfRow> = Vec::new();
    let mut i: usize = 0;
    while i < rows.len()
        invariant
            i <= rows@.len(),
            q@ == lower(f.query@),
            out@ == shown_upto(*f, rows@, opt_design(design), i as int),
        decreases rows@.len() - i,
    {
        if row_shown(f, q.as_str(), &rows[i], design) {
            out.push(rows[i]);
        }
        i += 1;
    }
    out
}

/// Whether a row's pin is free for its signal, or taken by that signal.
pub open spec fn is_free_for(d: DesignView, r: AfRow) -> bool {
    signal_on(d.locks, r.pin, 0) is None || signal_on(d.locks, r.pin, 0) == Some(row_key(r))
}

/// Whether a row can be locked now: its signal is elsewhere or nowhere, and its pin is
/// free for it.
pub open spec fn can_lock(d: DesignView, r: AfRow) -> bool {
    pin_of(d.locks, row_key(r), 0) != Some(r.pin) && is_free_for(d, r)
}

fn free_for(d: &H523Design, r: &AfRow) -> (b: bool)
    ensures
        b == is_free_for(d@, *r),
{
    match d.occupant_of(r.pin) {
        None => true,
        Some((p, role)) => text::same(p, r.signal.peripheral) && text::same(role, r.signal.role),
    }
}

fn locked_here(d: &H523Design, r: &AfRow) -> (b: bool)
    ensures
        b == (pin_of(d@.locks, row_key(*r), 0) == Some(r.pin)),
{
    match d.locked_pin(r.signal.peripheral, r.signal.role) {
        Some(p) => p == r.pin,
        None => false,
    }
}

/// The first of the shown rows that can be locked.
pub fn enter_target(rows: &[AfRow], d: &H523Design) -> (r: Option<usize>)
    ensures
        r matches Some(i) ==> i < rows@.len() && can_lock(d@, rows@[i as int]) && forall|k: int|
            0 <= k < i ==> !can_lock(d@, #[trigger] rows@[k]),
        r is None ==> forall|k: int| 0 <= k < rows@.len() ==> !can_lock(d@, #[trigger] rows@[k]),
{
    let mut i: usize = 0;
    while i < rows.len()
        invariant
            i <= rows@.len(),
            forall|k: int| 0 <= k < i ==> !can_lock(d@, #[trigger] rows@[k]),
        decreases rows@.len() - i,
    {
        if !locked_here(d, &rows[i]) && free_for(d, &rows[i]) {
            return Some(i);
        }
        i += 1;
    }
    None
}

/// What a row offers.
#[derive(Clone, Debug)]
pub enum LockCell {
    /// The signal is locked here.
    Unlock,
    /// A button with a label, which works or not.
    Lock { label: String, enabled: bool },
}

/// The label of a row whose signal is not locked there.
pub open spec fn lock_text(d: DesignView, r: AfRow) -> Seq<char> {
    match pin_of(d.locks, row_key(r), 0) {
        Some(p) => "(at "@ + pin_name(p) + ")"@,
        None => match signal_on(d.locks, r.pin, 0) {
            Some(k) => "(used by "@ + k.0 + " "@ + k.1 + ")"@,
            None => "lock"@,
        },
    }
}

/// What a row offers in a design.
pub fn lock_cell(d: &H523Design, r: &AfRow) -> (c: LockCell)
    ensures
        c is Unlock <==> pin_of(d@.locks, row_key(*r), 0) == Some(r.pin),
        c matches LockCell::Lock { label, enabled } ==> label@ == lock_text(d@, *r) && enabled
            == is_free_for(d@, *r),
{
    if locked_here(d, r) {
        return LockCell::Unlock;
    }
    let enabled: bool = free_for(d, r);
    let label: String = match d.locked_pin(r.signal.peripheral, r.signal.role) {
        Some(p) => {
            let mut s: String = copy_text("(at ");
            let n: String = p.name();
            s.append(n.as_str());
            s.append(")");
            s
        },
        None => match d.occupant_of(r.pin) {
            Some((p, role)) => {
                let mut s: String = copy_text("(used by ");
                s.append(p);
                s.append(" ");
                s.append(role);
                s.append(")");
                s
            },
            None => copy_text("lock"),
        },
    };
    LockCell::Lock { label, enabled }
}

/// A change of a lock.
#[derive(Clone, Debug)]
pub enum LockAction {
    Lock { peripheral: String, role: String, pin: PinId },
    Unlock { peripheral: String, role: String },
}

/// Apply a change of a lock.
pub fn apply_lock(d: &mut H523Design, action: &LockAction)
    ensures
        action matches LockAction::Lock { peripheral, role, pin } ==> final(d)@ == (DesignView {
            locks: crate::h523_design::locked(old(d)@.locks, (peripheral@, role@), *pin),
            ..old(d)@
        }),
        action matches LockAction::Unlock { peripheral, role } ==> final(d)@ == (DesignView {
            locks: crate::h523_design::unlocked(old(d)@.locks, (peripheral@, role@)),
            ..old(d)@
        }),
{
    match action {
        LockAction::Lock { peripheral, role, pin } => {
            d.lock(peripheral.as_str(), role.as_str(), *pin);
        },
        LockAction::Unlock { peripheral, role } => {
            d.unlock(peripheral.as_str(), role.as_str());
        },
    }
}

} // verus!
