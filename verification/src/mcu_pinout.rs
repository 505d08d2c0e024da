//! Pins, logical signals, and the lookups between them.

use vstd::prelude::*;

use crate::mcu_raw::RawMcuData;
use crate::mcu_raw::RawPeripheral;
use crate::ranked;
use crate::ranked::ascends;
use crate::names::filter_step;
use crate::ranked::with;
use crate::text;
use crate::text::byte_spelled;
use crate::text::decimal;

verus! {

/// A pin, whatever chip it is on. "PA0" is `PinId { port: 'A', num: 0 }`.
#[derive(Copy, Clone, Debug, PartialEq, Eq, Structural, Hash, PartialOrd, Ord)]
pub struct PinId {
    pub port: char,
    pub num: u8,
}

/// The pin that a name such as "PA0" stands for, when it stands for one: a `P`,
/// an upper-case port letter, and the pin's number.
pub open spec fn pin_named(s: Seq<char>) -> Option<PinId> {
    if s.len() >= 3 && s[0] == 'P' && 65 <= s[1] as u32 <= 90 {
        match byte_spelled(s.skip(2)) {
            Some(num) => Some(PinId { port: s[1], num }),
            None => None,
        }
    } else {
        None
    }
}

/// Pins are ordered by port, then by number.
pub open spec fn pin_before(a: PinId, b: PinId) -> bool {
    (a.port as int) < (b.port as int) || (a.port == b.port && a.num < b.num)
}

/// A pin's place in the order of all pins, as one number.
pub open spec fn pin_rank(p: PinId) -> int {
    (p.port as u32 as int) * 256 + p.num
}

/// The name of a pin.
pub open spec fn pin_name(p: PinId) -> Seq<char> {
    seq!['P', p.port] + decimal(p.num as int)
}

impl PinId {
    /// Read a pin name such as "PA0".
    pub fn from_metapac(s: &str) -> (r: Option<PinId>)
        ensures
            r == pin_named(s@),
    {
        let n: usize = s.unicode_len();
        if n < 3 {
            return None;
        }
        let head: char = s.get_char(0);
        let port: char = s.get_char(1);
        let u: u32 = port as u32;
        if head != 'P' || u < 65 || u > 90 {
            return None;
        }
        proof {
            assert(s@.subrange(2, n as int) =~= s@.skip(2));
        }
        match text::parse_byte(s.substring_char(2, n)) {
            Some(num) => Some(PinId { port, num }),
            None => None,
        }
    }

    /// The pin's name, e.g. "PA0".
    pub fn name(self) -> (r: String)
        ensures
            r@ == pin_name(self),
    {
        let mut s: String = String::new();
        s.push('P');
        s.push(self.port);
        text::push_number(&mut s, self.num as u64);
        proof {
            assert(s@ =~= pin_name(self));
        }
        s
    }

    /// The pin's place in the order of all pins.
    pub fn rank(self) -> (r: u64)
        ensures
            r as int == pin_rank(self),
    {
        let p: u32 = self.port as u32;
        p as u64 * 256 + self.num as u64
    }

    /// Whether this pin comes before another one.
    pub fn is_before(self, other: PinId) -> (r: bool)
        ensures
            r == pin_before(self, other),
    {
        self.port < other.port || (self.port == other.port && self.num < other.num)
    }
}

/// The rank orders pins as `pin_before` does, and tells any two apart.
pub proof fn pin_rank_is_order(a: PinId, b: PinId)
    ensures
        pin_before(a, b) <==> pin_rank(a) < pin_rank(b),
        a == b <==> pin_rank(a) == pin_rank(b),
{
    char_fits(a.port);
    char_fits(b.port);
}

proof fn char_fits(c: char)
    ensures
        c as u32 as int == c as int,
        0 <= c as int <= 0x10ffff,
{
}

/// A pin name read back is the pin.
pub proof fn pin_name_reads_back(p: PinId)
    requires
        65 <= p.port as u32 <= 90,
    ensures
        pin_named(pin_name(p)) == Some(p),
{
    let s = pin_name(p);
    let d = decimal(p.num as int);
    decimal_reads_back(p.num as int);
    assert(s.skip(2) =~= d);
    assert(s[0] == 'P' && s[1] == p.port);
    assert(d[0] != '+') by {
        assert(text::is_digit(d[0]));
    }
}

/// The digits of a number spell the number.
pub proof fn decimal_reads_back(n: int)
    requires
        0 <= n,
    ensures
        decimal(n).len() > 0,
        text::all_digits(decimal(n)),
        text::digits_value(decimal(n)) == n,
    decreases n,
{
    let d = decimal(n);
    if n < 10 {
        assert(d.drop_last() =~= Seq::<char>::empty());
        assert(text::digits_value(d.drop_last()) == 0);
    } else {
        decimal_reads_back(n / 10);
        assert(d.drop_last() =~= decimal(n / 10));
        assert forall|i: int| 0 <= i < d.len() implies text::is_digit(#[trigger] d[i]) by {
            if i < d.len() - 1 {
                assert(d[i] == decimal(n / 10)[i]);
            }
        }
    }
}

/// A set of pins, kept in ascending order.
#[derive(Clone, Debug, PartialEq, Eq)]
pub struct PinSet {
    pub pins: Vec<PinId>,
}

/// Each pin comes before the next one.
pub open spec fn pins_ascend(v: Seq<PinId>) -> bool {
    forall|i: int, j: int| 0 <= i < j < v.len() ==> pin_before(#[trigger] v[i], #[trigger] v[j])
}

impl View for PinSet {
    type V = Set<PinId>;

    open spec fn view(&self) -> Set<PinId> {
        self.pins@.to_set()
    }
}

impl PinSet {
    /// The pins are in ascending order, so none occurs twice.
    pub open spec fn wf(&self) -> bool {
        pins_ascend(self.pins@)
    }

    /// The empty set.
    pub fn new() -> (r: PinSet)
        ensures
            r.wf(),
            r@ == Set::<PinId>::empty(),
    {
        let r = PinSet { pins: Vec::new() };
        proof {
            assert(r@ =~= Set::<PinId>::empty());
        }
        r
    }

    /// How many pins the set has.
    pub fn len(&self) -> (r: usize)
        requires
            self.wf(),
        ensures
            r == self@.len(),
    {
        proof {
            assert(self.pins@.no_duplicates());
            self.pins@.unique_seq_to_set();
        }
        self.pins.len()
    }

    /// Whether the set is empty.
    pub fn is_empty(&self) -> (r: bool)
        ensures
            r == (self@ =~= Set::<PinId>::empty()),
    {
        proof {
            if self.pins@.len() > 0 {
                assert(self@.contains(self.pins@[0]));
            }
        }
        self.pins.len() == 0
    }

    /// Whether the set holds the pin.
    pub fn contains(&self, p: &PinId) -> (r: bool)
        ensures
            r == self@.contains(*p),
    {
        let mut i: usize = 0;
        while i < self.pins.len()
            invariant
                i <= self.pins@.len(),
                forall|j: int| 0 <= j < i ==> self.pins@[j] != *p,
            decreases self.pins@.len() - i,
        {
            if self.pins[i] == *p {
                assert(self@.contains(self.pins@[i as int]));
                return true;
            }
            i += 1;
        }
        false
    }

    /// Add a pin.
    pub fn insert(&mut self, p: PinId)
        requires
            old(self).wf(),
        ensures
            final(self).wf(),
            final(self)@ == old(self)@.insert(p),
    {
        let mut i: usize = 0;
        while i < self.pins.len() && self.pins[i].is_before(p)
            invariant
                i <= self.pins@.len(),
                self.pins@ == old(self).pins@,
                forall|j: int| 0 <= j < i ==> pin_before(self.pins@[j], p),
            decreases self.pins@.len() - i,
        {
            i += 1;
        }
        let ghost v = self.pins@;
        if i < self.pins.len() && self.pins[i] == p {
            proof {
                assert(self@ =~= old(self)@.insert(p)) by {
                    assert(v.contains(p));
                }
            }
            return ;
        }
        self.pins.insert(i, p);
        proof {
            let w = self.pins@;
            assert forall|a: int, b: int| 0 <= a < b < w.len() implies pin_before(
                #[trigger] w[a],
                #[trigger] w[b],
            ) by {
                let oa = if a < i { a } else { a - 1 };
                let ob = if b < i { b } else { b - 1 };
                if a != i {
                    assert(w[a] == v[oa]);
                }
                if b != i {
                    assert(w[b] == v[ob]);
                }
                if a == i {
                    pin_rank_is_order(v[i as int], p);
                    pin_rank_is_order(v[ob], p);
                    pin_rank_is_order(p, v[ob]);
                    pin_rank_is_order(v[i as int], v[ob]);
                }
            }
            assert(self@ =~= old(self)@.insert(p)) by {
                assert forall|x: PinId| self@.contains(x) <==> old(self)@.insert(p).contains(x) by {
                    if old(self)@.contains(x) {
                        let k = choose|k: int| 0 <= k < v.len() && v[k] == x;
                        assert(w[if k < i { k } else { k + 1 }] == x);
                    }
                    if x == p {
                        assert(w[i as int] == x);
                    }
                    if self@.contains(x) {
                        let k = choose|k: int| 0 <= k < w.len() && w[k] == x;
                        if k < i {
                            assert(v[k] == x);
                        } else if k > i {
                            assert(v[k - 1] == x);
                        }
                    }
                }
            }
        }
    }

    /// Take a pin out.
    pub fn remove(&mut self, p: PinId)
        requires
            old(self).wf(),
        ensures
            final(self).wf(),
            final(self)@ == old(self)@.remove(p),
    {
        let ghost v = self.pins@;
        let mut i: usize = 0;
        while i < self.pins.len()
            invariant
                i <= self.pins@.len(),
                self.pins@ == v,
                v == old(self).pins@,
                pins_ascend(v),
                forall|j: int| 0 <= j < i ==> v[j] != p,
            decreases self.pins@.len() - i,
        {
            if self.pins[i] == p {
                self.pins.remove(i);
                proof {
                    let w = self.pins@;
                    assert forall|a: int, b: int| 0 <= a < b < w.len() implies pin_before(
                        #[trigger] w[a],
                        #[trigger] w[b],
                    ) by {
                        assert(w[a] == v[if a < i { a } else { a + 1 }]);
                        assert(w[b] == v[if b < i { b } else { b + 1 }]);
                    }
                    assert forall|x: PinId| self@.contains(x) <==> old(self)@.remove(p).contains(
                        x,
                    ) by {
                        if self@.contains(x) {
                            let k = choose|k: int| 0 <= k < w.len() && w[k] == x;
                            let m = if k < i { k } else { k + 1 };
                            assert(v[m] == x);
                            if x == p {
                                pin_rank_is_order(v[m], v[i as int]);
                                pin_rank_is_order(v[i as int], v[m]);
                            }
                        }
                        if old(self)@.remove(p).contains(x) {
                            let k = choose|k: int| 0 <= k < v.len() && v[k] == x;
                            assert(k != i);
                            assert(w[if k < i { k } else { k - 1 }] == x);
                        }
                    }
                    assert(self@ =~= old(self)@.remove(p));
                }
                return ;
            }
            i += 1;
        }
        proof {
            assert(self@ =~= old(self)@.remove(p));
        }
    }

    /// The pins of this set that are not in the other one.
    pub fn difference(&self, other: &PinSet) -> (r: PinSet)
        requires
            self.wf(),
        ensures
            r.wf(),
            r@ == self@.difference(other@),
    {
        let mut out = PinSet::new();
        let mut i: usize = 0;
        while i < self.pins.len()
            invariant
                i <= self.pins@.len(),
                out.wf(),
                forall|x: PinId| #[trigger]
                    out@.contains(x) <==> (self.pins@.take(i as int).contains(x)
                        && !other@.contains(x)),
            decreases self.pins@.len() - i,
        {
            let p: PinId = self.pins[i];
            if !other.contains(&p) {
                out.insert(p);
            }
            proof {
                take_grows(self.pins@, i as int);
            }
            i += 1;
        }
        proof {
            assert(self.pins@.take(i as int) =~= self.pins@);
            assert(out@ =~= self@.difference(other@));
        }
        out
    }
}

/// A longer prefix holds one item more.
pub proof fn take_grows<T>(s: Seq<T>, i: int)
    requires
        0 <= i < s.len(),
    ensures
        s.take(i + 1) == s.take(i).push(s[i]),
        forall|x: T| #[trigger] s.take(i + 1).contains(x) <==> (s.take(i).contains(x) || x == s[i]),
{
    let a = s.take(i);
    let b = s.take(i + 1);
    assert(b =~= a.push(s[i]));
    assert forall|x: T| #[trigger] b.contains(x) <==> (a.contains(x) || x == s[i]) by {
        if a.contains(x) {
            let k = choose|k: int| 0 <= k < a.len() && a[k] == x;
            assert(b[k] == x);
        }
        if x == s[i] {
            assert(b[i] == x);
        }
        if b.contains(x) {
            let k = choose|k: int| 0 <= k < b.len() && b[k] == x;
            if k < i {
                assert(a[k] == x);
            }
        }
    }
}

/// A logical pin role on a peripheral instance: `peripheral` is the instance
/// name ("USART1"), `role` the signal name ("TX").
#[derive(Copy, Clone, Debug, PartialEq, Eq, Hash)]
pub struct SignalId {
    pub peripheral: &'static str,
    pub role: &'static str,
}

/// Whether two signals have the same instance and role.
pub open spec fn same_signal(a: SignalId, b: SignalId) -> bool {
    a.peripheral@ == b.peripheral@ && a.role@ == b.role@
}

/// A signal that owns its names.
#[derive(Clone, Debug, PartialEq, Eq)]
pub struct OwnedSignal {
    pub peripheral: String,
    pub role: String,
}

impl OwnedSignal {
    /// The instance and the role, as characters.
    pub open spec fn key(&self) -> (Seq<char>, Seq<char>) {
        (self.peripheral@, self.role@)
    }

    /// A signal of the given names.
    pub fn new(peripheral: &str, role: &str) -> (r: OwnedSignal)
        ensures
            r.key() == (peripheral@, role@),
    {
        OwnedSignal { peripheral: peripheral.to_owned(), role: role.to_owned() }
    }
}

/// One row of the pin table: `pin` carries `signal` at alternate function `af`,
/// or, without one, as an analog signal.
#[derive(Copy, Clone, Debug)]
pub struct AfRow {
    pub pin: PinId,
    pub signal: SignalId,
    pub af: Option<u8>,
}

/// The rows of the first `n` pins of a peripheral; a pin name that is none gives
/// no row.
pub open spec fn pin_rows(p: RawPeripheral, n: int) -> Seq<AfRow>
    decreases n,
{
    if n <= 0 {
        Seq::empty()
    } else {
        let pp = p.pins@[n - 1];
        match pin_named(pp.pin@) {
            Some(pin) => pin_rows(p, n - 1).push(
                AfRow {
                    pin,
                    signal: SignalId { peripheral: p.name, role: pp.signal },
                    af: pp.af,
                },
            ),
            None => pin_rows(p, n - 1),
        }
    }
}

/// The rows of the first `n` peripherals.
pub open spec fn rows_upto(ps: Seq<RawPeripheral>, n: int) -> Seq<AfRow>
    decreases n,
{
    if n <= 0 {
        Seq::empty()
    } else {
        rows_upto(ps, n - 1) + pin_rows(ps[n - 1], ps[n - 1].pins@.len() as int)
    }
}

/// All rows of a chip, peripheral by peripheral and pin by pin.
pub open spec fn rows_of(raw: RawMcuData) -> Seq<AfRow> {
    rows_upto(raw.peripherals@, raw.peripherals@.len() as int)
}

/// All rows of the chip's pin table.
pub fn af_rows(raw: &RawMcuData) -> (r: Vec<AfRow>)
    ensures
        r@ == rows_of(*raw),
{
    let mut out: Vec<AfRow> = Vec::new();
    let mut i: usize = 0;
    while i < raw.peripherals.len()
        invariant
            i <= raw.peripherals@.len(),
            out@ == rows_upto(raw.peripherals@, i as int),
        decreases raw.peripherals@.len() - i,
    {
        let p: &RawPeripheral = &raw.peripherals[i];
        let ghost done = out@;
        let mut k: usize = 0;
        proof {
            assert(done + pin_rows(*p, 0) =~= done);
        }
        while k < p.pins.len()
            invariant
                k <= p.pins@.len(),
                out@ == done + pin_rows(*p, k as int),
            decreases p.pins@.len() - k,
        {
            let pp = p.pins[k];
            if let Some(pin) = PinId::from_metapac(pp.pin) {
                let row = AfRow {
                    pin,
                    signal: SignalId { peripheral: p.name, role: pp.signal },
                    af: pp.af,
                };
                out.push(row);
                proof {
                    assert(out@ =~= done + pin_rows(*p, k + 1));
                }
            }
            k += 1;
        }
        i += 1;
    }
    out
}

/// The rows that carry a given signal.
pub fn placements_for(raw: &RawMcuData, sig: SignalId) -> (r: Vec<AfRow>)
    ensures
        r@ == rows_of(*raw).filter(|row: AfRow| same_signal(row.signal, sig)),
{
    let rows: Vec<AfRow> = af_rows(raw);
    let ghost p = |row: AfRow| same_signal(row.signal, sig);
    let mut out: Vec<AfRow> = Vec::new();
    let mut i: usize = 0;
    proof {
        reveal(Seq::filter);
        assert(rows@.take(0).filter(p) =~= Seq::<AfRow>::empty());
    }
    while i < rows.len()
        invariant
            i <= rows@.len(),
            p == |row: AfRow| same_signal(row.signal, sig),
            out@ == rows@.take(i as int).filter(p),
        decreases rows@.len() - i,
    {
        let row = rows[i];
        proof {
            filter_step(rows@, i as int, p);
        }
        if text::same(row.signal.peripheral, sig.peripheral) && text::same(
            row.signal.role,
            sig.role,
        ) {
            out.push(row);
        }
        i += 1;
    }
    proof {
        assert(rows@.take(i as int) =~= rows@);
    }
    out
}

/// The rows of a given pin.
pub fn signals_on(raw: &RawMcuData, pin: PinId) -> (r: Vec<AfRow>)
    ensures
        r@ == rows_of(*raw).filter(|row: AfRow| row.pin == pin),
{
    let rows: Vec<AfRow> = af_rows(raw);
    let ghost p = |row: AfRow| row.pin == pin;
    let mut out: Vec<AfRow> = Vec::new();
    let mut i: usize = 0;
    proof {
        reveal(Seq::filter);
        assert(rows@.take(0).filter(p) =~= Seq::<AfRow>::empty());
    }
    while i < rows.len()
        invariant
            i <= rows@.len(),
            p == |row: AfRow| row.pin == pin,
            out@ == rows@.take(i as int).filter(p),
        decreases rows@.len() - i,
    {
        let row = rows[i];
        proof {
            filter_step(rows@, i as int, p);
        }
        if row.pin == pin {
            out.push(row);
        }
        i += 1;
    }
    proof {
        assert(rows@.take(i as int) =~= rows@);
    }
    out
}

/// The names of the first `n` peripherals that have a pin, ascending.
pub open spec fn pinned_upto(ps: Seq<RawPeripheral>, n: int) -> Seq<&'static str>
    decreases n,
{
    if n <= 0 {
        Seq::empty()
    } else if ps[n - 1].pins@.len() > 0 {
        with(pinned_upto(ps, n - 1), ps[n - 1].name)
    } else {
        pinned_upto(ps, n - 1)
    }
}

/// The distinct names of the peripherals that have a pin, in ascending order.
pub fn peripherals_with_pins(raw: &RawMcuData) -> (r: Vec<&'static str>)
    ensures
        r@ == pinned_upto(raw.peripherals@, raw.peripherals@.len() as int),
        ascends(r@),
{
    let mut out: Vec<&'static str> = Vec::new();
    let mut i: usize = 0;
    while i < raw.peripherals.len()
        invariant
            i <= raw.peripherals@.len(),
            ascends(out@),
            out@ == pinned_upto(raw.peripherals@, i as int),
        decreases raw.peripherals@.len() - i,
    {
        if raw.peripherals[i].pins.len() > 0 {
            ranked::insert(&mut out, raw.peripherals[i].name);
        }
        i += 1;
    }
    out
}

} // verus!
