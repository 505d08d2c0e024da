//! Physical footprints: what each position of a package is bonded to.

use vstd::prelude::*;

use crate::mcu_pinout::pin_named;
use crate::mcu_pinout::PinId;
use crate::mcu_pinout::PinSet;
use crate::text;
use crate::text::has_prefix;
use crate::text::is_digit;
use crate::text::views;
use crate::texts;
use crate::texts::copy_text;
use crate::texts::holds_text;
use crate::texts::sorted_texts;

verus! {

/// One position of a package, and the names of what is bonded there; fused names are
/// separated by a slash.
#[derive(Clone, Debug, PartialEq, Eq)]
pub struct PhysPin {
    pub p: String,
    pub s: Vec<String>,
}

/// A position as a mathematical value.
pub ghost struct PhysView {
    pub p: Seq<char>,
    pub s: Seq<Seq<char>>,
}

impl View for PhysPin {
    type V = PhysView;

    open spec fn view(&self) -> PhysView {
        PhysView { p: self.p@, s: views(self.s@) }
    }
}

/// What a position is.
#[derive(Clone, Debug, PartialEq, Eq)]
pub enum PinFunction {
    /// Supply rails, each once, in order.
    Power(Vec<String>),
    /// General-purpose pins; more than one where pads share a ball.
    Gpio(Vec<PinId>),
    /// Reset, boot and the like.
    Dedicated(Vec<String>),
    /// Not connected.
    Nc,
}

/// A function as a mathematical value.
pub ghost enum FnView {
    Power(Seq<Seq<char>>),
    Gpio(Seq<PinId>),
    Dedicated(Seq<Seq<char>>),
    Nc,
}

impl View for PinFunction {
    type V = FnView;

    open spec fn view(&self) -> FnView {
        match self {
            PinFunction::Power(r) => FnView::Power(views(r@)),
            PinFunction::Gpio(p) => FnView::Gpio(p@),
            PinFunction::Dedicated(t) => FnView::Dedicated(views(t@)),
            PinFunction::Nc => FnView::Nc,
        }
    }
}

/// The pieces of a text between slashes: those that are complete after `n`
/// characters, and the one that has begun.
pub open spec fn pieces_upto(s: Seq<char>, n: int) -> (Seq<Seq<char>>, Seq<char>)
    decreases n,
{
    if n <= 0 {
        (Seq::empty(), Seq::empty())
    } else {
        let (done, cur) = pieces_upto(s, n - 1);
        if s[n - 1] == '/' {
            (done.push(cur), Seq::empty())
        } else {
            (done, cur.push(s[n - 1]))
        }
    }
}

/// The pieces of a text between slashes.
pub open spec fn pieces(s: Seq<char>) -> Seq<Seq<char>> {
    let (done, cur) = pieces_upto(s, s.len() as int);
    done.push(cur)
}

/// Whether a name says something: it is not empty and not `NC`.
pub open spec fn is_said(t: Seq<char>) -> bool {
    t.len() > 0 && t != "NC"@
}

/// The names among the first `n` pieces that say something.
pub open spec fn said(v: Seq<Seq<char>>, n: int) -> Seq<Seq<char>>
    decreases n,
{
    if n <= 0 {
        Seq::empty()
    } else if is_said(v[n - 1]) {
        said(v, n - 1).push(v[n - 1])
    } else {
        said(v, n - 1)
    }
}

/// The names of the first `n` entries of a position.
pub open spec fn tokens_upto(s: Seq<Seq<char>>, n: int) -> Seq<Seq<char>>
    decreases n,
{
    if n <= 0 {
        Seq::empty()
    } else {
        let v = pieces(s[n - 1]);
        tokens_upto(s, n - 1) + said(v, v.len() as int)
    }
}

/// The names of a position.
pub open spec fn tokens_of(s: Seq<Seq<char>>) -> Seq<Seq<char>> {
    tokens_upto(s, s.len() as int)
}

/// The general-purpose pins among the first `n` names.
pub open spec fn gpios(v: Seq<Seq<char>>, n: int) -> Seq<PinId>
    decreases n,
{
    if n <= 0 {
        Seq::empty()
    } else {
        match pin_named(v[n - 1]) {
            Some(p) => gpios(v, n - 1).push(p),
            None => gpios(v, n - 1),
        }
    }
}

/// Whether a name is that of a supply rail.
pub open spec fn is_rail(t: Seq<char>) -> bool {
    t.len() > 0 && t[0] == 'V'
}

/// The supply rails among the first `n` names.
pub open spec fn rails_in(v: Seq<Seq<char>>, n: int) -> Seq<Seq<char>>
    decreases n,
{
    if n <= 0 {
        Seq::empty()
    } else if is_rail(v[n - 1]) {
        rails_in(v, n - 1).push(v[n - 1])
    } else {
        rails_in(v, n - 1)
    }
}

/// The first `n` texts without those that equal their predecessor.
pub open spec fn each_once(v: Seq<Seq<char>>, n: int) -> Seq<Seq<char>>
    decreases n,
{
    if n <= 0 {
        Seq::empty()
    } else if n > 1 && v[n - 2] == v[n - 1] {
        each_once(v, n - 1)
    } else {
        each_once(v, n - 1).push(v[n - 1])
    }
}

/// The rails of a position, each once, in order.
pub open spec fn rails_of(v: Seq<Seq<char>>) -> Seq<Seq<char>> {
    let sorted = sorted_texts(rails_in(v, v.len() as int));
    each_once(sorted, sorted.len() as int)
}

/// What a position with these entries is: general-purpose if one name is a pin, else
/// power if one is a rail, else dedicated; not connected if no name says anything.
pub open spec fn function_of(s: Seq<Seq<char>>) -> FnView {
    let t = tokens_of(s);
    let n = t.len() as int;
    if n == 0 {
        FnView::Nc
    } else if gpios(t, n).len() > 0 {
        FnView::Gpio(gpios(t, n))
    } else if rails_in(t, n).len() > 0 {
        FnView::Power(rails_of(t))
    } else {
        FnView::Dedicated(t)
    }
}

fn push_pieces(s: &str, out: &mut Vec<String>)
    ensures
        views(final(out)@) == views(old(out)@) + said(pieces(s@), pieces(s@).len() as int),
{
    let ghost base = views(out@);
    let chars: Vec<char> = text::chars_of(s);
    let mut done: Vec<String> = Vec::new();
    let mut cur: Vec<char> = Vec::new();
    let mut i: usize = 0;
    proof {
        assert(views(done@) =~= pieces_upto(s@, 0).0);
        assert(cur@ =~= pieces_upto(s@, 0).1);
    }
    while i < chars.len()
        invariant
            i <= chars@.len(),
            chars@ == s@,
            views(done@) == pieces_upto(s@, i as int).0,
            cur@ == pieces_upto(s@, i as int).1,
        decreases chars@.len() - i,
    {
        if chars[i] == '/' {
            let ghost had = done@;
            let ghost c = cur@;
            done.push(text::string_of(&cur));
            cur = Vec::new();
            proof {
                assert(views(done@) =~= views(had).push(c));
                assert(cur@ =~= Seq::<char>::empty());
            }
        } else {
            cur.push(chars[i]);
        }
        i += 1;
    }
    let ghost had = done@;
    let ghost c = cur@;
    done.push(text::string_of(&cur));
    let ghost v = pieces(s@);
    proof {
        assert(views(done@) =~= views(had).push(c));
        assert(views(done@) == v);
    }
    let mut k: usize = 0;
    proof {
        assert(views(out@) =~= base + said(v, 0));
    }
    while k < done.len()
        invariant
            k <= done@.len(),
            views(done@) == v,
            views(out@) == base + said(v, k as int),
        decreases done@.len() - k,
    {
        let ghost had = out@;
        proof {
            assert(v[k as int] == done@[k as int]@);
        }
        let empty: bool = text::chars_of(done[k].as_str()).len() == 0;
        if !empty && !text::same(done[k].as_str(), "NC") {
            out.push(copy_text(done[k].as_str()));
            proof {
                assert(views(out@) =~= views(had).push(v[k as int]));
                assert(views(out@) =~= base + said(v, k + 1));
            }
        }
        k += 1;
    }
}

fn first_is_v(s: &str) -> (r: bool)
    ensures
        r == is_rail(s@),
{
    let chars: Vec<char> = text::chars_of(s);
    chars.len() > 0 && chars[0] == 'V'
}

fn drop_repeats(v: &[String]) -> (r: Vec<String>)
    ensures
        views(r@) == each_once(views(v@), v@.len() as int),
{
    let ghost w = views(v@);
    let mut out: Vec<String> = Vec::new();
    let mut k: usize = 0;
    proof {
        assert(views(out@) =~= each_once(w, 0));
    }
    while k < v.len()
        invariant
            k <= v@.len(),
            w == views(v@),
            views(out@) == each_once(w, k as int),
        decreases v@.len() - k,
    {
        let ghost had = out@;
        proof {
            assert(w[k as int] == v@[k as int]@);
            if k > 0 {
                assert(w[k - 1] == v@[k - 1]@);
            }
        }
        if k == 0 || !text::same(v[k - 1].as_str(), v[k].as_str()) {
            out.push(copy_text(v[k].as_str()));
            proof {
                assert(views(out@) =~= views(had).push(w[k as int]));
            }
        }
        k += 1;
    }
    out
}

impl PhysPin {
    /// The names of the position.
    pub fn tokens(&self) -> (r: Vec<String>)
        ensures
            views(r@) == tokens_of(self@.s),
    {
        let ghost s = views(self.s@);
        let mut out: Vec<String> = Vec::new();
        let mut i: usize = 0;
        proof {
            assert(views(out@) =~= tokens_upto(s, 0));
        }
        while i < self.s.len()
            invariant
                i <= self.s@.len(),
                s == views(self.s@),
                views(out@) == tokens_upto(s, i as int),
            decreases self.s@.len() - i,
        {
            proof {
                assert(s[i as int] == self.s@[i as int]@);
            }
            push_pieces(self.s[i].as_str(), &mut out);
            i += 1;
        }
        out
    }

    /// What the position is.
    pub fn function(&self) -> (r: PinFunction)
        ensures
            r@ == function_of(self@.s),
    {
        let tokens: Vec<String> = self.tokens();
        let ghost t = views(tokens@);
        let mut pins: Vec<PinId> = Vec::new();
        let mut rails: Vec<String> = Vec::new();
        let mut i: usize = 0;
        proof {
            assert(views(rails@) =~= rails_in(t, 0));
        }
        while i < tokens.len()
            invariant
                i <= tokens@.len(),
                t == views(tokens@),
                pins@ == gpios(t, i as int),
                views(rails@) == rails_in(t, i as int),
            decreases tokens@.len() - i,
        {
            proof {
                assert(t[i as int] == tokens@[i as int]@);
            }
            if let Some(p) = PinId::from_metapac(tokens[i].as_str()) {
                pins.push(p);
            }
            if first_is_v(tokens[i].as_str()) {
                let ghost had = rails@;
                rails.push(copy_text(tokens[i].as_str()));
                proof {
                    assert(views(rails@) =~= views(had).push(t[i as int]));
                }
            }
            i += 1;
        }
        if tokens.len() == 0 {
            PinFunction::Nc
        } else if pins.len() > 0 {
            PinFunction::Gpio(pins)
        } else if rails.len() > 0 {
            let sorted: Vec<String> = texts::sort_texts(&rails);
            PinFunction::Power(drop_repeats(&sorted))
        } else {
            PinFunction::Dedicated(tokens)
        }
    }
}

/// The footprint of a part in a package.
#[derive(Clone, Debug, PartialEq, Eq)]
pub struct PinoutRecord {
    /// The record's key.
    pub h: String,
    pub pkg: String,
    /// The package's names.
    pub names: Vec<String>,
    pub fam: String,
    pub n: u16,
    pub pins: Vec<PhysPin>,
}

/// Whether a record is of a part in a package: the part's name and one of the record's begin
/// alike, as far as the shorter goes, and the package is the one given, if any is.
pub open spec fn suits(r: PinoutRecord, name: Seq<char>, label: Seq<char>) -> bool {
    &&& label.len() == 0 || r.pkg@ == label
    &&& exists|i: int|
        0 <= i < r.names@.len() && (has_prefix(name, (#[trigger] r.names@[i])@) || has_prefix(
            r.names@[i]@,
            name,
        ))
}

fn is_suited(r: &PinoutRecord, name: &str, label: &str) -> (b: bool)
    ensures
        b == suits(*r, name@, label@),
{
    if label.unicode_len() > 0 && !text::same(r.pkg.as_str(), label) {
        return false;
    }
    let mut i: usize = 0;
    while i < r.names.len()
        invariant
            i <= r.names@.len(),
            label@.len() == 0 || r.pkg@ == label@,
            forall|k: int|
                0 <= k < i ==> !has_prefix(name@, (#[trigger] r.names@[k])@) && !has_prefix(
                    r.names@[k]@,
                    name@,
                ),
        decreases r.names@.len() - i,
    {
        let n: &str = r.names[i].as_str();
        if text::starts_with(name, n) || text::starts_with(n, name) {
            assert(has_prefix(name@, r.names@[i as int]@) || has_prefix(r.names@[i as int]@, name@));
            return true;
        }
        i += 1;
    }
    false
}

/// The footprint of a part in a package: the first record of it.
pub fn footprint_of(records: &[&'static PinoutRecord], name: &str, label: &str) -> (r: Option<
    &'static PinoutRecord,
>)
    ensures
        match r {
            Some(f) => exists|k: int|
                0 <= k < records@.len() && #[trigger] records@[k] == f && suits(*f, name@, label@)
                    && forall|j: int|
                    0 <= j < k ==> !suits(*(#[trigger] records@[j]), name@, label@),
            None => forall|k: int|
                0 <= k < records@.len() ==> !suits(*(#[trigger] records@[k]), name@, label@),
        },
{
    let mut i: usize = 0;
    while i < records.len()
        invariant
            i <= records@.len(),
            forall|j: int| 0 <= j < i ==> !suits(*(#[trigger] records@[j]), name@, label@),
        decreases records@.len() - i,
    {
        if is_suited(records[i], name, label) {
            assert(records@[i as int] == records[i as int]);
            return Some(records[i]);
        }
        i += 1;
    }
    None
}

/// The values of positions.
pub open spec fn phys_views(v: Seq<PhysPin>) -> Seq<PhysView> {
    v.map_values(|p: PhysPin| p@)
}

/// The first position of the given name, from index `k` on.
pub open spec fn position_at(pins: Seq<PhysView>, p: Seq<char>, k: int) -> Option<PhysView>
    decreases pins.len() - k,
{
    if k < 0 || k >= pins.len() {
        None
    } else if pins[k].p == p {
        Some(pins[k])
    } else {
        position_at(pins, p, k + 1)
    }
}

/// Whether one of the first `n` names is a reset or boot line.
pub open spec fn names_reset(t: Seq<Seq<char>>) -> bool {
    t.contains("NRST"@) || t.contains("BOOT0"@)
}

/// Whether the footprint names its reset or boot line.
pub open spec fn names_reset_boot(pins: Seq<PhysView>) -> bool {
    exists|i: int| 0 <= i < pins.len() && names_reset(tokens_of((#[trigger] pins[i]).s))
}

impl PinoutRecord {
    /// The position of the given name.
    pub fn at(&self, p: &str) -> (r: Option<&PhysPin>)
        ensures
            r is Some <==> position_at(phys_views(self.pins@), p@, 0) is Some,
            r matches Some(x) ==> position_at(phys_views(self.pins@), p@, 0) == Some(x@),
    {
        let ghost v = phys_views(self.pins@);
        let mut k: usize = 0;
        while k < self.pins.len()
            invariant
                k <= self.pins@.len(),
                v == phys_views(self.pins@),
                position_at(v, p@, 0) == position_at(v, p@, k as int),
            decreases self.pins@.len() - k,
        {
            proof {
                assert(v[k as int] == self.pins@[k as int]@);
            }
            if text::same(self.pins[k].p.as_str(), p) {
                return Some(&self.pins[k]);
            }
            k += 1;
        }
        None
    }

    /// Whether the footprint names its reset or boot line; some families' data does not.
    pub fn has_reset_boot(&self) -> (r: bool)
        ensures
            r == names_reset_boot(phys_views(self.pins@)),
    {
        let ghost v = phys_views(self.pins@);
        let mut k: usize = 0;
        while k < self.pins.len()
            invariant
                k <= self.pins@.len(),
                v == phys_views(self.pins@),
                forall|i: int| 0 <= i < k ==> !names_reset(tokens_of((#[trigger] v[i]).s)),
            decreases self.pins@.len() - k,
        {
            proof {
                assert(v[k as int] == self.pins@[k as int]@);
            }
            let tokens: Vec<String> = self.pins[k].tokens();
            if holds_text(&tokens, "NRST") || holds_text(&tokens, "BOOT0") {
                assert(names_reset(tokens_of(v[k as int].s)));
                return true;
            }
            k += 1;
        }
        false
    }
}

/// How many characters from position `k` on are no digits.
pub open spec fn letters(s: Seq<char>, k: int) -> int
    decreases s.len() - k,
{
    if k < 0 || k >= s.len() || is_digit(s[k]) {
        0
    } else {
        1 + letters(s, k + 1)
    }
}

/// How many characters from position `k` on are digits.
pub open spec fn digits(s: Seq<char>, k: int) -> int
    decreases s.len() - k,
{
    if k < 0 || k >= s.len() || !is_digit(s[k]) {
        0
    } else {
        1 + digits(s, k + 1)
    }
}

/// The land pattern of a package name: the letters it starts with, and the pin count
/// behind them.
pub open spec fn class_of_package(s: Seq<char>) -> Option<(Seq<char>, Seq<char>)> {
    let a = letters(s, 0);
    let b = digits(s, a);
    if a > 0 && b > 0 {
        Some((s.take(a), s.subrange(a, a + b)))
    } else {
        None
    }
}

/// A package's land pattern: kind and pin count, as written.
#[derive(Clone, Debug, PartialEq, Eq)]
pub struct PackageClass {
    pub kind: String,
    pub pins: String,
}

impl PackageClass {
    /// Whether two land patterns agree.
    pub fn same_as(&self, other: &PackageClass) -> (r: bool)
        ensures
            r == (self.kind@ == other.kind@ && self.pins@ == other.pins@),
    {
        text::same(self.kind.as_str(), other.kind.as_str()) && text::same(
            self.pins.as_str(),
            other.pins.as_str(),
        )
    }
}

proof fn letters_bound(s: Seq<char>, k: int)
    requires
        0 <= k <= s.len(),
    ensures
        0 <= letters(s, k) <= s.len() - k,
        0 <= digits(s, k) <= s.len() - k,
    decreases s.len() - k,
{
    if k < s.len() {
        letters_bound(s, k + 1);
    }
}

/// The land pattern of a package name. Two packages are board-compatible only if
/// theirs agree.
pub fn package_class(pkg: &str) -> (r: Option<PackageClass>)
    ensures
        r is Some <==> class_of_package(pkg@) is Some,
        r matches Some(c) ==> class_of_package(pkg@) == Some((c.kind@, c.pins@)),
{
    let ghost s = pkg@;
    let chars: Vec<char> = text::chars_of(pkg);
    let n: usize = chars.len();
    let mut kind: Vec<char> = Vec::new();
    let mut i: usize = 0;
    proof {
        letters_bound(s, 0);
    }
    while i < n && !is_decimal(chars[i])
        invariant
            i <= n,
            n == chars@.len(),
            chars@ == s,
            i + letters(s, i as int) == letters(s, 0),
            kind@ =~= s.take(i as int),
        decreases n - i,
    {
        kind.push(chars[i]);
        i += 1;
    }
    let ghost a = letters(s, 0);
    proof {
        assert(i == a);
        letters_bound(s, a);
    }
    let ghost b = digits(s, a);
    let mut count: Vec<char> = Vec::new();
    let mut j: usize = i;
    while j < n && is_decimal(chars[j])
        invariant
            a == i,
            i <= j <= n,
            n == chars@.len(),
            chars@ == s,
            b == digits(s, a),
            (j - i) + digits(s, j as int) == b,
            count@ =~= s.subrange(a, j as int),
        decreases n - j,
    {
        count.push(chars[j]);
        j += 1;
    }
    if i == 0 || j == i {
        None
    } else {
        Some(PackageClass { kind: text::string_of(&kind), pins: text::string_of(&count) })
    }
}

fn is_decimal(c: char) -> (r: bool)
    ensures
        r == is_digit(c),
{
    '0' <= c && c <= '9'
}

/// The general-purpose pins of the first `n` positions.
pub open spec fn bonded_upto(pins: Seq<PhysView>, n: int) -> Set<PinId>
    decreases n,
{
    if n <= 0 {
        Set::empty()
    } else {
        match function_of(pins[n - 1].s) {
            FnView::Gpio(v) => bonded_upto(pins, n - 1).union(v.to_set()),
            _ => bonded_upto(pins, n - 1),
        }
    }
}

/// The general-purpose pins that a footprint bonds.
pub fn bonded_pins(record: &PinoutRecord) -> (r: PinSet)
    ensures
        r.wf(),
        r@ == bonded_upto(phys_views(record.pins@), record.pins@.len() as int),
{
    let ghost v = phys_views(record.pins@);
    let mut out: PinSet = PinSet::new();
    let mut i: usize = 0;
    while i < record.pins.len()
        invariant
            i <= record.pins@.len(),
            v == phys_views(record.pins@),
            out.wf(),
            out@ == bonded_upto(v, i as int),
        decreases record.pins@.len() - i,
    {
        proof {
            assert(v[i as int] == record.pins@[i as int]@);
        }
        if let PinFunction::Gpio(list) = record.pins[i].function() {
            let ghost base = out@;
            let mut k: usize = 0;
            proof {
                assert(list@.take(0) =~= Seq::<PinId>::empty());
                assert(out@ =~= base.union(list@.take(0).to_set()));
            }
            while k < list.len()
                invariant
                    k <= list@.len(),
                    out.wf(),
                    out@ == base.union(list@.take(k as int).to_set()),
                decreases list@.len() - k,
            {
                out.insert(list[k]);
                proof {
                    crate::mcu_pinout::take_grows(list@, k as int);
                    assert(out@ =~= base.union(list@.take(k + 1).to_set()));
                }
                k += 1;
            }
            proof {
                assert(list@.take(k as int) =~= list@);
            }
        }
        i += 1;
    }
    out
}

} // verus!
