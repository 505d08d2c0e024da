//! What the positions of a footprint are, read off their names, and what a package name says.

use vstd::prelude::*;

use crate::frontend_order_laws::sorted_holds_all;
use crate::lists::grows;
use crate::lists::in_either;
use crate::lists::pushed;
use crate::mcu_pinout::pin_named;
use crate::mcu_pinout::PinId;
use crate::phys_pinout::bonded_upto;
use crate::phys_pinout::class_of_package;
use crate::phys_pinout::digits;
use crate::phys_pinout::each_once;
use crate::phys_pinout::function_of;
use crate::phys_pinout::gpios;
use crate::phys_pinout::letters;
use crate::phys_pinout::pieces;
use crate::phys_pinout::pieces_upto;
use crate::phys_pinout::position_at;
use crate::phys_pinout::rails_in;
use crate::phys_pinout::said;
use crate::phys_pinout::tokens_of;
use crate::phys_pinout::tokens_upto;
use crate::phys_pinout::FnView;
use crate::phys_pinout::PhysView;
use crate::texts::sorted_texts;
use crate::texts::text_ranks;

verus! {

/// Whether a text has a slash in it.
pub open spec fn has_slash(s: Seq<char>) -> bool {
    s.contains('/')
}

/// The texts with a slash between each two.
pub open spec fn with_slashes(v: Seq<Seq<char>>) -> Seq<char>
    decreases v.len(),
{
    if v.len() == 0 {
        Seq::empty()
    } else if v.len() == 1 {
        v[0]
    } else {
        with_slashes(v.drop_last()).push('/') + v.last()
    }
}

proof fn pieces_so_far(s: Seq<char>, n: int)
    requires
        0 <= n <= s.len(),
    ensures
        ({
            let (done, cur) = pieces_upto(s, n);
            &&& with_slashes(done.push(cur)) == s.take(n)
            &&& !has_slash(cur)
            &&& forall|i: int| 0 <= i < done.len() ==> !has_slash(#[trigger] done[i])
        }),
    decreases n,
{
    let (done, cur) = pieces_upto(s, n);
    if n > 0 {
        pieces_so_far(s, n - 1);
        let (had, was) = pieces_upto(s, n - 1);
        let c = s[n - 1];
        assert(s.take(n) =~= s.take(n - 1).push(c));
        if c == '/' {
            let v = done.push(cur);
            assert(v.drop_last() =~= had.push(was));
            assert(with_slashes(v) =~= with_slashes(had.push(was)).push('/'));
        } else {
            let a = had.push(was);
            let b = had.push(cur);
            assert(a.drop_last() =~= had && b.drop_last() =~= had);
            pushed(was, cur, c, '/');
            if had.len() == 0 {
                assert(with_slashes(b) =~= with_slashes(a).push(c));
            } else {
                assert(with_slashes(b) =~= with_slashes(a).push(c));
            }
        }
    } else {
        assert(s.take(0) =~= Seq::<char>::empty());
        assert(with_slashes(done.push(cur)) =~= s.take(0));
    }
}

/// The pieces of a text are what stands between its slashes: none has one, and with a slash
/// between each two they are the text again.
pub proof fn pieces_make_the_text(s: Seq<char>)
    ensures
        pieces(s).len() > 0,
        with_slashes(pieces(s)) == s,
        forall|i: int| 0 <= i < pieces(s).len() ==> !has_slash(#[trigger] pieces(s)[i]),
{
    pieces_so_far(s, s.len() as int);
    assert(s.take(s.len() as int) =~= s);
}

/// Whether one of a position's entries says a name: it is a piece of the entry, not empty and
/// not `NC`.
pub open spec fn says(s: Seq<Seq<char>>, t: Seq<char>) -> bool {
    t.len() > 0 && t != "NC"@ && exists|i: int|
        0 <= i < s.len() && pieces(#[trigger] s[i]).contains(t)
}

proof fn said_are_said(v: Seq<Seq<char>>, n: int, t: Seq<char>)
    requires
        0 <= n <= v.len(),
    ensures
        said(v, n).contains(t) <==> v.take(n).contains(t) && t.len() > 0 && t != "NC"@,
    decreases n,
{
    if n > 0 {
        said_are_said(v, n - 1, t);
        grows(v, n, t);
        if said(v, n) != said(v, n - 1) {
            pushed(said(v, n - 1), said(v, n), v[n - 1], t);
        }
    }
}

proof fn tokens_are_said(s: Seq<Seq<char>>, n: int, t: Seq<char>)
    requires
        0 <= n <= s.len(),
    ensures
        tokens_upto(s, n).contains(t) <==> t.len() > 0 && t != "NC"@ && exists|i: int|
            0 <= i < n && pieces(#[trigger] s[i]).contains(t),
    decreases n,
{
    if n > 0 {
        tokens_are_said(s, n - 1, t);
        let v = pieces(s[n - 1]);
        said_are_said(v, v.len() as int, t);
        assert(v.take(v.len() as int) =~= v);
        in_either(tokens_upto(s, n - 1), said(v, v.len() as int), t);
        if v.contains(t) {
            assert(pieces(s[n - 1]).contains(t));
        }
    }
}

proof fn gpios_are_named(v: Seq<Seq<char>>, n: int, p: PinId)
    requires
        0 <= n <= v.len(),
    ensures
        gpios(v, n).contains(p) <==> exists|i: int|
            0 <= i < n && pin_named(#[trigger] v[i]) == Some(p),
    decreases n,
{
    if n > 0 {
        gpios_are_named(v, n - 1, p);
        if let Some(q) = pin_named(v[n - 1]) {
            pushed(gpios(v, n - 1), gpios(v, n), q, p);
        }
    }
}

proof fn rails_are_named(v: Seq<Seq<char>>, n: int, t: Seq<char>)
    requires
        0 <= n <= v.len(),
    ensures
        rails_in(v, n).len() <= n,
        rails_in(v, n).contains(t) <==> v.take(n).contains(t) && t.len() > 0 && t[0] == 'V',
    decreases n,
{
    if n > 0 {
        rails_are_named(v, n - 1, t);
        grows(v, n, t);
        if rails_in(v, n) != rails_in(v, n - 1) {
            pushed(rails_in(v, n - 1), rails_in(v, n), v[n - 1], t);
        }
    }
}

proof fn each_once_holds(v: Seq<Seq<char>>, n: int, t: Seq<char>)
    requires
        0 <= n <= v.len(),
    ensures
        each_once(v, n).contains(t) <==> v.take(n).contains(t),
    decreases n,
{
    if n > 0 {
        each_once_holds(v, n - 1, t);
        grows(v, n, t);
        if n > 1 && v[n - 2] == v[n - 1] {
            assert(v.take(n - 1)[n - 2] == v[n - 1]);
            if t == v[n - 1] {
                assert(v.take(n - 1).contains(t));
            }
        } else {
            pushed(each_once(v, n - 1), each_once(v, n), v[n - 1], t);
        }
    }
}

/// Whether one of the names is that of a pin.
pub open spec fn says_a_pin(s: Seq<Seq<char>>, p: PinId) -> bool {
    exists|t: Seq<char>| #[trigger] says(s, t) && pin_named(t) == Some(p)
}

/// A position is a pin where one of its names is that of a pin, and then the pins are those
/// named; else it is a supply where one begins with `V`, and the rails are those that do; else
/// it is dedicated to what its names say, and not connected where they say nothing.
pub proof fn names_say_what_a_position_is(s: Seq<Seq<char>>, p: PinId, t: Seq<char>)
    requires
        tokens_of(s).len() <= usize::MAX,
    ensures
        match function_of(s) {
            FnView::Gpio(pins) => pins.contains(p) <==> says_a_pin(s, p),
            FnView::Power(rails) => {
                &&& !says_a_pin(s, p)
                &&& rails.contains(t) <==> says(s, t) && t[0] == 'V'
            },
            FnView::Dedicated(names) => {
                &&& !says_a_pin(s, p)
                &&& names.contains(t) <==> says(s, t)
                &&& says(s, t) ==> t[0] != 'V'
            },
            FnView::Nc => !says(s, t),
        },
        function_of(s) matches FnView::Gpio(pins) ==> pins.len() > 0,
        function_of(s) matches FnView::Power(rails) ==> rails.len() > 0,
        function_of(s) matches FnView::Dedicated(names) ==> names.len() > 0,
{
    let v = tokens_of(s);
    let n = v.len() as int;
    tokens_are_said(s, s.len() as int, t);
    assert(v.contains(t) <==> says(s, t));
    gpios_are_named(v, n, p);
    assert(gpios(v, n).contains(p) <==> says_a_pin(s, p)) by {
        if gpios(v, n).contains(p) {
            let i = choose|i: int| 0 <= i < n && pin_named(#[trigger] v[i]) == Some(p);
            assert(v.contains(v[i]));
            tokens_are_said(s, s.len() as int, v[i]);
            assert(says(s, v[i]));
        }
        if says_a_pin(s, p) {
            let x = choose|x: Seq<char>| #[trigger] says(s, x) && pin_named(x) == Some(p);
            tokens_are_said(s, s.len() as int, x);
            let i = choose|i: int| 0 <= i < v.len() && v[i] == x;
            assert(pin_named(v[i]) == Some(p));
        }
    }
    rails_are_named(v, n, t);
    assert(v.take(n) =~= v);
    let r = rails_in(v, n);
    if r.len() == 0 && says(s, t) && t[0] == 'V' {
        assert(r.contains(t));
    }
    let sorted = sorted_texts(r);
    sorted_holds_all(r, text_ranks(r));
    each_once_holds(sorted, sorted.len() as int, t);
    assert(sorted.take(sorted.len() as int) =~= sorted);
    assert(sorted.contains(t) <==> r.contains(t));
    if r.len() > 0 {
        let x = sorted[0];
        assert(sorted.contains(x));
        each_once_holds(sorted, sorted.len() as int, x);
        assert(each_once(sorted, sorted.len() as int).contains(x));
    }
    if gpios(v, n).len() == 0 {
        assert(!gpios(v, n).contains(p));
    }
}

/// A footprint bonds the pins that its positions name.
pub proof fn bonded_pins_are_named(pins: Seq<PhysView>, n: int, p: PinId)
    requires
        0 <= n <= pins.len(),
    ensures
        bonded_upto(pins, n).contains(p) <==> exists|i: int|
            0 <= i < n && (function_of((#[trigger] pins[i]).s) matches FnView::Gpio(v)
                && v.contains(p)),
    decreases n,
{
    if n > 0 {
        bonded_pins_are_named(pins, n - 1, p);
        if let FnView::Gpio(v) = function_of(pins[n - 1].s) {
            assert(v.to_set().contains(p) <==> v.contains(p));
        }
    }
}

/// The position of a name is the first one that has it.
pub proof fn a_position_is_the_first_of_its_name(pins: Seq<PhysView>, p: Seq<char>, k: int)
    requires
        0 <= k,
        forall|j: int| 0 <= j < k && j < pins.len() ==> (#[trigger] pins[j]).p != p,
    ensures
        position_at(pins, p, k) is None ==> forall|i: int|
            0 <= i < pins.len() ==> (#[trigger] pins[i]).p != p,
        position_at(pins, p, k) matches Some(x) ==> exists|i: int|
            0 <= i < pins.len() && #[trigger] pins[i] == x && x.p == p && forall|j: int|
                0 <= j < i ==> (#[trigger] pins[j]).p != p,
    decreases pins.len() - k,
{
    if k < pins.len() && pins[k].p != p {
        a_position_is_the_first_of_its_name(pins, p, k + 1);
    }
}

/// Whether a character is a digit.
pub open spec fn is_figure(c: char) -> bool {
    48 <= c as u32 <= 57
}

proof fn runs(s: Seq<char>, k: int)
    requires
        0 <= k,
    ensures
        0 <= letters(s, k),
        0 <= digits(s, k),
        k <= s.len() ==> k + letters(s, k) <= s.len(),
        k <= s.len() ==> k + digits(s, k) <= s.len(),
        forall|i: int| k <= i < k + letters(s, k) ==> !is_figure(#[trigger] s[i]),
        forall|i: int| k <= i < k + digits(s, k) ==> is_figure(#[trigger] s[i]),
        k + letters(s, k) < s.len() && k < s.len() ==> is_figure(s[k + letters(s, k)]),
        k + digits(s, k) < s.len() && k < s.len() ==> !is_figure(s[k + digits(s, k)]),
    decreases s.len() - k,
{
    if k < s.len() {
        runs(s, k + 1);
    }
}

/// A land pattern is the letters that a package name begins with and the digits right behind
/// them; a name that does not begin with letters and digits has none.
pub proof fn a_land_pattern_is_letters_and_digits(s: Seq<char>)
    ensures
        class_of_package(s) matches Some((kind, count)) ==> {
            &&& kind.len() > 0 && count.len() > 0
            &&& forall|i: int| 0 <= i < kind.len() ==> !is_figure(#[trigger] kind[i])
            &&& forall|i: int| 0 <= i < count.len() ==> is_figure(#[trigger] count[i])
            &&& kind.len() + count.len() <= s.len()
            &&& s.take((kind.len() + count.len()) as int) == kind + count
            &&& kind.len() + count.len() < s.len() ==> !is_figure(
                s[(kind.len() + count.len()) as int],
            )
        },
        class_of_package(s) is None ==> s.len() == 0 || is_figure(s[0]) || forall|i: int|
            0 <= i < s.len() ==> !is_figure(#[trigger] s[i]),
{
    let a = letters(s, 0);
    runs(s, 0);
    runs(s, a);
    let b = digits(s, a);
    if a > 0 && b > 0 {
        let kind = s.take(a);
        let count = s.subrange(a, a + b);
        assert(s.take(a + b) =~= kind + count);
        assert forall|i: int| 0 <= i < kind.len() implies !is_figure(#[trigger] kind[i]) by {
            assert(kind[i] == s[i]);
        }
        assert forall|i: int| 0 <= i < count.len() implies is_figure(#[trigger] count[i]) by {
            assert(count[i] == s[a + i]);
        }
    } else if a > 0 && a < s.len() {
        assert(is_figure(s[a]));
        assert(digits(s, a) >= 1);
    }
}

} // verus!
