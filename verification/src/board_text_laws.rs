//! What stands in the text of a board.

use vstd::prelude::*;

use crate::codegen::behavior_text;
use crate::codegen::board_text;
use crate::codegen::bundles_of;
use crate::codegen::bundle_name_of;
use crate::codegen::bundle_parts;
use crate::codegen::dma_lines;
use crate::codegen::dma_parts;
use crate::codegen::dropped_upto;
use crate::codegen::entry_lines;
use crate::codegen::entry_parts;
use crate::codegen::field_lines;
use crate::codegen::header_text;
use crate::codegen::holes_upto;
use crate::codegen::hole_defaults;
use crate::codegen::hole_fields;
use crate::codegen::ident_of;
use crate::codegen::keeps;
use crate::codegen::struct_text;
use crate::codegen::struct_texts;
use crate::codegen::take_line;
use crate::codegen::take_lines;
use crate::codegen::BundleView;
use crate::codegen::HoleView;
use crate::codegen_laws::nothing_kept_is_lost;
use crate::mcu_pinout::pin_name;
use crate::mcu_pinout::PinId;
use crate::pin_plan::PlanView;
use crate::text::joined;

verus! {

/// Whether a text stands in another.
pub open spec fn stands_in(x: Seq<char>, s: Seq<char>) -> bool {
    exists|a: Seq<char>, b: Seq<char>| #[trigger] is_around(a, x, b, s)
}

/// Whether a text is another with something before and after it.
pub open spec fn is_around(a: Seq<char>, x: Seq<char>, b: Seq<char>, s: Seq<char>) -> bool {
    s == a + x + b
}

proof fn stands_in_itself(x: Seq<char>)
    ensures
        stands_in(x, x),
{
    let e = Seq::<char>::empty();
    assert(x =~= e + x + e);
    assert(is_around(e, x, e, x));
}

/// What stands in a part stands in the whole.
proof fn stands_in_more(x: Seq<char>, p: Seq<char>, s: Seq<char>, q: Seq<char>)
    requires
        stands_in(x, s),
    ensures
        stands_in(x, p + s + q),
{
    let (a, b) = choose|a: Seq<char>, b: Seq<char>| #[trigger] is_around(a, x, b, s);
    assert(p + s + q =~= (p + a) + x + (b + q));
    assert(is_around(p + a, x, b + q, p + s + q));
}

proof fn stands_before(x: Seq<char>, s: Seq<char>, q: Seq<char>)
    requires
        stands_in(x, s),
    ensures
        stands_in(x, s + q),
{
    let e = Seq::<char>::empty();
    stands_in_more(x, e, s, q);
    assert(e + s + q =~= s + q);
}

proof fn stands_after(x: Seq<char>, p: Seq<char>, s: Seq<char>)
    requires
        stands_in(x, s),
    ensures
        stands_in(x, p + s),
{
    let e = Seq::<char>::empty();
    stands_in_more(x, p, s, e);
    assert(p + s + e =~= p + s);
}

/// The field of a role on a pin.
pub open spec fn pin_field(role: Seq<char>, pin: PinId) -> Seq<char> {
    "    pub "@ + ident_of(role) + ": peripherals::"@ + pin_name(pin) + ",\n"@
}

/// The field of a peripheral or a channel.
pub open spec fn own_field(name: Seq<char>, what: Seq<char>) -> Seq<char> {
    "    pub "@ + name + ": peripherals::"@ + what + ",\n"@
}

/// How a field is filled.
pub open spec fn filled(name: Seq<char>, what: Seq<char>) -> Seq<char> {
    name + ": p."@ + what
}

proof fn entries_stand(v: Seq<(Seq<char>, Option<PinId>)>, n: int, i: int, pin: PinId)
    requires
        0 <= i < n <= v.len(),
        v[i].1 == Some(pin),
    ensures
        stands_in(pin_field(v[i].0, pin), entry_lines(v, n)),
    decreases n,
{
    let x = pin_field(v[i].0, pin);
    if i < n - 1 {
        entries_stand(v, n - 1, i, pin);
        stands_before(x, entry_lines(v, n - 1), crate::codegen::entry_line(v[n - 1]));
    } else {
        stands_in_itself(x);
        stands_after(x, entry_lines(v, n - 1), x);
    }
}

proof fn channels_stand(v: Seq<(Seq<char>, Seq<char>)>, n: int, i: int)
    requires
        0 <= i < n <= v.len(),
    ensures
        stands_in(own_field(v[i].0, v[i].1), dma_lines(v, n)),
    decreases n,
{
    let x = own_field(v[i].0, v[i].1);
    if i < n - 1 {
        channels_stand(v, n - 1, i);
        stands_before(x, dma_lines(v, n - 1), crate::codegen::dma_line(v[n - 1]));
    } else {
        stands_in_itself(x);
        stands_after(x, dma_lines(v, n - 1), x);
    }
}

proof fn structs_stand(v: Seq<BundleView>, n: int, i: int, x: Seq<char>)
    requires
        0 <= i < n <= v.len(),
        stands_in(x, struct_text(v[i])),
    ensures
        stands_in(x, struct_texts(v, n)),
    decreases n,
{
    if i < n - 1 {
        structs_stand(v, n - 1, i, x);
        stands_before(x, struct_texts(v, n - 1), struct_text(v[n - 1]));
    } else {
        stands_after(x, struct_texts(v, n - 1), struct_text(v[n - 1]));
    }
}

proof fn takes_stand(v: Seq<BundleView>, n: int, i: int, x: Seq<char>)
    requires
        0 <= i < n <= v.len(),
        stands_in(x, take_line(v[i])),
    ensures
        stands_in(x, take_lines(v, n)),
    decreases n,
{
    if i < n - 1 {
        takes_stand(v, n - 1, i, x);
        stands_before(x, take_lines(v, n - 1), take_line(v[n - 1]));
    } else {
        stands_after(x, take_lines(v, n - 1), take_line(v[n - 1]));
    }
}

proof fn parts_stand(parts: Seq<Seq<char>>, sep: Seq<char>, i: int)
    requires
        0 <= i < parts.len(),
    ensures
        stands_in(parts[i], joined(parts, sep)),
    decreases parts.len(),
{
    let x = parts[i];
    stands_in_itself(x);
    if parts.len() > 1 {
        let head = joined(parts.drop_last(), sep);
        if i < parts.len() - 1 {
            parts_stand(parts.drop_last(), sep, i);
            assert(parts.drop_last()[i] == x);
            stands_before(x, head, sep);
            stands_before(x, head + sep, parts.last());
        } else {
            stands_after(x, head + sep, x);
        }
    }
}

proof fn entry_is_a_part(
    v: Seq<(Seq<char>, Option<PinId>)>,
    n: int,
    acc: Seq<Seq<char>>,
    i: int,
    pin: PinId,
)
    requires
        0 <= i < n <= v.len(),
        v[i].1 == Some(pin),
    ensures
        entry_parts(v, n, acc).contains(filled(ident_of(v[i].0), pin_name(pin))),
    decreases n,
{
    let now = entry_parts(v, n, acc);
    let x = filled(ident_of(v[i].0), pin_name(pin));
    if i < n - 1 {
        entry_is_a_part(v, n - 1, acc, i, pin);
        let had = entry_parts(v, n - 1, acc);
        let k = choose|k: int| 0 <= k < had.len() && had[k] == x;
        assert(now[k] == x);
    } else {
        assert(now[now.len() - 1] == x);
    }
}

proof fn entries_keep(v: Seq<(Seq<char>, Option<PinId>)>, n: int, acc: Seq<Seq<char>>, x: Seq<char>)
    requires
        0 <= n <= v.len(),
        acc.contains(x),
    ensures
        entry_parts(v, n, acc).contains(x),
    decreases n,
{
    if n > 0 {
        entries_keep(v, n - 1, acc, x);
        let had = entry_parts(v, n - 1, acc);
        let k = choose|k: int| 0 <= k < had.len() && had[k] == x;
        assert(entry_parts(v, n, acc)[k] == x);
    }
}

proof fn channels_keep(v: Seq<(Seq<char>, Seq<char>)>, n: int, acc: Seq<Seq<char>>, x: Seq<char>)
    requires
        0 <= n <= v.len(),
        acc.contains(x),
    ensures
        dma_parts(v, n, acc).contains(x),
    decreases n,
{
    if n > 0 {
        channels_keep(v, n - 1, acc, x);
        let had = dma_parts(v, n - 1, acc);
        let k = choose|k: int| 0 <= k < had.len() && had[k] == x;
        assert(dma_parts(v, n, acc)[k] == x);
    }
}

proof fn channel_is_a_part(v: Seq<(Seq<char>, Seq<char>)>, n: int, acc: Seq<Seq<char>>, i: int)
    requires
        0 <= i < n <= v.len(),
    ensures
        dma_parts(v, n, acc).contains(filled(v[i].0, v[i].1)),
    decreases n,
{
    let now = dma_parts(v, n, acc);
    let x = filled(v[i].0, v[i].1);
    if i < n - 1 {
        channel_is_a_part(v, n - 1, acc, i);
        let had = dma_parts(v, n - 1, acc);
        let k = choose|k: int| 0 <= k < had.len() && had[k] == x;
        assert(now[k] == x);
    } else {
        assert(now[now.len() - 1] == x);
    }
}

/// What stands in the struct of a bundle stands in the text.
proof fn struct_stands(p: PlanView, k: int, x: Seq<char>)
    requires
        0 <= k < bundles_of(p).len(),
        stands_in(x, struct_text(bundles_of(p)[k])),
    ensures
        stands_in(x, board_text(p)),
{
    let v = bundles_of(p);
    let n = v.len() as int;
    structs_stand(v, n, k, x);
    let head = header_text(
        p.package,
        p.family,
        dropped_upto(p.placements, p.placements.len() as int),
    );
    let a = head + struct_texts(v, n);
    stands_after(x, head, struct_texts(v, n));
    let t1 = "/// Every peripheral this design uses, grouped into per-instance bundles.\npub struct Board {\n"@;
    let t2 = "}\n\nimpl Board {\n    /// Destructure the embassy `Peripherals` into named per-peripheral bundles.\n    pub fn take(p: Peripherals) -> Self {\n        Self {\n"@;
    let t3 = "        }\n    }\n}\n"@;
    let rest = t1 + field_lines(v, n) + t2 + take_lines(v, n) + t3;
    stands_before(x, a, rest);
    assert(board_text(p) =~= a + rest);
}

/// What stands where a bundle is filled stands in the text.
proof fn take_stands(p: PlanView, k: int, x: Seq<char>)
    requires
        0 <= k < bundles_of(p).len(),
        stands_in(x, take_line(bundles_of(p)[k])),
    ensures
        stands_in(x, board_text(p)),
{
    let v = bundles_of(p);
    let n = v.len() as int;
    takes_stand(v, n, k, x);
    let t = take_lines(v, n);
    let t3 = "        }\n    }\n}\n"@;
    let w = board_text(p);
    let head = w.take(w.len() - t3.len() - t.len());
    assert(w =~= head + t + t3);
    stands_in_more(x, head, t, t3);
}

/// What is a part of a bundle stands where it is filled.
proof fn part_stands(p: PlanView, k: int, x: Seq<char>)
    requires
        0 <= k < bundles_of(p).len(),
        bundle_parts(bundles_of(p)[k]).contains(x),
    ensures
        stands_in(x, board_text(p)),
{
    let b = bundles_of(p)[k];
    let parts = bundle_parts(b);
    let i = choose|i: int| 0 <= i < parts.len() && parts[i] == x;
    parts_stand(parts, ", "@, i);
    let head = "            "@ + ident_of(b.instance) + ": "@ + bundle_name_of(b.instance) + " { "@;
    stands_in_more(x, head, joined(parts, ", "@), " },\n"@);
    take_stands(p, k, x);
}

/// Each bundle is a struct of its own, with a field of the peripheral itself where it is bound.
pub proof fn each_bundle_has_a_struct(p: PlanView, k: int)
    requires
        0 <= k < bundles_of(p).len(),
    ensures
        stands_in(
            "pub struct "@ + bundle_name_of(bundles_of(p)[k].instance) + " {\n"@,
            board_text(p),
        ),
        bundles_of(p)[k].bound ==> stands_in(
            own_field("instance"@, bundles_of(p)[k].instance),
            board_text(p),
        ),
        bundles_of(p)[k].bound ==> stands_in(
            filled("instance"@, bundles_of(p)[k].instance),
            board_text(p),
        ),
{
    let b = bundles_of(p)[k];
    let s = struct_text(b);
    let x = "pub struct "@ + bundle_name_of(b.instance) + " {\n"@;
    let lead = "/// Resources for "@ + b.instance + (if b.pinless {
        " — internal fabric instance (no pins on this design).\n"@
    } else {
        " — pass to your own constructor.\n"@
    });
    let own = if b.bound {
        "    pub instance: peripherals::"@ + b.instance + ",\n"@
    } else {
        ""@
    };
    let tail = entry_lines(b.entries, b.entries.len() as int) + dma_lines(
        b.dma,
        b.dma.len() as int,
    ) + "}\n\n"@;
    assert(s =~= lead + x + (own + tail));
    assert(is_around(lead, x, own + tail, s));
    struct_stands(p, k, x);
    if b.bound {
        let f = own_field("instance"@, b.instance);
        reveal_strlit("    pub instance: peripherals::");
        reveal_strlit("    pub ");
        reveal_strlit("instance");
        reveal_strlit(": peripherals::");
        assert(own =~= f);
        assert(s =~= (lead + x) + f + tail);
        assert(is_around(lead + x, f, tail, s));
        struct_stands(p, k, f);
        let g = filled("instance"@, b.instance);
        reveal_strlit("instance: p.");
        reveal_strlit(": p.");
        assert("instance: p."@ + b.instance =~= g);
        let first = Seq::<Seq<char>>::empty().push("instance: p."@ + b.instance);
        assert(first[0] == g);
        entries_keep(b.entries, b.entries.len() as int, first, g);
        channels_keep(
            b.dma,
            b.dma.len() as int,
            entry_parts(b.entries, b.entries.len() as int, first),
            g,
        );
        part_stands(p, k, g);
    }
}

/// Each placed role of a bundle is a field of the type of its pin, and is filled with that pin.
pub proof fn each_placed_role_has_a_field(p: PlanView, k: int, i: int, pin: PinId)
    requires
        0 <= k < bundles_of(p).len(),
        0 <= i < bundles_of(p)[k].entries.len(),
        bundles_of(p)[k].entries[i].1 == Some(pin),
    ensures
        stands_in(pin_field(bundles_of(p)[k].entries[i].0, pin), board_text(p)),
        stands_in(
            filled(ident_of(bundles_of(p)[k].entries[i].0), pin_name(pin)),
            board_text(p),
        ),
{
    let b = bundles_of(p)[k];
    let s = struct_text(b);
    let n = b.entries.len() as int;
    let x = pin_field(b.entries[i].0, pin);
    entries_stand(b.entries, n, i, pin);
    let lines = entry_lines(b.entries, n);
    let tail = dma_lines(b.dma, b.dma.len() as int) + "}\n\n"@;
    let head = s.take(s.len() - tail.len() - lines.len());
    assert(s =~= head + lines + tail);
    stands_in_more(x, head, lines, tail);
    struct_stands(p, k, x);
    let own = if b.bound {
        Seq::<Seq<char>>::empty().push("instance: p."@ + b.instance)
    } else {
        Seq::empty()
    };
    let g = filled(ident_of(b.entries[i].0), pin_name(pin));
    entry_is_a_part(b.entries, n, own, i, pin);
    channels_keep(b.dma, b.dma.len() as int, entry_parts(b.entries, n, own), g);
    part_stands(p, k, g);
}

/// Each memory channel of a bundle is a field, and is filled with that channel.
pub proof fn each_channel_has_a_field(p: PlanView, k: int, i: int)
    requires
        0 <= k < bundles_of(p).len(),
        0 <= i < bundles_of(p)[k].dma.len(),
    ensures
        stands_in(
            own_field(bundles_of(p)[k].dma[i].0, bundles_of(p)[k].dma[i].1),
            board_text(p),
        ),
        stands_in(filled(bundles_of(p)[k].dma[i].0, bundles_of(p)[k].dma[i].1), board_text(p)),
{
    let b = bundles_of(p)[k];
    let s = struct_text(b);
    let n = b.dma.len() as int;
    let x = own_field(b.dma[i].0, b.dma[i].1);
    channels_stand(b.dma, n, i);
    let lines = dma_lines(b.dma, n);
    let tail = "}\n\n"@;
    let head = s.take(s.len() - tail.len() - lines.len());
    assert(s =~= head + lines + tail);
    stands_in_more(x, head, lines, tail);
    struct_stands(p, k, x);
    let own = if b.bound {
        Seq::<Seq<char>>::empty().push("instance: p."@ + b.instance)
    } else {
        Seq::empty()
    };
    channel_is_a_part(b.dma, n, entry_parts(b.entries, b.entries.len() as int, own), i);
    part_stands(p, k, filled(b.dma[i].0, b.dma[i].1));
}

/// Each signal that is kept and placed has its pin in the text.
pub proof fn each_kept_pin_is_written(p: PlanView, i: int, pin: PinId)
    requires
        0 <= i < p.placements.len(),
        keeps(p.placements, i),
        p.placements[i].pin == Some(pin),
    ensures
        stands_in(pin_field(p.placements[i].signal.1, pin), board_text(p)),
        stands_in(filled(ident_of(p.placements[i].signal.1), pin_name(pin)), board_text(p)),
{
    nothing_kept_is_lost(p, i);
    let e = (p.placements[i].signal.1, p.placements[i].pin);
    let v = bundles_of(p);
    let a = choose|a: int|
        0 <= a < v.len() && crate::codegen_laws::has_field(
            #[trigger] v[a],
            p.placements[i].signal.0,
            e,
        );
    let k = choose|k: int| 0 <= k < v[a].entries.len() && v[a].entries[k] == e;
    each_placed_role_has_a_field(p, a, k, pin);
}

proof fn holes_stand(v: Seq<HoleView>, n: int, i: int)
    requires
        0 <= i < n <= v.len(),
    ensures
        stands_in("    pub "@ + v[i].name + ": "@ + v[i].ty + ",\n"@, hole_fields(v, n)),
        stands_in(v[i].name + ": "@ + v[i].default + ",\n"@, hole_defaults(v, n)),
    decreases n,
{
    let x = "    pub "@ + v[i].name + ": "@ + v[i].ty + ",\n"@;
    let y = v[i].name + ": "@ + v[i].default + ",\n"@;
    let e = v[n - 1];
    let f = "    /// "@ + e.doc + "\n    pub "@ + e.name + ": "@ + e.ty + ",\n"@;
    let g = "            "@ + e.name + ": "@ + e.default + ",\n"@;
    if i < n - 1 {
        holes_stand(v, n - 1, i);
        stands_before(x, hole_fields(v, n - 1), f);
        stands_before(y, hole_defaults(v, n - 1), g);
    } else {
        reveal_strlit("\n    pub ");
        reveal_strlit("    pub ");
        let lead = "    /// "@ + e.doc;
        assert("\n    pub "@ =~= seq!['\n'] + "    pub "@);
        assert(f =~= (lead + seq!['\n']) + x + Seq::<char>::empty());
        assert(is_around(lead + seq!['\n'], x, Seq::empty(), f));
        stands_after(x, hole_fields(v, n - 1), f);
        assert(g =~= "            "@ + y + Seq::<char>::empty());
        assert(is_around("            "@, y, Seq::empty(), g));
        stands_after(y, hole_defaults(v, n - 1), g);
    }
}

/// Each value that a plan leaves open is a field of its type, with its default.
pub proof fn each_open_value_has_a_field(p: PlanView, h: HoleView)
    requires
        holes_upto(p.placements, p.placements.len() as int).contains(h),
    ensures
        stands_in("    pub "@ + h.name + ": "@ + h.ty + ",\n"@, behavior_text(p)),
        stands_in(h.name + ": "@ + h.default + ",\n"@, behavior_text(p)),
{
    let v = holes_upto(p.placements, p.placements.len() as int);
    let n = v.len() as int;
    let i = choose|i: int| 0 <= i < v.len() && v[i] == h;
    holes_stand(v, n, i);
    let s = behavior_text(p);
    let t = hole_defaults(v, n);
    let t3 = "        }\n    }\n}\n"@;
    let head = s.take(s.len() - t3.len() - t.len());
    assert(s =~= head + t + t3);
    stands_in_more(h.name + ": "@ + h.default + ",\n"@, head, t, t3);
    let f = hole_fields(v, n);
    let lead = "\n/// Behavioral configuration you must supply — one field per value the pin\n/// plan cannot know (it carries no behavioral values by design). Adjust the\n/// defaults to your converter. Adding a routed peripheral adds a field here,\n/// so the design and its config can't silently drift.\n#[derive(Clone, Copy, Debug)]\npub struct Behavior {\n"@;
    let rest = s.skip((lead.len() + f.len()) as int);
    assert(s =~= lead + f + rest);
    stands_in_more("    pub "@ + h.name + ": "@ + h.ty + ",\n"@, lead, f, rest);
}

} // verus!
