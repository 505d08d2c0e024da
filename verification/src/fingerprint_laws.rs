//! What holds of a source's fingerprint: it tells sources apart.

use vstd::prelude::*;

use crate::constraint::is_arrangement;
use crate::dropin::fingerprint_of;
use crate::dropin::wire_text;
use crate::h523_design::LockView;
use crate::mcu_pinout::decimal_reads_back;
use crate::order;
use crate::order::order_of;
use crate::order::picked;
use crate::text::all_digits;
use crate::text::before;
use crate::text::before_irreflexive;
use crate::text::before_total;
use crate::text::before_transitive;
use crate::text::decimal;
use crate::text::is_digit;
use crate::text::joined;
use crate::texts::sorted_texts;
use crate::texts::sorted_texts_ascend;
use crate::texts::text_ranks;

verus! {

/// Whether a wired function's names do not hold what ends them in a fingerprint.
pub open spec fn is_plain(w: LockView) -> bool {
    !w.key.0.contains('.') && !w.key.1.contains('@')
}

/// Whether all wired functions are plain.
pub open spec fn are_plain(v: Seq<LockView>) -> bool {
    forall|i: int| 0 <= i < v.len() ==> is_plain(#[trigger] v[i])
}

/// Whether a wired function's names hold no bar, and its peripheral no comma.
pub open spec fn is_barless(w: LockView) -> bool {
    !w.key.0.contains('|') && !w.key.0.contains(',') && !w.key.1.contains('|')
}

/// Whether all wired functions are barless.
pub open spec fn are_barless(v: Seq<LockView>) -> bool {
    forall|i: int| 0 <= i < v.len() ==> is_barless(#[trigger] v[i])
}

/// Whether two wirings are the same but for their order.
pub open spec fn same_wiring(a: Seq<LockView>, b: Seq<LockView>) -> bool {
    exists|x: Seq<usize>, y: Seq<usize>|
        is_arrangement(x, a.len() as int) && is_arrangement(y, b.len() as int) && #[trigger] picked(
            a,
            x,
        ) == #[trigger] picked(b, y)
}

proof fn split_at_first(a: Seq<char>, b: Seq<char>, p: Seq<char>, q: Seq<char>, c: char)
    requires
        a + seq![c] + b == p + seq![c] + q,
        !a.contains(c),
        !p.contains(c),
    ensures
        a == p,
        b == q,
{
    let s = a + seq![c] + b;
    let t = p + seq![c] + q;
    if a.len() < p.len() {
        assert(s[a.len() as int] == c);
        assert(t[a.len() as int] == p[a.len() as int]);
        assert(p.contains(c));
    }
    if p.len() < a.len() {
        assert(t[p.len() as int] == c);
        assert(s[p.len() as int] == a[p.len() as int]);
        assert(a.contains(c));
    }
    assert(a =~= s.take(a.len() as int));
    assert(p =~= t.take(p.len() as int));
    assert(b =~= s.skip(a.len() as int + 1));
    assert(q =~= t.skip(p.len() as int + 1));
}

/// Whether a text is empty or goes on with a comma.
spec fn goes_on(t: Seq<char>) -> bool {
    t.len() > 0 ==> t[0] == ','
}

proof fn split_after_digits(a: Seq<char>, b: Seq<char>, p: Seq<char>, q: Seq<char>)
    requires
        a + b == p + q,
        all_digits(a),
        all_digits(p),
        goes_on(b),
        goes_on(q),
    ensures
        a == p,
        b == q,
{
    let s = a + b;
    let t = p + q;
    assert(s.len() == t.len());
    if a.len() < p.len() {
        assert(s[a.len() as int] == b[0]);
        assert(is_digit(p[a.len() as int]));
        assert(t[a.len() as int] == p[a.len() as int]);
    }
    if p.len() < a.len() {
        assert(t[p.len() as int] == q[0]);
        assert(is_digit(a[p.len() as int]));
        assert(s[p.len() as int] == a[p.len() as int]);
    }
    assert(a =~= s.take(a.len() as int));
    assert(p =~= t.take(p.len() as int));
    assert(b =~= s.skip(a.len() as int));
    assert(q =~= t.skip(p.len() as int));
}

/// A wired function's text with its separators as characters.
proof fn wire_text_parts(w: LockView)
    ensures
        wire_text(w) == w.key.0 + seq!['.'] + (w.key.1 + seq!['@'] + (seq![w.pin.port] + decimal(
            w.pin.num as int,
        ))),
{
    reveal_strlit(".");
    reveal_strlit("@");
    assert("."@ =~= seq!['.']);
    assert("@"@ =~= seq!['@']);
    assert(wire_text(w) =~= w.key.0 + seq!['.'] + (w.key.1 + seq!['@'] + (seq![w.pin.port]
        + decimal(w.pin.num as int))));
}

spec fn texts_of(v: Seq<LockView>) -> Seq<Seq<char>> {
    v.map_values(|w: LockView| wire_text(w))
}

/// The list of wired functions, as it stands in a fingerprint.
spec fn list_text(v: Seq<LockView>) -> Seq<char> {
    joined(texts_of(v), ","@)
}

/// What stands behind a wired function that others follow.
spec fn rest_text(v: Seq<LockView>) -> Seq<char> {
    if v.len() == 0 {
        Seq::empty()
    } else {
        seq![','] + list_text(v)
    }
}

/// The list from its front: the first function's peripheral, role, port and digits, then the
/// rest.
proof fn list_from_front(v: Seq<LockView>)
    requires
        v.len() > 0,
    ensures
        list_text(v) == wire_text(v[0]) + rest_text(v.drop_first()),
    decreases v.len(),
{
    reveal_strlit(",");
    assert(","@ =~= seq![',']);
    let t = texts_of(v);
    let rest = v.drop_first();
    if v.len() == 1 {
        assert(list_text(v) == t[0]);
        assert(list_text(v) =~= wire_text(v[0]) + rest_text(rest));
    } else {
        let front = v.drop_last();
        let last = wire_text(v.last());
        assert(texts_of(front) =~= t.drop_last());
        assert(t.last() == last);
        list_from_front(front);
        assert(list_text(v) == list_text(front) + ","@ + last);
        let mid = front.drop_first();
        assert(mid =~= rest.drop_last());
        assert(texts_of(mid) =~= texts_of(rest).drop_last());
        assert(texts_of(rest).last() == last);
        if v.len() == 2 {
            assert(list_text(rest) == texts_of(rest)[0]);
            assert(list_text(v) =~= wire_text(v[0]) + rest_text(rest));
        } else {
            assert(list_text(rest) == list_text(mid) + ","@ + last);
            assert(list_text(v) =~= wire_text(v[0]) + rest_text(rest));
        }
    }
}

/// The list's first function in full.
proof fn list_parts(v: Seq<LockView>)
    requires
        v.len() > 0,
    ensures
        ({
            let w = v[0];
            let d = decimal(w.pin.num as int);
            &&& list_text(v) == w.key.0 + seq!['.'] + (w.key.1 + seq!['@'] + (seq![w.pin.port] + (d
                + rest_text(v.drop_first()))))
            &&& all_digits(d)
            &&& d.len() > 0
            &&& goes_on(rest_text(v.drop_first()))
        }),
{
    let w = v[0];
    let d = decimal(w.pin.num as int);
    list_from_front(v);
    wire_text_parts(w);
    decimal_reads_back(w.pin.num as int);
    assert(list_text(v) =~= w.key.0 + seq!['.'] + (w.key.1 + seq!['@'] + (seq![w.pin.port] + (d
        + rest_text(v.drop_first())))));
}

/// A list of plain functions reads back.
proof fn list_reads_back(a: Seq<LockView>, b: Seq<LockView>)
    requires
        are_plain(a),
        are_plain(b),
        list_text(a) == list_text(b),
    ensures
        a == b,
    decreases a.len(),
{
    if a.len() == 0 {
        if b.len() > 0 {
            list_parts(b);
        }
        assert(a =~= b);
    } else if b.len() == 0 {
        list_parts(a);
    } else {
        list_parts(a);
        list_parts(b);
        assert(is_plain(a[0]) && is_plain(b[0]));
        let p = a.drop_first();
        let q = b.drop_first();
        let d = decimal(a[0].pin.num as int);
        let e = decimal(b[0].pin.num as int);
        let x = seq![a[0].pin.port] + (d + rest_text(p));
        let y = seq![b[0].pin.port] + (e + rest_text(q));
        split_at_first(
            a[0].key.0,
            a[0].key.1 + seq!['@'] + x,
            b[0].key.0,
            b[0].key.1 + seq!['@'] + y,
            '.',
        );
        split_at_first(a[0].key.1, x, b[0].key.1, y, '@');
        assert(x[0] == a[0].pin.port && y[0] == b[0].pin.port);
        assert(x.skip(1) =~= d + rest_text(p));
        assert(y.skip(1) =~= e + rest_text(q));
        split_after_digits(d, rest_text(p), e, rest_text(q));
        decimal_reads_back(a[0].pin.num as int);
        decimal_reads_back(b[0].pin.num as int);
        assert(a[0].pin == b[0].pin);
        assert(a[0].key == b[0].key);
        assert(are_plain(p)) by {
            assert forall|i: int| 0 <= i < p.len() implies is_plain(#[trigger] p[i]) by {
                assert(p[i] == a[i + 1]);
            }
        }
        assert(are_plain(q)) by {
            assert forall|i: int| 0 <= i < q.len() implies is_plain(#[trigger] q[i]) by {
                assert(q[i] == b[i + 1]);
            }
        }
        if p.len() > 0 && q.len() > 0 {
            assert(rest_text(p).skip(1) =~= list_text(p));
            assert(rest_text(q).skip(1) =~= list_text(q));
            list_reads_back(p, q);
        }
        assert(p =~= q);
        assert(a =~= seq![a[0]] + p);
        assert(b =~= seq![b[0]] + q);
    }
}

/// In a list of barless functions a bar is a port: digits stand behind it.
proof fn bar_is_port(v: Seq<LockView>, i: int)
    requires
        are_barless(v),
        0 <= i < list_text(v).len(),
        list_text(v)[i] == '|',
    ensures
        exists|d: Seq<char>, t: Seq<char>|
            all_digits(d) && d.len() > 0 && goes_on(t) && list_text(v).skip(i + 1)
                == #[trigger] (d + t),
    decreases v.len(),
{
    let s = list_text(v);
    if v.len() > 0 {
        list_parts(v);
        let w = v[0];
        let d = decimal(w.pin.num as int);
        let rest = v.drop_first();
        let t = rest_text(rest);
        let a = w.key.0.len() as int;
        let b = a + 1 + w.key.1.len();
        let c = b + 2 + d.len();
        assert(is_barless(w));
        if i < a {
            assert(w.key.0[i] == '|');
            assert(w.key.0.contains('|'));
        } else if i == a || i == b {
        } else if i < b {
            assert(w.key.1[i - a - 1] == '|');
            assert(w.key.1.contains('|'));
        } else if i == b + 1 {
            assert(s.skip(i + 1) =~= d + t);
        } else if i < c {
            assert(is_digit(d[i - b - 2]));
            assert(s[i] == d[i - b - 2]);
        } else {
            assert(s[i] == t[i - c]);
            assert(rest.len() > 0);
            assert(i - c > 0);
            let j = i - c - 1;
            assert(list_text(rest)[j] == '|');
            assert(are_barless(rest)) by {
                assert forall|k: int| 0 <= k < rest.len() implies is_barless(#[trigger] rest[k]) by {
                    assert(rest[k] == v[k + 1]);
                }
            }
            bar_is_port(rest, j);
            assert(s.skip(i + 1) =~= list_text(rest).skip(j + 1));
        }
    }
}

/// What stands behind a bar in a list of barless functions is no such list.
proof fn no_list_behind_bar(a: Seq<LockView>, i: int, b: Seq<LockView>)
    requires
        are_barless(a),
        are_barless(b),
        0 <= i < list_text(a).len(),
        list_text(a)[i] == '|',
    ensures
        list_text(a).skip(i + 1) != list_text(b),
{
    bar_is_port(a, i);
    let s = list_text(a).skip(i + 1);
    let (d, t) = choose|d: Seq<char>, t: Seq<char>|
        all_digits(d) && d.len() > 0 && goes_on(t) && s == #[trigger] (d + t);
    if s == list_text(b) {
        assert(b.len() > 0);
        list_parts(b);
        let p = b[0].key.0;
        let k = p.len() as int;
        let n = d.len() as int;
        assert(is_barless(b[0]));
        assert(s[k] == '.');
        if n > k {
            assert(is_digit(d[k]));
            assert(s[k] == d[k]);
        } else {
            assert(s[n] == t[0]);
            if n < k {
                assert(s[n] == p[n]);
                assert(p.contains(','));
            }
        }
    }
}

proof fn order_arranges(keys: Seq<u64>)
    requires
        keys.len() <= usize::MAX,
    ensures
        is_arrangement(order_of(keys), keys.len() as int),
{
    order::order_of_is_stable(keys);
    assert forall|i: int| 0 <= i < keys.len() implies #[trigger] order_of(keys).contains(
        i as usize,
    ) by {
        order::stable_order_covers(keys, order_of(keys), keys.len() as int, i);
    }
}

proof fn arranged_multiset<T>(v: Seq<T>, x: Seq<usize>)
    requires
        is_arrangement(x, v.len() as int),
        v.len() <= usize::MAX,
    ensures
        picked(v, x).to_multiset() == v.to_multiset(),
    decreases v.len(),
{
    broadcast use vstd::seq_lib::group_to_multiset_ensures;

    let n = v.len() as int;
    if n == 0 {
        assert(picked(v, x) =~= v);
    } else {
        assert(x.contains((n - 1) as usize));
        let p = choose|p: int| 0 <= p < x.len() && x[p] == (n - 1) as usize;
        let y = x.remove(p);
        let w = v.drop_last();
        assert forall|i: int| 0 <= i < y.len() implies (#[trigger] y[i]) < n - 1 by {
            let at = if i < p {
                i
            } else {
                i + 1
            };
            assert(y[i] == x[at]);
            assert(x[at] < n && x[at] != x[p]);
        }
        assert forall|i: int, j: int| 0 <= i < y.len() && 0 <= j < y.len() && i != j implies y[i]
            != y[j] by {
            let a = if i < p {
                i
            } else {
                i + 1
            };
            let b = if j < p {
                j
            } else {
                j + 1
            };
            assert(y[i] == x[a] && y[j] == x[b]);
        }
        assert forall|i: int| 0 <= i < n - 1 implies #[trigger] y.contains(i as usize) by {
            assert(x.contains(i as usize));
            let a = choose|a: int| 0 <= a < x.len() && x[a] == i as usize;
            let at = if a < p {
                a
            } else {
                a - 1
            };
            assert(y[at] == i as usize);
        }
        assert(is_arrangement(y, n - 1));
        arranged_multiset(w, y);
        let r = picked(v, x);
        assert(r[p] == v[n - 1]);
        assert(r.remove(p) =~= picked(w, y)) by {
            assert forall|i: int| 0 <= i < y.len() implies r.remove(p)[i] == picked(w, y)[i] by {
                assert(y[i] < n - 1);
            }
        }
        assert(v =~= w.push(v[n - 1]));
        assert(r.to_multiset().remove(v[n - 1]) =~= w.to_multiset());
        assert(r.to_multiset().contains(v[n - 1])) by {
            assert(r.contains(r[p]));
        }
        assert(r.to_multiset() =~= w.to_multiset().insert(v[n - 1]));
    }
}

proof fn sorted_is_unique(a: Seq<Seq<char>>, b: Seq<Seq<char>>)
    requires
        a.len() <= usize::MAX,
        b.len() <= usize::MAX,
        a.to_multiset() == b.to_multiset(),
    ensures
        sorted_texts(a) == sorted_texts(b),
{
    let leq = |x: Seq<char>, y: Seq<char>| !before(y, x);
    order_arranges(text_ranks(a));
    order_arranges(text_ranks(b));
    arranged_multiset(a, order_of(text_ranks(a)));
    arranged_multiset(b, order_of(text_ranks(b)));
    sorted_texts_ascend(a);
    sorted_texts_ascend(b);
    assert forall|x: Seq<char>| #[trigger] leq(x, x) by {
        before_irreflexive(x);
    }
    assert forall|x: Seq<char>, y: Seq<char>| #[trigger] leq(x, y) && #[trigger] leq(y, x) implies x
        == y by {
        before_total(x, y);
    }
    assert forall|x: Seq<char>, y: Seq<char>, z: Seq<char>| #[trigger]
        leq(x, y) && #[trigger] leq(y, z) implies leq(x, z) by {
        if before(z, x) {
            before_total(x, y);
            if before(x, y) {
                before_transitive(z, x, y);
            }
        }
    }
    assert forall|x: Seq<char>, y: Seq<char>| #[trigger] leq(x, y) || #[trigger] leq(y, x) by {
        if before(x, y) && before(y, x) {
            before_transitive(x, y, x);
            before_irreflexive(x);
        }
    }
    assert(vstd::relations::total_ordering(leq));
    let p = sorted_texts(a);
    let q = sorted_texts(b);
    assert(vstd::relations::sorted_by(p, leq));
    assert(vstd::relations::sorted_by(q, leq));
    vstd::seq_lib::lemma_sorted_unique(p, q, leq);
}

proof fn same_wiring_same_texts(a: Seq<LockView>, b: Seq<LockView>)
    requires
        a.len() <= usize::MAX,
        b.len() <= usize::MAX,
        same_wiring(a, b),
    ensures
        sorted_texts(texts_of(a)) == sorted_texts(texts_of(b)),
{
    let (x, y) = choose|x: Seq<usize>, y: Seq<usize>|
        is_arrangement(x, a.len() as int) && is_arrangement(y, b.len() as int) && #[trigger] picked(
            a,
            x,
        ) == #[trigger] picked(b, y);
    let p = picked(texts_of(a), x);
    let q = picked(texts_of(b), y);
    assert(p =~= q) by {
        assert(picked(a, x).len() == picked(b, y).len());
        assert forall|i: int| 0 <= i < p.len() implies p[i] == q[i] by {
            assert(x[i] < a.len() && y[i] < b.len());
            assert(picked(a, x)[i] == picked(b, y)[i]);
        }
    }
    arranged_multiset(texts_of(a), x);
    arranged_multiset(texts_of(b), y);
    sorted_is_unique(texts_of(a), texts_of(b));
}

/// A wiring in the order of its texts.
spec fn in_text_order(v: Seq<LockView>) -> Seq<LockView> {
    picked(v, order_of(text_ranks(texts_of(v))))
}

proof fn text_order_facts(v: Seq<LockView>)
    requires
        v.len() <= usize::MAX,
    ensures
        sorted_texts(texts_of(v)) == texts_of(in_text_order(v)),
        are_plain(v) ==> are_plain(in_text_order(v)),
        are_barless(v) ==> are_barless(in_text_order(v)),
        is_arrangement(order_of(text_ranks(texts_of(v))), v.len() as int),
{
    let x = order_of(text_ranks(texts_of(v)));
    order_arranges(text_ranks(texts_of(v)));
    let u = in_text_order(v);
    assert forall|i: int| 0 <= i < u.len() implies u[i] == v[x[i] as int] && x[i] < v.len() by {
        assert(x[i] < v.len());
    }
    assert(sorted_texts(texts_of(v)) =~= texts_of(u));
}

/// A key that goes on, behind a bar, with a list of barless functions is no longer than another
/// with the same text.
proof fn key_is_no_longer(
    h1: Seq<char>,
    u1: Seq<LockView>,
    h2: Seq<char>,
    u2: Seq<LockView>,
)
    requires
        are_barless(u1),
        are_barless(u2),
        h1 + seq!['|'] + list_text(u1) == h2 + seq!['|'] + list_text(u2),
    ensures
        h2.len() <= h1.len(),
{
    let l1 = list_text(u1);
    let l2 = list_text(u2);
    let r1 = h1 + seq!['|'] + l1;
    let r2 = h2 + seq!['|'] + l2;
    let (a, b) = (h1.len() as int, h2.len() as int);
    if a < b {
        let i = b - a - 1;
        assert(r1.len() == r2.len());
        assert(r2[b] == '|');
        assert(r1[b] == l1[i]);
        assert(l1.skip(i + 1) =~= r1.skip(b + 1));
        assert(l2 =~= r2.skip(b + 1));
        no_list_behind_bar(u1, i, u2);
    }
}

proof fn key_reads_back(h1: Seq<char>, u1: Seq<LockView>, h2: Seq<char>, u2: Seq<LockView>)
    requires
        (!h1.contains('|') && !h2.contains('|')) || (are_barless(u1) && are_barless(u2)),
        h1 + seq!['|'] + list_text(u1) == h2 + seq!['|'] + list_text(u2),
    ensures
        h1 == h2,
        list_text(u1) == list_text(u2),
{
    let l1 = list_text(u1);
    let l2 = list_text(u2);
    if !h1.contains('|') && !h2.contains('|') {
        split_at_first(h1, l1, h2, l2, '|');
    } else {
        key_is_no_longer(h1, u1, h2, u2);
        key_is_no_longer(h2, u2, h1, u1);
        let r1 = h1 + seq!['|'] + l1;
        let r2 = h2 + seq!['|'] + l2;
        let a = h1.len() as int;
        assert(h1 =~= r1.take(a));
        assert(h2 =~= r2.take(a));
        assert(l1 =~= r1.skip(a + 1));
        assert(l2 =~= r2.skip(a + 1));
    }
}

/// A fingerprint with its separators as characters.
proof fn fingerprint_parts(name: Seq<char>, h: Seq<char>, wired: Seq<LockView>)
    requires
        wired.len() <= usize::MAX,
    ensures
        fingerprint_of(name, h, wired) == name + seq!['|'] + (h + seq!['|'] + list_text(
            in_text_order(wired),
        )),
{
    reveal_strlit("|");
    assert("|"@ =~= seq!['|']);
    text_order_facts(wired);
    assert(fingerprint_of(name, h, wired) =~= name + seq!['|'] + (h + seq!['|'] + list_text(
        in_text_order(wired),
    )));
}

/// Two fingerprints are equal exactly where the part, the footprint and, but for its
/// order, the wiring are, whatever the pins. Part names hold no bar, peripherals no dot and
/// roles no at sign; and the names in the wiring hold no bar either, and peripherals no comma,
/// unless the footprints' keys hold no bar. (The key `x` with a peripheral `y|a`
/// reads as the key `x|y` with a peripheral `a`.)
pub proof fn fingerprints_tell_apart(
    name1: Seq<char>,
    h1: Seq<char>,
    wired1: Seq<LockView>,
    name2: Seq<char>,
    h2: Seq<char>,
    wired2: Seq<LockView>,
)
    requires
        wired1.len() <= usize::MAX,
        wired2.len() <= usize::MAX,
        !name1.contains('|') && !name2.contains('|'),
        are_plain(wired1),
        are_plain(wired2),
        (!h1.contains('|') && !h2.contains('|')) || (are_barless(wired1) && are_barless(wired2)),
    ensures
        fingerprint_of(name1, h1, wired1) == fingerprint_of(name2, h2, wired2) <==> name1 == name2
            && h1 == h2 && same_wiring(wired1, wired2),
{
    let u1 = in_text_order(wired1);
    let u2 = in_text_order(wired2);
    text_order_facts(wired1);
    text_order_facts(wired2);
    if name1 == name2 && h1 == h2 && same_wiring(wired1, wired2) {
        same_wiring_same_texts(wired1, wired2);
    }
    if fingerprint_of(name1, h1, wired1) == fingerprint_of(name2, h2, wired2) {
        fingerprint_parts(name1, h1, wired1);
        fingerprint_parts(name2, h2, wired2);
        let r1 = h1 + seq!['|'] + list_text(u1);
        let r2 = h2 + seq!['|'] + list_text(u2);
        split_at_first(name1, r1, name2, r2, '|');
        key_reads_back(h1, u1, h2, u2);
        list_reads_back(u1, u2);
        assert(same_wiring(wired1, wired2));
    }
}

} // verus!
