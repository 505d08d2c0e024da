//! The order of names and of numbered names, and small facts about filtered lists.

use vstd::prelude::*;

use crate::ranked::Ranked;
use crate::text;
use crate::text::before;
use crate::text::before_irreflexive;
use crate::text::before_total;
use crate::text::before_transitive;

verus! {

/// Filtering one item more either keeps it or leaves it out.
pub proof fn filter_step<T>(s: Seq<T>, i: int, p: spec_fn(T) -> bool)
    requires
        0 <= i < s.len(),
    ensures
        s.take(i + 1).filter(p) == (if p(s[i]) {
            s.take(i).filter(p).push(s[i])
        } else {
            s.take(i).filter(p)
        }),
{
    reveal(Seq::filter);
    assert(s.take(i + 1).drop_last() =~= s.take(i));
    assert(s.take(i + 1).last() == s[i]);
}

impl Ranked for &'static str {
    open spec fn precedes(&self, other: &Self) -> bool {
        before(self@, other@)
    }

    open spec fn alike(&self, other: &Self) -> bool {
        self@ == other@
    }

    proof fn order_laws(a: Self, b: Self, c: Self) {
        before_irreflexive(a@);
        before_total(a@, b@);
        if before(a@, b@) && before(b@, c@) {
            before_transitive(a@, b@, c@);
        }
    }

    fn comes_before(&self, other: &Self) -> (r: bool) {
        text::less(self, other)
    }

    fn same_as(&self, other: &Self) -> (r: bool) {
        text::same(self, other)
    }
}

/// Numbered names go by name, then by number.
impl Ranked for (&'static str, u8) {
    open spec fn precedes(&self, other: &Self) -> bool {
        before(self.0@, other.0@) || (self.0@ == other.0@ && self.1 < other.1)
    }

    open spec fn alike(&self, other: &Self) -> bool {
        self.0@ == other.0@ && self.1 == other.1
    }

    proof fn order_laws(a: Self, b: Self, c: Self) {
        before_irreflexive(a.0@);
        before_total(a.0@, b.0@);
        if before(a.0@, b.0@) && before(b.0@, c.0@) {
            before_transitive(a.0@, b.0@, c.0@);
        }
    }

    fn comes_before(&self, other: &Self) -> (r: bool) {
        text::less(self.0, other.0) || (text::same(self.0, other.0) && self.1 < other.1)
    }

    fn same_as(&self, other: &Self) -> (r: bool) {
        self.1 == other.1 && text::same(self.0, other.0)
    }
}

/// Whether the list holds a name of these characters.
pub open spec fn has_name(v: Seq<&'static str>, s: Seq<char>) -> bool {
    exists|i: int| 0 <= i < v.len() && (#[trigger] v[i])@ == s
}

/// Whether the list holds the name.
pub fn holds_name(v: &[&'static str], s: &str) -> (r: bool)
    ensures
        r == has_name(v@, s@),
{
    let mut i: usize = 0;
    while i < v.len()
        invariant
            i <= v@.len(),
            forall|j: int| 0 <= j < i ==> (#[trigger] v@[j])@ != s@,
        decreases v@.len() - i,
    {
        if text::same(v[i], s) {
            assert(v@[i as int]@ == s@);
            return true;
        }
        i += 1;
    }
    false
}

} // verus!
