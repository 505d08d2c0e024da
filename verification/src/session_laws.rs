//! What a session promises: undo and redo are inverse, bounded, and never cross a
//! project or a chip.

use vstd::prelude::*;

use crate::mcu::Mcu;
use crate::project::family_design;
use crate::project::part_key;
use crate::project::ProjectView;
use crate::session::framed;
use crate::session::moved;
use crate::session::recorded;
use crate::session::redone;
use crate::session::restored;
use crate::session::snapshot;
use crate::session::undone;
use crate::session::with_asset;
use crate::session::with_mcu;
use crate::session::AppView;
use crate::session::SnapView;
use crate::session::HISTORY_CAP;

verus! {

/// Whether a snapshot is of the design that is active.
pub open spec fn is_kin(a: AppView, s: SnapView) -> bool {
    match a.asset_part {
        Some(name) => s matches SnapView::Asset(k, _) && k == part_key(name),
        None => match a.active.mcu {
            Mcu::G474 => s is G474,
            Mcu::C531 => s is C531,
            _ => s is H523,
        },
    }
}

/// Whether every step that can be undone or done again is of the active design, and
/// there are not too many.
pub open spec fn is_coherent(a: AppView) -> bool {
    &&& forall|i: int| 0 <= i < a.history.len() ==> is_kin(a, #[trigger] a.history[i])
    &&& forall|i: int| 0 <= i < a.redo.len() ==> is_kin(a, #[trigger] a.redo[i])
    &&& a.history.len() + a.redo.len() <= HISTORY_CAP
}

/// A snapshot that is put back is the active design.
pub proof fn restored_is_active(a: AppView, s: SnapView)
    requires
        is_kin(a, s),
    ensures
        snapshot(restored(a, s)) == s,
        restored(a, s).history == a.history,
        restored(a, s).redo == a.redo,
        restored(a, s).others == a.others,
        restored(a, s).active.mcu == a.active.mcu,
        restored(a, s).asset_part == a.asset_part,
{
}

/// The active design is kin to itself.
pub proof fn active_is_kin(a: AppView)
    ensures
        is_kin(a, snapshot(a)),
{
}

/// Undoing keeps a session coherent.
pub proof fn undo_is_coherent(a: AppView)
    requires
        is_coherent(a),
    ensures
        is_coherent(undone(a)),
        is_coherent(redone(a)),
{
    active_is_kin(a);
    if a.history.len() > 0 {
        let b = undone(a);
        restored_is_active(a, a.history.last());
        assert forall|i: int| 0 <= i < b.history.len() implies is_kin(b, #[trigger] b.history[i]) by {
            assert(b.history[i] == a.history[i]);
        }
        assert forall|i: int| 0 <= i < b.redo.len() implies is_kin(b, #[trigger] b.redo[i]) by {
            if i < a.redo.len() {
                assert(b.redo[i] == a.redo[i]);
            }
        }
    }
    if a.redo.len() > 0 {
        let b = redone(a);
        restored_is_active(a, a.redo.last());
        assert forall|i: int| 0 <= i < b.history.len() implies is_kin(b, #[trigger] b.history[i]) by {
            if i < a.history.len() {
                assert(b.history[i] == a.history[i]);
            }
        }
        assert forall|i: int| 0 <= i < b.redo.len() implies is_kin(b, #[trigger] b.redo[i]) by {
            assert(b.redo[i] == a.redo[i]);
        }
    }
}

/// Recording a step of the active design keeps a session coherent, and never keeps more
/// steps than the limit.
pub proof fn record_is_coherent(a: AppView, s: SnapView)
    requires
        is_coherent(a),
        is_kin(a, s),
    ensures
        is_coherent(recorded(a, s)),
        recorded(a, s).redo.len() == 0,
{
    let b = recorded(a, s);
    let h = a.history.push(s);
    assert forall|i: int| 0 <= i < b.history.len() implies is_kin(b, #[trigger] b.history[i]) by {
        let k = if h.len() > HISTORY_CAP {
            i + 1
        } else {
            i
        };
        assert(b.history[i] == h[k]);
        if k < a.history.len() {
            assert(h[k] == a.history[k]);
        }
    }
}

/// Undoing shows the design of before the step, and doing it again shows the design of
/// after it, with everything that can be undone or done again as it was.
pub proof fn redo_undoes_undo(a: AppView)
    requires
        is_coherent(a),
        a.history.len() > 0,
    ensures
        snapshot(undone(a)) == a.history.last(),
        snapshot(redone(undone(a))) == snapshot(a),
        redone(undone(a)).history == a.history,
        redone(undone(a)).redo == a.redo,
{
    let b = undone(a);
    assert(is_kin(a, a.history.last()));
    restored_is_active(a, a.history.last());
    active_is_kin(a);
    let s = snapshot(a);
    assert(b.redo == a.redo.push(s));
    assert(b.redo.last() == s);
    assert(is_kin(b, s));
    restored_is_active(b, s);
    let c = redone(b);
    assert(c.history =~= a.history);
    assert(c.redo =~= a.redo);
}

/// A step that is recorded and undone leaves the design that was recorded.
pub proof fn undo_restores_recorded(a: AppView, s: SnapView)
    requires
        is_coherent(a),
        is_kin(a, s),
    ensures
        snapshot(undone(recorded(a, s))) == s,
{
    record_is_coherent(a, s);
    let b = recorded(a, s);
    let h = a.history.push(s);
    if h.len() > HISTORY_CAP {
        assert(h.remove(0).last() == s);
    }
    assert(b.history.last() == s);
    assert(is_kin(b, s));
    restored_is_active(b, s);
}

/// Undo and redo touch the design of the active chip and no other: the other projects,
/// and the designs of the other chips, stay.
pub proof fn undo_stays_at_home(a: AppView, m: Mcu)
    requires
        is_coherent(a),
        m != a.active.mcu,
    ensures
        undone(a).others == a.others,
        undone(a).active.name == a.active.name,
        undone(a).active.mcu == a.active.mcu,
        family_design(undone(a).active.h523_designs, m) == family_design(
            a.active.h523_designs,
            m,
        ),
        a.active.mcu != Mcu::G474 ==> undone(a).active.design == a.active.design,
        a.active.mcu != Mcu::C531 ==> undone(a).active.c531_design == a.active.c531_design,
{
    if a.history.len() > 0 {
        assert(is_kin(a, a.history.last()));
    }
}

/// A change of project leaves nothing to undo or do again.
pub proof fn move_clears_undo(
    a: AppView,
    active: ProjectView,
    others: Seq<ProjectView>,
    part: Option<Seq<char>>,
)
    ensures
        moved(a, active, others, part).history.len() == 0,
        moved(a, active, others, part).redo.len() == 0,
        moved(a, active, others, part).nav_epoch != a.nav_epoch,
        moved(a, active, others, part).active == active,
        moved(a, active, others, part).others == others,
        is_coherent(moved(a, active, others, part)),
{
}

/// A change of chip leaves nothing to undo or do again; choosing the chip that is active
/// changes nothing.
pub proof fn chip_clears_undo(a: AppView, m: Mcu, name: Seq<char>, part: Option<Seq<char>>)
    ensures
        m != a.active.mcu || a.active.asset_chip is Some ==> with_mcu(a, m).history.len() == 0
            && with_mcu(a, m).redo.len() == 0 && with_mcu(a, m).nav_epoch != a.nav_epoch,
        m == a.active.mcu && a.active.asset_chip is None ==> with_mcu(a, m) == a,
        with_asset(a, name, part).history.len() == 0,
        with_asset(a, name, part).redo.len() == 0,
        is_coherent(with_asset(a, name, part)),
{
}

/// A frame in which the project or chip changes records no step: nothing of the one can
/// be undone in the other.
pub proof fn no_step_across_projects(
    a: AppView,
    before: SnapView,
    active: ProjectView,
    others: Seq<ProjectView>,
    part: Option<Seq<char>>,
)
    ensures
        framed(moved(a, active, others, part), before, a.nav_epoch) == moved(
            a,
            active,
            others,
            part,
        ),
{
}

/// A frame that changes nothing but notes records no step.
pub proof fn unchanged_frame_records_nothing(a: AppView, epoch: u64)
    ensures
        framed(a, snapshot(a), epoch) == a,
{
}

/// Switching to a project and back restores both.
pub proof fn switching_back_restores(a: AppView, i: int, p: Option<Seq<char>>, q: Option<Seq<char>>)
    requires
        0 <= i < a.others.len(),
    ensures
        ({
            let b = moved(a, a.others[i], a.others.update(i, a.active), p);
            let c = moved(b, b.others[i], b.others.update(i, b.active), q);
            c.active == a.active && c.others == a.others
        }),
{
    let b = moved(a, a.others[i], a.others.update(i, a.active), p);
    let c = moved(b, b.others[i], b.others.update(i, b.active), q);
    assert(c.others =~= a.others);
}

} // verus!
