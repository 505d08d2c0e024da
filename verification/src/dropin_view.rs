//! How the verdicts on a candidate are shown.

use vstd::prelude::*;

use crate::dropin::PosOutcome;
use crate::dropin::PosResult;
use crate::dropin::PosView;
use crate::dropin::SourceKind;
use crate::dropin_search::CandidateMatch;
use crate::text;
use crate::texts::copy_text;

verus! {

/// An outcome, for the user.
pub fn outcome_label(o: PosOutcome) -> (r: &'static str)
    ensures
        r@ == (match o {
            PosOutcome::PowerOk => "power ok"@,
            PosOutcome::PowerMismatch => "POWER MISMATCH"@,
            PosOutcome::ServiceableExact => "exact"@,
            PosOutcome::ServiceableClassRole => "class+role"@,
            PosOutcome::ServiceableClassOnly => "class"@,
            PosOutcome::FunctionFail => "UNSERVICEABLE"@,
            PosOutcome::UnusedOk => "free"@,
            PosOutcome::PowerAsym => "power-asym"@,
            PosOutcome::UnusedRepurposed => "repurposed"@,
            PosOutcome::DedicatedOk => "reset/boot ok"@,
            PosOutcome::DedicatedMismatch => "DEDICATED MISMATCH"@,
            PosOutcome::DedicatedUnverified => "reset/boot ?"@,
            PosOutcome::DontCare => "—"@,
        }),
{
    match o {
        PosOutcome::PowerOk => "power ok",
        PosOutcome::PowerMismatch => "POWER MISMATCH",
        PosOutcome::ServiceableExact => "exact",
        PosOutcome::ServiceableClassRole => "class+role",
        PosOutcome::ServiceableClassOnly => "class",
        PosOutcome::FunctionFail => "UNSERVICEABLE",
        PosOutcome::UnusedOk => "free",
        PosOutcome::PowerAsym => "power-asym",
        PosOutcome::UnusedRepurposed => "repurposed",
        PosOutcome::DedicatedOk => "reset/boot ok",
        PosOutcome::DedicatedMismatch => "DEDICATED MISMATCH",
        PosOutcome::DedicatedUnverified => "reset/boot ?",
        PosOutcome::DontCare => "—",
    }
}

/// How an outcome is marked.
#[derive(Copy, Clone, Debug, PartialEq, Eq, Structural)]
pub enum Mark {
    Good,
    /// Good by class.
    Near,
    Caution,
    Bad,
    Dim,
}

/// The mark of an outcome.
pub open spec fn mark_of(o: PosOutcome) -> Mark {
    match o {
        PosOutcome::PowerOk => Mark::Good,
        PosOutcome::ServiceableExact => Mark::Good,
        PosOutcome::DedicatedOk => Mark::Good,
        PosOutcome::ServiceableClassRole => Mark::Near,
        PosOutcome::ServiceableClassOnly => Mark::Near,
        PosOutcome::PowerAsym => Mark::Caution,
        PosOutcome::DedicatedUnverified => Mark::Caution,
        PosOutcome::PowerMismatch => Mark::Bad,
        PosOutcome::FunctionFail => Mark::Bad,
        PosOutcome::DedicatedMismatch => Mark::Bad,
        _ => Mark::Dim,
    }
}

/// The mark of an outcome.
pub fn outcome_mark(o: PosOutcome) -> (r: Mark)
    ensures
        r == mark_of(o),
{
    match o {
        PosOutcome::PowerOk => Mark::Good,
        PosOutcome::ServiceableExact => Mark::Good,
        PosOutcome::DedicatedOk => Mark::Good,
        PosOutcome::ServiceableClassRole => Mark::Near,
        PosOutcome::ServiceableClassOnly => Mark::Near,
        PosOutcome::PowerAsym => Mark::Caution,
        PosOutcome::DedicatedUnverified => Mark::Caution,
        PosOutcome::PowerMismatch => Mark::Bad,
        PosOutcome::FunctionFail => Mark::Bad,
        PosOutcome::DedicatedMismatch => Mark::Bad,
        _ => Mark::Dim,
    }
}

/// Whether a position is worth showing.
pub open spec fn is_notable(p: PosView) -> bool {
    p.outcome != PosOutcome::DontCare && p.outcome != PosOutcome::UnusedOk
}

/// Whether a position is worth showing.
pub fn is_interesting(p: &PosResult) -> (r: bool)
    ensures
        r == is_notable(p@),
{
    match p.outcome {
        PosOutcome::DontCare => false,
        PosOutcome::UnusedOk => false,
        _ => true,
    }
}

/// A position's kind, for the user.
pub fn kind_label(k: SourceKind) -> (r: &'static str)
    ensures
        r@ == (match k {
            SourceKind::Power => "pwr"@,
            SourceKind::Allocated => "fn"@,
            SourceKind::UnusedGpio => "free"@,
            SourceKind::Dedicated => "sys"@,
            SourceKind::Nc => "nc"@,
        }),
{
    match k {
        SourceKind::Power => "pwr",
        SourceKind::Allocated => "fn",
        SourceKind::UnusedGpio => "free",
        SourceKind::Dedicated => "sys",
        SourceKind::Nc => "nc",
    }
}

/// What blocks in every mode is marked bad, and nothing else is.
pub proof fn bad_means_blocking(o: PosOutcome)
    ensures
        mark_of(o) == Mark::Bad <==> crate::dropin::blocks(o, crate::dropin::PowerMode::Ignore),
{
}

/// How many candidates are listed.
pub const ROW_CAP: usize = 300;

/// How many of the first `n` candidates are compatible.
pub open spec fn compatible_upto(v: Seq<CandidateMatch>, n: int) -> int
    decreases n,
{
    if n <= 0 {
        0
    } else {
        compatible_upto(v, n - 1) + if v[n - 1].compatible {
            1int
        } else {
            0int
        }
    }
}

/// The places of the compatible ones among the first `n`, up to the cap.
pub open spec fn listed_upto(v: Seq<CandidateMatch>, n: int) -> Seq<int>
    decreases n,
{
    if n <= 0 {
        Seq::empty()
    } else {
        let l = listed_upto(v, n - 1);
        if v[n - 1].compatible && l.len() < ROW_CAP {
            l.push(n - 1)
        } else {
            l
        }
    }
}

/// The places of the candidates that are listed, and how many compatible ones there are.
pub fn listed(results: &[CandidateMatch]) -> (r: (Vec<usize>, usize))
    ensures
        r.0@.map_values(|i: usize| i as int) == listed_upto(results@, results@.len() as int),
        r.1 == compatible_upto(results@, results@.len() as int),
{
    let mut rows: Vec<usize> = Vec::new();
    let mut count: usize = 0;
    let mut i: usize = 0;
    proof {
        assert(rows@.map_values(|i: usize| i as int) =~= listed_upto(results@, 0));
    }
    while i < results.len()
        invariant
            i <= results@.len(),
            count <= i,
            count == compatible_upto(results@, i as int),
            rows@.len() == listed_upto(results@, i as int).len(),
            rows@.map_values(|i: usize| i as int) == listed_upto(results@, i as int),
        decreases results@.len() - i,
    {
        if results[i].compatible {
            count += 1;
            if rows.len() < ROW_CAP {
                let ghost had = rows@;
                rows.push(i);
                proof {
                    assert(rows@.map_values(|i: usize| i as int) =~= had.map_values(
                        |i: usize| i as int,
                    ).push(i as int));
                }
            }
        }
        i += 1;
    }
    (rows, count)
}

/// The key of a candidate's row: a part can be in two footprints.
pub fn row_key(name: &str, footprint: &str) -> (r: String)
    ensures
        r@ == name@ + "|"@ + footprint@,
{
    let mut s: String = copy_text(name);
    s.append("|");
    s.append(footprint);
    s
}

/// The row whose pins are shown after a click on a row: none, where it was that row.
pub fn toggled(focus: &Option<String>, key: &str) -> (r: Option<String>)
    ensures
        match focus {
            Some(f) => if f@ == key@ {
                r is None
            } else {
                r is Some && r->0@ == key@
            },
            None => r is Some && r->0@ == key@,
        },
{
    let open: bool = match focus {
        Some(f) => text::same(f.as_str(), key),
        None => false,
    };
    if open {
        None
    } else {
        Some(copy_text(key))
    }
}

} // verus!
