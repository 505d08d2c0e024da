//! The search for drop-in replacements: a candidate's verdicts put together, and all
//! candidates of a lineup in order.

use vstd::prelude::*;

use crate::dropin;
use crate::dropin::blocks;
use crate::dropin::cand_at;
use crate::dropin::cap_rows;
use crate::dropin::caps_of;
use crate::dropin::pos_views;
use crate::dropin::satisfies;
use crate::dropin::verdict;
use crate::dropin::verdicts;
use crate::dropin::wired_views;
use crate::dropin::AfCap;
use crate::dropin::CapRow;
use crate::dropin::MatchConfig;
use crate::dropin::PosOutcome;
use crate::dropin::PosResult;
use crate::dropin::PosView;
use crate::dropin::PowerMode;
use crate::dropin::SourceKind;
use crate::dropin::SourceProfile;
use crate::dropin::Strictness;
use crate::dropin::WiredFn;
use crate::h523_design::LockView;
use crate::mcu::chip_key;
use crate::mcu_raw::RawMcuData;
use crate::order;
use crate::order::order_of;
use crate::order::picked;
use crate::phys_pinout;
use crate::phys_pinout::class_of_package;
use crate::phys_pinout::function_of;
use crate::phys_pinout::names_reset_boot;
use crate::phys_pinout::phys_views;
use crate::phys_pinout::PackageClass;
use crate::phys_pinout::PhysView;
use crate::phys_pinout::PinFunction;
use crate::phys_pinout::PinoutRecord;
use crate::text;
use crate::text::views;
use crate::texts;
use crate::texts::copy_text;
use crate::texts::text_ranks;
use vstd::utf8::encode_utf8;
use vstd::utf8::is_char_boundary;

verus! {

/// A candidate and its verdicts.
#[derive(Clone, Debug)]
pub struct CandidateMatch {
    pub name: String,
    pub family: String,
    pub footprint: String,
    pub compatible: bool,
    pub same_family: bool,
    /// The reset or boot line could not be compared.
    pub reset_boot_unverified: bool,
    pub n_satisfied: u16,
    pub n_required: u16,
    pub warnings: u16,
    pub score: i64,
    pub positions: Vec<PosResult>,
}

/// A candidate as a mathematical value.
pub ghost struct CandView {
    pub name: Seq<char>,
    pub family: Seq<char>,
    pub footprint: Seq<char>,
    pub compatible: bool,
    pub same_family: bool,
    pub reset_boot_unverified: bool,
    pub n_satisfied: int,
    pub n_required: int,
    pub warnings: int,
    pub score: int,
    pub positions: Seq<PosView>,
}

impl View for CandidateMatch {
    type V = CandView;

    open spec fn view(&self) -> CandView {
        CandView {
            name: self.name@,
            family: self.family@,
            footprint: self.footprint@,
            compatible: self.compatible,
            same_family: self.same_family,
            reset_boot_unverified: self.reset_boot_unverified,
            n_satisfied: self.n_satisfied as int,
            n_required: self.n_required as int,
            warnings: self.warnings as int,
            score: self.score as int,
            positions: pos_views(self.positions@),
        }
    }
}

/// The values of candidates.
pub open spec fn cand_views(v: Seq<CandidateMatch>) -> Seq<CandView> {
    v.map_values(|c: CandidateMatch| c@)
}

/// What is counted over the positions.
pub ghost enum Counted {
    Required,
    Satisfied,
    Outcome(PosOutcome),
    Blocker(PowerMode),
}

/// Whether a position counts.
pub open spec fn counts(p: PosView, what: Counted) -> bool {
    match what {
        Counted::Required => p.kind == SourceKind::Power || p.kind == SourceKind::Allocated,
        Counted::Satisfied => satisfies(p.outcome),
        Counted::Outcome(o) => p.outcome == o,
        Counted::Blocker(mode) => blocks(p.outcome, mode),
    }
}

/// How many of the first `n` positions count.
pub open spec fn count_of(v: Seq<PosView>, what: Counted, n: int) -> int
    decreases n,
{
    if n <= 0 {
        0
    } else {
        count_of(v, what, n - 1) + (if counts(v[n - 1], what) {
            1int
        } else {
            0
        })
    }
}

/// Whether a position is connected.
pub open spec fn is_connected(p: PhysView) -> bool {
    !(function_of(p.s) is Nc)
}

/// Whether the footprint has a connected position of the name.
pub open spec fn has_position(pins: Seq<PhysView>, p: Seq<char>) -> bool {
    exists|i: int| 0 <= i < pins.len() && is_connected(#[trigger] pins[i]) && pins[i].p == p
}

/// Whether every connected position of one footprint is one of the other.
pub open spec fn positions_within(a: Seq<PhysView>, b: Seq<PhysView>) -> bool {
    forall|i: int|
        0 <= i < a.len() && is_connected(#[trigger] a[i]) ==> has_position(b, a[i].p)
}

/// Whether two footprints have the same connected positions.
pub open spec fn same_positions(a: Seq<PhysView>, b: Seq<PhysView>) -> bool {
    positions_within(a, b) && positions_within(b, a)
}

/// A footprint and its family.
pub ghost struct FootView {
    pub pkg: Seq<char>,
    pub fam: Seq<char>,
    pub pins: Seq<PhysView>,
}

/// The value of a footprint.
pub open spec fn foot(r: PinoutRecord) -> FootView {
    FootView { pkg: r.pkg@, fam: r.fam@, pins: phys_views(r.pins@) }
}

/// A candidate judged against the source.
pub open spec fn judged(
    wired: Seq<LockView>,
    source: FootView,
    name: Seq<char>,
    cand: FootView,
    caps: Seq<CapRow>,
    cfg: MatchConfig,
) -> CandView {
    let v = verdicts(wired, source.pins, cand.pins, caps, cfg);
    let n = v.len() as int;
    let same_family = source.fam == cand.fam;
    let unverified = !same_family && (!names_reset_boot(source.pins) || !names_reset_boot(
        cand.pins,
    ));
    let warnings = count_of(v, Counted::Outcome(PosOutcome::PowerAsym), n);
    CandView {
        name,
        family: cand.fam,
        footprint: cand.pkg,
        compatible: same_positions(source.pins, cand.pins) && count_of(
            v,
            Counted::Blocker(cfg.power_mode),
            n,
        ) == 0,
        same_family,
        reset_boot_unverified: unverified,
        n_satisfied: count_of(v, Counted::Satisfied, n),
        n_required: count_of(v, Counted::Required, n),
        warnings,
        score: 1000 * count_of(v, Counted::Outcome(PosOutcome::ServiceableExact), n) + 400
            * count_of(v, Counted::Outcome(PosOutcome::ServiceableClassRole), n) + 100 * count_of(
            v,
            Counted::Outcome(PosOutcome::ServiceableClassOnly),
            n,
        ) - 50 * warnings - (if unverified {
            30int
        } else {
            0
        }) + (if same_family {
            200int
        } else {
            0
        }),
        positions: v,
    }
}

fn connected(p: &phys_pinout::PhysPin) -> (r: bool)
    ensures
        r == is_connected(p@),
{
    match p.function() {
        PinFunction::Nc => false,
        _ => true,
    }
}

fn within(a: &PinoutRecord, b: &PinoutRecord) -> (r: bool)
    ensures
        r == positions_within(phys_views(a.pins@), phys_views(b.pins@)),
{
    let ghost av = phys_views(a.pins@);
    let ghost bv = phys_views(b.pins@);
    let mut i: usize = 0;
    while i < a.pins.len()
        invariant
            i <= a.pins@.len(),
            av == phys_views(a.pins@),
            bv == phys_views(b.pins@),
            forall|k: int| 0 <= k < i && is_connected(#[trigger] av[k]) ==> has_position(bv, av[k].p),
        decreases a.pins@.len() - i,
    {
        proof {
            assert(av[i as int] == a.pins@[i as int]@);
        }
        if connected(&a.pins[i]) {
            let mut found: bool = false;
            let mut j: usize = 0;
            while j < b.pins.len()
                invariant
                    i < a.pins@.len(),
                    j <= b.pins@.len(),
                    av == phys_views(a.pins@),
                    bv == phys_views(b.pins@),
                    found ==> has_position(bv, av[i as int].p),
                    !found ==> forall|k: int|
                        0 <= k < j && is_connected(#[trigger] bv[k]) ==> bv[k].p != av[i as int].p,
                decreases b.pins@.len() - j,
            {
                proof {
                    assert(av[i as int] == a.pins@[i as int]@);
                    assert(bv[j as int] == b.pins@[j as int]@);
                }
                if connected(&b.pins[j]) && text::same(b.pins[j].p.as_str(), a.pins[i].p.as_str()) {
                    found = true;
                }
                j += 1;
            }
            if !found {
                assert(is_connected(av[i as int]));
                assert(!has_position(bv, av[i as int].p));
                return false;
            }
        }
        i += 1;
    }
    true
}

/// The counts that a verdict list gives.
struct Tally {
    required: u16,
    satisfied: u16,
    warnings: u16,
    exact: u16,
    class_role: u16,
    class_only: u16,
    blockers: u16,
}

/// Whether a tally is that of the first `n` positions.
spec fn tallied(t: Tally, v: Seq<PosView>, mode: PowerMode, n: int) -> bool {
    &&& t.required == count_of(v, Counted::Required, n)
    &&& t.satisfied == count_of(v, Counted::Satisfied, n)
    &&& t.warnings == count_of(v, Counted::Outcome(PosOutcome::PowerAsym), n)
    &&& t.exact == count_of(v, Counted::Outcome(PosOutcome::ServiceableExact), n)
    &&& t.class_role == count_of(v, Counted::Outcome(PosOutcome::ServiceableClassRole), n)
    &&& t.class_only == count_of(v, Counted::Outcome(PosOutcome::ServiceableClassOnly), n)
    &&& t.blockers == count_of(v, Counted::Blocker(mode), n)
}

/// A count is at most the number of positions counted.
pub proof fn count_bound(v: Seq<PosView>, what: Counted, n: int)
    requires
        0 <= n,
    ensures
        0 <= count_of(v, what, n) <= n,
    decreases n,
{
    if n > 0 {
        count_bound(v, what, n - 1);
    }
}

fn tally(positions: &[PosResult], mode: PowerMode) -> (r: Tally)
    requires
        positions@.len() <= u16::MAX,
    ensures
        tallied(r, pos_views(positions@), mode, positions@.len() as int),
{
    let ghost v = pos_views(positions@);
    let mut t: Tally = Tally {
        required: 0,
        satisfied: 0,
        warnings: 0,
        exact: 0,
        class_role: 0,
        class_only: 0,
        blockers: 0,
    };
    let mut i: usize = 0;
    while i < positions.len()
        invariant
            i <= positions@.len(),
            positions@.len() <= u16::MAX,
            v == pos_views(positions@),
            tallied(t, v, mode, i as int),
        decreases positions@.len() - i,
    {
        proof {
            assert(v[i as int] == positions@[i as int]@);
            count_bound(v, Counted::Required, i as int);
            count_bound(v, Counted::Satisfied, i as int);
            count_bound(v, Counted::Outcome(PosOutcome::PowerAsym), i as int);
            count_bound(v, Counted::Outcome(PosOutcome::ServiceableExact), i as int);
            count_bound(v, Counted::Outcome(PosOutcome::ServiceableClassRole), i as int);
            count_bound(v, Counted::Outcome(PosOutcome::ServiceableClassOnly), i as int);
            count_bound(v, Counted::Blocker(mode), i as int);
        }
        let kind: SourceKind = positions[i].kind;
        let outcome: PosOutcome = positions[i].outcome;
        if kind == SourceKind::Power || kind == SourceKind::Allocated {
            t.required = t.required + 1;
        }
        if outcome.is_satisfied() {
            t.satisfied = t.satisfied + 1;
        }
        if outcome.is_blocker(mode) {
            t.blockers = t.blockers + 1;
        }
        match outcome {
            PosOutcome::PowerAsym => {
                t.warnings = t.warnings + 1;
            },
            PosOutcome::ServiceableExact => {
                t.exact = t.exact + 1;
            },
            PosOutcome::ServiceableClassRole => {
                t.class_role = t.class_role + 1;
            },
            PosOutcome::ServiceableClassOnly => {
                t.class_only = t.class_only + 1;
            },
            _ => {},
        }
        i += 1;
    }
    t
}

/// Judge one candidate against the source. The footprint, every supply, every wired
/// function and every dedicated line must hold for it to be compatible.
pub fn evaluate_candidate(
    src: &SourceProfile,
    cand_name: &str,
    cand_rec: &PinoutRecord,
    cand_af: &[AfCap],
    cfg: MatchConfig,
) -> (r: CandidateMatch)
    requires
        src.footprint.pins@.len() <= u16::MAX,
    ensures
        r@ == judged(
            wired_views(src.wired@),
            foot(*src.footprint),
            cand_name@,
            foot(*cand_rec),
            cap_rows(cand_af@),
            cfg,
        ),
{
    let ghost wired = wired_views(src.wired@);
    let ghost sv = phys_views(src.footprint.pins@);
    let ghost cv = phys_views(cand_rec.pins@);
    let ghost rows = cap_rows(cand_af@);
    let mut positions: Vec<PosResult> = Vec::new();
    let mut i: usize = 0;
    while i < src.footprint.pins.len()
        invariant
            i <= src.footprint.pins@.len(),
            wired == wired_views(src.wired@),
            sv == phys_views(src.footprint.pins@),
            cv == phys_views(cand_rec.pins@),
            rows == cap_rows(cand_af@),
            positions@.len() == i,
            forall|k: int|
                0 <= k < i ==> (#[trigger] positions@[k])@ == verdict(
                    wired,
                    sv[k],
                    cand_at(cv, sv[k].p),
                    rows,
                    cfg,
                ),
        decreases src.footprint.pins@.len() - i,
    {
        let p: &phys_pinout::PhysPin = &src.footprint.pins[i];
        proof {
            assert(sv[i as int] == p@);
        }
        let cand: Option<PinFunction> = match cand_rec.at(p.p.as_str()) {
            Some(x) => Some(x.function()),
            None => None,
        };
        positions.push(dropin::judge(src, p, &cand, cand_af, cfg));
        i += 1;
    }
    let ghost v = verdicts(wired, sv, cv, rows, cfg);
    proof {
        assert(pos_views(positions@) =~= v);
    }
    let same_family: bool = text::same(src.footprint.fam.as_str(), cand_rec.fam.as_str());
    let unverified: bool = !same_family && (!src.footprint.has_reset_boot()
        || !cand_rec.has_reset_boot());
    let fits: bool = within(src.footprint, cand_rec) && within(cand_rec, src.footprint);
    let t: Tally = tally(&positions, cfg.power_mode);
    let penalty: i64 = if unverified {
        30
    } else {
        0
    };
    let bonus: i64 = if same_family {
        200
    } else {
        0
    };
    let score: i64 = 1000 * (t.exact as i64) + 400 * (t.class_role as i64) + 100 * (
    t.class_only as i64) - 50 * (t.warnings as i64) - penalty + bonus;
    CandidateMatch {
        name: copy_text(cand_name),
        family: copy_text(cand_rec.fam.as_str()),
        footprint: copy_text(cand_rec.pkg.as_str()),
        compatible: fits && t.blockers == 0,
        same_family,
        reset_boot_unverified: unverified,
        n_satisfied: t.satisfied,
        n_required: t.required,
        warnings: t.warnings,
        score,
        positions,
    }
}

/// A part of the lineup: its footprint and pin table, where they are known.
pub struct LineupPart {
    pub name: String,
    pub pkg: String,
    pub record: Option<&'static PinoutRecord>,
    pub raw: Option<&'static RawMcuData>,
}

/// A part as a mathematical value.
pub ghost struct PartView {
    pub name: Seq<char>,
    pub pkg: Seq<char>,
    pub record: Option<FootView>,
    pub caps: Seq<CapRow>,
}

impl View for LineupPart {
    type V = PartView;

    open spec fn view(&self) -> PartView {
        PartView {
            name: self.name@,
            pkg: self.pkg@,
            record: match self.record {
                Some(r) => Some(foot(*r)),
                None => None,
            },
            caps: match self.raw {
                Some(r) => caps_of(*r),
                None => Seq::empty(),
            },
        }
    }
}

/// The values of a lineup.
pub open spec fn part_views(v: Seq<LineupPart>) -> Seq<PartView> {
    v.map_values(|p: LineupPart| p@)
}

/// Whether a name is long enough to have a line and package letter.
pub open spec fn has_letter(name: Seq<char>) -> bool {
    encode_utf8(name).len() >= 10
}

/// Whether a part is another one than the source, by line and package letter.
pub open spec fn is_other(p: PartView, source: Seq<char>) -> bool {
    has_letter(p.name) && chip_key(p.name) != chip_key(source)
}

/// Whether an earlier part has the same line, package letter and footprint.
pub open spec fn is_repeat(parts: Seq<PartView>, source: Seq<char>, i: int) -> bool {
    exists|j: int|
        0 <= j < i && is_other(#[trigger] parts[j], source) && chip_key(parts[j].name) == chip_key(
            parts[i].name,
        ) && parts[j].pkg == parts[i].pkg
}

/// Whether a part is to be judged: another part, the first of its line, letter and
/// footprint, of the source's land pattern, with a known footprint.
pub open spec fn is_candidate(
    parts: Seq<PartView>,
    source: Seq<char>,
    class: (Seq<char>, Seq<char>),
    i: int,
) -> bool {
    is_other(parts[i], source) && !is_repeat(parts, source, i) && class_of_package(parts[i].pkg)
        == Some(class) && parts[i].record is Some
}

/// The source of a search.
pub ghost struct SourceView {
    pub name: Seq<char>,
    pub footprint: FootView,
    pub wired: Seq<LockView>,
}

/// The value of a source.
pub open spec fn source_of(s: SourceProfile) -> SourceView {
    SourceView { name: s.name@, footprint: foot(*s.footprint), wired: wired_views(s.wired@) }
}

/// The candidates among the first `n` parts, judged.
pub open spec fn candidates(
    s: SourceView,
    class: (Seq<char>, Seq<char>),
    parts: Seq<PartView>,
    cfg: MatchConfig,
    n: int,
) -> Seq<CandView>
    decreases n,
{
    if n <= 0 {
        Seq::empty()
    } else if is_candidate(parts, s.name, class, n - 1) {
        candidates(s, class, parts, cfg, n - 1).push(
            judged(
                s.wired,
                s.footprint,
                parts[n - 1].name,
                parts[n - 1].record->0,
                parts[n - 1].caps,
                cfg,
            ),
        )
    } else {
        candidates(s, class, parts, cfg, n - 1)
    }
}

/// The place of a candidate by its score, highest first.
pub open spec fn score_key(c: CandView) -> u64 {
    (0x1_0000_0000 - c.score) as u64
}

/// The place of a candidate by its compatibility.
pub open spec fn compatible_key(c: CandView) -> u64 {
    if c.compatible {
        0
    } else {
        1
    }
}

/// Candidates in order: compatible ones first, then by score, then by name.
pub open spec fn ranked_candidates(v: Seq<CandView>) -> Seq<CandView> {
    let a = picked(v, order_of(text_ranks(v.map_values(|c: CandView| c.name))));
    let b = picked(a, order_of(a.map_values(|c: CandView| score_key(c))));
    picked(b, order_of(b.map_values(|c: CandView| compatible_key(c))))
}

/// The replacements of a source in a lineup; none where its package has no land pattern
/// that could be compared.
pub open spec fn replacements(s: SourceView, parts: Seq<PartView>, cfg: MatchConfig) -> Seq<CandView> {
    match class_of_package(s.footprint.pkg) {
        Some(class) => ranked_candidates(
            candidates(s, class, parts, cfg, parts.len() as int),
        ),
        None => Seq::empty(),
    }
}

fn prefix_of(name: &str) -> (r: String)
    ensures
        r@ == chip_key(name@),
{
    if name.is_char_boundary(10) {
        let (head, _) = name.split_at(10);
        proof {
            vstd::utf8::encode_utf8_decode_utf8(head@);
            assert(encode_utf8(head@) =~= encode_utf8(name@).subrange(0, 10));
        }
        copy_text(head)
    } else {
        copy_text(name)
    }
}

fn long_enough(name: &str) -> (r: bool)
    ensures
        r == has_letter(name@),
{
    name.as_bytes().len() >= 10
}

fn other_part(p: &LineupPart, source_key: &str, source: Ghost<Seq<char>>) -> (r: bool)
    requires
        source_key@ == chip_key(source@),
    ensures
        r == is_other(p@, source@),
{
    if !long_enough(p.name.as_str()) {
        return false;
    }
    let key: String = prefix_of(p.name.as_str());
    !text::same(key.as_str(), source_key)
}

fn repeated(parts: &[LineupPart], source_key: &str, source: Ghost<Seq<char>>, i: usize) -> (r: bool)
    requires
        source_key@ == chip_key(source@),
        i < parts@.len(),
    ensures
        r == is_repeat(part_views(parts@), source@, i as int),
{
    let ghost v = part_views(parts@);
    let key: String = prefix_of(parts[i].name.as_str());
    proof {
        assert(v[i as int] == parts@[i as int]@);
    }
    let mut j: usize = 0;
    while j < i
        invariant
            j <= i,
            i < parts@.len(),
            v == part_views(parts@),
            v[i as int] == parts@[i as int]@,
            key@ == chip_key(v[i as int].name),
            source_key@ == chip_key(source@),
            forall|k: int|
                0 <= k < j ==> !(is_other(#[trigger] v[k], source@) && chip_key(v[k].name)
                    == chip_key(v[i as int].name) && v[k].pkg == v[i as int].pkg),
        decreases i - j,
    {
        proof {
            assert(v[j as int] == parts@[j as int]@);
        }
        if other_part(&parts[j], source_key, source) {
            let k: String = prefix_of(parts[j].name.as_str());
            if text::same(k.as_str(), key.as_str()) && text::same(
                parts[j].pkg.as_str(),
                parts[i].pkg.as_str(),
            ) {
                assert(is_other(v[j as int], source@));
                return true;
            }
        }
        j += 1;
    }
    false
}

fn same_class(pkg: &str, class: &PackageClass) -> (r: bool)
    ensures
        r == (class_of_package(pkg@) == Some((class.kind@, class.pins@))),
{
    match phys_pinout::package_class(pkg) {
        Some(c) => c.same_as(class),
        None => false,
    }
}

impl CandidateMatch {
    /// The same candidate again.
    pub fn copy(&self) -> (r: CandidateMatch)
        ensures
            r@ == self@,
    {
        let mut positions: Vec<PosResult> = Vec::new();
        let mut i: usize = 0;
        while i < self.positions.len()
            invariant
                i <= self.positions@.len(),
                positions@.len() == i,
                forall|k: int| 0 <= k < i ==> (#[trigger] positions@[k])@ == self.positions@[k]@,
            decreases self.positions@.len() - i,
        {
            let p: &PosResult = &self.positions[i];
            positions.push(
                PosResult {
                    position: copy_text(p.position.as_str()),
                    kind: p.kind,
                    outcome: p.outcome,
                    detail: copy_text(p.detail.as_str()),
                },
            );
            i += 1;
        }
        proof {
            assert(pos_views(positions@) =~= pos_views(self.positions@));
        }
        CandidateMatch {
            name: copy_text(self.name.as_str()),
            family: copy_text(self.family.as_str()),
            footprint: copy_text(self.footprint.as_str()),
            compatible: self.compatible,
            same_family: self.same_family,
            reset_boot_unverified: self.reset_boot_unverified,
            n_satisfied: self.n_satisfied,
            n_required: self.n_required,
            warnings: self.warnings,
            score: self.score,
            positions,
        }
    }
}

fn pick_candidates(v: &[CandidateMatch], keys: &[u64]) -> (r: Vec<CandidateMatch>)
    requires
        v@.len() == keys@.len(),
    ensures
        cand_views(r@) == picked(cand_views(v@), order_of(keys@)),
        r@.len() == v@.len(),
        forall|i: int| 0 <= i < r@.len() ==> cand_views(v@).contains((#[trigger] r@[i])@),
{
    let o: Vec<usize> = order::stable_order(keys);
    let mut out: Vec<CandidateMatch> = Vec::new();
    let mut k: usize = 0;
    while k < o.len()
        invariant
            k <= o@.len(),
            o@.len() == v@.len(),
            order::is_stable_order(keys@, o@, v@.len() as int),
            out@.len() == k,
            forall|j: int| 0 <= j < k ==> (#[trigger] out@[j])@ == v@[o@[j] as int]@,
        decreases o@.len() - k,
    {
        assert(o@[k as int] < v@.len());
        out.push(v[o[k]].copy());
        k += 1;
    }
    proof {
        assert(cand_views(out@) =~= picked(cand_views(v@), o@));
        assert forall|i: int| 0 <= i < out@.len() implies cand_views(v@).contains(
            (#[trigger] out@[i])@,
        ) by {
            assert(o@[i] < v@.len());
            assert(cand_views(v@)[o@[i] as int] == out@[i]@);
        }
    }
    out
}

/// Whether a score is in the range that a footprint allows.
pub open spec fn scores_fit(v: Seq<CandView>) -> bool {
    forall|i: int| 0 <= i < v.len() ==> -0x1_0000_0000 < (#[trigger] v[i]).score < 0x1_0000_0000
}

fn rank_candidates(v: &[CandidateMatch]) -> (r: Vec<CandidateMatch>)
    requires
        scores_fit(cand_views(v@)),
    ensures
        cand_views(r@) == ranked_candidates(cand_views(v@)),
{
    let ghost cv = cand_views(v@);
    let mut names: Vec<String> = Vec::new();
    let mut i: usize = 0;
    while i < v.len()
        invariant
            i <= v@.len(),
            cv == cand_views(v@),
            names@.len() == i,
            forall|k: int| 0 <= k < i ==> (#[trigger] names@[k])@ == cv[k].name,
        decreases v@.len() - i,
    {
        names.push(copy_text(v[i].name.as_str()));
        i += 1;
    }
    proof {
        assert(views(names@) =~= cv.map_values(|c: CandView| c.name));
    }
    let k1: Vec<u64> = texts::rank_texts(&names);
    let a: Vec<CandidateMatch> = pick_candidates(v, &k1);
    let ghost av = cand_views(a@);
    let ghost f = |c: CandView| score_key(c);
    let mut k2: Vec<u64> = Vec::new();
    let mut j: usize = 0;
    while j < a.len()
        invariant
            j <= a@.len(),
            av == cand_views(a@),
            scores_fit(cv),
            forall|x: int| 0 <= x < a@.len() ==> cv.contains((#[trigger] a@[x])@),
            f == (|c: CandView| score_key(c)),
            k2@ =~= av.map_values(f).take(j as int),
        decreases a@.len() - j,
    {
        proof {
            assert(av[j as int] == a@[j as int]@);
            assert(cv.contains(a@[j as int]@));
            let x = choose|x: int| 0 <= x < cv.len() && cv[x] == a@[j as int]@;
            assert(-0x1_0000_0000 < cv[x].score < 0x1_0000_0000);
        }
        let key: i64 = 0x1_0000_0000 - a[j].score;
        k2.push(key as u64);
        j += 1;
    }
    proof {
        assert(k2@ =~= av.map_values(f));
    }
    let b: Vec<CandidateMatch> = pick_candidates(&a, &k2);
    let ghost bv = cand_views(b@);
    let ghost g = |c: CandView| compatible_key(c);
    let mut k3: Vec<u64> = Vec::new();
    let mut m: usize = 0;
    while m < b.len()
        invariant
            m <= b@.len(),
            bv == cand_views(b@),
            g == (|c: CandView| compatible_key(c)),
            k3@ =~= bv.map_values(g).take(m as int),
        decreases b@.len() - m,
    {
        let key: u64 = if b[m].compatible {
            0
        } else {
            1
        };
        k3.push(key);
        m += 1;
    }
    proof {
        assert(k3@ =~= bv.map_values(g));
    }
    pick_candidates(&b, &k3)
}

/// The score of a candidate for a footprint of at most 65535 positions is far from any limit.
pub proof fn judged_score_fits(
    wired: Seq<LockView>,
    source: FootView,
    name: Seq<char>,
    cand: FootView,
    caps: Seq<CapRow>,
    cfg: MatchConfig,
)
    requires
        source.pins.len() <= u16::MAX,
    ensures
        -0x1_0000_0000 < judged(wired, source, name, cand, caps, cfg).score < 0x1_0000_0000,
{
    let v = verdicts(wired, source.pins, cand.pins, caps, cfg);
    let n = v.len() as int;
    count_bound(v, Counted::Outcome(PosOutcome::PowerAsym), n);
    count_bound(v, Counted::Outcome(PosOutcome::ServiceableExact), n);
    count_bound(v, Counted::Outcome(PosOutcome::ServiceableClassRole), n);
    count_bound(v, Counted::Outcome(PosOutcome::ServiceableClassOnly), n);
}

/// Every replacement of a source in a lineup, compatible ones first, then by score, then
/// by name.
pub fn find_replacements(src: &SourceProfile, cfg: MatchConfig, lineup: &[LineupPart]) -> (r: Vec<
    CandidateMatch,
>)
    requires
        src.footprint.pins@.len() <= u16::MAX,
    ensures
        cand_views(r@) == replacements(source_of(*src), part_views(lineup@), cfg),
{
    let ghost s = source_of(*src);
    let ghost parts = part_views(lineup@);
    match phys_pinout::package_class(src.footprint.pkg.as_str()) {
        None => {
            let r: Vec<CandidateMatch> = Vec::new();
            proof {
                assert(cand_views(r@) =~= Seq::<CandView>::empty());
            }
            r
        },
        Some(class) => {
            let ghost cl = (class.kind@, class.pins@);
            let key: String = prefix_of(src.name.as_str());
            let mut out: Vec<CandidateMatch> = Vec::new();
            let mut i: usize = 0;
            proof {
                assert(cand_views(out@) =~= candidates(s, cl, parts, cfg, 0));
            }
            while i < lineup.len()
                invariant
                    i <= lineup@.len(),
                    src.footprint.pins@.len() <= u16::MAX,
                    s == source_of(*src),
                    parts == part_views(lineup@),
                    cl == (class.kind@, class.pins@),
                    key@ == chip_key(src.name@),
                    scores_fit(cand_views(out@)),
                    cand_views(out@) == candidates(s, cl, parts, cfg, i as int),
                decreases lineup@.len() - i,
            {
                let part: &LineupPart = &lineup[i];
                proof {
                    assert(parts[i as int] == part@);
                }
                if other_part(part, key.as_str(), Ghost(src.name@)) && !repeated(
                    lineup,
                    key.as_str(),
                    Ghost(src.name@),
                    i,
                ) && same_class(part.pkg.as_str(), &class) {
                    if let Some(rec) = part.record {
                        let caps: Vec<AfCap> = match part.raw {
                            Some(raw) => dropin::build_af_oracle(raw),
                            None => {
                                let none: Vec<AfCap> = Vec::new();
                                proof {
                                    assert(cap_rows(none@) =~= Seq::<CapRow>::empty());
                                }
                                none
                            },
                        };
                        let ghost had = out@;
                        let c: CandidateMatch = evaluate_candidate(
                            src,
                            part.name.as_str(),
                            rec,
                            &caps,
                            cfg,
                        );
                        let ghost view = c@;
                        proof {
                            judged_score_fits(
                                s.wired,
                                s.footprint,
                                part.name@,
                                foot(*rec),
                                cap_rows(caps@),
                                cfg,
                            );
                        }
                        out.push(c);
                        proof {
                            assert(cand_views(out@) =~= cand_views(had).push(view));
                            assert forall|k: int| 0 <= k < out@.len() implies -0x1_0000_0000 < (
                            #[trigger] cand_views(out@)[k]).score < 0x1_0000_0000 by {
                                if k < had.len() {
                                    assert(cand_views(out@)[k] == cand_views(had)[k]);
                                }
                            }
                        }
                    }
                }
                i += 1;
            }
            rank_candidates(&out)
        },
    }
}

/// What the user asks for.
#[derive(Clone, Debug, PartialEq)]
pub struct DropinQuery {
    pub strictness: Strictness,
    pub power_mode: PowerMode,
    pub family: Option<String>,
    pub same_family_only: bool,
}

/// A query as a mathematical value.
pub ghost struct QueryView {
    pub strictness: Strictness,
    pub power_mode: PowerMode,
    pub family: Option<Seq<char>>,
    pub same_family_only: bool,
}

impl View for DropinQuery {
    type V = QueryView;

    open spec fn view(&self) -> QueryView {
        QueryView {
            strictness: self.strictness,
            power_mode: self.power_mode,
            family: match self.family {
                Some(f) => Some(f@),
                None => None,
            },
            same_family_only: self.same_family_only,
        }
    }
}

/// How a query matches.
pub open spec fn config_of(q: QueryView) -> MatchConfig {
    MatchConfig { strictness: q.strictness, power_mode: q.power_mode }
}

impl Default for DropinQuery {
    fn default() -> (r: Self)
        ensures
            r@ == (QueryView {
                strictness: Strictness::ClassRole,
                power_mode: PowerMode::Warn,
                family: None,
                same_family_only: false,
            }),
    {
        DropinQuery {
            strictness: Strictness::ClassRole,
            power_mode: PowerMode::Warn,
            family: None,
            same_family_only: false,
        }
    }
}

impl DropinQuery {
    /// How the query matches.
    pub fn config(&self) -> (r: MatchConfig)
        ensures
            r == config_of(self@),
    {
        MatchConfig { strictness: self.strictness, power_mode: self.power_mode }
    }

    /// Whether two queries are the same.
    pub fn same_as(&self, other: &DropinQuery) -> (r: bool)
        ensures
            r == (self@ == other@),
    {
        let same_family: bool = match (&self.family, &other.family) {
            (Some(a), Some(b)) => text::same(a.as_str(), b.as_str()),
            (None, None) => true,
            _ => false,
        };
        self.strictness == other.strictness && self.power_mode == other.power_mode && same_family
            && self.same_family_only == other.same_family_only
    }

    /// The same query again.
    pub fn copy(&self) -> (r: DropinQuery)
        ensures
            r@ == self@,
    {
        DropinQuery {
            strictness: self.strictness,
            power_mode: self.power_mode,
            family: match &self.family {
                Some(f) => Some(copy_text(f.as_str())),
                None => None,
            },
            same_family_only: self.same_family_only,
        }
    }
}

/// Whether a candidate passes a query's narrowing.
pub open spec fn passes(c: CandView, q: QueryView) -> bool {
    (q.family is Some ==> c.family == q.family->0) && (q.same_family_only ==> c.same_family)
}

/// The candidates among the first `n` that pass.
pub open spec fn narrowed(v: Seq<CandView>, q: QueryView, n: int) -> Seq<CandView>
    decreases n,
{
    if n <= 0 {
        Seq::empty()
    } else if passes(v[n - 1], q) {
        narrowed(v, q, n - 1).push(v[n - 1])
    } else {
        narrowed(v, q, n - 1)
    }
}

/// The answer to a query.
pub open spec fn answers(s: SourceView, parts: Seq<PartView>, q: QueryView) -> Seq<CandView> {
    let v = replacements(s, parts, config_of(q));
    narrowed(v, q, v.len() as int)
}

fn narrow(v: &[CandidateMatch], q: &DropinQuery) -> (r: Vec<CandidateMatch>)
    ensures
        cand_views(r@) == narrowed(cand_views(v@), q@, v@.len() as int),
{
    let ghost cv = cand_views(v@);
    let mut out: Vec<CandidateMatch> = Vec::new();
    let mut i: usize = 0;
    proof {
        assert(cand_views(out@) =~= narrowed(cv, q@, 0));
    }
    while i < v.len()
        invariant
            i <= v@.len(),
            cv == cand_views(v@),
            cand_views(out@) == narrowed(cv, q@, i as int),
        decreases v@.len() - i,
    {
        proof {
            assert(cv[i as int] == v@[i as int]@);
        }
        let family_ok: bool = match &q.family {
            Some(f) => text::same(v[i].family.as_str(), f.as_str()),
            None => true,
        };
        if family_ok && (!q.same_family_only || v[i].same_family) {
            let ghost had = out@;
            out.push(v[i].copy());
            proof {
                assert(cand_views(out@) =~= cand_views(had).push(cv[i as int]));
            }
        }
        i += 1;
    }
    out
}

fn same_positions_of(a: &PinoutRecord, b: &PinoutRecord) -> (r: bool)
    ensures
        r == (phys_views(a.pins@) == phys_views(b.pins@)),
{
    let ghost av = phys_views(a.pins@);
    let ghost bv = phys_views(b.pins@);
    if a.pins.len() != b.pins.len() {
        assert(av.len() != bv.len());
        return false;
    }
    let mut i: usize = 0;
    while i < a.pins.len()
        invariant
            i <= a.pins@.len(),
            a.pins@.len() == b.pins@.len(),
            av == phys_views(a.pins@),
            bv == phys_views(b.pins@),
            forall|k: int| 0 <= k < i ==> av[k] == bv[k],
        decreases a.pins@.len() - i,
    {
        proof {
            assert(av[i as int] == a.pins@[i as int]@);
            assert(bv[i as int] == b.pins@[i as int]@);
        }
        if !text::same(a.pins[i].p.as_str(), b.pins[i].p.as_str()) || !texts::same_texts(
            &a.pins[i].s,
            &b.pins[i].s,
        ) {
            assert(av[i as int] != bv[i as int]);
            return false;
        }
        i += 1;
    }
    proof {
        assert(av =~= bv);
    }
    true
}

fn same_wired(a: &[WiredFn], b: &[WiredFn]) -> (r: bool)
    ensures
        r == (wired_views(a@) == wired_views(b@)),
{
    let ghost av = wired_views(a@);
    let ghost bv = wired_views(b@);
    if a.len() != b.len() {
        assert(av.len() != bv.len());
        return false;
    }
    let mut i: usize = 0;
    while i < a.len()
        invariant
            i <= a@.len(),
            a@.len() == b@.len(),
            av == wired_views(a@),
            bv == wired_views(b@),
            forall|k: int| 0 <= k < i ==> av[k] == bv[k],
        decreases a@.len() - i,
    {
        proof {
            assert(av[i as int] == a@[i as int]@);
            assert(bv[i as int] == b@[i as int]@);
        }
        if a[i].pin != b[i].pin || !text::same(
            a[i].sig.peripheral.as_str(),
            b[i].sig.peripheral.as_str(),
        ) || !text::same(a[i].sig.role.as_str(), b[i].sig.role.as_str()) {
            assert(av[i as int] != bv[i as int]);
            return false;
        }
        i += 1;
    }
    proof {
        assert(av =~= bv);
    }
    true
}

fn same_source(a: &SourceProfile, b: &SourceProfile) -> (r: bool)
    ensures
        r == (source_of(*a) == source_of(*b)),
{
    text::same(a.name.as_str(), b.name.as_str()) && text::same(
        a.footprint.pkg.as_str(),
        b.footprint.pkg.as_str(),
    ) && text::same(a.footprint.fam.as_str(), b.footprint.fam.as_str()) && same_positions_of(
        a.footprint,
        b.footprint,
    ) && same_wired(&a.wired, &b.wired)
}

/// Answers over one lineup: the last one, and the source and query it answers.
pub struct DropinCache {
    lineup: &'static [LineupPart],
    key: Option<(SourceProfile, DropinQuery)>,
    results: Vec<CandidateMatch>,
}

impl DropinCache {
    /// What is kept answers the kept question.
    #[verifier::type_invariant]
    spec fn wf(&self) -> bool {
        self.key matches Some(k) ==> cand_views(self.results@) == answers(
            source_of(k.0),
            part_views(self.lineup@),
            k.1@,
        )
    }

    /// The lineup that is searched.
    pub closed spec fn parts(&self) -> Seq<PartView> {
        part_views(self.lineup@)
    }

    /// Nothing asked yet of a lineup.
    pub fn new(lineup: &'static [LineupPart]) -> (r: DropinCache)
        ensures
            r.parts() == part_views(lineup@),
    {
        DropinCache { lineup, key: None, results: Vec::new() }
    }

    /// The answer to a query: the last one again where the source and the query are
    /// those of last time, which is what a fresh search would answer.
    pub fn results(&mut self, src: &SourceProfile, q: &DropinQuery) -> (r: &[CandidateMatch])
        requires
            src.footprint.pins@.len() <= u16::MAX,
        ensures
            final(self).parts() == old(self).parts(),
            cand_views(r@) == answers(source_of(*src), old(self).parts(), q@),
    {
        let hit: bool = match &self.key {
            Some((s, asked)) => same_source(s, src) && asked.same_as(q),
            None => false,
        };
        if !hit {
            let all: Vec<CandidateMatch> = find_replacements(src, q.config(), self.lineup);
            let results: Vec<CandidateMatch> = narrow(&all, q);
            *self = DropinCache {
                lineup: self.lineup,
                key: Some((src.copy(), q.copy())),
                results,
            };
        }
        proof {
            use_type_invariant(&*self);
        }
        self.results.as_slice()
    }
}

} // verus!
