//! Tests that need no chip's tables.

use peri_planner::board::BoardProfile;
use peri_planner::board::Connector;
use peri_planner::board::Severity;
use peri_planner::board::boards_for;
use peri_planner::board::nucleo_c5a3zg;
use peri_planner::board::nucleo_g474re;
use peri_planner::board::nucleo_h533re;
use peri_planner::codegen::behavior_holes;
use peri_planner::codegen::bundle_name;
use peri_planner::codegen::class_of;
use peri_planner::codegen::generate;
use peri_planner::codegen::generate_board;
use peri_planner::codegen::group_bundles;
use peri_planner::codegen::ident;
use peri_planner::codegen::is_tier1_instance;
use peri_planner::comms_view::CommsAction;
use peri_planner::comms_view::PinRow;
use peri_planner::comms_view::pin_row;
use peri_planner::comms_view::set_switch;
use peri_planner::comms_view::switches;
use peri_planner::constraint::Candidate;
use peri_planner::constraint::Requirement;
use peri_planner::constraint::Res as Claim;
use peri_planner::constraint::assign_backtracking;
use peri_planner::constraint::assign_greedy;
use peri_planner::dropin::AfCap;
use peri_planner::dropin::MatchConfig;
use peri_planner::dropin::MatchTier;
use peri_planner::dropin::PosOutcome;
use peri_planner::dropin::PowerMode;
use peri_planner::dropin::SourceProfile;
use peri_planner::dropin::Strictness;
use peri_planner::dropin::WiredFn;
use peri_planner::dropin::serve_tier;
use peri_planner::dropin_search::DropinCache;
use peri_planner::dropin_search::DropinQuery;
use peri_planner::dropin_search::LineupPart;
use peri_planner::dropin_search::evaluate_candidate;
use peri_planner::dropin_search::find_replacements;
use peri_planner::dropin_view::ROW_CAP;
use peri_planner::dropin_view::listed;
use peri_planner::dropin_view::outcome_label;
use peri_planner::dropin_view::row_key;
use peri_planner::dropin_view::toggled;
use peri_planner::fabric_layout::Layout;
use peri_planner::fabric_layout::PhaseEdge;
use peri_planner::fabric_selection::all_used;
use peri_planner::fabric_selection::external_eevs;
use peri_planner::fabric_selection::master_trigger_event;
use peri_planner::fabric_selection::phase_dac_timers;
use peri_planner::fabric_selection::phase_timers;
use peri_planner::fabric_selection::phases;
use peri_planner::fabric_view::Origin;
use peri_planner::fabric_view::Selection;
use peri_planner::fabric_view::Use;
use peri_planner::fabric_view::comp_tooltip;
use peri_planner::fabric_view::comp_use;
use peri_planner::fabric_view::dac_tooltip;
use peri_planner::fabric_view::dac_use;
use peri_planner::fabric_view::eev_use;
use peri_planner::fabric_view::links;
use peri_planner::fabric_view::ramp_timer;
use peri_planner::fabric_view::slot_tooltip;
use peri_planner::fabric_view::timer_tags;
use peri_planner::fabric_view::timer_use;
use peri_planner::fabric_view::trigger_source;
use peri_planner::g474::AdcChannel;
use peri_planner::g474::AdcInstance;
use peri_planner::g474::AdcTriggerId;
use peri_planner::g474::CompId;
use peri_planner::g474::CrossbarSource;
use peri_planner::g474::DacId;
use peri_planner::g474::HrtimFltId;
use peri_planner::g474::HrtimId;
use peri_planner::g474::OpampId;
use peri_planner::g474::SpiId;
use peri_planner::g474::TimId;
use peri_planner::g474::TimerCaptureUnit;
use peri_planner::g474::TimerCompareSlot;
use peri_planner::g474::adc_channels_for;
use peri_planner::g474::adc_triggers_for;
use peri_planner::g474::all_cans;
use peri_planner::g474::all_lpuarts;
use peri_planner::g474::all_opamps;
use peri_planner::g474::all_uarts;
use peri_planner::hrtim_view::HrtimAction;
use peri_planner::hrtim_view::is_pinned;
use peri_planner::hrtim_view::set_phase;
use peri_planner::hrtim_view::sub_card;
use peri_planner::hrtim_view::unpin_phase;
use peri_planner::kernel::engine::Holding;
use peri_planner::kernel::engine::Ledger;
use peri_planner::kernel::engine::place_greedy;
use peri_planner::kernel::engine::used_excluding;
use peri_planner::kernel::tokens::Res;
use peri_planner::kernel::tokens::RouteKind;
use peri_planner::matching::kuhn;
use peri_planner::mcu_pinout::OwnedSignal;
use peri_planner::mcu_pinout::PinId;
use peri_planner::mcu_pinout::PinSet;
use peri_planner::phys_pinout::PhysPin;
use peri_planner::phys_pinout::PinFunction;
use peri_planner::phys_pinout::PinoutRecord;
use peri_planner::phys_pinout::bonded_pins;
use peri_planner::phys_pinout::footprint_of;
use peri_planner::phys_pinout::package_class;
use peri_planner::pin_pick::PackageClick;
use peri_planner::pin_pick::PickStep;
use peri_planner::pin_pick::now_held;
use peri_planner::pin_pick::pick_step;
use peri_planner::pin_plan::PinOrigin;
use peri_planner::pin_plan::PinPlan;
use peri_planner::pin_plan::Placement;
use peri_planner::pin_plan::RoleKind;
use peri_planner::pin_plan::Target;
use peri_planner::requirement_row::RowEdit;
use peri_planner::requirement_row::adc_label;
use peri_planner::requirement_row::budget_lines;
use peri_planner::requirement_row::claimed_sequencers;
use peri_planner::requirement_row::edited;
use peri_planner::requirement_row::group_label;
use peri_planner::requirement_row::left_rows;
use peri_planner::requirement_row::role_on;
use peri_planner::requirement_row::sequencer_ids;
use peri_planner::requirement_row::sequencer_label;
use peri_planner::requirement_row::trigger_events;
use peri_planner::requirement_row::trigger_label;
use peri_planner::requirements::Assignment;
use peri_planner::requirements::Design;
use peri_planner::requirements::HrtimRole;
use peri_planner::requirements::MonitorPurpose;
use peri_planner::requirements::OutputMode;
use peri_planner::requirements::PhaseAllocation;
use peri_planner::requirements::RequirementSpec;
use peri_planner::requirements::SequencerKind;
use peri_planner::requirements::SpeedPref;
use peri_planner::requirements::ThresholdSource;
use peri_planner::requirements::TriggerSource;
use peri_planner::requirements::comms_groups;
use peri_planner::resources::Resource;
use peri_planner::resources::TimerInputSlot;
use peri_planner::resources::cr_usage_for;
use peri_planner::resources::free_slots;
use peri_planner::resources::master_tags;
use peri_planner::resources::resource_label;
use peri_planner::resources::slot_label;
use peri_planner::resources::used_by_kind;
use peri_planner::select::kind_of;
use peri_planner::select::underlying_classes;
use peri_planner::texts::sort_texts;

fn pin(name: &str) -> PinId {
    PinId::from_metapac(name).unwrap()
}

// ---- Assignment of exclusive claims ----

fn req(id: u32, candidates: Vec<Candidate>) -> Requirement {
    Requirement { id, candidates }
}

#[test]
fn exclusive_instance_assigned_once() {
    let reqs = vec![
        req(1, vec![Candidate::new("USART1", vec![Claim::Inst("USART", 1)])]),
        req(2, vec![Candidate::new("USART1", vec![Claim::Inst("USART", 1)])]),
    ];
    let s = assign_greedy(&reqs);
    assert_eq!(s.assigned, vec![(1, 0)]);
    assert_eq!(s.unmet, vec![2]);
    assert!(!s.is_feasible());
}

#[test]
fn pool_capacity_is_n_exclusive_tokens() {
    let leg = || {
        vec![
            Candidate::new("DMA1.0", vec![Claim::Pool("DMA1", 0)]),
            Candidate::new("DMA1.1", vec![Claim::Pool("DMA1", 1)]),
        ]
    };
    let s = assign_greedy(&[req(1, leg()), req(2, leg()), req(3, leg())]);
    assert_eq!(s.assigned, vec![(1, 0), (2, 1)]);
    assert_eq!(s.unmet, vec![3]);
}

#[test]
fn one_candidate_can_lock_many_tokens() {
    let reqs = vec![req(
        1,
        vec![Candidate::new(
            "usart1+rxtx",
            vec![Claim::Inst("USART", 1), Claim::Pool("DMA1", 0), Claim::Pool("DMA1", 1)],
        )],
    )];
    let s = assign_greedy(&reqs);
    assert!(s.is_feasible() && s.assigned == vec![(1, 0)]);
}

#[test]
fn no_candidates_is_unmet() {
    let s = assign_greedy(&[req(7, vec![])]);
    assert_eq!(s.unmet, vec![7]);
}

fn contested_pin() -> Vec<Requirement> {
    let p1 = PinId { port: 'A', num: 1 };
    let p2 = PinId { port: 'A', num: 2 };
    vec![
        req(
            1,
            vec![
                Candidate::new("p1", vec![Claim::Pin(p1)]),
                Candidate::new("p2", vec![Claim::Pin(p2)]),
            ],
        ),
        req(2, vec![Candidate::new("p1", vec![Claim::Pin(p1)])]),
    ]
}

#[test]
fn greedy_can_miss_a_consistent_assignment() {
    let s = assign_greedy(&contested_pin());
    assert_eq!(s.unmet, vec![2], "greedy first-fit leaves B unmet (known limitation)");
}

#[test]
fn backtracking_solves_what_greedy_misses() {
    let reqs = contested_pin();
    assert_eq!(assign_greedy(&reqs).unmet, vec![2]);
    let s = assign_backtracking(&reqs);
    assert!(s.is_feasible(), "backtracking should find the consistent assignment");
    assert_eq!(s.assigned.len(), 2);
    assert!(!s.indeterminate);
}

#[test]
fn backtracking_reports_true_infeasible_not_indeterminate() {
    let reqs = vec![
        req(1, vec![Candidate::new("u1", vec![Claim::Inst("USART", 1)])]),
        req(2, vec![Candidate::new("u1", vec![Claim::Inst("USART", 1)])]),
    ];
    let s = assign_backtracking(&reqs);
    assert!(!s.is_feasible());
    assert!(!s.indeterminate, "a proven-infeasible set is definitive, not indeterminate");
}

// ---- The ledger ----

fn bag(items: Vec<Res>) -> Holding {
    Holding { items }
}

#[test]
fn distinct_instances_coexist_same_instance_conflicts() {
    let mut led = Ledger::new();
    assert!(led.claim(&[Res::Inst("USART", 2)]).is_ok());
    assert!(led.claim(&[Res::Inst("USART", 3)]).is_ok(), "USART3 ≠ USART2");
    assert_eq!(led.claim(&[Res::Inst("USART", 2)]), Err(vec![Res::Inst("USART", 2)]));
}

#[test]
fn claim_is_atomic_on_conflict() {
    let mut led = Ledger::new();
    led.claim(&[Res::Pin(pin("PA2"))]).unwrap();
    let r = led.claim(&[Res::Pin(pin("PA3")), Res::Pin(pin("PA2"))]);
    assert_eq!(r, Err(vec![Res::Pin(pin("PA2"))]));
    assert!(
        !led.held().contains(&Res::Pin(pin("PA3"))),
        "free token must NOT be claimed on failure"
    );
    assert_eq!(led.held().len(), 1);
}

#[test]
fn internal_duplicate_within_one_claim_is_a_conflict() {
    let mut led = Ledger::new();
    let dup = Res::Pool("DMA1", 0);
    assert_eq!(led.claim(&[dup, dup]), Err(vec![dup]));
    assert!(led.is_empty());
}

#[test]
fn pool_capacity_is_n_exclusive_supply_tokens() {
    const CAP: u8 = 8;
    let mut led = Ledger::new();
    for want in 0..9u8 {
        let placed = (0..CAP).any(|ch| led.claim(&[Res::Pool("DMA1", ch)]).is_ok());
        if want < CAP {
            assert!(placed, "demand {want} should fit in an 8-channel pool");
        } else {
            assert!(!placed, "9th demand must NOT fit an 8-channel pool");
        }
    }
    assert_eq!(led.held().len(), CAP as usize);
}

#[test]
fn route_and_subchannel_tokens_are_independent_axes() {
    let mut led = Ledger::new();
    led.claim(&[Res::Route(RouteKind::CompToTimBreak, 1, 1, 4)]).unwrap();
    assert!(led.claim(&[Res::Route(RouteKind::CompToTimBreak, 1, 1, 6)]).is_ok());
    assert!(!led.can_claim(&[Res::Route(RouteKind::CompToTimBreak, 1, 1, 4)]));
    assert!(led.claim(&[Res::SubChannel("ADC", 1, 4)]).is_ok());
}

#[test]
fn place_greedy_reports_first_infeasible_consumer() {
    let consumers = vec![
        bag(vec![Res::Inst("SPI", 1), Res::Pin(pin("PA5"))]),
        bag(vec![Res::Inst("SPI", 2)]),
        bag(vec![Res::Pin(pin("PA5"))]),
    ];
    match place_greedy(&consumers) {
        Err((i, conflict)) => {
            assert_eq!(i, 2);
            assert_eq!(conflict, vec![Res::Pin(pin("PA5"))]);
        }
        Ok(_) => panic!("expected a pin collision"),
    }
}

#[test]
fn used_excluding_omits_the_skipped_consumer() {
    let consumers = vec![
        bag(vec![Res::Inst("ADC", 1)]),
        bag(vec![Res::Inst("ADC", 2)]),
        bag(vec![Res::Inst("ADC", 3)]),
    ];
    let others = used_excluding(&consumers, 1);
    assert!(others.contains(&Res::Inst("ADC", 1)));
    assert!(others.contains(&Res::Inst("ADC", 3)));
    assert!(!others.contains(&Res::Inst("ADC", 2)), "the skipped consumer is excluded");
}

// ---- Boards ----

#[test]
fn nucleo_g474re_matches_g474r_parts_only() {
    assert!(!boards_for("STM32G474RET6").is_empty());
    assert!(!boards_for("STM32G474RB").is_empty());
    assert!(boards_for("STM32G474VET6").is_empty(), "V (LQFP100) is a different board");
    assert!(boards_for("STM32H523RE").is_empty());
}

#[test]
fn arduino_analog_pins_are_the_um2505_map() {
    let b = nucleo_g474re();
    let a0 = b.pins.iter().find(|p| p.arduino == Some("A0")).unwrap();
    assert_eq!(a0.pin, PinId { port: 'A', num: 0 });
    let a4 = b.pins.iter().find(|p| p.arduino == Some("A4")).unwrap();
    assert_eq!(a4.pin, PinId { port: 'C', num: 1 });
    let d13 = b.find(PinId { port: 'A', num: 5 }).unwrap();
    assert_eq!(d13.arduino, Some("D13"));
    assert!(d13.reserved.is_some(), "PA5 is LD2");
}

#[test]
fn reserved_set_and_severities() {
    let b = nucleo_g474re();
    let r = b.reserved_pins();
    for name in ["PA2", "PA3", "PA5", "PC13", "PA13", "PA14"] {
        assert!(r.contains(&pin(name)), "{name} should be board-reserved");
    }
    let severity = |p: &str| b.find(pin(p)).unwrap().reserved.unwrap().severity;
    assert_eq!(severity("PA13"), Severity::Block);
    assert_eq!(severity("PA5"), Severity::Warn);
}

#[test]
fn all_boards_match_their_parts() {
    assert_eq!(boards_for("STM32H533RET6").len(), 1);
    assert_eq!(boards_for("STM32C5A3ZGT6").len(), 1);
    assert!(boards_for("STM32H523RET6").is_empty());
    for b in [nucleo_g474re(), nucleo_h533re(), nucleo_c5a3zg()] {
        assert!(b.find(PinId { port: 'A', num: 13 }).is_some(), "{} reserves SWDIO", b.name);
    }
    for b in [nucleo_g474re(), nucleo_h533re(), nucleo_c5a3zg()] {
        assert_eq!(b.arduino_pins().len(), 22, "{} has A0-A5 + D0-D15", b.name);
    }
    let a2 = |b: &BoardProfile| b.pins.iter().find(|p| p.arduino == Some("A2")).unwrap().pin;
    assert_eq!(a2(&nucleo_g474re()), PinId { port: 'A', num: 4 });
    assert_eq!(a2(&nucleo_h533re()), PinId { port: 'B', num: 1 });
    assert_eq!(a2(&nucleo_c5a3zg()), PinId { port: 'A', num: 4 });
    let c5 = nucleo_c5a3zg();
    let a0 = c5.pins.iter().find(|p| p.arduino == Some("A0")).unwrap().pin;
    assert_eq!(a0, PinId { port: 'H', num: 4 });
    assert!(c5.find(PinId { port: 'G', num: 1 }).is_some(), "LD2 red = PG1");
}

#[test]
fn arduino_connector_restricts_usable_pins() {
    let b = nucleo_g474re();
    let mut bonded = PinSet::new();
    for n in ["PA0", "PA1", "PA4", "PB1", "PC10", "PF0"] {
        bonded.insert(pin(n));
    }
    let morpho = b.usable_pins(Connector::Morpho, &bonded);
    assert_eq!(morpho, bonded, "Morpho brings out everything");
    let arduino = b.usable_pins(Connector::Arduino, &bonded);
    assert!(arduino.contains(&pin("PA0")));
    assert!(!arduino.contains(&pin("PB1")));
    assert!(!arduino.contains(&pin("PF0")));
}

// ---- Replacements ----

fn sig(peripheral: &str, role: &str) -> OwnedSignal {
    OwnedSignal::new(peripheral, role)
}

fn ph(p: &str, s: &[&str]) -> PhysPin {
    PhysPin { p: p.to_string(), s: s.iter().map(|x| x.to_string()).collect() }
}

fn rec(fam: &str, pkg: &str, pins: Vec<PhysPin>) -> PinoutRecord {
    let n = pins.len() as u16;
    PinoutRecord {
        h: format!("{fam}:{pkg}:{n}"),
        pkg: pkg.to_string(),
        names: vec![pkg.to_string()],
        fam: fam.to_string(),
        n,
        pins,
    }
}

fn oracle(rows: &[(&str, &str, &str, Option<u8>)]) -> Vec<AfCap> {
    rows.iter()
        .map(|(p, peri, role, af)| AfCap {
            pin: pin(p),
            peripheral: peri.to_string(),
            role: role.to_string(),
            af: *af,
        })
        .collect()
}

#[test]
fn kind_of_is_consistent_with_underlying_classes() {
    for kind in ["SERIAL", "SPI", "I2C", "ADC", "UCPD"] {
        for class in underlying_classes(kind) {
            let inst = format!("{class}1");
            assert_eq!(kind_of(&inst), Some(kind), "{inst} should map back to {kind}");
        }
    }
}

#[test]
fn serve_tier_truth_table() {
    let want = sig("USART2", "TX");
    assert_eq!(
        serve_tier(&want, "USART2", "TX", Some(7), Strictness::ExactInstanceRole),
        Some(MatchTier::Exact)
    );
    assert_eq!(serve_tier(&want, "UART4", "TX", Some(8), Strictness::ExactInstanceRole), None);
    assert_eq!(
        serve_tier(&want, "UART4", "TX", Some(8), Strictness::ClassRole),
        Some(MatchTier::ClassRole)
    );
    assert_eq!(serve_tier(&want, "UART4", "RX", Some(8), Strictness::ClassRole), None);
    assert_eq!(
        serve_tier(&want, "UART4", "RX", Some(8), Strictness::ClassOnly),
        Some(MatchTier::ClassOnly)
    );
    assert_eq!(serve_tier(&want, "SPI1", "MOSI", Some(5), Strictness::ClassOnly), None);
}

#[test]
fn analog_signal_requires_exact_regardless_of_strictness() {
    let want = sig("ADC1", "IN5");
    for mode in Strictness::all() {
        assert_eq!(serve_tier(&want, "ADC2", "IN5", None, mode), None);
        assert_eq!(serve_tier(&want, "ADC1", "IN5", None, mode), Some(MatchTier::Exact));
    }
    let dwant = sig("USART2", "TX");
    assert_eq!(serve_tier(&dwant, "UART4", "TX", None, Strictness::ClassRole), None);
}

fn four_pins() -> Vec<PhysPin> {
    vec![ph("1", &["VDD"]), ph("2", &["PA9"]), ph("3", &["VSS"]), ph("4", &["PB0"])]
}

fn src_4pin() -> SourceProfile {
    let footprint = Box::leak(Box::new(rec("STM32G4", "LQFP4", four_pins())));
    SourceProfile {
        name: "STM32G4XXRE".to_string(),
        footprint,
        wired: vec![WiredFn { sig: sig("USART1", "TX"), pin: pin("PA9") }],
    }
}

#[test]
fn compatible_when_power_holds_and_function_served() {
    let src = src_4pin();
    let cand = rec("STM32G4", "LQFP4", four_pins());
    let af = oracle(&[("PA9", "LPUART1", "TX", Some(7))]);
    let m = evaluate_candidate(&src, "STM32G4YYRE", &cand, &af, MatchConfig::default());
    assert!(m.compatible, "{:?}", m.positions);
    assert_eq!(m.n_satisfied, m.n_required);
    assert!(m.positions.iter().any(|p| p.outcome == PosOutcome::ServiceableClassRole));
}

#[test]
fn power_mismatch_is_a_hard_fail() {
    let src = src_4pin();
    let cand = rec(
        "STM32H5",
        "LQFP4",
        vec![ph("1", &["PC1"]), ph("2", &["PA9"]), ph("3", &["VSS"]), ph("4", &["PB0"])],
    );
    let af = oracle(&[("PA9", "USART1", "TX", Some(7)), ("PC1", "ADC1", "IN1", None)]);
    let m = evaluate_candidate(&src, "STM32H5YYRE", &cand, &af, MatchConfig::default());
    assert!(!m.compatible);
    assert!(m.positions.iter().any(|p| p.outcome == PosOutcome::PowerMismatch));
}

#[test]
fn unserviceable_allocation_is_a_hard_fail() {
    let src = src_4pin();
    let cand = rec("STM32G4", "LQFP4", four_pins());
    let af = oracle(&[("PA9", "SPI1", "MOSI", Some(5))]);
    let m = evaluate_candidate(&src, "STM32G4ZZRE", &cand, &af, MatchConfig::default());
    assert!(!m.compatible);
    assert!(m.positions.iter().any(|p| p.outcome == PosOutcome::FunctionFail));
}

#[test]
fn coverage_missing_required_position_fails() {
    let src = src_4pin();
    let cand = rec(
        "STM32G4",
        "LQFP4",
        vec![ph("1", &["VDD"]), ph("2", &["PA9"]), ph("4", &["PB0"])],
    );
    let af = oracle(&[("PA9", "USART1", "TX", Some(7))]);
    let m = evaluate_candidate(&src, "STM32G4PP RE", &cand, &af, MatchConfig::default());
    assert!(!m.compatible, "missing VSS must fail coverage");
    assert!(m.positions.iter().any(|p| p.outcome == PosOutcome::PowerMismatch));
}

#[test]
fn power_asymmetry_respects_power_mode() {
    let src = src_4pin();
    let cand = rec(
        "STM32G4",
        "LQFP4",
        vec![ph("1", &["VDD"]), ph("2", &["PA9"]), ph("3", &["VSS"]), ph("4", &["VDD"])],
    );
    let af = oracle(&[("PA9", "USART1", "TX", Some(7))]);
    let judge = |power_mode: PowerMode| {
        evaluate_candidate(
            &src,
            "c",
            &cand,
            &af,
            MatchConfig { strictness: Strictness::ClassRole, power_mode },
        )
    };

    let warn = judge(PowerMode::Warn);
    assert!(warn.compatible);
    assert_eq!(warn.warnings, 1);

    assert!(!judge(PowerMode::Reject).compatible);

    let ignore = judge(PowerMode::Ignore);
    assert!(ignore.compatible);
    assert_eq!(ignore.warnings, 0);
}

#[test]
fn fused_rail_superset_is_rejected_as_short() {
    let footprint = Box::leak(Box::new(rec(
        "STM32G4",
        "LQFP4",
        vec![ph("1", &["VDD"]), ph("2", &["PA9"]), ph("3", &["VDDA"]), ph("4", &["PB0"])],
    )));
    let src = SourceProfile { name: "STM32G4XXRE".to_string(), footprint, wired: vec![] };
    let cand = rec(
        "STM32C0",
        "LQFP4",
        vec![
            ph("1", &["VDD/VDDA"]),
            ph("2", &["PA9"]),
            ph("3", &["VDD/VDDA"]),
            ph("4", &["PB0"]),
        ],
    );
    let af = oracle(&[]);
    let m = evaluate_candidate(&src, "STM32C0", &cand, &af, MatchConfig::default());
    assert!(!m.compatible, "fused-rail candidate must not be a drop-in: {:?}", m.positions);
    assert!(m.positions.iter().any(|p| p.outcome == PosOutcome::PowerMismatch));
}

#[test]
fn partial_bond_source_rejects_fuller_foreign_footprint() {
    let footprint = Box::leak(Box::new(rec(
        "STM32C5",
        "LQFP4",
        vec![ph("2", &["PA0"]), ph("3", &["PA1"])],
    )));
    let src = SourceProfile { name: "STM32C5XXR0".to_string(), footprint, wired: vec![] };
    let cand = rec(
        "STM32F1",
        "LQFP4",
        vec![ph("1", &["VDD"]), ph("2", &["PA0"]), ph("3", &["PA1"]), ph("4", &["VSS"])],
    );
    let af = oracle(&[]);
    let m = evaluate_candidate(&src, "STM32F103", &cand, &af, MatchConfig::default());
    assert!(
        !m.compatible,
        "a fuller foreign footprint must not be a drop-in for a partial-bond source"
    );
    let sib = rec("STM32C5", "LQFP4", vec![ph("2", &["PA0"]), ph("3", &["PA1"])]);
    let m2 = evaluate_candidate(&src, "STM32C5YY", &sib, &af, MatchConfig::default());
    assert!(m2.compatible, "a same-footprint C5 sibling should be compatible: {:?}", m2.positions);
}

// ---- Generated code ----

fn placement(peripheral: &str, role: &str, pin: Option<PinId>) -> Placement {
    Placement {
        signal: OwnedSignal { peripheral: peripheral.into(), role: role.into() },
        pin,
        origin: PinOrigin::Locked,
        af: None,
        role_kind: RoleKind::Gpio,
        irqs: Vec::new(),
        package_pin: None,
        net: None,
    }
}

#[test]
fn generate_board_emits_per_peripheral_bundles() {
    let mut plan = PinPlan::empty(Target { package: "H523RE".into(), family: "H5".into() });
    plan.placements.push(placement("USART1", "TX", Some(PinId { port: 'A', num: 9 })));
    plan.placements.push(placement("USART1", "RX", None));
    let code = generate_board(&plan);

    assert!(code.contains("from PinPlan (target H523RE / H5)"));
    assert!(code.contains("pub struct Usart1 {"));
    assert!(code.contains("    pub instance: peripherals::USART1,"));
    assert!(code.contains("    pub tx: peripherals::PA9,"));
    assert!(code.contains("    pub usart1: Usart1,"));
    assert!(code.contains("usart1: Usart1 { instance: p.USART1, tx: p.PA9 },"));
    assert!(code.contains("// unplaced: RX"));
    assert!(!code.contains("pub rx: peripherals::"));
}

#[test]
fn analog_peripherals_bundle_pins_but_not_instance() {
    let mut plan = PinPlan::empty(Target { package: "G474R".into(), family: "G4".into() });
    plan.placements.push(placement("COMP1", "INP", Some(PinId { port: 'A', num: 1 })));
    plan.placements.push(placement("ADC1", "IN2", Some(PinId { port: 'A', num: 2 })));
    let code = generate_board(&plan);

    assert!(code.contains("pub struct Comp1 {"));
    assert!(code.contains("    pub inp: peripherals::PA1,"), "COMP pin bundled");
    assert!(
        !code.contains("pub instance: peripherals::COMP1,"),
        "COMP instance NOT bound (Tier-2/3)"
    );
    assert!(code.contains("pub struct Adc1 {"));
    assert!(code.contains("    pub instance: peripherals::ADC1,"), "ADC instance bound (Tier-1)");
    assert!(code.contains("    pub in2: peripherals::PA2,"));
}

#[test]
fn generate_emits_behavior_contract_holes() {
    let mut plan = PinPlan::empty(Target { package: "G474R".into(), family: "G4".into() });
    plan.placements.push(placement("USART1", "TX", Some(PinId { port: 'A', num: 9 })));
    plan.placements.push(placement("SPI1", "SCK", Some(PinId { port: 'A', num: 5 })));
    plan.placements.push(Placement {
        role_kind: RoleKind::PwmOut { complementary: true, dead_time: true, etr: false },
        ..placement("TIM1", "CH1", Some(PinId { port: 'A', num: 8 }))
    });
    let code = generate(&plan);

    assert!(code.contains("pub usart1_baud: u32,"));
    assert!(code.contains("pub spi1_freq_hz: u32,"));
    assert!(code.contains("pub tim1_freq_hz: u32,"));
    assert!(code.contains("pub tim1_dead_time_ns: u16,"));
    assert!(code.contains("usart1_baud: 115_200,"));
    assert!(code.contains("tim1_dead_time_ns: 0,"));
    assert!(code.contains("pub struct Behavior {"));
    assert!(code.contains("pub struct Board {"));
    assert!(!code.contains("115_200,\n    pub usart1: peripherals"));
}

#[test]
fn class_of_strips_instance_digits() {
    assert_eq!(class_of("USART2"), "USART");
    assert_eq!(class_of("I2C1"), "I2C");
    assert_eq!(class_of("HRTIM1"), "HRTIM");
    assert!(is_tier1_instance("LPUART1"));
    assert!(!is_tier1_instance("COMP1"));
}

// ---- Names, texts and order ----

#[test]
fn pins_are_named_and_read_back() {
    assert_eq!(pin("PC13").name(), "PC13");
    assert_eq!(PinId::from_metapac("PA0"), Some(PinId { port: 'A', num: 0 }));
    for bad in ["", "P", "PA", "A0", "Pa0", "PA256", "PA1x", "VDD"] {
        assert_eq!(PinId::from_metapac(bad), None, "{bad}");
    }
    assert!(pin("PA10").is_before(pin("PB0")));
    assert!(pin("PA2").is_before(pin("PA10")));
}

#[test]
fn names_become_identifiers_and_bundles() {
    assert_eq!(ident("CH1N"), "ch1n");
    assert_eq!(ident("VREF+"), "vref_");
    assert_eq!(bundle_name("USART1"), "Usart1");
    assert_eq!(bundle_name("usart1"), "Usart1");
    assert_eq!(bundle_name("ßÄ"), "SSä");
}

#[test]
fn bundles_keep_their_names_when_pins_are_added() {
    let mut plan = PinPlan::empty(Target { package: "X".into(), family: "H5".into() });
    plan.placements.push(placement("USART1", "TX", Some(pin("PA9"))));
    plan.placements.push(placement("SPI1", "SCK", Some(pin("PA5"))));
    let names = |p: &PinPlan| {
        group_bundles(p).0.iter().map(|b| b.instance.clone()).collect::<Vec<_>>()
    };
    let before = names(&plan);
    plan.placements.push(placement("USART1", "RX", Some(pin("PA10"))));
    assert_eq!(names(&plan), before);
    // A second claim on a pin is dropped, and counted.
    plan.placements.push(placement("I2C1", "SCL", Some(pin("PA9"))));
    assert_eq!(group_bundles(&plan).1, 1);
    let holes: Vec<String> = behavior_holes(&plan).iter().map(|h| h.name.clone()).collect();
    assert!(holes.contains(&"usart1_baud".to_string()), "{holes:?}");
}

#[test]
fn texts_are_sorted_by_character() {
    let v: Vec<String> = ["b", "ab", "a", ""].iter().map(|s| s.to_string()).collect();
    assert_eq!(sort_texts(&v), vec!["", "a", "ab", "b"]);
}

#[test]
fn matching_is_as_large_as_can_be() {
    // Two on the left want the same one; the third can give way.
    let m = kuhn(&[vec![0, 1], vec![0], vec![1, 2]], 3);
    assert_eq!(m, vec![Some(1), Some(0), Some(2)]);
    let m = kuhn(&[vec![0], vec![0]], 1);
    assert_eq!(m.iter().filter(|x| x.is_some()).count(), 1);
    assert_eq!(kuhn(&[vec![]], 0), vec![None]);
}

// ---- Assignment, at its edges ----

#[test]
fn a_search_that_is_cut_short_proves_nothing() {
    // Eleven want one of ten: the search ends before it has tried everything.
    let one_of_ten = || {
        (0..10u8).map(|k| Candidate::new("u", vec![Claim::Inst("USART", k)])).collect::<Vec<_>>()
    };
    let reqs: Vec<Requirement> = (0..11).map(|i| req(i, one_of_ten())).collect();
    let s = assign_backtracking(&reqs);
    assert!(s.indeterminate);
    assert!(!s.is_feasible());
    let s = assign_backtracking(&reqs[..10]);
    assert!(s.is_feasible() && !s.indeterminate);
}

#[test]
fn an_assignment_lists_every_requirement_by_id() {
    let on = |k: u8| Candidate::new("u", vec![Claim::Inst("USART", k)]);
    let reqs = vec![req(7, vec![on(1), on(2)]), req(3, vec![on(1)]), req(5, vec![on(2), on(3)])];
    let s = assign_backtracking(&reqs);
    assert_eq!(s.assigned, vec![(3, 0), (5, 1), (7, 1)]);
    assert!(s.unmet.is_empty() && !s.indeterminate);
    // Where nothing fits, what comes out is what greedy assignment gives.
    let full = vec![req(2, vec![on(1)]), req(1, vec![on(1)])];
    let (a, b) = (assign_backtracking(&full), assign_greedy(&full));
    assert_eq!((a.assigned, a.unmet), (b.assigned, b.unmet));
}

#[test]
fn nothing_asked_is_feasible() {
    assert!(assign_greedy(&[]).is_feasible());
    assert!(assign_backtracking(&[]).is_feasible());
}

#[test]
fn what_is_released_can_be_claimed_again() {
    let mut led = Ledger::new();
    let items = [Res::Inst("SPI", 1), Res::Pin(pin("PA5"))];
    led.claim(&items).unwrap();
    assert!(!led.can_claim(&items));
    led.release(&items);
    assert!(led.is_empty());
    assert!(led.claim_consumer(&bag(items.to_vec())).is_ok());
}

// ---- Footprints ----

#[test]
fn pads_are_told_apart() {
    assert!(matches!(ph("1", &["VDD/VDDA"]).function(), PinFunction::Power(v) if v == vec!["VDD", "VDDA"]));
    assert!(matches!(ph("1", &["PA0"]).function(), PinFunction::Gpio(v) if v == vec![pin("PA0")]));
    assert!(matches!(ph("1", &["NRST"]).function(), PinFunction::Dedicated(_)));
    assert!(matches!(ph("1", &["NC"]).function(), PinFunction::Nc));
    assert_eq!(package_class("LQFP64"), package_class("LQFP64_GP"));
    assert_ne!(package_class("LQFP64"), package_class("UFQFPN64"));
    let r = rec("STM32G4", "LQFP4", four_pins());
    assert_eq!(bonded_pins(&r).len(), 2);
    assert!(r.at("2").is_some() && r.at("9").is_none());
    assert!(!r.has_reset_boot());
}

#[test]
fn answers_are_those_of_a_fresh_search() {
    let mut src = src_4pin();
    let record: &'static PinoutRecord =
        Box::leak(Box::new(rec("STM32G4", "LQFP4", four_pins())));
    let lineup: &'static [LineupPart] = Box::leak(
        vec![LineupPart {
            name: "STM32G4YYRE".to_string(),
            pkg: "LQFP4".to_string(),
            record: Some(record),
            raw: None,
        }]
        .into_boxed_slice(),
    );
    let mut cache = DropinCache::new(lineup);
    let q = DropinQuery::default();
    assert_eq!(cache.results(&src, &q).len(), 1);
    assert_eq!(cache.results(&src, &q).len(), 1);
    let mut narrow = q.copy();
    narrow.family = Some("STM32H5".to_string());
    assert_eq!(cache.results(&src, &narrow).len(), 0);

    // A source with the same fingerprint but other pads is another source.
    let before = src.fingerprint();
    assert!(!cache.results(&src, &q)[0].compatible);
    let mut other = rec("STM32G4", "LQFP4", vec![ph("1", &["VDD"])]);
    other.h = src.footprint.h.clone();
    src.footprint = Box::leak(Box::new(other));
    assert_eq!(src.fingerprint(), before);
    let fresh = find_replacements(&src, q.config(), lineup);
    assert_eq!(format!("{:?}", cache.results(&src, &q)), format!("{:?}", fresh.as_slice()));
}

#[test]
fn fingerprints_follow_part_footprint_and_wiring() {
    let src = src_4pin();
    let mut turned = src.copy();
    turned.wired.reverse();
    assert_eq!(src.fingerprint(), turned.fingerprint());
    let mut named = src.copy();
    named.name.push('X');
    assert_ne!(src.fingerprint(), named.fingerprint());
    let mut moved = src.copy();
    moved.wired[0].pin = pin("PC7");
    assert_ne!(src.fingerprint(), moved.fingerprint());
    // Names that hold a separator are not told apart.
    let one = WiredFn { sig: sig("A.B", "C"), pin: pin("PA0") };
    let two = WiredFn { sig: sig("A", "B.C"), pin: pin("PA0") };
    let with = |w: WiredFn| SourceProfile { wired: vec![w], ..src.copy() }.fingerprint();
    assert_eq!(with(one), with(two));

    // Any port is told apart, a separator too.
    let on = |port: char, num: u8| WiredFn { sig: sig("A", "B"), pin: PinId { port, num } };
    let ports = ['A', ',', '|', '@', '.', '5'];
    for (i, x) in ports.iter().enumerate() {
        for (j, y) in ports.iter().enumerate() {
            assert_eq!(with(on(*x, 1)) == with(on(*y, 1)), i == j);
        }
    }
    // So is any key, but for names with a bar.
    let keyed = |h: &str, wired: Vec<WiredFn>| {
        let mut r = rec("STM32G4", "LQFP4", four_pins());
        r.h = h.to_string();
        SourceProfile { name: "N".to_string(), footprint: Box::leak(Box::new(r)), wired }
            .fingerprint()
    };
    assert_ne!(keyed("x", vec![on('|', 5)]), keyed("x|A.B@", vec![]));
    assert_ne!(keyed("x|", vec![]), keyed("x", vec![]));
    let named = |p: &str| WiredFn { sig: sig(p, "B"), pin: PinId { port: 'A', num: 1 } };
    assert_eq!(keyed("x", vec![named("y|a")]), keyed("x|y", vec![named("a")]));
}

#[test]
fn every_function_on_a_pin_is_served() {
    let footprint = Box::leak(Box::new(rec("STM32G4", "LQFP4", four_pins())));
    let wired = vec![
        WiredFn { sig: sig("USART1", "TX"), pin: pin("PA9") },
        WiredFn { sig: sig("TIM1", "CH2"), pin: pin("PA9") },
    ];
    let src = SourceProfile { name: "STM32G4XXRE".to_string(), footprint, wired };
    let cand = rec("STM32G4", "LQFP4", four_pins());
    let judge = |rows: &[(&str, &str, &str, Option<u8>)]| {
        evaluate_candidate(&src, "STM32G4YYRE", &cand, &oracle(rows), MatchConfig::default())
    };
    let tx = ("PA9", "USART1", "TX", Some(7));
    let ch = ("PA9", "TIM1", "CH2", Some(6));
    assert!(judge(&[tx, ch]).compatible);
    assert!(!judge(&[tx]).compatible);
    assert!(!judge(&[ch]).compatible);
}

#[test]
fn a_looser_match_loses_no_row() {
    let src = src_4pin();
    let record: &'static PinoutRecord =
        Box::leak(Box::new(rec("STM32G4", "LQFP4", four_pins())));
    let lineup: Vec<LineupPart> = ["STM32G4YYRE", "STM32G4ZZRE"]
        .iter()
        .map(|n| LineupPart {
            name: n.to_string(),
            pkg: "LQFP4".to_string(),
            record: Some(record),
            raw: None,
        })
        .collect();
    let names = |s: Strictness| {
        let cfg = MatchConfig { strictness: s, ..MatchConfig::default() };
        let mut v: Vec<String> =
            find_replacements(&src, cfg, &lineup).into_iter().map(|c| c.name).collect();
        v.sort();
        v
    };
    assert_eq!(names(Strictness::ExactInstanceRole).len(), 2);
    assert_eq!(names(Strictness::ExactInstanceRole), names(Strictness::ClassOnly));
}

#[test]
fn a_footprint_is_the_first_that_suits() {
    let leak = |fam: &str, pkg: &str, name: &str| -> &'static PinoutRecord {
        let mut r = rec(fam, pkg, vec![]);
        r.names = vec![name.to_string()];
        Box::leak(Box::new(r))
    };
    let all = [
        leak("A", "LQFP48", "STM32G474C"),
        leak("B", "LQFP64", "STM32G474RETx"),
        leak("C", "WLCSP64", "STM32G474R"),
    ];
    let of = |name: &str, label: &str| footprint_of(&all, name, label).map(|r| r.fam.as_str());
    assert_eq!(of("STM32G474RE", "LQFP64"), Some("B"));
    assert_eq!(of("STM32G474RE", ""), Some("B"));
    assert_eq!(of("STM32G474RE", "WLCSP64"), Some("C"));
    assert_eq!(of("STM32G474RE", "LQFP48"), None);
    assert_eq!(of("STM32G474CB", ""), Some("A"));
    assert_eq!(of("STM32H523", ""), None);
}

#[test]
fn a_power_mode_only_gates_the_rows_of_a_search() {
    let src = SourceProfile { wired: vec![], ..src_4pin() };
    let plain: &'static PinoutRecord =
        Box::leak(Box::new(rec("STM32G4", "LQFP4", four_pins())));
    let odd: &'static PinoutRecord = Box::leak(Box::new(rec(
        "STM32G4",
        "LQFP4",
        vec![ph("1", &["VDD"]), ph("2", &["PA9"]), ph("3", &["VSS"]), ph("4", &["VDD"])],
    )));
    let lineup: Vec<LineupPart> = [("STM32G4YYRE", plain), ("STM32G4ZZRE", odd)]
        .iter()
        .map(|(n, r)| LineupPart {
            name: n.to_string(),
            pkg: "LQFP4".to_string(),
            record: Some(*r),
            raw: None,
        })
        .collect();
    let rows = |power_mode: PowerMode| {
        let cfg = MatchConfig { strictness: Strictness::ClassRole, power_mode };
        let mut v: Vec<(String, bool)> = find_replacements(&src, cfg, &lineup)
            .into_iter()
            .map(|c| (c.name, c.compatible))
            .collect();
        v.sort();
        v
    };
    let of = |a: bool, b: bool| {
        vec![("STM32G4YYRE".to_string(), a), ("STM32G4ZZRE".to_string(), b)]
    };
    assert_eq!(rows(PowerMode::Reject), of(true, false));
    assert_eq!(rows(PowerMode::Warn), of(true, true));
    assert_eq!(rows(PowerMode::Ignore), of(true, true));
}

#[test]
fn rows_of_candidates_are_capped_and_toggled() {
    let src = src_4pin();
    let cand = rec("STM32G4", "LQFP4", four_pins());
    let af = oracle(&[("PA9", "USART1", "TX", Some(7))]);
    let good = evaluate_candidate(&src, "STM32G4YYRE", &cand, &af, MatchConfig::default());
    let bad = evaluate_candidate(&src, "STM32G4ZZRE", &cand, &[], MatchConfig::default());
    assert!(good.compatible && !bad.compatible);
    let mut all = vec![bad.copy()];
    for _ in 0..301 {
        all.push(good.copy());
    }
    let (rows, count) = listed(&all);
    assert_eq!((rows.len(), rows[0], count), (ROW_CAP, 1, 301));
    let key = row_key(&good.name, &good.footprint);
    assert_eq!(key, "STM32G4YYRE|LQFP4");
    assert_eq!(toggled(&None, &key), Some(key.clone()));
    assert_eq!(toggled(&Some(key.clone()), &key), None);
    assert_eq!(outcome_label(PosOutcome::FunctionFail), "UNSERVICEABLE");
}

// ---- The power fabric ----

#[test]
fn tooltips_name_the_connections() {
    let t = dac_tooltip(DacId::Dac1Ch1);
    assert_eq!(t.title, "Dac1Ch1  (slow (1 Msps))");
    assert_eq!(t.lines, vec!["-> COMPs: [Comp1, Comp3, Comp4]"]);
    let t = comp_tooltip(CompId::Comp1);
    assert_eq!(t.title, "Comp1");
    assert_eq!(t.lines[0], "<- DACs: [Dac1Ch1, Dac3Ch1]");
    assert_eq!(t.lines.len(), 3);
    let edges = [PhaseEdge {
        eev: CrossbarSource::Eev1,
        timer: HrtimId::TimA,
        slot: TimerInputSlot::Rst1,
    }];
    let t = slot_tooltip(&edges, HrtimId::TimA, TimerInputSlot::Rst1);
    assert_eq!(t.title, "TimA: CH1 RST");
    assert_eq!(t.lines[1], "Routed: Eev1");
    let t = slot_tooltip(&edges, HrtimId::TimB, TimerInputSlot::Set2);
    assert_eq!(t.lines[1], "Routed: (nothing from the crossbar)");
}

#[test]
fn nodes_show_their_use() {
    let phases = [PhaseAllocation {
        dac: DacId::Dac3Ch1,
        comp: CompId::Comp1,
        eev: CrossbarSource::Eev1,
    }];
    let used = [
        Resource::TimerSlot(HrtimId::TimA, TimerCompareSlot::Cr2),
        Resource::TimerCapture(HrtimId::TimA, TimerCaptureUnit::Cpt2),
        Resource::MasterCompareSlot(3),
    ];
    let sel = Selection {
        phases: &phases,
        external_eevs: &[CrossbarSource::Eev2],
        phase_edges: &[],
        used_timers: &[HrtimId::TimA],
        fault: None,
        drive_dac: Some(DacId::Dac1Ch1),
        used: &used,
        master_trigger_event: None,
        plan_label: None,
        phase_dac_timers: &[(DacId::Dac3Ch1, HrtimId::TimA)],
        adc_sequencers: &[],
        non_pcm_hrtim: &[(HrtimId::TimF, "PWM".to_string())],
        phase_shift_links: &[],
    };
    assert_eq!(dac_use(&sel, DacId::Dac3Ch1), Use::Phase);
    assert_eq!(dac_use(&sel, DacId::Dac1Ch1), Use::Drive);
    assert_eq!(comp_use(&sel, CompId::Comp2), Use::Free);
    assert_eq!(eev_use(&sel, CrossbarSource::Eev2), Use::External);
    assert_eq!(timer_use(&sel, HrtimId::TimF), Use::External);
    assert_eq!(ramp_timer(&sel, DacId::Dac3Ch1), Some(HrtimId::TimA));
    assert_eq!(timer_tags(HrtimId::TimA, &used), vec!["Cr2", "Cpt2"]);
    assert_eq!(master_tags(&used), vec!["MCR3"]);
    assert_eq!(
        links(&[
            (HrtimId::TimA, HrtimId::TimB),
            (HrtimId::TimB, HrtimId::TimA),
            (HrtimId::TimC, HrtimId::TimA),
        ]),
        vec![(HrtimId::TimA, HrtimId::TimB), (HrtimId::TimC, HrtimId::TimA)]
    );
    let timers = [HrtimId::TimB, HrtimId::TimA];
    assert_eq!(trigger_source(CrossbarSource::Mper, &timers), Origin::Master(4));
    assert_eq!(trigger_source(CrossbarSource::TimACr2, &timers), Origin::Timer(1));
    assert_eq!(trigger_source(CrossbarSource::TimCCr2, &timers), Origin::Elsewhere);
    assert_eq!(
        used_by_kind(&[Resource::Dac(DacId::Dac3Ch1), Resource::Dac(DacId::Dac1Ch1)]),
        vec![("DAC", vec!["Dac1Ch1".to_string(), "Dac3Ch1".to_string()])]
    );
}

#[test]
fn columns_show_what_is_used_first() {
    let phases = [PhaseAllocation {
        dac: DacId::Dac3Ch2,
        comp: CompId::Comp4,
        eev: CrossbarSource::Eev5,
    }];
    let l = Layout::with_selection(&phases, &[], None);
    assert_eq!(l.dacs[0], DacId::Dac3Ch2);
    assert_eq!(l.comps[0], CompId::Comp4);
    assert_eq!((l.dacs.len(), l.comps.len(), l.timers.len()), (7, 7, 6));
}

// ---- Cards ----

#[test]
fn switches_of_a_bus_card() {
    let spi = RequirementSpec::UseSpi {
        instance: SpiId::Spi1,
        needs_miso: true,
        needs_nss: false,
    };
    let s = switches(spi);
    assert_eq!((s[0].title, s[0].on, s[1].title, s[1].on), ("MISO", true, "NSS", false));
    assert_eq!(set_switch(2, spi, 0, true), None);
    assert_eq!(
        set_switch(2, spi, 1, true),
        Some(CommsAction::SetSpec(
            2,
            RequirementSpec::UseSpi { instance: SpiId::Spi1, needs_miso: true, needs_nss: true }
        ))
    );
    assert!(switches(RequirementSpec::UseUsb).is_empty());
}

#[test]
fn pin_rows_of_a_signal() {
    assert!(matches!(pin_row(&[], &[], None), PinRow::NoPin));
    assert!(matches!(pin_row(&[pin("PA0")], &[], None), PinRow::Only(s) if s == "PA0"));
    match pin_row(&[pin("PA9"), pin("PB6")], &[pin("PA9")], None) {
        PinRow::Choice(label, v) => {
            assert_eq!(label, "1 opts");
            assert_eq!((v[0].taken, v[0].label.as_str()), (false, "PA9"));
            assert_eq!((v[1].taken, v[1].label.as_str()), (true, "PB6 (taken)"));
        }
        r => panic!("{r:?}"),
    }
}

#[test]
fn cards_of_the_sub_timers() {
    let mut d = Design::new();
    let spec = RequirementSpec::PcmPhase {
        dem: false,
        threshold: ThresholdSource::Internal,
        preferred_timer: Some(HrtimId::TimB),
    };
    d.add(spec);
    assert!(is_pinned(&d, HrtimId::TimB) && !is_pinned(&d, HrtimId::TimA));
    assert!(sub_card(&d, HrtimId::TimB).is_none());
    d.assignments[0] = Some(Assignment::PcmPhase {
        timer: HrtimId::TimB,
        alloc: PhaseAllocation {
            dac: DacId::Dac3Ch1,
            comp: CompId::Comp1,
            eev: CrossbarSource::Eev4,
        },
        dem: true,
        zcd_eev: None,
    });
    assert_eq!(
        sub_card(&d, HrtimId::TimB),
        Some((0, "Dac3Ch1 → Comp1 → Eev4 +DEM".to_string()))
    );
    assert_eq!(set_phase(0, spec, false, ThresholdSource::Internal), None);
    assert!(set_phase(0, spec, true, ThresholdSource::Internal).is_some());
    assert_eq!(
        unpin_phase(0, spec),
        Some(HrtimAction::SetSpec(
            0,
            RequirementSpec::PcmPhase {
                dem: false,
                threshold: ThresholdSource::Internal,
                preferred_timer: None,
            }
        ))
    );
    assert_eq!(comms_groups(&d).len(), 8);
}

#[test]
fn resources_are_named_in_messages() {
    assert_eq!(resource_label(Resource::Dac(DacId::Dac1Ch1)), "DAC Dac1Ch1");
    assert_eq!(resource_label(Resource::Comp(CompId::Comp3)), "Comp3");
    assert_eq!(resource_label(Resource::MasterCompareSlot(2)), "Master.MCR2");
    assert_eq!(resource_label(Resource::AdcInput(AdcInstance::Adc2, 7)), "Adc2.IN7");
    assert_eq!(resource_label(Resource::Usb), "USB");
}

#[test]
fn a_phase_claims_one_compare_slot_and_a_second_with_dem() {
    let plain = cr_usage_for(HrtimId::TimA, false);
    assert_eq!(plain.timer, HrtimId::TimA);
    assert_eq!(plain.claims, vec![(TimerCompareSlot::Cr2, "DAC sawtooth step (CMP2, slope comp)")]);
    assert_eq!(free_slots(false), vec![TimerCompareSlot::Cr1, TimerCompareSlot::Cr3, TimerCompareSlot::Cr4]);
    let dem = cr_usage_for(HrtimId::TimB, true);
    assert_eq!(dem.claims.len(), 2);
    assert_eq!(dem.claims[1], (TimerCompareSlot::Cr4, "DEM auto-delayed deadtime (CMP4)"));
    assert_eq!(free_slots(true), vec![TimerCompareSlot::Cr1, TimerCompareSlot::Cr3]);
    assert_eq!(slot_label(TimerInputSlot::Rst2), "RST2");
}

#[test]
fn triggers_reach_the_converters_of_their_parity() {
    assert_eq!(adc_triggers_for(CrossbarSource::Eev1), vec![AdcTriggerId::Trig1, AdcTriggerId::Trig3]);
    assert!(adc_channels_for(AdcTriggerId::Trig1).contains(&AdcChannel::Adc1Regular));
    assert!(!adc_channels_for(AdcTriggerId::Trig1).contains(&AdcChannel::Adc1Injected));
    assert!(adc_channels_for(AdcTriggerId::Trig2).contains(&AdcChannel::Adc1Injected));
}

#[test]
fn instances_are_listed_in_order() {
    let opamps: Vec<u8> = all_opamps().into_iter().map(|o| o.number()).collect();
    assert_eq!(opamps, vec![1, 2, 3, 4, 5, 6]);
    let uarts: Vec<u8> = all_uarts().into_iter().map(|u| u.number()).collect();
    assert_eq!(uarts, vec![4, 5]);
    assert_eq!(all_lpuarts().len(), 1);
    let cans: Vec<u8> = all_cans().into_iter().map(|c| c.number()).collect();
    assert_eq!(cans, vec![1, 2, 3]);
    assert!(TimId::Tim8.is_advanced());
    assert!(!TimId::Tim2.is_advanced());
}

fn pwm(timer: Option<HrtimId>) -> RequirementSpec {
    match role_on(HrtimId::TimF, HrtimRole::VoltageModePwm) {
        RequirementSpec::UseHrtimSub { role, outputs, .. } => RequirementSpec::UseHrtimSub {
            pinned_sub_timer: timer,
            role,
            outputs,
            fault: Some(HrtimFltId::Flt2),
        },
        other => other,
    }
}

#[test]
fn a_role_change_keeps_the_pinned_sub_timer() {
    let phase = role_on(HrtimId::TimA, HrtimRole::PcmInternal { ext_zcd: true, dem: false });
    assert_eq!(
        phase,
        RequirementSpec::UseHrtimSub {
            pinned_sub_timer: Some(HrtimId::TimA),
            role: HrtimRole::PcmInternal { ext_zcd: true, dem: false },
            outputs: OutputMode::Ch1AndCh2,
            fault: None,
        }
    );
    let changed = edited(pwm(Some(HrtimId::TimF)), RowEdit::Kind(phase));
    assert_eq!(
        changed,
        RequirementSpec::UseHrtimSub {
            pinned_sub_timer: Some(HrtimId::TimF),
            role: HrtimRole::PcmInternal { ext_zcd: true, dem: false },
            outputs: OutputMode::Ch1AndCh2,
            fault: Some(HrtimFltId::Flt2),
        }
    );
    // Another kind of requirement has nothing to keep.
    assert_eq!(edited(pwm(None), RowEdit::Kind(RequirementSpec::UseUsb)), RequirementSpec::UseUsb);
    assert_eq!(edited(RequirementSpec::UseUsb, RowEdit::Kind(phase)), phase);
}

#[test]
fn edits_change_one_thing_or_nothing() {
    let seq = RequirementSpec::AdcSequencer {
        adc: AdcInstance::Adc1,
        kind: SequencerKind::Regular,
        trigger: TriggerSource::Software,
    };
    let ev = TriggerSource::Event(CrossbarSource::Mcr2);
    assert_eq!(
        edited(seq, RowEdit::Trigger(ev)),
        RequirementSpec::AdcSequencer { adc: AdcInstance::Adc1, kind: SequencerKind::Regular, trigger: ev }
    );
    assert_eq!(edited(seq, RowEdit::Group(3)), seq);
    let conv = RequirementSpec::AdcConversion {
        group: 1,
        purpose: MonitorPurpose { id: 4 },
        adc_pref: None,
        speed: SpeedPref::Any,
    };
    assert_eq!(
        edited(edited(edited(conv, RowEdit::Group(9)), RowEdit::Adc(Some(AdcInstance::Adc3))), RowEdit::Speed(SpeedPref::Slow)),
        RequirementSpec::AdcConversion {
            group: 9,
            purpose: MonitorPurpose { id: 4 },
            adc_pref: Some(AdcInstance::Adc3),
            speed: SpeedPref::Slow,
        }
    );
    let amp = RequirementSpec::UseOpamp {
        instance: OpampId::Opamp1,
        external_vinp: true,
        external_vinm: false,
        external_vout: false,
    };
    assert_eq!(
        edited(edited(amp, RowEdit::Opamp(OpampId::Opamp4)), RowEdit::OpampPins(false, true, true)),
        RequirementSpec::UseOpamp {
            instance: OpampId::Opamp4,
            external_vinp: false,
            external_vinm: true,
            external_vout: true,
        }
    );
    assert_eq!(edited(amp, RowEdit::SubTimer(Some(HrtimId::TimB))), amp);
    match edited(pwm(Some(HrtimId::TimF)), RowEdit::SubTimer(None)) {
        RequirementSpec::UseHrtimSub { pinned_sub_timer, .. } => assert_eq!(pinned_sub_timer, None),
        other => panic!("{other:?}"),
    }
}

#[test]
fn rows_are_labelled() {
    let mut d = Design::new();
    d.add(RequirementSpec::UseUsb);
    let id = d.add(RequirementSpec::AdcSequencer {
        adc: AdcInstance::Adc1,
        kind: SequencerKind::Injected,
        trigger: TriggerSource::Software,
    });
    assert_eq!(sequencer_ids(&d), vec![(id, 1)]);
    assert_eq!(group_label(&d, id), format!("-> #2 (id={id})"));
    assert_eq!(group_label(&d, 77), "-> (no sequencer)");
    // The id of something else is no sequencer's.
    assert_eq!(group_label(&d, d.ids[0]), "-> (no sequencer)");
    assert_eq!(sequencer_label(5, 0), "#1 (id=5)");
    assert_eq!(trigger_label(TriggerSource::Software), "SW");
    assert_eq!(trigger_label(TriggerSource::Event(CrossbarSource::TimACr3)), "TimACr3");
    assert_eq!(adc_label(None), "any ADC");
    assert_eq!(adc_label(Some(AdcInstance::Adc5)), "ADC5");
    assert_eq!((left_rows(0), left_rows(5), left_rows(6)), (0, 3, 3));
    assert_eq!(trigger_events().len(), 45);
    assert!(trigger_events().into_iter().all(|e| !adc_triggers_for(e).is_empty()));
}

#[test]
fn claimed_sequencers_and_budgets_are_listed() {
    let mut d = Design::new();
    d.add(RequirementSpec::UseUsb);
    d.add(RequirementSpec::UseUsb);
    d.set_assignment(
        0,
        Assignment::AdcSequencer {
            adc: AdcInstance::Adc2,
            kind: SequencerKind::Regular,
            trigger: TriggerSource::Event(CrossbarSource::Mcr1),
        },
    );
    d.set_assignment(
        1,
        Assignment::AdcSequencer {
            adc: AdcInstance::Adc1,
            kind: SequencerKind::Injected,
            trigger: TriggerSource::Software,
        },
    );
    assert_eq!(
        claimed_sequencers(&d),
        vec!["Adc2 Regular trig=Event(Mcr1)", "Adc1 Injected trig=Software"]
    );
    assert_eq!(
        budget_lines(HrtimId::TimC, true),
        vec![
            "TimC (+DEM):",
            "Cr2: DAC sawtooth step (CMP2, slope comp)",
            "Cr4: DEM auto-delayed deadtime (CMP4)",
            "free: [Cr1, Cr3]",
        ]
    );
    assert_eq!(budget_lines(HrtimId::TimA, false).last().map(String::as_str), Some("free: [Cr1, Cr3, Cr4]"));
}

#[test]
fn places_are_edited_or_nothing_is() {
    let mut d = Design::new();
    let first = d.add(RequirementSpec::UseUsb);
    let second = d.add(RequirementSpec::ShortCircuitFault);
    d.set_assignment(0, Assignment::Usb);
    assert_eq!(d.assignments, vec![Some(Assignment::Usb), None]);
    // Another requirement in its place is assigned afresh.
    d.set_spec(0, RequirementSpec::ShortCircuitFault);
    assert_eq!(d.assignments, vec![None, None]);
    let same = d.copy();
    d.set_spec(2, RequirementSpec::UseUsb);
    d.set_assignment(2, Assignment::Usb);
    d.remove(2);
    assert_eq!(d, same);
    d.remove(0);
    assert_eq!(d.ids, vec![second]);
    assert_ne!(first, second);
    assert_eq!(d.add(RequirementSpec::UseUsb), second + 1);
}

#[test]
fn the_second_click_puts_a_role_down() {
    let a = PinId::from_metapac("PA0").unwrap();
    let b = PinId::from_metapac("PB3").unwrap();
    let up = pick_step(None, Some(PackageClick::Pin(a)));
    assert_eq!(up, PickStep::PickUp(a));
    assert_eq!(now_held(None, up, true), Some(a));
    assert_eq!(now_held(None, up, false), None);
    assert_eq!(pick_step(Some(a), None), PickStep::Stay);
    assert_eq!(now_held(Some(a), PickStep::Stay, false), Some(a));
    assert_eq!(pick_step(Some(a), Some(PackageClick::Pin(a))), PickStep::PutBack);
    assert_eq!(pick_step(Some(a), Some(PackageClick::Empty)), PickStep::PutBack);
    let to = pick_step(Some(a), Some(PackageClick::Pin(b)));
    assert_eq!(to, PickStep::Move(a, b));
    assert_eq!(now_held(Some(a), to, true), None);
}

#[test]
fn what_a_design_takes_is_gathered() {
    let mut d = Design::new();
    for _ in 0..4 {
        d.add(RequirementSpec::UseUsb);
    }
    let alloc = PhaseAllocation { dac: DacId::Dac3Ch1, comp: CompId::Comp1, eev: CrossbarSource::Eev4 };
    d.set_assignment(
        0,
        Assignment::PcmPhase { timer: HrtimId::TimA, alloc, dem: true, zcd_eev: Some(CrossbarSource::Eev7) },
    );
    d.set_assignment(
        1,
        Assignment::PcmPhaseExternal {
            timer: HrtimId::TimB,
            dac: None,
            peak_eev: CrossbarSource::Eev2,
            dem: false,
            zcd_eev: None,
        },
    );
    d.set_assignment(
        3,
        Assignment::AdcSequencer {
            adc: AdcInstance::Adc1,
            kind: SequencerKind::Regular,
            trigger: TriggerSource::Event(CrossbarSource::Mcr3),
        },
    );
    assert_eq!(phases(&d), vec![alloc]);
    assert_eq!(external_eevs(&d), vec![CrossbarSource::Eev7, CrossbarSource::Eev2]);
    assert_eq!(phase_timers(&d), vec![(HrtimId::TimA, true), (HrtimId::TimB, false)]);
    assert_eq!(phase_dac_timers(&d), vec![(DacId::Dac3Ch1, HrtimId::TimA)]);
    assert_eq!(master_trigger_event(&d), Some(CrossbarSource::Mcr3));
    assert_eq!(
        all_used(&d),
        vec![
            Resource::Timer(HrtimId::TimA),
            Resource::TimerSlot(HrtimId::TimA, TimerCompareSlot::Cr2),
            Resource::TimerSlot(HrtimId::TimA, TimerCompareSlot::Cr4),
            Resource::TimerCapture(HrtimId::TimA, TimerCaptureUnit::Cpt2),
            Resource::Dac(DacId::Dac3Ch1),
            Resource::Comp(CompId::Comp1),
            Resource::Eev(CrossbarSource::Eev4),
            Resource::Eev(CrossbarSource::Eev7),
            Resource::Timer(HrtimId::TimB),
            Resource::TimerSlot(HrtimId::TimB, TimerCompareSlot::Cr2),
            Resource::Eev(CrossbarSource::Eev2),
            Resource::AdcSequencer(AdcInstance::Adc1, SequencerKind::Regular),
        ]
    );
    d.remove(3);
    assert_eq!(master_trigger_event(&d), None);
}
