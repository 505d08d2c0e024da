//! Tests on the tables of chips.

use peri_planner::adc_candidates::adc_choices;
use peri_planner::af_view::AfFilter;
use peri_planner::af_view::LockAction;
use peri_planner::af_view::LockCell;
use peri_planner::af_view;
use peri_planner::analog_table;
use peri_planner::analog_view::AnalogFilter;
use peri_planner::analog_view::DiffFrontEnd;
use peri_planner::analog_view::EnumCache;
use peri_planner::analog_view::Kind;
use peri_planner::analog_view::enumerate;
use peri_planner::board::Connector;
use peri_planner::board::nucleo_g474re;
use peri_planner::c531_design::C531Design;
use peri_planner::c531_design::ConverterLeg;
use peri_planner::c531_design::Ocp;
use peri_planner::c531_design::Problem;
use peri_planner::c531_view;
use peri_planner::codegen::generate;
use peri_planner::demand::AdcTemplates;
use peri_planner::demand::DemandInput;
use peri_planner::demand::seed_c531_into;
use peri_planner::demand::seed_g474_into;
use peri_planner::demand::seed_h523_into;
use peri_planner::desc_asset::AssetPart;
use peri_planner::desc_asset::AssetPeri;
use peri_planner::desc_asset::AssetRegistry;
use peri_planner::desc_asset::inflate;
use peri_planner::dropin::DesignSource;
use peri_planner::dropin::MatchConfig;
use peri_planner::dropin::SourceProfile;
use peri_planner::dropin::WiredFn;
use peri_planner::dropin::build_source_profile;
use peri_planner::dropin_search::LineupPart;
use peri_planner::dropin_search::find_replacements;
use peri_planner::fabric_data_c5::c5_comp_to_tim_break;
use peri_planner::fabric_data_c5::c5_dac_to_comp;
use peri_planner::fabric_selection::all_used;
use peri_planner::fabric_view;
use peri_planner::frontend_plan::AdcRead;
use peri_planner::frontend_plan::FrontEndPlan;
use peri_planner::frontend_plan::OpampOutAdc;
use peri_planner::frontend_plan::PinCap;
use peri_planner::frontend_plan::PlanConfig;
use peri_planner::frontend_plan::ZeroCrossOption;
use peri_planner::frontend_plan::capabilities;
use peri_planner::frontend_plan::opamp_out_adc;
use peri_planner::frontend_plan::zero_cross_options;
use peri_planner::frontend_solver::plan;
use peri_planner::frontend_solver::plan_from;
use peri_planner::frontend_solver::weights_fit;
use peri_planner::frontend_view::FrontEndState;
use peri_planner::frontend_view::Priority;
use peri_planner::frontend_view;
use peri_planner::g474::AdcInstance;
use peri_planner::g474::CompId;
use peri_planner::g474::CrossbarSource;
use peri_planner::g474::DacId;
use peri_planner::g474::HrtimId;
use peri_planner::g474::SpiId;
use peri_planner::g474::TimCh;
use peri_planner::g474::TimId;
use peri_planner::g474::UsartId;
use peri_planner::h523_design::H523Design;
use peri_planner::h523_design::H523Problem;
use peri_planner::hrtim_view::HrtimAction;
use peri_planner::hrtim_view;
use peri_planner::inventory_view;
use peri_planner::kernel::lower::Outcome;
use peri_planner::kernel::lower::feasible;
use peri_planner::kernel::lower::instances_of;
use peri_planner::kernel::requirement::Requirement;
use peri_planner::mcu::Mcu;
use peri_planner::mcu::Package;
use peri_planner::mcu::PartInfo;
use peri_planner::mcu::TimerKind;
use peri_planner::mcu::classify_timer;
use peri_planner::mcu::g4_fabric;
use peri_planner::mcu::strip_prefix_num;
use peri_planner::mcu_pinout::OwnedSignal;
use peri_planner::mcu_pinout::PinId;
use peri_planner::mcu_pinout::PinSet;
use peri_planner::mcu_pinout::SignalId;
use peri_planner::mcu_pinout::af_rows;
use peri_planner::mcu_pinout::placements_for;
use peri_planner::mcu_raw::DmaPoolDef;
use peri_planner::mcu_raw::RawDmaLeg;
use peri_planner::mcu_raw::RawMcuData;
use peri_planner::mcu_raw::RawPeripheral;
use peri_planner::mcu_raw::RawPin;
use peri_planner::part_registry::planned_lines;
use peri_planner::part_registry::registered_parts;
use peri_planner::phys_pinout::PhysPin;
use peri_planner::phys_pinout::PinoutRecord;
use peri_planner::phys_pinout::bonded_pins;
use peri_planner::phys_pinout::package_class;
use peri_planner::pin_plan::DmaAssignment;
use peri_planner::pin_plan::EdgeKind;
use peri_planner::pin_plan::FabricNode;
use peri_planner::pin_plan::PIN_PLAN_FORMAT_VERSION;
use peri_planner::pin_plan::PinOrigin;
use peri_planner::pin_plan::PinPlan;
use peri_planner::pin_plan::Placement;
use peri_planner::pin_plan::RoleKind;
use peri_planner::pin_plan::RouteEdge;
use peri_planner::pin_plan::Target;
use peri_planner::pinout::ChipVariant;
use peri_planner::pinout::Signal;
use peri_planner::pinout::pins_for;
use peri_planner::pinout::pins_for_pkg;
use peri_planner::project::Project;
use peri_planner::project::asset_key;
use peri_planner::requirement_row::RowEdit;
use peri_planner::requirements::Assignment;
use peri_planner::requirements::Design;
use peri_planner::requirements::HrtimRole;
use peri_planner::requirements::MonitorPurpose;
use peri_planner::requirements::OutputMode;
use peri_planner::requirements::RequirementSpec;
use peri_planner::requirements::SequencerKind;
use peri_planner::requirements::SpeedPref;
use peri_planner::requirements::TriggerSource;
use peri_planner::requirements::build_adc_sequencer_views;
use peri_planner::resources::Resource;
use peri_planner::screen::Pane;
use peri_planner::screen::asked;
use peri_planner::screen::export_text;
use peri_planner::screen::pane;
use peri_planner::screen::status_of_converter;
use peri_planner::screen::status_of_fabric;
use peri_planner::screen::status_of_locks;
use peri_planner::screen::tabs;
use peri_planner::session::ConverterAction;
use peri_planner::session::DesignSnapshot;
use peri_planner::session::HISTORY_CAP;
use peri_planner::session::PeriPlannerApp;
use peri_planner::session::ViewMode;
use peri_planner::session::default_timer;
use peri_planner::session::part_name;
use peri_planner::startup::SingleKeys;
use peri_planner::startup::Stored;
use std::collections::BTreeSet;

// ---- Chips: one line per peripheral, as `NAME [BLOCK] | ROLE=PIN[:AF] ... | SIGNAL>POOL,POOL ...` ----

const G474R: &str = "
ADC1 | IN1=PA0 IN2=PA1 INN1=PA1 IN3=PA2 INN2=PA2 IN4=PA3 INN3=PA3 IN5=PB14 INN4=PB14 IN6=PC0 INN5=PC0 IN7=PC1 INN6=PC1 IN8=PC2 INN7=PC2 IN9=PC3 INN8=PC3 IN10=PF0 INN9=PF0 IN11=PB12 INN10=PB12 IN12=PB1 INN11=PB1 IN14=PB11 INN15=PB11 IN15=PB0 | ADC1>DMA1,DMA2
ADC2 | IN1=PA0 IN2=PA1 INN1=PA1 IN3=PA6 INN2=PA6 IN4=PA7 INN3=PA7 IN5=PC4 INN4=PC4 IN6=PC0 INN5=PC0 IN7=PC1 INN6=PC1 IN8=PC2 INN7=PC2 IN9=PC3 INN8=PC3 IN10=PF1 INN9=PF1 IN11=PC5 INN10=PC5 IN12=PB2 INN11=PB2 IN13=PA5 INN12=PA5 IN14=PB11 INN13=PB11 IN15=PB15 INN14=PB15 IN17=PA4 | ADC2>DMA1,DMA2
ADC3 | IN1=PB1 IN5=PB13 INN4=PB13 IN12=PB0 INN11=PB0
ADC4 | INN2=PB12 IN3=PB12 IN4=PB14 INN3=PB14 IN5=PB15 INN4=PB15
ADC5 | IN1=PA8 IN2=PA9 INN1=PA9
COMP1 | INP=PA1 INP=PB1 INM=PA4 INM=PA0 OUT=PA0:8
COMP2 | INP=PA7 INP=PA3 INM=PA5 INM=PA2 OUT=PA2:8
COMP3 | INP=PA0 INP=PC1 INM=PF1 INM=PC0
COMP4 | INP=PB0 INM=PB2
COMP5 | INP=PB13 INM=PB10
COMP6 | INP=PB11 INM=PB15
COMP7 | INP=PB14 INM=PB12
OPAMP1 | VINP=PA1 VINP0=PA1 VINP_SEC=PA1 VINP=PA3 VINP1=PA3 VINP_SEC=PA3 VINP=PA7 VINP2=PA7 VINP_SEC=PA7 VINM=PA3 VINM=PC5 VOUT=PA2
OPAMP2 | VINP=PA7 VINP=PB14 VINP=PB0 VINM=PA5 VINM=PC5 VOUT=PA6
OPAMP3 | VINP=PB0 VINP=PB13 VINP=PA1 VINM=PB2 VINM=PB10 VOUT=PB1
OPAMP4 | VINP=PB13 VINP=PB11 VINM=PB10 VOUT=PB12
OPAMP5 | VINP=PB14 VINP=PC3 VINM=PB15 VINM=PA3 VOUT=PA8
OPAMP6 | VINP=PB12 VINP=PB13 VINM=PA1 VINM=PB1 VOUT=PB11
DAC1 | OUT1=PA4 OUT2=PA5 | CH1>DMA1,DMA2
DAC2 | OUT1=PA6
DAC3 |
DAC4 |
HRTIM1 | CHA1=PA8:13 CHA2=PA9:13 CHB1=PA10:13 CHB2=PA11:13 CHC1=PB12:13 CHC2=PB13:13 CHD1=PB14:13 CHD2=PB15:13 CHE1=PC8:3 CHE2=PC9:3 CHF1=PC6:13 CHF2=PC7:13
TIM1 TIM_ADV | CH1=PA8:6 CH1=PC0:2 CH1N=PA7:6 CH1N=PB13:6 CH2=PA9:6 CH2N=PB14:6
TIM2 TIM_GP32 | CH1=PA0:1 CH2=PA1:1
TIM3 TIM_GP16 | CH1=PA6:2 CH2=PA7:2
TIM6 TIM_BASIC |
TIM8 TIM_ADV | CH1=PC6:4 CH1N=PC10:4
TIM15 TIM_2CH_CMP | CH1=PB14:1
TIM16 TIM_1CH_CMP | CH1=PB8:1
LPTIM1 LPTIM | IN1=PC0:1
USART1 | TX=PA9:7 TX=PB6:7 TX=PC4:7 RX=PA10:7 RX=PB7:7 CTS=PA11:7 RTS=PA12:7 CK=PA8:7 | RX>DMA1,DMA2 TX>DMA1,DMA2
USART2 | TX=PA2:7 TX=PA14:7 TX=PB3:7 RX=PA3:7 RX=PB4:7 | RX>DMA1,DMA2 TX>DMA1,DMA2
USART3 | TX=PB10:7 TX=PC10:7 RX=PB11:7 RX=PC11:7 | RX>DMA1,DMA2 TX>DMA1,DMA2
UART4 | TX=PC10:5 RX=PC11:5 | RX>DMA1,DMA2 TX>DMA1,DMA2
UART5 | TX=PC12:5 RX=PD2:5
LPUART1 | TX=PA2:12 RX=PA3:12
SPI1 | SCK=PA5:5 SCK=PB3:5 MISO=PA6:5 MISO=PB4:5 MOSI=PA7:5 MOSI=PB5:5 NSS=PA4:5 | RX>DMA1,DMA2 TX>DMA1,DMA2
SPI2 | SCK=PB13:5 MISO=PB14:5 MOSI=PB15:5 NSS=PB12:5
SPI3 | SCK=PC10:6 MISO=PC11:6 MOSI=PC12:6
I2C1 | SCL=PA15:4 SCL=PB8:4 SDA=PB7:4 SDA=PB9:4
I2C2 | SCL=PA9:4 SCL=PC4:4 SDA=PA8:4 SDA=PF0:4
FDCAN1 | TX=PB9:9 RX=PB8:9
FDCAN2 | TX=PB6:9 RX=PB5:9
UCPD1 | CC1=PB6 CC2=PB4
USB | DM=PA11 DP=PA12
";

const G474V: &str = "
ADC1 | IN1=PA0 IN2=PA1 INN1=PA1 | ADC1>DMA1,DMA2
DAC1 | OUT1=PA4
COMP1 | INP=PA1 INM=PA0
TIM1 TIM_ADV | CH1=PE9:2
USART1 | TX=PA9:7 RX=PA10:7 | RX>DMA1,DMA2 TX>DMA1,DMA2
";

const H523R: &str = "
ADC1 | INP0=PA0 INN1=PA0 INP1=PA1 INP14=PA2 INP15=PA3 INP18=PA4 INP19=PA5 INN18=PA5 INP3=PA6 INP7=PA7 INN3=PA7 INP9=PB0 INN5=PB0 INP5=PB1 INP10=PC0 INP11=PC1 INN10=PC1 INP12=PC2 INN11=PC2 INP13=PC3 INN12=PC3 INP4=PC4 INP8=PC5 INN4=PC5
ADC2 | INP0=PA0 INN1=PA0 INP1=PA1 INP14=PA2 INP15=PA3 INP18=PA4 INP19=PA5 INN18=PA5 INP3=PA6 INP7=PA7 INN3=PA7 INP9=PB0 INN5=PB0 INP5=PB1 INP10=PC0 INP11=PC1 INN10=PC1 INP12=PC2 INN11=PC2 INP13=PC3 INN12=PC3 INP4=PC4 INP8=PC5 INN4=PC5
DAC1 | OUT1=PA4 OUT2=PA5
TIM1 TIM_ADV | CH1=PA8:1 CH1N=PA7:1
TIM2 TIM_GP32 | CH1=PA0:1
TIM6 TIM_BASIC |
LPTIM1 LPTIM |
USART1 | TX=PA9:7 TX=PB6:7 TX=PB14:4 RX=PA10:7 RX=PB7:7 RX=PB15:4 CTS=PA11:7 RTS=PA12:7 | RX>GPDMA1,GPDMA2 TX>GPDMA1,GPDMA2
USART2 | TX=PA2:7 RX=PA3:7 | RX>GPDMA1,GPDMA2 TX>GPDMA1,GPDMA2
USART3 | TX=PB10:7 TX=PC10:7 RX=PC4:7 RX=PC11:7
LPUART1 | TX=PB6:8 RX=PB7:8
SPI1 | SCK=PA5:5 MISO=PA6:5 MOSI=PA7:5 NSS=PA4:5
I2C1 | SCL=PB6:4 SCL=PB8:4 SDA=PB7:4
I3C1 | SCL=PB6:3 SDA=PB7:3
FDCAN1 | TX=PA12:9 RX=PA11:9
UCPD1 | CC1=PB13 CC2=PB14
USB | DM=PA11 DP=PA12
";

const C531R: &str = "
ADC1 | IN1=PA1 IN2=PA2 IN3=PA3 IN4=PA4
ADC2 | IN1=PB1 IN2=PB2
COMP1 | INP0=PA1 INP1=PA3 INM=PA0
COMP2 | INP0=PB1 INM=PB2
DAC1 | OUT1=PA4
OPAMP1 | VINP=PA7 VINM=PC5 VOUT=PA2
TIM1 TIM_ADV | CH1=PA8 CH1=PC0 CH1N=PA7 CH1N=PB13 CH2=PA9 CH2N=PB14 BKIN=PB12
TIM8 TIM_ADV | CH1=PC6 CH1N=PC10 CH2=PC7
TIM2 TIM_GP32 | CH1=PA0 CH1=PA5
TIM6 TIM_BASIC |
LPTIM1 LPTIM |
USART1 | TX=PA9 RX=PA10
LPUART1 | TX=PA2 RX=PA3
SPI1 | SCK=PA5 MISO=PA6 MOSI=PB5
";

const C5A3Z: &str = "
ADC1 | IN1=PA1 IN2=PA2
COMP1 | INP0=PA1 INP1=PA3 INP2=PB1 INM=PA0
DAC1 | OUT1=PA4
TIM1 TIM_ADV | CH1=PA8
TIM8 TIM_ADV | CH1=PC6
TIM2 TIM_GP32 | CH1=PA0
LPTIM1 LPTIM |
USART1 | TX=PA9 RX=PA10
USART2 | TX=PA2 RX=PA3
USART3 | TX=PD8 RX=PD9
USART6 | TX=PC7 RX=PG9
UART4 | TX=PC10 RX=PC11
UART5 | TX=PC12 RX=PD2
UART7 | TX=PE8 RX=PE7
LPUART1 | TX=PG7 RX=PG8
FDCAN1 | TX=PD1 RX=PD0
FDCAN2 | TX=PB6 RX=PB5
ETH |
";

fn leak<T>(v: Vec<T>) -> &'static [T] {
    Box::leak(v.into_boxed_slice())
}

fn chip(
    name: &'static str,
    family: &'static str,
    table: &'static str,
    pools: &[(&'static str, u8)],
) -> &'static RawMcuData {
    let mut peripherals = Vec::new();
    for line in table.lines().filter(|l| !l.is_empty()) {
        let mut parts = line.split('|');
        let mut head = parts.next().unwrap().split_whitespace();
        let mut pins = Vec::new();
        for entry in parts.next().unwrap_or("").split_whitespace() {
            let (signal, place) = entry.split_once('=').unwrap();
            let (pin, af) = match place.split_once(':') {
                Some((p, n)) => (p, Some(n.parse::<u8>().unwrap())),
                None => (place, None),
            };
            pins.push(RawPin { pin, signal, af });
        }
        let mut dma = Vec::new();
        for entry in parts.next().unwrap_or("").split_whitespace() {
            let (signal, list) = entry.split_once('>').unwrap();
            dma.push(RawDmaLeg { signal, pools: leak(list.split(',').collect()) });
        }
        peripherals.push(RawPeripheral {
            name: head.next().unwrap(),
            address: 0x4000_0000,
            block: head.next(),
            pins: leak(pins),
            triggers: &[],
            dma: leak(dma),
        });
    }
    Box::leak(Box::new(RawMcuData {
        name,
        family,
        peripherals: leak(peripherals),
        dma_pools: leak(pools.iter().map(|p| DmaPoolDef { name: p.0, channels: p.1 }).collect()),
    }))
}

fn package(raw: &'static RawMcuData, label: &'static str, mcu: Mcu) -> Package {
    Package::new(Box::leak(Box::new(PartInfo { raw, package_label: label, mcu })))
}

fn g474r() -> Package {
    package(
        chip("STM32G474RE", "STM32G4", G474R, &[("DMA1", 8), ("DMA2", 8)]),
        "LQFP64",
        Mcu::G474,
    )
}

fn g474v() -> Package {
    package(
        chip("STM32G474VE", "STM32G4", G474V, &[("DMA1", 8), ("DMA2", 8)]),
        "LQFP100",
        Mcu::G474,
    )
}

fn h523r() -> Package {
    package(
        chip("STM32H523RE", "STM32H5", H523R, &[("GPDMA1", 8), ("GPDMA2", 8)]),
        "LQFP64",
        Mcu::H523,
    )
}

fn c5a3z() -> Package {
    package(chip("STM32C5A3ZGT6", "STM32C5", C5A3Z, &[]), "LQFP144", Mcu::C5A3)
}

fn c531r() -> Package {
    package(chip("STM32C531RCT6", "STM32C5", C531R, &[]), "LQFP64", Mcu::C531)
}

fn all_parts() -> Vec<Package> {
    vec![g474r(), g474v(), h523r(), c5a3z(), c531r()]
}

// ---- Differential pairs ----

#[test]
fn enum_cache_recomputes_only_on_chip_switch() {
    let g474 = g474r().raw();
    let h523 = h523r().raw();
    let mut c = EnumCache::new();

    let g_pairs = c.frontends(g474).len();
    assert!(g_pairs > 0);
    assert_eq!(c.key(), Some(g474.name));

    // The same chip: kept, with the same result.
    assert_eq!(c.frontends(g474).len(), g_pairs);
    assert_eq!(c.key(), Some(g474.name));

    // Another chip: made anew.
    let h_pairs = c.frontends(h523).len();
    assert_eq!(c.key(), Some(h523.name));
    assert_ne!(g_pairs, h_pairs, "different chips enumerate differently");

    // Another chip of the same name: made anew.
    let other = chip("STM32H523RE", "STM32H5", G474R, &[]);
    assert_eq!(c.frontends(other).len(), g_pairs);
}

#[test]
fn opamp_output_adc_channel_is_surfaced_both_ways() {
    let fes = enumerate(g474r().raw());

    let op1 = fes
        .iter()
        .find(|f| f.kind == Kind::OpampPlus && f.instance == "OPAMP1" && f.minus.is_none())
        .expect("OPAMP1 OP+ row");
    assert!(op1.note.contains("ADC1_IN3"), "OPAMP1 names its ADC channel: {}", op1.note);
    assert!(op1.note.contains("PA2"), "names the VOUT pad: {}", op1.note);

    let adc3 = fes
        .iter()
        .find(|f| f.kind == Kind::AdcDiff && f.instance == "ADC1" && f.channel == Some(3))
        .expect("ADC1 ch3 diff row");
    assert_eq!(adc3.plus_pin.name(), "PA2");
    assert!(adc3.note.contains("OPAMP1 output"), "ch3 marked opamp-fed: {}", adc3.note);
}

fn adc_channels(fes: &[DiffFrontEnd], adc: &str) -> BTreeSet<u8> {
    fes.iter()
        .filter(|f| f.kind == Kind::AdcDiff && f.instance == adc)
        .filter_map(|f| f.channel)
        .collect()
}

#[test]
fn g474_adc_diff_channel_sets() {
    let fes = enumerate(g474r().raw());
    assert_eq!(adc_channels(&fes, "ADC1"), (1..=11).chain([15]).collect());
    assert_eq!(adc_channels(&fes, "ADC2"), (1..=14).collect());
    assert_eq!(adc_channels(&fes, "ADC3"), BTreeSet::new());
    assert_eq!(adc_channels(&fes, "ADC4"), [3, 4].into_iter().collect());
    assert_eq!(adc_channels(&fes, "ADC5"), [1].into_iter().collect());
}

#[test]
fn g474_adc_pin_pairs_and_guards() {
    let fes = enumerate(g474r().raw());
    let pair = |adc: &str, ch: u8| -> Option<(String, String)> {
        fes.iter()
            .find(|f| f.kind == Kind::AdcDiff && f.instance == adc && f.channel == Some(ch))
            .and_then(|f| f.minus.map(|(m, _)| (f.plus_pin.name(), m.name())))
    };
    assert_eq!(pair("ADC1", 1), Some(("PA0".into(), "PA1".into())));
    assert_eq!(pair("ADC1", 15), Some(("PB0".into(), "PB11".into())));
    assert_eq!(pair("ADC5", 1), Some(("PA8".into(), "PA9".into())));

    // The top channel of ADC1 is the only one in doubt.
    let hedged: Vec<u8> = fes
        .iter()
        .filter(|f| f.kind == Kind::AdcDiff && f.instance == "ADC1" && f.channel_hedge)
        .filter_map(|f| f.channel)
        .collect();
    assert_eq!(hedged, vec![15]);

    // No pair has both terminals on one pin.
    for f in &fes {
        if let Some((m, _)) = f.minus {
            assert_ne!(f.plus_pin, m, "{} {:?} degenerate pair", f.instance, f.channel);
        }
    }
}

#[test]
fn no_comp_masquerades_as_adc_channel() {
    for p in [g474r(), c531r(), c5a3z()] {
        for f in enumerate(p.raw()) {
            if f.kind == Kind::AdcDiff {
                assert!(f.instance.starts_with("ADC"), "{} tagged AdcDiff", f.instance);
            }
        }
    }
}

#[test]
fn h523_is_adc_diff_only() {
    let fes = enumerate(h523r().raw());
    let expect: BTreeSet<u8> = [1, 3, 4, 5, 10, 11, 12, 18].into_iter().collect();
    assert_eq!(adc_channels(&fes, "ADC1"), expect);
    assert_eq!(adc_channels(&fes, "ADC2"), expect);
    assert!(!fes.iter().any(|f| f.kind == Kind::Comp), "H5 has no COMP");
    assert!(!fes.iter().any(|f| f.kind == Kind::OpampPlus), "H5 has no OPAMP");
}

#[test]
fn c5_has_comp_opamp_but_no_adc_diff() {
    let c531 = enumerate(c531r().raw());
    assert!(!c531.iter().any(|f| f.kind == Kind::AdcDiff), "C531 has no ADC INN");
    assert!(c531.iter().any(|f| f.kind == Kind::Comp), "C531 has COMP");
    assert!(c531.iter().any(|f| f.kind == Kind::OpampPlus), "C531 has OPAMP1");

    let c5a3 = enumerate(c5a3z().raw());
    assert!(!c5a3.iter().any(|f| f.kind == Kind::AdcDiff), "C5A3 has no ADC INN");
    assert!(c5a3.iter().any(|f| f.kind == Kind::Comp), "C5A3 has COMP1");
    assert!(!c5a3.iter().any(|f| f.kind == Kind::OpampPlus), "C5A3 has no OPAMP");
}

#[test]
fn opamp_plus_pins_not_triplicated() {
    let fes = enumerate(g474r().raw());
    let defaults: Vec<PinId> = fes
        .iter()
        .filter(|f| f.kind == Kind::OpampPlus && f.instance == "OPAMP1" && f.minus.is_none())
        .map(|f| f.plus_pin)
        .collect();
    let mut uniq = defaults.clone();
    uniq.sort();
    uniq.dedup();
    assert_eq!(defaults.len(), uniq.len(), "OPAMP1 + pins triplicated: {:?}", defaults);
    assert_eq!(defaults.len(), 3);
}

// ---- Front-end plans ----

fn g474_caps() -> Vec<PinCap> {
    capabilities(g474r().raw(), None)
}

fn g474_plan(opts: &[ZeroCrossOption], channels: usize, cfg: PlanConfig) -> FrontEndPlan {
    plan_from(&g474_caps(), &opamp_out_adc(g474r().raw()), opts, channels, cfg)
}

#[test]
fn opamp_out_adc_matches_known_g474_routing() {
    let m = opamp_out_adc(g474r().raw());
    assert_eq!(m.get("OPAMP1"), Some(&vec![("ADC1", 3)]));
    assert!(m.get("OPAMP3").unwrap().contains(&("ADC1", 12)));
    assert!(m.get("OPAMP3").unwrap().contains(&("ADC3", 1)));
    assert!(m.get("OPAMP6").unwrap().contains(&("ADC2", 14)));
}

#[test]
fn g474_capability_buckets() {
    let caps = g474_caps();
    let triple =
        caps.iter().filter(|c| !c.adc.is_empty() && !c.comp.is_empty() && !c.opamp.is_empty());
    let names: BTreeSet<String> = triple.map(|c| c.pin.name()).collect();
    let want: BTreeSet<String> = ["PA1", "PA3", "PA7", "PB0", "PB11", "PB13", "PB14"]
        .iter()
        .map(|s| s.to_string())
        .collect();
    assert_eq!(names, want);
}

#[test]
fn g474_ceiling_and_hits_it() {
    let p = g474_plan(&[], 16, PlanConfig::default());

    assert_eq!(p.ceiling.opamps, 6);
    assert_eq!(p.ceiling.comps, 7);
    assert_eq!(p.ceiling.max_pga_pairs, 3);

    assert_eq!(p.full_pga_pairs(), 3, "should place all 3 full-PGA pairs");
    assert_eq!(p.pga_channels(), 6, "all 6 opamps used");
    assert!(p.triggers() >= 6, "at least 6 of 7 comparators become triggers, got {}", p.triggers());
    assert_eq!(p.pairs.len(), 8);
    assert_eq!(p.unplaced_channels, 0);
}

#[test]
fn every_channel_has_a_distinct_pin_and_adc_slot() {
    let p = g474_plan(&[], 16, PlanConfig::default());
    let mut pins = BTreeSet::new();
    let mut slots = BTreeSet::new();
    for pair in &p.pairs {
        for c in [&pair.pos, &pair.neg] {
            assert!(pins.insert(c.pin), "pin {} reused", c.pin.name());
            assert!(slots.insert(c.read.slot()), "ADC slot {:?} reused", c.read.slot());
            assert_eq!(c.opamp.is_some(), matches!(c.read, AdcRead::ViaOpamp { .. }));
        }
    }
}

#[test]
fn full_pga_pairs_use_distinct_opamps() {
    let p = g474_plan(&[], 16, PlanConfig::default());
    for pair in p.pairs.iter().filter(|p| p.full_pga) {
        assert_ne!(pair.pos.opamp, pair.neg.opamp);
        assert!(pair.pos.opamp.is_some() && pair.neg.opamp.is_some());
    }
}

#[test]
fn an_odd_number_of_channels_is_rounded_up() {
    let bare = chip("STM32G474RE", "STM32G4", "", &[]);
    let cfg = PlanConfig { channels: 5, ..PlanConfig::default() };
    let p = plan(bare, None, cfg);
    assert_eq!(p.ceiling.requested_channels, 6);
    assert_eq!(p.unplaced_channels, 6);
    assert!(p.pairs.is_empty());
    assert_eq!(plan(bare, None, PlanConfig { channels: 0, ..cfg }).unplaced_channels, 2);
    assert_eq!(plan(bare, None, PlanConfig { channels: 4, ..cfg }).unplaced_channels, 4);
}

fn cap(name: &str, adc: Vec<(&'static str, u8)>, comp: Vec<&'static str>, opamp: Vec<&'static str>) -> PinCap {
    PinCap { pin: PinId::from_metapac(name).unwrap(), adc, comp, opamp }
}

#[test]
fn an_amplifier_is_named_exactly_where_it_is_read() {
    // Two amplifiers share the one channel that reads their outputs.
    let caps = vec![
        cap("PA0", vec![("ADC1", 1)], vec![], vec!["OPAMP1"]),
        cap("PA1", vec![("ADC1", 2)], vec![], vec!["OPAMP2"]),
    ];
    let out = OpampOutAdc {
        entries: vec![("OPAMP1", vec![("ADC1", 3)]), ("OPAMP2", vec![("ADC1", 3)])],
    };
    let p = plan_from(&caps, &out, &[], 2, PlanConfig::default());
    assert_eq!(p.pairs.len(), 1);
    let pair = &p.pairs[0];
    for c in [&pair.pos, &pair.neg] {
        assert_eq!(c.opamp.is_some(), matches!(c.read, AdcRead::ViaOpamp { .. }));
    }
    // The two cannot both be read through their amplifiers, so neither is.
    assert_eq!(p.pga_channels(), 0);
    assert!(!pair.full_pga);
}

#[test]
fn a_channel_without_a_partner_is_one_trigger_and_scores_at_both_ends() {
    let cfg = PlanConfig::default();
    let caps = vec![cap("PA0", vec![("ADC1", 1)], vec!["COMP1"], vec![])];
    let p = plan_from(&caps, &OpampOutAdc { entries: vec![] }, &[], 2, cfg);
    assert_eq!(p.pairs.len(), 1);
    assert!(p.pairs[0].is_lone());
    assert_eq!(p.triggers(), 1);
    assert!(p.triggers() <= p.ceiling.max_triggers);
    assert_eq!(p.score, 2 * cfg.w_trigger);
    assert_eq!(p.unplaced_channels, 1);

    let caps = vec![cap("PA0", vec![], vec![], vec!["OPAMP1"])];
    let out = OpampOutAdc { entries: vec![("OPAMP1", vec![("ADC1", 3)])] };
    let p = plan_from(&caps, &out, &[], 2, cfg);
    assert_eq!(p.pairs.len(), 1);
    assert!(p.pairs[0].is_lone() && !p.pairs[0].full_pga);
    assert_eq!(p.pga_channels(), 2);
    assert_eq!(p.score, 2 * cfg.w_pga_single);

    // Two rows of one pin are two channels, read on two inputs.
    let twice = || cap("PA0", vec![("ADC1", 1), ("ADC1", 2)], vec!["COMP1", "COMP2"], vec![]);
    let p = plan_from(&[twice(), twice()], &OpampOutAdc { entries: vec![] }, &[], 2, cfg);
    assert_eq!(p.pairs.len(), 1);
    assert!(!p.pairs[0].is_lone());
    assert_eq!(p.triggers(), 2);
}

#[test]
fn weights_are_held_against_what_a_score_holds() {
    let heavy = PlanConfig {
        w_zero_cross: 0,
        w_pga_pair: 0,
        w_pga_single: 0,
        w_trigger: 0,
        w_cross_adc: i32::MIN,
        ..PlanConfig::default()
    };
    assert!(weights_fit(&heavy, 0));
    assert!(!weights_fit(&heavy, 1));
    let cfg = PlanConfig { w_cross_adc: -0x4000_0000, ..heavy };
    assert!(weights_fit(&cfg, 1));
    assert!(!weights_fit(&cfg, 2));
    assert!(weights_fit(&PlanConfig::default(), 1000));
    assert!(!weights_fit(&PlanConfig::default(), usize::MAX));
}

#[test]
fn a_plan_ignores_the_order_of_pins_and_options() {
    let raw = g474r().raw();
    let opts = zero_cross_options(raw, None);
    let cfg = PlanConfig { zero_cross_target: 2, ..PlanConfig::default() };
    let first = g474_plan(&opts, 16, cfg);
    let mut caps = g474_caps();
    caps.reverse();
    let mut back = opts.clone();
    back.reverse();
    let second = plan_from(&caps, &opamp_out_adc(raw), &back, 16, cfg);
    assert_eq!(first.pairs, second.pairs);
    assert_eq!(first.ceiling, second.ceiling);
    assert_eq!(first.score, second.score);
    assert_eq!(first.unplaced_channels, second.unplaced_channels);
    assert_eq!(first.zero_cross_pairs(), 2);

    // Nor does it matter how often an option is listed.
    let mut more = opts.clone();
    more.extend(back.iter().copied());
    let third = g474_plan(&more, 16, cfg);
    assert_eq!(first.pairs, third.pairs);
    assert_eq!(first.ceiling, third.ceiling);
    assert_eq!(first.score, third.score);
}

#[test]
fn a_package_has_the_capabilities_of_its_pins() {
    let raw = g474r().raw();
    let whole = g474_caps();
    let mut bonded = PinSet::new();
    for name in ["PA0", "PA1", "PB0", "PC13"] {
        bonded.insert(PinId::from_metapac(name).unwrap());
    }
    let cut = capabilities(raw, Some(&bonded));
    let kept: Vec<&PinCap> = whole.iter().filter(|c| bonded.contains(&c.pin)).collect();
    assert_eq!(cut.len(), 3);
    for (a, b) in cut.iter().zip(kept) {
        assert_eq!((a.pin, &a.adc, &a.comp, &a.opamp), (b.pin, &b.adc, &b.comp, &b.opamp));
    }
    let out = opamp_out_adc(raw);
    for c in &whole {
        assert!(!c.adc.is_empty() || !c.opamp.is_empty());
        assert!(c.opamp.iter().all(|o| out.get(o).is_some()));
    }
}

#[test]
fn deterministic() {
    let a = g474_plan(&[], 16, PlanConfig::default());
    let b = g474_plan(&[], 16, PlanConfig::default());
    assert_eq!(a.pairs, b.pairs);
    assert_eq!(a.score, b.score);
}

#[test]
fn smaller_request_places_fewer_pairs() {
    let p = g474_plan(&[], 4, PlanConfig::default());
    assert_eq!(p.pairs.len(), 2);
    assert_eq!(p.ceiling.max_pga_pairs, 2, "4 channels → at most 2 pairs regardless of opamps");
}

#[test]
fn h523_has_adc_channels_but_no_rich_features() {
    let raw = h523r().raw();
    let caps = capabilities(raw, None);
    assert!(!caps.is_empty(), "H5 exposes ADC channels");
    let out = opamp_out_adc(raw);
    let p = plan_from(&caps, &out, &[], 8, PlanConfig::default());
    assert_eq!(p.ceiling.opamps, 0);
    assert_eq!(p.ceiling.comps, 0);
    assert_eq!(p.full_pga_pairs(), 0);
    assert_eq!(p.triggers(), 0);
}

#[test]
fn zero_cross_options_g474() {
    let zc = zero_cross_options(g474r().raw(), None);
    let has = |c: &str, p: &str, m: &str| {
        zc.iter().any(|o| o.comp == c && o.plus.name() == p && o.minus.name() == m)
    };
    assert!(has("COMP1", "PA1", "PA0"));
    assert!(has("COMP2", "PA3", "PA2"));
    assert!(has("COMP4", "PB0", "PB2"));
    assert!(has("COMP7", "PB14", "PB12"));
    let comps: BTreeSet<&str> = zc.iter().map(|o| o.comp).collect();
    assert!(!comps.contains("COMP5"), "COMP5 INM (PB10) isn't ADC-capable");
    assert_eq!(comps.len(), 6, "6 of 7 comparators can zero-cross a logging pair");
}

#[test]
fn ceiling_reports_max_zero_cross() {
    let zc = zero_cross_options(g474r().raw(), None);
    let p = g474_plan(&zc, 16, PlanConfig::default());
    assert_eq!(p.ceiling.max_zero_cross_pairs, 6);
}

#[test]
fn zero_cross_target_carves_pairs() {
    let zc = zero_cross_options(g474r().raw(), None);
    let cfg = PlanConfig { zero_cross_target: 2, ..Default::default() };
    let p = g474_plan(&zc, 16, cfg);

    assert_eq!(p.zero_cross_pairs(), 2, "asked for 2 zero-cross pairs");
    assert_eq!(p.pairs.len(), 8);
    assert_eq!(p.unplaced_channels, 0);

    let mut zc_comps = BTreeSet::new();
    let mut pins = BTreeSet::new();
    let mut slots = BTreeSet::new();
    for pair in &p.pairs {
        for c in [&pair.pos, &pair.neg] {
            assert!(pins.insert(c.pin), "pin {} reused", c.pin.name());
            assert!(slots.insert(c.read.slot()), "slot {:?} reused", c.read.slot());
        }
        if let Some(comp) = pair.zero_cross {
            assert!(zc_comps.insert(comp), "comparator {comp} reused for zero-cross");
            let ok = zc.iter().any(|o| {
                o.comp == comp
                    && ((o.plus == pair.pos.pin && o.minus == pair.neg.pin)
                        || (o.plus == pair.neg.pin && o.minus == pair.pos.pin))
            });
            assert!(ok, "{comp} straddles {}/{}", pair.pos.pin.name(), pair.neg.pin.name());
            assert!(matches!(pair.pos.read, AdcRead::Direct { .. }));
            assert!(
                pair.pos.comp.is_none() && pair.neg.comp.is_none(),
                "zero-cross ≠ per-channel trigger"
            );
        }
    }
}

#[test]
fn zero_cross_respects_channel_cap() {
    let zc = zero_cross_options(g474r().raw(), None);
    let cfg = PlanConfig { channels: 4, zero_cross_target: 3, ..Default::default() };
    let p = g474_plan(&zc, 4, cfg);
    assert_eq!(p.pairs.len(), 2);
    assert_eq!(p.zero_cross_pairs(), 2, "both pairs zero-cross, capped by channels");
}

// ---- Descriptors ----

#[test]
fn dma_pools_and_routes_normalize_across_models() {
    let g4 = g474r().descriptor();
    assert_eq!(g4.dma_channel_total(), 16, "G474 = DMA1(8) + DMA2(8)");
    let pools: Vec<(&str, u8)> = g4.dma_pools().iter().map(|p| (p.name, p.channels)).collect();
    assert!(pools.contains(&("DMA1", 8)) && pools.contains(&("DMA2", 8)), "got {pools:?}");
    let usart = g4.dma_routes("USART1");
    assert!(!usart.is_empty(), "G474 USART1 should carry DMA legs");
    assert!(
        usart.iter().any(|l| l.pools.contains(&"DMA1") && l.pools.contains(&"DMA2")),
        "a G474 USART1 leg should fan out to both controllers via DMAMUX, got {:?}",
        usart.iter().map(|l| (l.signal, l.pools)).collect::<Vec<_>>(),
    );

    // Every pool that a leg names is one of the chip's.
    for pkg in all_parts() {
        let d = pkg.descriptor();
        let supply: BTreeSet<&str> = d.dma_pools().iter().map(|p| p.name).collect();
        for p in d.raw.peripherals {
            for leg in p.dma {
                for &pool in leg.pools {
                    assert!(
                        supply.contains(pool),
                        "{}: {} leg {:?} references pool {:?} absent from supply {:?}",
                        d.name, p.name, leg.signal, pool, supply,
                    );
                }
            }
        }
    }
}

#[test]
fn for_chip_name_bridges_package_variants() {
    let all = all_parts();
    let found = |name: &str| Package::for_chip_name(name, &all).map(|p| p.chip_prefix());
    assert_eq!(found("STM32G474RE"), Some("STM32G474R"));
    assert_eq!(found("STM32G474RB"), Some("STM32G474R"));
    assert_eq!(found("STM32G474RET6"), Some("STM32G474R"));
    assert_eq!(found("STM32G474VC"), Some("STM32G474V"));
    assert_eq!(found("STM32C531RC"), Some("STM32C531R"));
    assert_eq!(found("STM32C531RBT6"), Some("STM32C531R"));
    assert_eq!(found("STM32C531CB"), None);
    assert_eq!(found("STM32C5A3RG"), None);
    assert_eq!(found("STM32F103RB"), None);
    // Most variants of a line resolve, whatever their flash, grade and packing.
    let mut resolved = 0;
    for line in ["STM32G474R", "STM32G474V", "STM32H523R", "STM32C5A3Z", "STM32C531R", "STM32F103R"] {
        for flash in ["B", "C", "E", "G"] {
            for grade in ["", "T6", "T3TR"] {
                if found(&format!("{line}{flash}{grade}")).is_some() {
                    resolved += 1;
                }
            }
        }
    }
    assert!(resolved >= 25, "bridge should resolve many catalog parts, got {resolved}");
    assert_eq!(resolved, 60);
}

#[test]
fn every_timer_classifies() {
    for pkg in all_parts() {
        let raw = pkg.raw();
        for p in raw.peripherals {
            let is_timer = strip_prefix_num(p.name, "LPTIM").is_some()
                || strip_prefix_num(p.name, "TIM").is_some();
            if is_timer {
                assert!(
                    classify_timer(p.name, p.block).is_some(),
                    "{}: timer {:?} (block {:?}) failed to classify",
                    raw.name, p.name, p.block,
                );
            }
        }
    }
}

#[test]
fn g4_dac_to_comp_golden() {
    let golden: &[(u8, u8, u8)] = &[
        (1, 1, 1), (1, 1, 3), (1, 1, 4), (1, 2, 2), (1, 2, 5),
        (2, 1, 6), (2, 1, 7), (3, 1, 1), (3, 1, 3), (3, 2, 2),
        (3, 2, 4), (4, 1, 5), (4, 1, 7), (4, 2, 6),
    ];
    let mut got = g4_fabric().dac_to_comp;
    got.sort_unstable();
    let mut want = golden.to_vec();
    want.sort_unstable();
    assert_eq!(got, want, "G4_DAC_TO_COMP drifted from RM-verified golden");

    let d = g474r().descriptor();
    let mut edges: Vec<(u8, u8, u8)> =
        d.edges.iter().map(|e| (e.from.instance, e.from.channel, e.to.instance)).collect();
    edges.sort_unstable();
    assert_eq!(edges, want, "descriptor edges drifted from fabric data");
}

#[test]
fn c5a3_descriptor_inventories_expected_peripherals() {
    let d = c5a3z().descriptor();
    assert_eq!(d.mcu, Mcu::C5A3);
    assert_eq!(d.name, "STM32C5A3ZGT6");
    assert!(d.comps.iter().any(|c| c.number == 1), "COMP1");
    assert!(d.dacs.iter().any(|x| x.number == 1), "DAC1");
    assert!(
        d.timers.iter().any(|t| t.number == 1 && matches!(t.kind, TimerKind::Advanced)),
        "TIM1 advanced"
    );
    assert!(d.timers.iter().any(|t| t.number == 8), "TIM8");
    let serial = d.comms.usart.len() + d.comms.uart.len() + d.comms.lpuart.len();
    assert!(serial >= 7, "expected many async-serial channels, got {serial}");
    assert!(d.comms.fdcan.len() >= 2, "FDCAN1/2");
    assert!(d.hrtim.is_none(), "C5 has no HRTIM");
}

#[test]
fn c531_descriptor_inventories_analog() {
    let d = c531r().descriptor();
    assert_eq!(d.mcu, Mcu::C531);
    assert_eq!(d.name, "STM32C531RCT6");
    assert!(d.opamps.iter().any(|o| o.number == 1), "OPAMP1");
    assert!(d.comps.iter().any(|c| c.number == 1), "COMP1");
    assert!(d.dacs.iter().any(|x| x.number == 1), "DAC1");
    assert!(
        d.timers.iter().any(|t| t.number == 1 && matches!(t.kind, TimerKind::Advanced)),
        "TIM1 advanced"
    );
    assert!(d.hrtim.is_none(), "C5 has no HRTIM");
}

#[test]
fn c531_fabric_golden() {
    let dac_to_comp: &[(u8, u8, u8)] = &[(1, 1, 1)];
    let mut got = c5_dac_to_comp();
    got.sort_unstable();
    let mut want = dac_to_comp.to_vec();
    want.sort_unstable();
    assert_eq!(got, want, "C5_DAC_TO_COMP drifted from RM0522 golden");

    let comp_to_break: &[(u8, u8, u8)] = &[
        (1, 1, 1), (2, 1, 1), (1, 1, 2), (2, 1, 2),
        (1, 8, 1), (2, 8, 1), (1, 8, 2), (2, 8, 2),
    ];
    let mut gotb = c5_comp_to_tim_break();
    gotb.sort_unstable();
    let mut wantb = comp_to_break.to_vec();
    wantb.sort_unstable();
    assert_eq!(gotb, wantb, "C5_COMP_TO_TIM_BREAK drifted from RM0522 golden");

    let d = c531r().descriptor();
    let fab = d.fabric.expect("C531 should have an attached fabric");
    assert_eq!(
        fab.comp_to_tim_break,
        c5_comp_to_tim_break(),
        "descriptor fabric must point at the C5 break table"
    );
    let mut edges: Vec<(u8, u8, u8)> =
        d.edges.iter().map(|e| (e.from.instance, e.from.channel, e.to.instance)).collect();
    edges.sort_unstable();
    assert_eq!(edges, want, "C531 descriptor edges drifted from fabric data");
}

#[test]
fn c531_fabric_queries() {
    let d = c531r().descriptor();
    let fab = d.fabric.expect("C531 fabric");

    assert_eq!(fab.comps_for_tim_break(1, 1), vec![1, 2], "TIM1 BRK");
    assert_eq!(fab.comps_for_tim_break(1, 2), vec![1, 2], "TIM1 BRK2");
    assert_eq!(fab.comps_for_tim_break(8, 1), vec![1, 2], "TIM8 BRK");
    assert_eq!(fab.comps_for_tim_break(8, 2), vec![1, 2], "TIM8 BRK2");
    assert!(fab.comps_for_tim_break(2, 1).is_empty(), "TIM2 has no break");
    assert!(fab.comps_for_tim_break(1, 3).is_empty(), "no 3rd break input");

    assert_eq!(fab.dac_threshold_sources_for_comp(1), vec![(1, 1)], "COMP1");
    assert!(
        fab.dac_threshold_sources_for_comp(2).is_empty(),
        "COMP2 has no internal DAC on C531 (DAC2 absent)"
    );
    assert!(fab.dac_threshold_sources_for_comp(3).is_empty(), "no COMP3");

    let g4 = g474r().descriptor();
    let g4f = g4.fabric.expect("G4 fabric");
    assert!(g4f.comps_for_tim_break(1, 1).is_empty(), "G4 uses HRTIM breaks");
    assert!(!g4f.dac_threshold_sources_for_comp(1).is_empty(), "G4 DAC1->COMP1");
}

// ---- Feasibility ----

fn req(id: u32, class: &'static str, dma: u8) -> Requirement {
    Requirement::use_peripheral(id, class, dma)
}

#[test]
fn distinct_instances_allocate_until_exhausted() {
    let d = g474r().descriptor();
    let n = instances_of(&d, "USART").len();
    assert!(n >= 3, "G474 should expose several USART instances (got {n})");
    let reqs: Vec<_> = (0..n as u32).map(|k| req(k, "USART", 0)).collect();
    match feasible(&d, &reqs) {
        Outcome::Allocated(p) => {
            let used: BTreeSet<u8> = p.iter().map(|x| x.instance).collect();
            assert_eq!(used.len(), n, "each use must take a distinct instance");
        }
        o => panic!("expected all {n} to fit, got {o:?}"),
    }
    let too_many: Vec<_> = (0..=n as u32).map(|k| req(k, "USART", 0)).collect();
    assert!(
        matches!(feasible(&d, &too_many), Outcome::Infeasible { unmet } if unmet == vec![n as u32]),
        "the (n+1)th USART use must be the one reported unmet",
    );
}

#[test]
fn dma_channels_are_allocated_distinctly_and_within_capacity() {
    let d = g474r().descriptor();
    let reqs = vec![req(0, "USART", 2), req(1, "USART", 2)];
    match feasible(&d, &reqs) {
        Outcome::Allocated(p) => {
            let chans: Vec<_> = p.iter().flat_map(|x| x.dma.iter().copied()).collect();
            let uniq: BTreeSet<_> = chans.iter().copied().collect();
            assert_eq!(chans.len(), 4, "2 uses × 2 channels");
            assert_eq!(uniq.len(), 4, "every claimed DMA channel must be distinct");
        }
        o => panic!("expected allocation, got {o:?}"),
    }
}

#[test]
fn dma_demand_exceeding_pool_capacity_is_infeasible() {
    let d = g474r().descriptor();
    let total = d.dma_channel_total();
    assert!(total > 0, "G474 has DMA pool data");
    let big = (total + 1) as u8;
    let reqs = vec![req(0, "USART", big.min(u8::MAX))];
    assert!(matches!(feasible(&d, &reqs), Outcome::Infeasible { .. }));
}

#[test]
fn dma_demand_on_c5_without_pool_data_is_infeasible_not_waved_through() {
    let c531 = c531r().descriptor();
    assert_eq!(c531.dma_channel_total(), 0, "precondition: C5 DMA pools empty here");
    assert!(matches!(feasible(&c531, &[req(0, "USART", 1)]), Outcome::Infeasible { .. }));
    assert!(!instances_of(&c531, "USART").is_empty());
    assert!(matches!(feasible(&c531, &[req(0, "USART", 0)]), Outcome::Allocated(_)));
}

// ---- Designs with locked pins ----

fn signal_pins(raw: &RawMcuData, peripheral: &str, role: &str) -> Vec<PinId> {
    pins_for(raw, &OwnedSignal::new(peripheral, role))
}

#[test]
fn add_use_dedups_and_set_role_toggles() {
    let mut d = H523Design::new();
    d.add_use("USART2", &["TX", "RX"]);
    d.add_use("USART2", &["TX"]);
    assert_eq!(d.uses.len(), 1);
    assert_eq!(d.uses[0].roles, vec!["TX", "RX"]);
    d.set_role(0, "CTS", true);
    assert!(d.uses[0].roles.iter().any(|r| r == "CTS"));
    d.set_role(0, "RX", false);
    assert!(!d.uses[0].roles.iter().any(|r| r == "RX"));
}

#[test]
fn validate_flags_unplaced_then_clears_when_locked() {
    let raw = h523r().descriptor().raw;
    let mut d = H523Design::new();
    d.add_use("USART1", &["TX", "RX"]);
    assert_eq!(d.validate(raw).len(), 2);
    let tx = signal_pins(raw, "USART1", "TX")[0];
    d.lock("USART1", "TX", tx);
    let p = d.validate(raw);
    assert_eq!(p.len(), 1);
    assert!(matches!(p[0], H523Problem::Unplaced { ref role, .. } if role == "RX"));
}

#[test]
fn eq_ignoring_notes_ignores_note_but_not_structure() {
    let mut a = H523Design::new();
    a.add_use("USART1", &["TX"]);
    let mut b = a.clone();
    b.uses[0].note = "buck leg A".to_string();
    assert!(a.eq_ignoring_notes(&b), "a note-only change must compare equal");
    assert_ne!(a, b, "but PartialEq still distinguishes the note");
    b.set_role(0, "RX", true);
    assert!(!a.eq_ignoring_notes(&b), "a role change is structural");
}

#[test]
fn a_design_of_another_version_is_another_design() {
    let a = H523Design::new();
    let mut b = a.clone();
    b.format_version += 1;
    assert!(!a.eq_ignoring_notes(&b));
}

#[test]
fn a_lock_on_a_pin_without_the_signal_places_nothing() {
    let raw = h523r().descriptor().raw;
    let mut d = H523Design::new();
    d.add_use("USART1", &["TX"]);
    let carried = signal_pins(raw, "USART1", "TX");
    let wrong = PinId { port: 'C', num: 13 };
    assert!(!carried.contains(&wrong));
    d.lock("USART1", "TX", wrong);
    let p = d.validate(raw);
    assert_eq!(p.len(), 1);
    assert!(matches!(p[0], H523Problem::Unplaced { ref role, .. } if role == "TX"));
    d.lock("USART1", "TX", carried[0]);
    assert!(d.validate(raw).is_empty());
}

#[test]
fn validate_flags_unreachable_role() {
    let raw = h523r().descriptor().raw;
    let mut d = H523Design::new();
    d.add_use("USART1", &["NONSENSE"]);
    assert_eq!(
        d.validate(raw),
        vec![H523Problem::Unreachable {
            peripheral: "USART1".to_string(),
            role: "NONSENSE".to_string(),
        }]
    );
}

#[test]
fn to_pin_plan_lowers_locks_and_unplaced_generically() {
    let raw = h523r().descriptor().raw;
    let mut d = H523Design::new();
    d.add_use("USART1", &["TX", "RX"]);
    let tx = signal_pins(raw, "USART1", "TX")[0];
    d.lock("USART1", "TX", tx);

    let plan = d.to_pin_plan(Target { package: "H523RE".into(), family: "H5".into() }, raw);

    assert_eq!(plan.format_version, PIN_PLAN_FORMAT_VERSION);
    assert!(plan.routes.is_empty() && plan.slot_claims.is_empty());

    let tx_p = plan.placements.iter().find(|p| p.signal.role == "TX").unwrap();
    assert_eq!(tx_p.signal.peripheral, "USART1");
    assert_eq!(tx_p.pin, Some(tx));
    assert_eq!(tx_p.origin, PinOrigin::Locked);
    assert!(tx_p.af.is_some(), "USART TX is an alternate-function pin");

    let rx_p = plan.placements.iter().find(|p| p.signal.role == "RX").unwrap();
    assert_eq!(rx_p.pin, None);

    assert_eq!(plan.placements.len(), 2);
    assert_eq!(plan.placements[0].signal.role, "RX");
}

#[test]
fn remove_use_drops_its_pin_locks() {
    let raw = h523r().descriptor().raw;
    let mut d = H523Design::new();
    d.add_use("USART1", &["TX"]);
    let tx = signal_pins(raw, "USART1", "TX")[0];
    d.lock("USART1", "TX", tx);
    assert_eq!(d.pin_locks.len(), 1);
    d.remove_use(0);
    assert!(d.uses.is_empty() && d.pin_locks.is_empty());
}

// ---- Converters ----

fn c5_target() -> Target {
    Target { package: "C531R".into(), family: "C5".into() }
}

fn mk_ocp_leg(
    tim: TimId,
    comp: CompId,
    dac: Option<DacId>,
    sense: Option<(AdcInstance, u8)>,
) -> ConverterLeg {
    ConverterLeg {
        tim,
        channels_mask: 0b0001,
        complementary: false,
        dead_time: false,
        bkin: false,
        ocp: Some(Ocp { comp, break_input: 1, threshold_dac: dac }),
        adc_sense: sense,
    }
}

#[test]
fn pin_lock_overrides_auto_placement_and_reverts_on_clear() {
    let part = c531r();
    let mut d = C531Design::new();
    d.add_leg(ConverterLeg::pwm(TimId::Tim1));
    let sig = Signal::TimCh(TimId::Tim1, TimCh::Ch1);
    let cands = pins_for_pkg(sig, part);
    assert!(cands.len() >= 2, "TIM1 CH1 has multiple candidate pins on C531: {cands:?}");

    let auto = PinId { port: cands[0].port, num: cands[0].num };
    let chosen = PinId { port: cands[1].port, num: cands[1].num };

    let plan_kind = |d: &C531Design| {
        d.to_pin_plan(part, c5_target())
            .placements
            .into_iter()
            .find(|p| p.signal.peripheral == "TIM1" && p.signal.role == "CH1")
            .map(|p| (p.pin, p.origin))
            .unwrap()
    };

    assert_eq!(plan_kind(&d), (Some(auto), PinOrigin::Solver));

    d.lock_pin(sig, chosen);
    assert_eq!(d.locked_pin(sig), Some(chosen));
    assert_eq!(plan_kind(&d), (Some(chosen), PinOrigin::Locked));

    d.clear_pin(sig);
    assert_eq!(d.locked_pin(sig), None);
    assert_eq!(plan_kind(&d), (Some(auto), PinOrigin::Solver));
}

#[test]
fn auto_assign_resolves_comp_and_adc_conflicts() {
    let part = c531r();
    let mut d = C531Design::new();
    d.add_leg(mk_ocp_leg(TimId::Tim1, CompId::Comp1, None, Some((AdcInstance::Adc1, 1))));
    d.add_leg(mk_ocp_leg(TimId::Tim8, CompId::Comp1, None, Some((AdcInstance::Adc1, 1))));
    assert!(!d.is_valid(part), "starts conflicted");

    let r = d.auto_assign(part);
    assert!(r.fully_solved(), "both legs assignable on C531: {r:?}");
    assert!(d.is_valid(part), "solver produced a realizable plan");
    assert_ne!(
        d.legs[0].ocp.as_ref().unwrap().comp,
        d.legs[1].ocp.as_ref().unwrap().comp,
        "distinct comparators"
    );
    assert_ne!(d.legs[0].adc_sense, d.legs[1].adc_sense, "distinct ADC channels");
}

#[test]
fn auto_assign_reports_c531_single_dac_threshold_limit() {
    let part = c531r();
    let mut d = C531Design::new();
    d.add_leg(mk_ocp_leg(TimId::Tim1, CompId::Comp1, Some(DacId::Dac1Ch1), None));
    d.add_leg(mk_ocp_leg(TimId::Tim8, CompId::Comp1, Some(DacId::Dac1Ch1), None));
    let r = d.auto_assign(part);
    assert_eq!(r.ocp_unassignable.len(), 1, "second DAC-thresholded OCP is unroutable: {r:?}");
    assert!(!r.fully_solved());
    assert!(d.legs.iter().all(|l| l.ocp.is_some()), "auto_assign must not delete OCP intent");
    assert!(!d.is_valid(part), "the kept-but-unroutable leg is reported by validate");
}

#[test]
fn auto_assign_sense_uses_only_bonded_channels_and_keeps_valid_ones() {
    let part = c531r();
    let raw = part.raw();
    let bonded: u8 = af_rows(raw)
        .into_iter()
        .filter(|r| r.af.is_none() && r.signal.peripheral == "ADC1")
        .filter_map(|r| {
            let t = r.signal.role.strip_prefix("IN")?;
            if !t.is_empty() && t.bytes().all(|b| b.is_ascii_digit()) {
                t.parse().ok()
            } else {
                None
            }
        })
        .next()
        .expect("ADC1 has a bonded channel on C531");

    let mut d = C531Design::new();
    let mut leg = ConverterLeg::pwm(TimId::Tim1);
    leg.adc_sense = Some((AdcInstance::Adc1, bonded));
    d.add_leg(leg);
    d.auto_assign(part);
    assert_eq!(d.legs[0].adc_sense, Some((AdcInstance::Adc1, bonded)), "valid channel preserved");

    let mut d2 = C531Design::new();
    let mut leg2 = ConverterLeg::pwm(TimId::Tim8);
    leg2.adc_sense = Some((AdcInstance::Adc1, 250));
    d2.add_leg(leg2);
    assert!(
        d2.validate(part).iter().any(|p| matches!(p, Problem::SenseChannelUnavailable { .. })),
        "a channel with no input pin is reported"
    );
    d2.auto_assign(part);
    assert_ne!(
        d2.legs[0].adc_sense,
        Some((AdcInstance::Adc1, 250)),
        "auto_assign moved off the bad channel"
    );
    assert!(
        !d2.validate(part).iter().any(|p| matches!(p, Problem::SenseChannelUnavailable { .. })),
        "no unavailable-channel problem after auto_assign"
    );
}

fn buck_leg() -> ConverterLeg {
    ConverterLeg {
        tim: TimId::Tim1,
        channels_mask: 0b0001,
        complementary: true,
        dead_time: true,
        bkin: false,
        ocp: Some(Ocp {
            comp: CompId::Comp1,
            break_input: 1,
            threshold_dac: Some(DacId::Dac1Ch1),
        }),
        adc_sense: Some((AdcInstance::Adc1, 1)),
    }
}

#[test]
fn buck_leg_signals_and_pins_resolve_on_c531() {
    let leg = buck_leg();
    let sigs = leg.signals();
    assert_eq!(
        sigs,
        vec![
            Signal::TimCh(TimId::Tim1, TimCh::Ch1),
            Signal::TimChN(TimId::Tim1, TimCh::Ch1),
        ],
    );

    let cands = leg.pin_candidates(c531r());
    let ch1 = cands
        .iter()
        .find(|(s, _)| matches!(s, Signal::TimCh(TimId::Tim1, TimCh::Ch1)))
        .expect("CH1 signal present");
    assert!(!ch1.1.is_empty(), "TIM1 CH1 should resolve to a C531 pin");
}

#[test]
fn to_pin_plan_materializes_pins_and_lifts_ocp_to_routes() {
    let mut d = C531Design::new();
    d.add_leg(buck_leg());
    let plan = d.to_pin_plan(c531r(), c5_target());

    let ch1 = plan.placements.iter().find(|p| p.signal.role == "CH1").expect("CH1");
    let ch1n = plan.placements.iter().find(|p| p.signal.role == "CH1N").expect("CH1N");
    assert!(ch1.pin.is_some() && ch1n.pin.is_some());
    assert_ne!(ch1.pin, ch1n.pin, "HS and LS must land on distinct pins");
    assert!(matches!(
        ch1.role_kind,
        RoleKind::PwmOut { complementary: true, dead_time: true, etr: false }
    ));
    assert!(matches!(ch1.origin, PinOrigin::Solver | PinOrigin::Forced));

    let sense = plan
        .placements
        .iter()
        .find(|p| matches!(p.role_kind, RoleKind::AdcInput { .. }))
        .expect("adc sense placement");
    assert!(sense.pin.is_some());
    assert_eq!(sense.af, None, "an ADC input is a dedicated analog pin");

    assert!(plan.routes.iter().any(|r| matches!(r.kind, EdgeKind::CompToTimBreak { break_input: 1 })
        && r.from.class == "COMP" && r.from.instance == 1
        && r.to.class == "TIM" && r.to.instance == 1));
    assert!(plan.routes.iter().any(|r| matches!(r.kind, EdgeKind::DacToComp)
        && r.from.class == "DAC" && r.to.class == "COMP" && r.to.instance == 1));
    assert_eq!(plan.target.family, "C5");
}

#[test]
fn pwm_constructor_is_single_channel() {
    let leg = ConverterLeg::pwm(TimId::Tim8);
    assert_eq!(leg.channels_mask, 0b0001);
    assert_eq!(leg.signals(), vec![Signal::TimCh(TimId::Tim8, TimCh::Ch1)]);
}

fn ocp_leg(
    tim: TimId,
    comp: CompId,
    brk: u8,
    dac: Option<DacId>,
    adc: (AdcInstance, u8),
) -> ConverterLeg {
    ConverterLeg {
        tim,
        channels_mask: 0b0001,
        complementary: true,
        dead_time: true,
        bkin: false,
        ocp: Some(Ocp { comp, break_input: brk, threshold_dac: dac }),
        adc_sense: Some(adc),
    }
}

#[test]
fn valid_two_leg_design_has_no_problems() {
    let part = c531r();
    let mut d = C531Design::new();
    d.add_leg(ocp_leg(TimId::Tim1, CompId::Comp1, 1, Some(DacId::Dac1Ch1), (AdcInstance::Adc1, 1)));
    d.add_leg(ocp_leg(TimId::Tim8, CompId::Comp2, 2, None, (AdcInstance::Adc1, 2)));
    assert!(d.is_valid(part), "got {:?}", d.validate(part));
}

#[test]
fn detects_unroutable_ocp_and_threshold() {
    let part = c531r();
    let mut bad_comp = C531Design::new();
    bad_comp.add_leg(ocp_leg(TimId::Tim1, CompId::Comp3, 1, None, (AdcInstance::Adc1, 1)));
    assert_eq!(
        bad_comp.validate(part),
        vec![Problem::OcpUnroutable {
            leg: 0, comp: CompId::Comp3, tim: TimId::Tim1, break_input: 1,
        }],
    );

    let mut bad_tim = C531Design::new();
    bad_tim.add_leg(ocp_leg(TimId::Tim2, CompId::Comp1, 1, None, (AdcInstance::Adc1, 1)));
    assert_eq!(
        bad_tim.validate(part),
        vec![Problem::OcpUnroutable {
            leg: 0, comp: CompId::Comp1, tim: TimId::Tim2, break_input: 1,
        }],
    );

    let mut bad_dac = C531Design::new();
    bad_dac.add_leg(ocp_leg(
        TimId::Tim1,
        CompId::Comp1,
        1,
        Some(DacId::Dac1Ch2),
        (AdcInstance::Adc1, 1),
    ));
    assert_eq!(
        bad_dac.validate(part),
        vec![Problem::ThresholdUnroutable {
            leg: 0, dac: DacId::Dac1Ch2, comp: CompId::Comp1,
        }],
    );
}

#[test]
fn detects_cross_leg_resource_conflicts() {
    let mut d = C531Design::new();
    d.add_leg(ocp_leg(TimId::Tim1, CompId::Comp1, 1, Some(DacId::Dac1Ch1), (AdcInstance::Adc1, 1)));
    d.add_leg(ocp_leg(TimId::Tim1, CompId::Comp1, 1, Some(DacId::Dac1Ch1), (AdcInstance::Adc1, 1)));
    let problems = d.validate(c531r());
    assert!(problems.contains(&Problem::TimerConflict { legs: (0, 1), tim: TimId::Tim1 }));
    assert!(problems.contains(&Problem::CompConflict { legs: (0, 1), comp: CompId::Comp1 }));
    assert!(problems.contains(&Problem::DacConflict { legs: (0, 1), dac: DacId::Dac1Ch1 }));
    assert!(problems.contains(&Problem::AdcConflict {
        legs: (0, 1), adc: AdcInstance::Adc1, channel: 1,
    }));
}

// ---- Generated code ----

fn placement(peripheral: &str, role: &str, pin: Option<PinId>) -> Placement {
    Placement {
        signal: OwnedSignal::new(peripheral, role),
        pin,
        origin: PinOrigin::Locked,
        af: None,
        role_kind: RoleKind::Gpio,
        irqs: Vec::new(),
        package_pin: None,
        net: None,
    }
}

fn dma(peripheral: &str, function: &str, channel: &str) -> DmaAssignment {
    DmaAssignment {
        peripheral: peripheral.into(),
        function: function.into(),
        channel: channel.into(),
    }
}

fn node(class: &str, instance: u8) -> FabricNode {
    FabricNode { class: class.into(), instance, channel: None, event: None }
}

/// A G474 plan with the fabric of a current-mode phase, sampling and a serial port.
fn fabric_plan() -> PinPlan {
    let mut plan = PinPlan::empty(Target { package: "G474RE".into(), family: "G4".into() });
    for (peripheral, role, pin) in [
        ("HRTIM1", "CHA1", "PA8"),
        ("HRTIM1", "CHA2", "PA9"),
        ("ADC1", "IN1", "PA0"),
        ("ADC1", "IN2", "PA1"),
        ("ADC2", "IN17", "PA4"),
        ("USART3", "TX", "PB10"),
        ("USART3", "RX", "PB11"),
    ] {
        plan.placements.push(placement(peripheral, role, PinId::from_metapac(pin)));
    }
    plan.routes.push(RouteEdge {
        from: node("DAC", 3),
        to: node("COMP", 1),
        kind: EdgeKind::DacToComp,
        group: None,
    });
    plan.routes.push(RouteEdge {
        from: node("DAC", 1),
        to: node("COMP", 2),
        kind: EdgeKind::DacToComp,
        group: None,
    });
    plan
}

fn fabric_dma() -> Vec<DmaAssignment> {
    vec![dma("ADC1", "stream", "DMA1_CH1"), dma("USART3", "tx", "DMA1_CH2")]
}

/// What a G474 project starts with.
fn start_design() -> Design {
    let mut d = Design::new();
    for _ in 0..4 {
        d.add(RequirementSpec::UseHrtimSub {
            pinned_sub_timer: None,
            role: HrtimRole::PcmInternal { ext_zcd: false, dem: false },
            outputs: OutputMode::Ch1AndCh2,
            fault: None,
        });
    }
    let t = templates();
    let group = d.add(RequirementSpec::AdcSequencer { adc: t.adc, kind: t.kind, trigger: t.trigger });
    for _ in 0..2 {
        d.add(RequirementSpec::AdcConversion {
            group,
            purpose: t.purpose,
            adc_pref: t.adc_pref,
            speed: t.speed,
        });
    }
    d
}

fn g474_lowered() -> PinPlan {
    Project::new("g4", g474r(), start_design()).to_pin_plan(None, fabric_plan(), fabric_dma())
}

fn moved_singletons(code: &str) -> Vec<(String, u32)> {
    let mut moves = std::collections::BTreeMap::<String, u32>::new();
    for (i, _) in code.match_indices("p.") {
        if code[..i].chars().last().is_some_and(|c| c.is_ascii_alphanumeric() || c == '_') {
            continue;
        }
        let id: String =
            code[i + 2..].chars().take_while(|c| c.is_ascii_alphanumeric() || *c == '_').collect();
        if id.chars().next().is_some_and(|c| c.is_ascii_uppercase()) {
            *moves.entry(id).or_default() += 1;
        }
    }
    moves.into_iter().collect()
}

#[test]
fn c531_converter_bundles_pins_and_pinless_fabric_instances() {
    let mut d = C531Design::new();
    d.add_leg(buck_leg());
    let mut plan = d.to_pin_plan(c531r(), c5_target());
    plan.dma_assignments.push(dma("ADC1", "stream", "LPDMA1_CH0"));
    let code = generate(&plan);

    assert!(code.contains("pub struct Tim1 {"));
    assert!(code.contains("    pub instance: peripherals::TIM1,"));
    assert!(code.contains("    pub ch1: peripherals::"));
    assert!(code.contains("    pub ch1n: peripherals::"));
    assert!(code.contains("pub struct Adc1 {"));
    assert!(code.contains("    pub stream_dma: peripherals::LPDMA1_CH0,"));
    assert!(code.contains("stream_dma: p.LPDMA1_CH0"));

    assert!(code.contains("pub struct Comp1 {"));
    assert!(code.contains("comp1: Comp1 { instance: p.COMP1 },"));
    assert!(code.contains("pub struct Dac1 {"));
    assert!(code.contains("dac1: Dac1 { instance: p.DAC1 },"));
    assert!(code.contains("pub tim1_freq_hz: u32,"));
    assert!(code.contains("pub tim1_dead_time_ns: u16,"));
}

#[test]
fn generated_board_references_only_real_singletons() {
    let desc = g474r().descriptor();
    let code = generate(&g474_lowered());

    let mut idents: BTreeSet<String> = BTreeSet::new();
    for (i, _) in code.match_indices("peripherals::") {
        let rest = &code[i + "peripherals::".len()..];
        let id: String =
            rest.chars().take_while(|c| c.is_ascii_alphanumeric() || *c == '_').collect();
        if !id.is_empty() {
            idents.insert(id);
        }
    }
    assert!(idents.len() > 5, "expected several peripheral singletons, got {idents:?}");

    let peris: BTreeSet<&str> = desc.raw.peripherals.iter().map(|p| p.name).collect();
    let pins: BTreeSet<String> = af_rows(desc.raw).iter().map(|r| r.pin.name()).collect();
    let chans: BTreeSet<String> = desc
        .dma_pools()
        .iter()
        .flat_map(|p| (1..=p.channels).map(|c| format!("{}_CH{}", p.name, c)))
        .collect();
    for id in &idents {
        let ok = peris.contains(id.as_str()) || pins.contains(id) || chans.contains(id);
        assert!(ok, "generated `peripherals::{id}` is not a real descriptor peripheral/pin/DMA channel");
    }
}

#[test]
fn generated_board_moves_each_singleton_exactly_once() {
    let moves = moved_singletons(&generate(&g474_lowered()));
    assert!(moves.len() > 5, "expected several singleton moves, got {moves:?}");
    for (id, n) in &moves {
        assert_eq!(*n, 1, "Peripherals field p.{id} is moved {n}× (must be exactly once)");
    }
}

#[test]
fn over_constrained_design_yields_compilable_code() {
    let mut d = C531Design::new();
    d.add_leg(ConverterLeg::pwm(TimId::Tim1));
    d.add_leg(ConverterLeg::pwm(TimId::Tim1));
    let plan = d.to_pin_plan(c531r(), c5_target());
    let code = generate(&plan);

    assert_eq!(code.matches("    pub ch1:").count(), 1, "the ch1 field must appear exactly once");
    let moves = moved_singletons(&code);
    assert!(moves.iter().all(|(_, n)| *n == 1), "no singleton moved twice: {moves:?}");
    assert!(code.contains("signal(s) dropped"), "the conflict warning must be emitted");
}

// ---- Projects and sessions ----

fn dem(kind: &'static str, count: u8) -> DemandInput {
    DemandInput { kind, count, with_dma: false, options: vec![] }
}

fn templates() -> AdcTemplates {
    AdcTemplates {
        adc: AdcInstance::Adc1,
        kind: SequencerKind::Regular,
        trigger: TriggerSource::Software,
        purpose: MonitorPurpose { id: 0 },
        adc_pref: None,
        speed: SpeedPref::Any,
    }
}

/// The tables of an arbitrary part.
fn h743() -> AssetPart {
    let peri = |n: &str, pins: &[(&str, &str, u8)]| AssetPeri {
        n: n.to_string(),
        a: 0x4001_0000,
        b: None,
        pins: pins.iter().map(|p| (p.0.to_string(), p.1.to_string(), Some(p.2))).collect(),
        dma: vec![("RX".to_string(), vec!["DMA1".to_string()])],
    };
    AssetPart {
        prefix: "STM32H743Z".to_string(),
        name: "STM32H743ZI".to_string(),
        family: "STM32H7".to_string(),
        package: "LQFP144".to_string(),
        peris: vec![
            peri("USART1", &[("PA9", "TX", 7), ("PB6", "TX", 7), ("PA10", "RX", 7)]),
            peri("SPI1", &[("PA5", "SCK", 5), ("PA7", "MOSI", 5)]),
        ],
        pools: vec![("DMA1".to_string(), 8)],
    }
}

fn registry() -> AssetRegistry {
    AssetRegistry::build(&[h743()], g474r())
}

fn use_on(app: &mut PeriPlannerApp, m: Mcu, peripheral: &str, roles: &[&str]) {
    let mut d = app.active.h523_designs.get_or_empty(m);
    d.add_use(peripheral, roles);
    app.active.h523_designs.insert(m, d);
}

#[test]
fn to_pin_plan_dispatches_per_active_family() {
    let g4 = g474_lowered();
    assert_eq!(g4.target.family, "G4");
    assert!(!g4.routes.is_empty(), "G474 default carries analog fabric");

    let mut c5 = Project::new("c5", g474r(), start_design());
    c5.mcu = Mcu::C531;
    c5.package = c531r();
    c5.c531_design.add_leg(ConverterLeg::pwm(TimId::Tim1));
    let plan = c5.to_pin_plan(None, fabric_plan(), vec![]);
    assert_eq!(plan.target.family, "C5");
    assert!(plan
        .placements
        .iter()
        .any(|p| p.signal.peripheral == "TIM1" && p.signal.role == "CH1"));
    assert!(plan.routes.is_empty(), "a bare PWM leg has no fabric routes");

    let mut h5 = Project::new("h5", g474r(), start_design());
    h5.mcu = Mcu::H523;
    h5.package = h523r();
    let mut d = H523Design::new();
    d.add_use("USART1", &["TX"]);
    h5.h523_designs.insert(Mcu::H523, d);
    let plan = h5.to_pin_plan(None, fabric_plan(), vec![]);
    assert_eq!(plan.target.family, "H5");
    assert!(plan.routes.is_empty());
    assert!(plan.placements.iter().any(|p| p.signal.peripheral == "USART1"));
}

#[test]
fn a_plan_carries_the_channels_it_is_given() {
    let reg = registry();
    let desc = reg.descriptor_for("STM32H743ZI").unwrap();
    let mut p = Project::new("any", g474r(), start_design());
    for m in [Mcu::G474, Mcu::H523, Mcu::C5A3, Mcu::C531] {
        p.mcu = m;
        p.package = match m {
            Mcu::G474 => g474r(),
            Mcu::H523 => h523r(),
            Mcu::C5A3 => c5a3z(),
            Mcu::C531 => c531r(),
        };
        assert_eq!(p.to_pin_plan(None, fabric_plan(), fabric_dma()).dma_assignments, fabric_dma());
        assert!(p.to_pin_plan(None, g474_lowered(), vec![]).dma_assignments.is_empty());
    }
    p.asset_chip = Some("STM32H743ZI".to_string());
    let plan = p.to_pin_plan(Some(desc), fabric_plan(), fabric_dma());
    assert_eq!(plan.target.family, "H7");
    assert_eq!(plan.dma_assignments, fabric_dma());
}

#[test]
fn a_project_starts_with_its_design() {
    let mut app = PeriPlannerApp::new(g474r(), start_design());
    assert!(app.active.design.same_as(&start_design()));
    app.new_project(g474r(), start_design());
    assert_eq!(app.active.name, "Untitled 2");
    assert_eq!(app.active.design.requirements.len(), 7);
    assert!(app.others[0].design.same_as(&app.active.design));
}

#[test]
fn resources_are_locked_and_unlocked() {
    let dac = Resource::Dac(DacId::Dac3Ch1);
    let comp = Resource::Comp(CompId::Comp1);
    let mut app = PeriPlannerApp::new(g474r(), Design::new());
    app.toggle_lock(dac);
    app.toggle_lock(comp);
    assert!(app.active.design.is_locked(dac) && app.active.design.is_locked(comp));
    assert_eq!(all_used(&app.active.design), vec![dac, comp]);

    // What is locked and taken is counted once.
    app.active.design.add(RequirementSpec::UseUsb);
    app.active.design.set_assignment(0, Assignment::Usb);
    app.toggle_lock(Resource::Usb);
    assert_eq!(all_used(&app.active.design), vec![Resource::Usb, dac, comp]);

    // A lock turned twice is as it was.
    let before = app.active.design.copy();
    app.toggle_lock(comp);
    assert!(!app.active.design.same_as(&before));
    app.toggle_lock(comp);
    assert!(app.active.design.same_as(&before));

    // Each lock is a step.
    app.toggle_lock(dac);
    assert!(!app.active.design.is_locked(dac));
    app.undo();
    assert!(app.active.design.is_locked(dac));
    app.redo_op();
    assert!(!app.active.design.is_locked(dac));
    app.clear_lock(comp);
    assert_eq!(app.active.design.locks, vec![Resource::Usb]);
    // Clearing what is not locked is none.
    let steps = app.history.len();
    app.clear_lock(comp);
    assert_eq!(app.history.len(), steps);

    // Designs that lock the same are the same, in whatever order.
    let mut a = Design::new();
    a.toggle_lock(dac);
    a.toggle_lock(comp);
    let mut b = Design::new();
    b.toggle_lock(comp);
    assert!(!a.same_as(&b));
    b.toggle_lock(dac);
    assert!(a.same_as(&b) && a.same_as(&a.copy()));
}

#[test]
fn every_variant_has_a_part_and_every_part_its_variant() {
    let mut all = vec![h523r()];
    for name in [
        "STM32G474CE", "STM32G474ME", "STM32G474PE", "STM32G474QE", "STM32G474RE", "STM32G474VE",
    ] {
        all.push(package(chip(name, "STM32G4", "", &[]), "X", Mcu::G474));
    }
    all.push(c531r());
    let tables: Vec<&'static RawMcuData> = all.iter().map(|p| p.raw()).collect();
    let all = registered_parts(&tables);
    let labels: Vec<&str> = all.iter().map(|p| p.package_label()).collect();
    assert_eq!(
        labels,
        vec![
            "LQFP48", "WLCSP81", "TFBGA100", "UFBGA121", "LQFP64", "LQFP100", "LQFP64", "LQFP64",
        ]
    );
    assert_eq!(planned_lines().len(), 13);
    assert!(registered_parts(&[]).is_empty());
    let variants = [
        ChipVariant::G474C,
        ChipVariant::G474M,
        ChipVariant::G474P,
        ChipVariant::G474Q,
        ChipVariant::G474R,
        ChipVariant::G474V,
    ];
    for v in variants {
        assert_eq!(Package::from_g474_variant(v, &all).unwrap().to_g474_variant(), Some(v));
    }
    for p in &all {
        assert_eq!(p.to_g474_variant().is_some(), p.mcu() == Mcu::G474);
        if let Some(v) = p.to_g474_variant() {
            assert_eq!(Package::from_g474_variant(v, &all).unwrap().name(), p.name());
        }
    }
}

#[test]
fn asset_chip_lowers_to_pin_plan_for_codegen() {
    let reg = registry();
    let mut p = Project::new("h7", g474r(), Design::new());
    p.asset_chip = Some("STM32H743ZI".to_string());
    let desc = reg.descriptor_for("STM32H743ZI").unwrap();
    let sig = af_rows(desc.raw)
        .into_iter()
        .map(|r| r.signal)
        .find(|s| s.peripheral == "USART1" && s.role == "TX")
        .expect("H743 has USART1.TX");
    let pin = *signal_pins(desc.raw, sig.peripheral, sig.role).first().unwrap();
    let mut d = H523Design::new();
    d.add_use(sig.peripheral, &[sig.role]);
    d.lock(sig.peripheral, sig.role, pin);
    p.asset_designs.insert(&asset_key(desc.name), d);

    let plan = p.to_pin_plan(Some(desc), fabric_plan(), vec![]);
    assert_eq!(plan.target.family, "H7", "coarse family from the descriptor line");
    assert!(
        plan.placements
            .iter()
            .any(|pl| pl.signal.peripheral == "USART1" && pl.signal.role == "TX"),
        "the locked role lowers into the plan"
    );
    assert!(!generate(&plan).is_empty());
}

#[test]
fn asset_undo_snapshots_and_round_trips() {
    let reg = registry();
    let mut app = PeriPlannerApp::new(g474r(), Design::new());
    app.active.asset_chip = Some("STM32H743ZI".to_string());
    let part = part_name(&reg, &app.active.asset_chip);
    app.sync_asset_part(part);
    let name = app.asset_part.expect("H743 resolves to an asset descriptor");
    let key = asset_key(name);

    let before = app.snapshot_active();
    assert!(matches!(before, DesignSnapshot::Asset(_, _)), "active is an asset chip");
    let mut d = app.active.asset_designs.get_or_empty(&key);
    d.lock("SPI1", "MOSI", PinId { port: 'A', num: 7 });
    app.active.asset_designs.insert(&key, d);
    assert!(app.non_g474_changed(&before), "the lock edit is detected");

    app.push_history(before);
    app.undo();
    assert!(app.active.asset_designs.get_or_empty(&key).pin_locks.is_empty());
    assert!(!app.redo.is_empty(), "redo available after undo");
    app.redo_op();
    assert_eq!(
        app.active.asset_designs.get(&key).unwrap().pin_locks.len(),
        1,
        "redo re-applied"
    );
}

#[test]
fn g474_seed_adds_comms_idempotently() {
    let mut d = start_design();
    seed_g474_into(&mut d, &[dem("SERIAL", 2), dem("SPI", 1)], &[], &templates());
    let usarts =
        d.requirements.iter().filter(|s| matches!(s, RequirementSpec::UseUsart { .. })).count();
    let spis =
        d.requirements.iter().filter(|s| matches!(s, RequirementSpec::UseSpi { .. })).count();
    assert_eq!((usarts, spis), (2, 1));
    let have = [("SERIAL", 2u8), ("SPI", 1)];
    seed_g474_into(&mut d, &[dem("SERIAL", 2), dem("SPI", 1)], &have, &templates());
    assert_eq!(
        d.requirements.iter().filter(|s| matches!(s, RequirementSpec::UseUsart { .. })).count(),
        2
    );
}

#[test]
fn g474_seed_adc_adds_one_sequencer_and_n_conversions() {
    let mut d = start_design();
    let sequencers = |d: &Design| {
        d.requirements.iter().filter(|s| matches!(s, RequirementSpec::AdcSequencer { .. })).count()
    };
    let conversions = |d: &Design| {
        d.requirements.iter().filter(|s| matches!(s, RequirementSpec::AdcConversion { .. })).count()
    };
    let before_seq = sequencers(&d);
    let before_conv = conversions(&d);
    let have = [("ADC", before_conv as u8)];
    seed_g474_into(&mut d, &[dem("ADC", before_conv as u8 + 2)], &have, &templates());
    assert_eq!(sequencers(&d) - before_seq, 1, "one new sequencer");
    assert_eq!(conversions(&d) - before_conv, 2, "two new conversions");
}

#[test]
fn c531_seed_adds_complementary_legs() {
    let mut c = C531Design::new();
    seed_c531_into(&mut c, &[dem("COMP_PWM", 2)], &[]);
    assert_eq!(c.legs.len(), 2);
    assert!(c.legs.iter().all(|l| l.complementary && l.dead_time));
}

#[test]
fn h523_seed_greedily_places_serial_on_real_pins() {
    let mut h = H523Design::new();
    let raw = h523r().descriptor().raw;
    seed_h523_into(&mut h, raw, &[dem("SERIAL", 1)], &[]);
    assert_eq!(h.uses.len(), 1);
    assert_eq!(h.uses[0].roles, vec!["TX", "RX"]);
    assert_eq!(h.pin_locks.len(), 2);
    assert!(h.pin_locks.iter().any(|l| l.role == "TX"));
    assert!(h.pin_locks.iter().any(|l| l.role == "RX"));
    let pins: BTreeSet<_> = h.pin_locks.iter().map(|l| l.pin()).collect();
    assert_eq!(pins.len(), 2, "TX and RX must land on distinct pins");
}

#[test]
fn per_mcu_h523_designs_are_independent_and_undo_is_coherent() {
    let mut app = PeriPlannerApp::new(g474r(), Design::new());
    let active = |app: &PeriPlannerApp| app.active.h523_designs.get_or_empty(app.active.mcu);

    app.set_active_mcu(Mcu::H523);
    use_on(&mut app, Mcu::H523, "USART1", &["TX"]);
    app.set_active_mcu(Mcu::C5A3);
    assert!(active(&app).uses.is_empty(), "C5A3 must not see H523's use");
    use_on(&mut app, Mcu::C5A3, "LPUART1", &["TX"]);

    app.set_active_mcu(Mcu::H523);
    assert_eq!(active(&app).uses.len(), 1);
    assert_eq!(active(&app).uses[0].peripheral, "USART1");
    assert_eq!(
        app.active.h523_designs.get(Mcu::C5A3).unwrap().uses[0].peripheral,
        "LPUART1"
    );

    app.history.push(app.snapshot_active());
    app.set_active_mcu(Mcu::C5A3);
    assert!(app.history.is_empty() && app.redo.is_empty(), "MCU switch clears history");

    app.history.push(app.snapshot_active());
    app.set_active_mcu(Mcu::C5A3);
    assert_eq!(app.history.len(), 1, "same-MCU re-select keeps history");

    app.set_active_mcu(Mcu::H523);
    let snap = app.snapshot_active();
    use_on(&mut app, Mcu::H523, "SPI1", &["SCK"]);
    assert_eq!(app.active.h523_designs.get(Mcu::H523).unwrap().uses.len(), 2);
    app.restore_snapshot(snap);
    let h523 = app.active.h523_designs.get(Mcu::H523).unwrap();
    assert_eq!(h523.uses.len(), 1, "restore reverts H523 slot");
    assert_eq!(h523.uses[0].peripheral, "USART1");
}

#[test]
fn projects_are_independent_and_switch_clears_undo() {
    let reg = registry();
    let mut app = PeriPlannerApp::new(g474r(), Design::new());
    assert!(app.others.is_empty());

    app.set_active_mcu(Mcu::H523);
    use_on(&mut app, Mcu::H523, "USART1", &["TX"]);

    app.new_project(g474r(), Design::new());
    assert_eq!(app.others.len(), 1);
    assert_eq!(app.active.mcu, Mcu::G474, "new project starts on the default chip");
    assert!(app.active.h523_designs.is_empty(), "new project has its own empty design");

    app.history.push(app.snapshot_active());
    assert!(!app.history.is_empty());
    app.switch_project(0, &reg);
    assert!(app.history.is_empty() && app.redo.is_empty(), "project switch clears undo");

    assert_eq!(app.active.mcu, Mcu::H523);
    assert_eq!(app.active.h523_designs.get(Mcu::H523).unwrap().uses[0].peripheral, "USART1");

    app.delete_active(&reg);
    assert!(app.others.is_empty());
    let last = app.active.name.clone();
    app.delete_active(&reg);
    assert_eq!(app.active.name, last, "deleting the only project is a no-op");
}

#[test]
fn project_switch_mid_frame_does_not_leak_undo_across_projects() {
    let reg = registry();
    let mut app = PeriPlannerApp::new(g474r(), Design::new());
    app.set_active_mcu(Mcu::H523);
    use_on(&mut app, Mcu::H523, "USART1", &["TX"]);
    let mut b = Project::new("B", g474r(), Design::new());
    b.mcu = Mcu::H523;
    let mut d = H523Design::new();
    d.add_use("SPI1", &["SCK"]);
    b.h523_designs.insert(Mcu::H523, d);
    app.others.push(b);

    let nav_before = app.nav_epoch;
    let before = app.snapshot_active();
    app.switch_project(0, &reg);
    app.end_frame(before, nav_before);

    assert!(app.history.is_empty(), "no stale cross-project undo step after an in-frame switch");
    assert_eq!(app.active.h523_designs.get(Mcu::H523).unwrap().uses[0].peripheral, "SPI1");
}

#[test]
fn demands_belong_to_their_project() {
    let reg = registry();
    let mut app = PeriPlannerApp::new(g474r(), Design::new());
    app.active.catalog_demands.iter_mut().find(|d| d.kind == "SERIAL").unwrap().count = 3;
    app.new_project(g474r(), Design::new());
    assert!(app.active.catalog_demands.iter().all(|d| d.count == 0));
    app.switch_project(0, &reg);
    assert_eq!(
        app.active.catalog_demands.iter().find(|d| d.kind == "SERIAL").unwrap().count,
        3
    );
}

// ---- Replacements over a lineup ----

const G4_LQFP64: &str = "VBAT PC13 PC14 PC15 PF0 PF1 PG10 PC0 PC1 PC2 PC3 PA0 PA1 PA2 VSS VDD PA3 PA4 PA5 PA6 PA7 PC4 PC5 PB0 PB1 PB2 VSSA VREF+ VDDA PB10 VSS VDD PB11 PB12 PB13 PB14 PB15 PC6 PC7 PC8 PC9 PA8 PA9 PA10 PA11 PA12 VSS VDD PA13 PA14 PA15 PC10 PC11 PC12 PD2 PB3 PB4 PB5 PB6 PB7 PB8 PB9 VSS VDD";
const H5_LQFP64: &str = "VBAT PC13 PC14 PC15 PH0 PH1 NRST PC0 PC1 PC2 PC3 VSSA VDDA PA0 PA1 PA2 PA3 VSS VDD PA4 PA5 PA6 PA7 PC4 PC5 PB0 PB1 PB2 PB10 VCAP VSS VDD PB12 PB13 PB14 PB15 PC6 PC7 PC8 PC9 PA8 PA9 PA10 PA11 PA12 PA13 VSS VDD PA14 PA15 PC10 PC11 PC12 PD2 PB3 PB4 PB5 PB6 PB7 BOOT0 PB8 PB9 VSS VDD";

fn footprint(
    fam: &'static str,
    pkg: &'static str,
    pins: &'static str,
    with_power: bool,
) -> &'static PinoutRecord {
    let mut rows = Vec::new();
    for (i, s) in pins.split_whitespace().enumerate() {
        if with_power || s.starts_with('P') {
            rows.push(PhysPin { p: (i + 1).to_string(), s: vec![s.to_string()] });
        }
    }
    Box::leak(Box::new(PinoutRecord {
        h: format!("{fam}-{pkg}"),
        pkg: pkg.to_string(),
        names: vec![],
        fam: fam.to_string(),
        n: 64,
        pins: rows,
    }))
}

fn lineup() -> Vec<LineupPart> {
    let part = |name: &str, pkg: &str, record, raw| LineupPart {
        name: name.to_string(),
        pkg: pkg.to_string(),
        record: Some(record),
        raw: Some(raw),
    };
    let g4 = footprint("STM32G4", "LQFP64", G4_LQFP64, true);
    let h5 = footprint("STM32H5", "LQFP64", H5_LQFP64, true);
    let c5 = footprint("STM32C5", "LQFP64", G4_LQFP64, false);
    vec![
        part("STM32G474RE", "LQFP64", g4, g474r().raw()),
        part("STM32G474RC", "LQFP64", g4, g474r().raw()),
        part("STM32G473RE", "LQFP64", g4, g474r().raw()),
        part("STM32G473RC", "LQFP64", g4, g474r().raw()),
        part("STM32H523RE", "LQFP64", h5, h523r().raw()),
        part("STM32C531RC", "LQFP64", c5, c531r().raw()),
        part("STM32C532RC", "LQFP64", c5, c531r().raw()),
    ]
}

#[test]
fn real_g474_source_finds_g4_replacements_not_cross_family() {
    let lineup = lineup();
    let footprint = lineup.iter().find(|p| p.name == "STM32G474RE").unwrap().record.unwrap();
    assert_eq!(footprint.pkg, "LQFP64");
    assert!(footprint.pins.iter().any(|p| p.s.iter().any(|s| s == "PA9")));

    let src = SourceProfile {
        name: "STM32G474RE".to_string(),
        footprint,
        wired: vec![WiredFn {
            sig: OwnedSignal::new("USART1", "TX"),
            pin: PinId { port: 'A', num: 9 },
        }],
    };
    let results = find_replacements(&src, MatchConfig::default(), &lineup);
    assert!(!results.is_empty());

    for c in &results {
        assert_eq!(package_class(&c.footprint), package_class("LQFP64"));
    }
    assert!(
        results.iter().any(|c| c.compatible && c.family == "STM32G4"),
        "expected a compatible G4 LQFP64 drop-in"
    );
    assert!(
        !results.iter().any(|c| c.compatible && c.family == "STM32H5"),
        "an H5 LQFP64 must never be a compatible drop-in for a G4"
    );
    assert!(!results.iter().any(|c| c.name.starts_with("STM32G474R")));
}

#[test]
fn c531_source_resolves_and_never_false_accepts_foreign_families() {
    let lineup = lineup();
    let d = C531Design::new();
    let part = c531r();
    let record = lineup.iter().find(|p| part.name().starts_with(&p.name)).and_then(|p| p.record);
    let profile = build_source_profile(&DesignSource::C531(&d), part.name(), record)
        .expect("C531R footprint must resolve despite the ordering-code suffix");
    assert_eq!(profile.footprint.pkg, "LQFP64");

    let results = find_replacements(&profile, MatchConfig::default(), &lineup);
    let foreign: Vec<&str> = results
        .iter()
        .filter(|c| c.compatible && c.family != "STM32C5")
        .map(|c| c.name.as_str())
        .collect();
    assert!(
        foreign.is_empty(),
        "no foreign-family part may be a compatible drop-in for a power-omitted C5 source; got {:?}",
        &foreign[..foreign.len().min(10)]
    );
    assert!(results.iter().any(|c| c.compatible && c.name == "STM32C532RC"));
}

// ---- Planned parts ----

#[test]
fn packages_are_listed_by_family() {
    let all = all_parts();
    let names: Vec<&str> = Mcu::G474.packages(&all).iter().map(|p| p.name()).collect();
    assert_eq!(names, vec!["STM32G474RE", "STM32G474VE"]);
    assert_eq!(Mcu::C531.default_package(&all).unwrap().name(), "STM32C531RCT6");
    assert!(Mcu::C531.default_package(&all[..2]).is_none());
    assert_eq!(g474r().to_g474_variant(), Some(ChipVariant::G474R));
    assert_eq!(h523r().to_g474_variant(), None);
    assert_eq!(
        Package::from_g474_variant(ChipVariant::G474V, &all).unwrap().name(),
        "STM32G474VE"
    );
    assert!(Package::from_g474_variant(ChipVariant::G474C, &all).is_none());
    for p in &all[..2] {
        let v = p.to_g474_variant().unwrap();
        assert_eq!(Package::from_g474_variant(v, &all).unwrap().name(), p.name());
    }
    // Every registered part is found under its own name.
    for p in &all {
        assert_eq!(Package::for_chip_name(p.name(), &all).unwrap().name(), p.name());
    }
}

#[test]
fn inventory_lines_of_a_chip() {
    let d = c531r().descriptor();
    let analog = inventory_view::analog(&d);
    assert!(analog.contains(&"ADC: ADC1, ADC2".to_string()), "{analog:?}");
    assert!(analog.contains(&"COMP: COMP1, COMP2".to_string()));
    assert!(analog.contains(&"OPAMP: OPAMP1".to_string()));
    assert_eq!(
        inventory_view::timers(&d.timers),
        vec!["  Advanced: TIM1, TIM8", "  GP 32-bit: TIM2", "  Basic: TIM6", "  Low-power: LPTIM1"]
    );
    assert_eq!(
        inventory_view::comms(&d.comms),
        vec!["  SPI: SPI1", "  USART: USART1", "  LPUART: LPUART1"]
    );
    assert_eq!(
        inventory_view::fabric(&d),
        vec!["  HRTIM: (not present on this MCU)", "  DAC→COMP analog routes: 1"]
    );
    let g4 = inventory_view::fabric(&g474r().descriptor());
    assert!(g4[0].starts_with("  HRTIM: 6 sub-timers"), "{g4:?}");
    assert_eq!(g4[1], "  DAC→COMP analog routes: 14");
    let h5 = inventory_view::analog(&h523r().descriptor());
    assert!(h5.contains(&"COMP: (none)".to_string()));
}

// ---- The pin table ----

#[test]
fn pin_table_filters_and_locks() {
    let raw = h523r().raw();
    let mut f = AfFilter::default();
    assert_eq!(af_view::filter_rows(raw, &f, None).len(), af_rows(raw).len());

    f.query = "usart1".to_string();
    let rows = af_view::filter_rows(raw, &f, None);
    assert_eq!(rows.len(), 8);
    assert!(rows.iter().all(|r| r.signal.peripheral == "USART1"));
    f.port = Some('B');
    assert_eq!(af_view::filter_rows(raw, &f, None).len(), 4);

    // Enter puts the first signal on its first free pin.
    let mut d = H523Design::new();
    let rows = af_view::filter_rows(raw, &f, Some(&d));
    let i = af_view::enter_target(&rows, &d).unwrap();
    assert_eq!(i, 0);
    af_view::apply_lock(
        &mut d,
        &LockAction::Lock {
            peripheral: rows[i].signal.peripheral.to_string(),
            role: rows[i].signal.role.to_string(),
            pin: rows[i].pin,
        },
    );
    assert_eq!(d.locked_pin("USART1", rows[0].signal.role), Some(rows[0].pin));
    assert!(matches!(af_view::lock_cell(&d, &rows[0]), LockCell::Unlock));

    f.locked_only = true;
    assert_eq!(af_view::filter_rows(raw, &f, Some(&d)).len(), 1);
    af_view::apply_lock(
        &mut d,
        &LockAction::Unlock {
            peripheral: "USART1".to_string(),
            role: rows[0].signal.role.to_string(),
        },
    );
    assert!(d.pin_locks.is_empty());
    assert!(af_view::filter_rows(raw, &f, Some(&d)).is_empty());
}

// ---- Differential pairs as shown ----

#[test]
fn pairs_are_tabled_marked_and_linked() {
    let all = enumerate(g474r().raw());
    let mut f = AnalogFilter::default();
    f.kind = Some(Kind::AdcDiff);
    let rows = analog_table::table_rows(&all, &f);
    assert_eq!(rows.len(), 12 + 14 + 2 + 1);
    f.plus_pin = Some(PinId { port: 'A', num: 0 });
    let rows = analog_table::table_rows(&all, &f);
    assert_eq!(rows.len(), 2);
    assert_eq!(analog_table::plus_text(&all[rows[0]]), "PA0 (IN1)");
    assert_eq!(analog_table::minus_text(&all[rows[0]]), "PA1 (INN1)");
    assert_eq!(analog_table::channel_text(&all[rows[0]]), "ch1");
    assert!(!analog_table::has_kind(&enumerate(h523r().raw()), Kind::Comp));

    let mark = analog_table::pin_mark(&all, &f, PinId { port: 'A', num: 1 });
    assert!(mark.plus && mark.minus);
    assert!(mark.notes.contains(&"ADC1 - (INN1)".to_string()), "{:?}", mark.notes);
    let links = analog_table::pair_links(&all, &f, PinId { port: 'A', num: 0 });
    assert_eq!(links.len(), 2);
    assert_eq!(links[0].label, "ADC1 ch1");
    assert_eq!(links[0].to, PinId { port: 'A', num: 1 });

    let hedged = all.iter().find(|e| e.channel_hedge).unwrap();
    assert_eq!(analog_table::channel_text(hedged), "ch15?");
    let amp = all.iter().find(|e| e.kind == Kind::OpampPlus && e.minus.is_none()).unwrap();
    assert_eq!(analog_table::minus_text(amp), "on-chip (PGA)");
    assert_eq!(analog_table::channel_text(amp), "—");
}

// ---- The front-end planner's screen ----

#[test]
fn plan_is_made_anew_only_when_something_changes() {
    let raw = g474r().raw();
    let mut st = FrontEndState::new();
    st.cfg.channels = 4;
    st.ensure(raw, None);
    let first = st.plan().cloned().unwrap();
    assert_eq!(first.pairs.len(), 2);

    // A chip that reads the same has the same plan.
    st.ensure(g474r().raw(), None);
    assert_eq!(st.plan().unwrap().pairs, first.pairs);

    // Another chip of the same name has a plan of its own.
    st.ensure(chip("STM32G474RE", "STM32G4", C531R, &[]), None);
    assert_ne!(st.plan().unwrap().ceiling, first.ceiling);
    st.ensure(raw, None);
    assert_eq!(st.plan().unwrap().pairs, first.pairs);

    // A pin that is set aside leads to another plan, without it.
    let gone = first.pairs[0].pos.pin;
    st.exclude.insert(gone);
    st.ensure(raw, None);
    let second = st.plan().cloned().unwrap();
    assert!(second.pairs.iter().all(|p| p.pos.pin != gone && p.neg.pin != gone));
    assert!(!frontend_view::usable_pins(raw, None, &None, Connector::Morpho, &st.exclude)
        .contains(&gone));

    // A board sets its own pins aside, once.
    st.choose_board(nucleo_g474re());
    assert!(st.exclude.contains(&PinId { port: 'A', num: 5 }));
    st.exclude.remove(PinId { port: 'A', num: 5 });
    st.choose_board(nucleo_g474re());
    assert!(!st.exclude.contains(&PinId { port: 'A', num: 5 }));
    st.choose_bare();
    assert!(st.exclude.is_empty() && st.board.is_none());

    st.cfg.zero_cross_target = 9;
    st.limit_zero_cross();
    assert_eq!(st.cfg.zero_cross_target, 2);

    frontend_view::set_weights(&mut st.cfg, frontend_view::weights_of(Priority::Triggers));
    assert_eq!(frontend_view::weights(&st.cfg), (70, 15, 60, 8));
}

#[test]
fn plans_stay_on_bonded_pins() {
    let raw = g474r().raw();
    let small = footprint("STM32G4", "LQFP16", "PA0 PA1 PA2 PA3 PB0 PB1 VDD VSS", true);
    let mut st = FrontEndState::new();
    st.ensure(raw, Some(small));
    let p = st.plan().cloned().unwrap();
    assert_eq!(p.ceiling.adc_pins, 6);
    assert_eq!(p.pairs.len(), 3);
    // The one channel of PA2 reads an amplifier's output.
    let used: BTreeSet<PinId> = p.pairs.iter().flat_map(|x| [x.pos.pin, x.neg.pin]).collect();
    assert_eq!(used.len(), 5);
    assert!(!used.contains(&PinId { port: 'A', num: 2 }));
    assert_eq!(p.unplaced_channels, 11);
    let bonded = bonded_pins(small);
    for pair in &p.pairs {
        assert!(bonded.contains(&pair.pos.pin) && bonded.contains(&pair.neg.pin));
    }
}

// ---- The frame around the views ----

#[test]
fn tabs_and_panes_follow_the_chip() {
    let titles = |m, b| tabs(m, b).iter().map(|t| t.title).collect::<Vec<_>>();
    assert_eq!(titles(Mcu::G474, false).len(), 11);
    assert_eq!(titles(Mcu::C531, false)[0], "Converter");
    assert_eq!(&titles(Mcu::G474, true)[..2], &["Peripherals", "Pin map"]);
    assert_eq!(pane(ViewMode::Converter, Mcu::C531, false), Pane::Converter);
    assert_eq!(pane(ViewMode::Converter, Mcu::H523, false), Pane::Inventory);
    assert_eq!(pane(ViewMode::Converter, Mcu::G474, false), Pane::Empty);
    assert_eq!(pane(ViewMode::Hrtim, Mcu::G474, false), Pane::Planner(ViewMode::Hrtim));
    for m in [Mcu::G474, Mcu::C531, Mcu::H523, Mcu::C5A3] {
        for b in [false, true] {
            for t in tabs(m, b) {
                assert_ne!(pane(t.view, m, b), Pane::Empty);
            }
        }
    }
}

#[test]
fn choosing_a_chip_lands_on_its_planner() {
    let mut app = PeriPlannerApp::new(g474r(), Design::new());
    app.choose_mcu(Mcu::C531, c531r(), Design::new());
    assert_eq!(app.view, ViewMode::Converter);
    assert_eq!(app.active.package.name(), "STM32C531RCT6");
    app.view = ViewMode::AfTable;
    app.choose_mcu(Mcu::H523, h523r(), Design::new());
    assert_eq!(app.view, ViewMode::AfTable);
    app.choose_mcu(Mcu::G474, g474v(), Design::new());
    assert_eq!(app.active.variant, ChipVariant::G474V);

    app.set_active_asset("STM32H743ZI", Some("STM32H743ZI"));
    app.view = ViewMode::Peripherals;
    app.leave_part();
    assert!(app.active.asset_chip.is_none());
    assert_eq!(app.view, ViewMode::Fabric);
    assert_eq!(app.steps(), (false, false));
}

#[test]
fn status_lines_say_what_is_missing() {
    let raw = h523r().raw();
    let mut d = H523Design::new();
    d.add_use("USART1", &["TX"]);
    let s = status_of_locks(&d, raw);
    assert_eq!(s.counts, "1 peripherals · 0 pins locked");
    assert!(!s.healthy);
    assert_eq!(s.verdict, "⚠ 1 unplaced/unreachable");
    d.lock("USART1", "TX", PinId { port: 'A', num: 9 });
    let s = status_of_locks(&d, raw);
    assert!(s.healthy);
    assert_eq!(s.verdict, "✓ complete");

    let mut c = C531Design::new();
    c.add_leg(ocp_leg(TimId::Tim1, CompId::Comp3, 1, None, (AdcInstance::Adc1, 1)));
    let s = status_of_converter(&c, c531r());
    assert_eq!((s.counts.as_str(), s.verdict.as_str()), ("1 legs", "⚠ 1 problem(s)"));

    let mut g = Design::new();
    g.add(RequirementSpec::UseUsb);
    g.set_pin(Signal::SpiMosi(SpiId::Spi1), PinId { port: 'A', num: 7 });
    g.set_pin(Signal::SpiMiso(SpiId::Spi1), PinId { port: 'A', num: 6 });
    let s = status_of_fabric(&g, 0);
    assert_eq!(s.counts, "1 reqs · 0 assigned · 2 pins locked");
    assert_eq!(s.verdict, "✓ 0 warnings");

    assert_eq!(asked(&[dem("SPI", 0), dem("SERIAL", 2)]), vec!["SERIAL×2"]);
    assert!(export_text(Mcu::H523, "X", String::new(), &c, &d).contains("USART1"));
}

// ---- Pins of the fabric ----

#[test]
fn pins_of_the_fabric_are_chosen_and_left_open() {
    let tx = Signal::UsartTx(UsartId::Usart1);
    let rx = Signal::UsartRx(UsartId::Usart1);
    let a9 = PinId { port: 'A', num: 9 };
    let a10 = PinId { port: 'A', num: 10 };
    let mut app = PeriPlannerApp::new(g474r(), Design::new());
    app.pin_signal(tx, a9);
    assert_eq!(app.active.design.pinned(tx), Some(a9));
    assert!(app.active.design.is_pinned(tx) && !app.active.design.is_pinned(rx));
    assert_eq!(app.active.design.pin_candidates(rx, &[a9, a10]), vec![a10]);
    assert_eq!(app.active.design.pin_candidates(tx, &[a9, a10]), vec![a9, a10]);

    // One signal per pin, and one pin per signal.
    app.pin_signal(rx, a9);
    assert_eq!(app.active.design.pinned(tx), None);
    app.pin_signal(rx, a10);
    assert_eq!(app.active.design.pin_assignments.len(), 1);

    // Each choice is a step.
    app.undo();
    assert_eq!(app.active.design.pinned(rx), Some(a9));
    app.redo_op();
    app.unpin_signal(rx);
    assert!(!app.active.design.has_pins());
    app.undo();
    assert_eq!(app.active.design.pinned(rx), Some(a10));

    // What is chosen is wired, and planned.
    let wired = DesignSource::G474(&app.active.design).wired();
    assert_eq!(wired.len(), 1);
    assert_eq!((wired[0].sig.role.as_str(), wired[0].pin), ("RX", a10));
    let target = Target { package: "G474RE".into(), family: "G4".into() };
    let plan = app.active.design.pins_plan(target, g474r().raw());
    assert_eq!(plan.placements.len(), 1);
    assert_eq!(plan.placements[0].pin, Some(a10));
    assert!(plan.placements[0].af.is_some());

    app.unpin_all();
    assert!(!app.active.design.has_pins());
    app.unpin_all();
    app.undo();
    assert!(app.active.design.has_pins());
}

// ---- Steps ----

#[test]
fn undo_takes_back_and_redo_does_again() {
    let mut app = PeriPlannerApp::new(g474r(), Design::new());
    let mut d = Design::new();
    d.add(RequirementSpec::UseUsb);
    app.mutate(d);
    assert_eq!(app.history.len(), 1);
    assert_eq!(app.active.design.requirements.len(), 1);
    // The same design again is no step.
    let same = app.active.design.copy();
    app.mutate(same);
    assert_eq!(app.history.len(), 1);
    app.undo();
    assert_eq!(app.active.design.requirements.len(), 0);
    app.redo_op();
    assert_eq!(app.active.design.requirements.len(), 1);
    // A new step forgets what was undone.
    app.undo();
    let mut e = Design::new();
    e.add(RequirementSpec::ShortCircuitFault);
    app.mutate(e);
    assert!(app.redo.is_empty());
}

#[test]
fn only_the_last_steps_are_kept() {
    let mut app = PeriPlannerApp::new(g474r(), Design::new());
    let mut d = Design::new();
    for _ in 0..45 {
        d.add(RequirementSpec::UseUsb);
        let next = d.copy();
        app.mutate(next);
    }
    assert_eq!(app.history.len(), HISTORY_CAP);
    for _ in 0..50 {
        app.undo();
    }
    assert_eq!(app.active.design.requirements.len(), 5);
}

#[test]
fn notes_are_no_steps() {
    let mut app = PeriPlannerApp::new(g474r(), Design::new());
    app.set_active_mcu(Mcu::H523);
    use_on(&mut app, Mcu::H523, "USART1", &["TX"]);
    let epoch = app.nav_epoch;
    let before = app.snapshot_active();
    let mut d = app.active.h523_designs.get_or_empty(Mcu::H523);
    d.uses[0].note = "host".to_string();
    app.active.h523_designs.insert(Mcu::H523, d);
    app.end_frame(before, epoch);
    assert!(app.history.is_empty());

    let before = app.snapshot_active();
    use_on(&mut app, Mcu::H523, "SPI1", &["SCK"]);
    app.end_frame(before, epoch);
    assert_eq!(app.history.len(), 1);
}

#[test]
fn projects_are_duplicated_whole() {
    let reg = registry();
    let mut app = PeriPlannerApp::new(g474r(), Design::new());
    app.set_active_mcu(Mcu::C5A3);
    use_on(&mut app, Mcu::C5A3, "USART1", &["TX"]);
    app.duplicate_active(&reg);
    assert_eq!(app.others.len(), 1);
    assert_eq!(app.active.mcu, Mcu::C5A3);
    assert_eq!(app.active.h523_designs.get_or_empty(Mcu::C5A3).uses.len(), 1);
    use_on(&mut app, Mcu::C5A3, "USART2", &["TX"]);
    assert_eq!(app.others[0].h523_designs.get_or_empty(Mcu::C5A3).uses.len(), 1);
    // An index out of range changes nothing.
    app.switch_project(7, &reg);
    assert_eq!(app.others.len(), 1);
}

#[test]
fn what_could_not_be_read_is_kept_once() {
    let mut app = PeriPlannerApp::new(g474r(), Design::new());
    assert!(app.take_corrupt_blob().is_none());
    app.corrupt_blob = Some("this is not valid RON".to_string());
    assert_eq!(app.take_corrupt_blob().as_deref(), Some("this is not valid RON"));
    assert!(app.take_corrupt_blob().is_none());
}

#[test]
fn parts_open_as_planned_or_arbitrary() {
    let reg = registry();
    let mut app = PeriPlannerApp::new(g474r(), Design::new());
    app.open_part("STM32C531RC", Some(c531r()), None);
    assert_eq!(app.active.mcu, Mcu::C531);
    assert_eq!(app.view, ViewMode::Inventory);
    let chip = Some("STM32H743ZI".to_string());
    app.open_part("STM32H743ZI", None, part_name(&reg, &chip));
    assert_eq!(app.asset_part, Some("STM32H743ZI"));
    assert_eq!(app.active.asset_chip.as_deref(), Some("STM32H743ZI"));
    let epoch = app.nav_epoch;
    app.open_part("STM32F103RB", None, None);
    assert_eq!(app.nav_epoch, epoch);
    // A name shorter than a line's prefix is no part's.
    assert!(part_name(&reg, &Some("STM32".to_string())).is_none());
}

#[test]
fn converter_edits_clear_the_routing_notice() {
    let mut app = PeriPlannerApp::new(g474r(), Design::new());
    app.set_active_mcu(Mcu::C531);
    app.active.package = c531r();
    let tim = default_timer(&c531r().descriptor().timers);
    assert_eq!(tim, TimId::Tim1);
    app.apply_converter_action(Some(ConverterAction::AddLeg), tim);
    app.apply_converter_action(Some(ConverterAction::AddLeg), tim);
    let leg = mk_ocp_leg(TimId::Tim1, CompId::Comp1, Some(DacId::Dac1Ch1), None);
    app.apply_converter_action(Some(ConverterAction::SetLeg(0, leg)), tim);
    let leg = mk_ocp_leg(TimId::Tim8, CompId::Comp1, Some(DacId::Dac1Ch1), None);
    app.apply_converter_action(Some(ConverterAction::SetLeg(1, leg)), tim);
    app.apply_converter_action(Some(ConverterAction::SetLeg(9, leg)), tim);
    assert_eq!(app.active.c531_design.legs.len(), 2);
    app.apply_converter_action(Some(ConverterAction::AutoAssign), tim);
    let notice = app.c531_status.clone().unwrap();
    assert!(notice.contains("1 OCP"), "{notice}");
    app.apply_converter_action(None, tim);
    assert!(app.c531_status.is_some());
    app.apply_converter_action(Some(ConverterAction::RemoveLeg(0)), tim);
    assert!(app.c531_status.is_none());
    assert_eq!(app.active.c531_design.legs.len(), 1);
}

#[test]
fn demands_are_counted_and_seeded() {
    let mut app = PeriPlannerApp::new(g474r(), Design::new());
    app.set_active_mcu(Mcu::C531);
    app.active.package = c531r();
    app.active.catalog_demands.iter_mut().find(|d| d.kind == "COMP_PWM").unwrap().count = 2;
    app.seed_from_demands(&templates());
    assert_eq!(app.active.c531_design.legs.len(), 2);
    // Met demands add nothing.
    app.seed_from_demands(&templates());
    assert_eq!(app.active.c531_design.legs.len(), 2);
    app.active.catalog_demands.iter_mut().for_each(|d| d.count = 0);
    app.summarize_to_demands();
    let count = |app: &PeriPlannerApp, k: &str| {
        app.active.catalog_demands.iter().find(|d| d.kind == k).unwrap().count
    };
    assert_eq!(count(&app, "COMP_PWM"), 2);
    assert_eq!(count(&app, "SPI"), 0);
}

// ---- Packed tables ----

#[test]
fn packed_tables_are_unpacked() {
    let gz: [u8; 31] = [
        31, 139, 8, 0, 0, 0, 0, 0, 2, 3, 75, 73, 45, 78, 46, 202, 44, 40, 201, 47, 42, 6, 0, 81,
        60, 3, 245, 11, 0, 0, 0,
    ];
    assert_eq!(inflate(&gz).as_deref(), Some(&b"descriptors"[..]));
    assert!(inflate(b"descriptors").is_none());
    assert!(inflate(&gz[..20]).is_none());
    assert!(inflate(&[]).is_none());
}

#[test]
fn tables_of_arbitrary_parts_are_found_by_line() {
    let reg = registry();
    assert_eq!(reg.descriptor_count(), 1);
    let d = reg.descriptor_for("STM32H743ZIT6").unwrap();
    assert_eq!(d.name, "STM32H743ZI");
    assert_eq!(d.family, "STM32H7");
    assert_eq!(d.raw.dma_pools[0].name, "DMA1");
    assert_eq!(d.raw.peripherals[0].dma[0].pools, &["DMA1"]);
    let rows: Vec<String> = af_rows(d.raw)
        .iter()
        .map(|r| format!("{}.{} {} {:?}", r.signal.peripheral, r.signal.role, r.pin.name(), r.af))
        .collect();
    assert_eq!(rows[0], "USART1.TX PA9 Some(7)");
    assert_eq!(rows.len(), 5);
    assert!(reg.descriptor_for("STM32F103RB").is_none());
}

// ---- The power fabric ----

#[test]
fn channels_are_offered_by_adc_with_their_pins() {
    let raw = g474r().raw();
    let on = |adc, channel| Assignment::AdcConversion {
        adc,
        channel,
        purpose: MonitorPurpose { id: 0 },
    };
    let cands = [
        on(AdcInstance::Adc2, 17),
        on(AdcInstance::Adc1, 12),
        on(AdcInstance::Adc1, 3),
        on(AdcInstance::Adc1, 1),
        on(AdcInstance::Adc1, 16),
    ];
    let groups = adc_choices(&cands, raw);
    assert_eq!(groups.len(), 2);
    assert_eq!(groups[0].0, AdcInstance::Adc1);
    let labels: Vec<&str> = groups[0].1.iter().map(|c| c.label.as_str()).collect();
    assert_eq!(
        labels,
        vec![
            "  [fast] IN1  @ PA0",
            "  [fast] IN3  @ PA2",
            "  [slow] IN12 @ PB1",
            "  [slow] IN16 @ ?",
        ]
    );
    assert_eq!(groups[1].1[0].label, "  [slow] IN17 @ PA4");
}

#[test]
fn sequencers_show_their_conversions() {
    let raw = g474r().raw();
    let mut d = Design::new();
    let group = d.add(RequirementSpec::AdcSequencer {
        adc: AdcInstance::Adc1,
        kind: SequencerKind::Regular,
        trigger: TriggerSource::Event(CrossbarSource::Mcr1),
    });
    d.add(RequirementSpec::AdcConversion {
        group,
        purpose: MonitorPurpose { id: 4 },
        adc_pref: None,
        speed: SpeedPref::Any,
    });
    d.assignments[0] = Some(Assignment::AdcSequencer {
        adc: AdcInstance::Adc1,
        kind: SequencerKind::Regular,
        trigger: TriggerSource::Event(CrossbarSource::Mcr1),
    });
    d.assignments[1] = Some(Assignment::AdcConversion {
        adc: AdcInstance::Adc1,
        channel: 3,
        purpose: MonitorPurpose { id: 4 },
    });
    let views = build_adc_sequencer_views(&d, raw);
    assert_eq!(views.len(), 1);
    assert_eq!(views[0].conversions.len(), 1);
    assert_eq!(
        fabric_view::sequencer_head(&views[0]),
        ("Adc1 Regular".to_string(), "trig: Mcr1".to_string())
    );
    assert_eq!(
        fabric_view::conversion_line(&views[0].conversions[0], "Vout"),
        "Vout -> ADC1_IN3 @ PA2"
    );
    assert_eq!(hrtim_view::master_lines(&d), vec!["ADC1 Regular ← Mcr1"]);
}

// ---- Beginning ----

#[test]
fn sessions_begin_from_what_is_stored() {
    let all = all_parts();
    let single = || SingleKeys {
        design: None,
        variant: None,
        mcu: None,
        h523_designs: None,
        c531_design: None,
        package: None,
    };

    // Nothing stored: the part of the variant.
    let mut app = PeriPlannerApp::new(h523r(), Design::new());
    app.begin(None, Stored::Single(single()), &all);
    assert_eq!(app.active.package.name(), "STM32G474RE");
    assert_eq!(app.view, ViewMode::Fabric);

    // Single keys: the family's own package where the stored one is of another.
    let mut app = PeriPlannerApp::new(g474r(), Design::new());
    let keys = SingleKeys { mcu: Some(Mcu::C531), package: Some(h523r()), ..single() };
    app.begin(Some(ViewMode::Fabric), Stored::Single(keys), &all);
    assert_eq!(app.active.package.name(), "STM32C531RCT6");
    assert_eq!(app.view, ViewMode::Converter);

    // A design alone brings its variant, and with it the package; a stored variant wins.
    let mut app = PeriPlannerApp::new(g474r(), Design::new());
    let mut design = Design::new();
    design.add(RequirementSpec::UseUsb);
    let keys = SingleKeys { design: Some((design.copy(), ChipVariant::G474V)), ..single() };
    app.begin(None, Stored::Single(keys), &all);
    assert_eq!(app.active.design, design);
    assert_eq!(app.active.variant, ChipVariant::G474V);
    assert_eq!(app.active.package.name(), g474v().name());
    let mut app = PeriPlannerApp::new(g474v(), Design::new());
    let keys = SingleKeys {
        design: Some((design.copy(), ChipVariant::G474V)),
        variant: Some(ChipVariant::G474R),
        ..single()
    };
    app.begin(None, Stored::Single(keys), &all);
    assert_eq!(app.active.package.name(), g474r().name());

    // Stored projects are taken as they are.
    let mut app = PeriPlannerApp::new(g474r(), Design::new());
    let mut p = Project::new("buck", h523r(), Design::new());
    p.mcu = Mcu::H523;
    app.begin(
        Some(ViewMode::Inventory),
        Stored::Projects(p, vec![Project::new("scratch", g474r(), Design::new())]),
        &all,
    );
    assert_eq!((app.active.name.as_str(), app.others.len()), ("buck", 1));
    assert_eq!(app.view, ViewMode::Inventory);

    // What cannot be read is kept, and no project is lost to it.
    let mut app = PeriPlannerApp::new(g474r(), Design::new());
    app.begin(None, Stored::Unreadable("this is not valid RON".to_string()), &all);
    assert_eq!(app.corrupt_blob.as_deref(), Some("this is not valid RON"));
    assert_eq!(app.active.name, "Untitled");
}

#[test]
fn a_fresh_trip_takes_the_first_comparator_that_reaches_the_timer() {
    let fabric = c531r().descriptor().fabric;
    let trip = c531_view::fresh_trip(fabric.as_ref(), TimId::Tim1);
    let reaching = c531_view::comps_reaching_break(fabric.as_ref(), TimId::Tim1);
    assert_eq!(Some(&trip.comp), reaching.first());
    assert_eq!((trip.break_input, trip.threshold_dac), (1, None));
    // Without a fabric nothing is known: the first comparator, either break input.
    assert_eq!(c531_view::fresh_trip(None, TimId::Tim1).comp, CompId::Comp1);
    assert_eq!(c531_view::offered_breaks(None, TimId::Tim1, CompId::Comp1), vec![1, 2]);
}

#[test]
fn offered_breaks_are_the_routed_ones_or_both() {
    let fabric = c531r().descriptor().fabric;
    let routed = c531_view::breaks_for_comp(fabric.as_ref(), TimId::Tim1, CompId::Comp1);
    assert!(!routed.is_empty());
    assert_eq!(c531_view::offered_breaks(fabric.as_ref(), TimId::Tim1, CompId::Comp1), routed);
    // A comparator that does not reach the timer leaves both to choose from.
    assert!(c531_view::breaks_for_comp(fabric.as_ref(), TimId::Tim6, CompId::Comp1).is_empty());
    assert_eq!(c531_view::offered_breaks(fabric.as_ref(), TimId::Tim6, CompId::Comp1), vec![1, 2]);
}

#[test]
fn one_channel_changes_and_the_others_stay() {
    assert_eq!(c531_view::set_channel(0b0000_0001, 2, true), 0b0000_0101);
    assert_eq!(c531_view::set_channel(0b0000_0101, 0, false), 0b0000_0100);
    assert_eq!(c531_view::set_channel(0b1010_0100, 2, true), 0b1010_0100);
    assert_eq!(c531_view::set_channel(0b1010_1111, 3, false), 0b1010_0111);
}

#[test]
fn placements_are_the_rows_of_one_signal() {
    let raw = g474r().descriptor().raw;
    let tx = SignalId { peripheral: "USART1", role: "TX" };
    let rows = placements_for(raw, tx);
    assert!(!rows.is_empty());
    assert!(rows.iter().all(|r| r.signal.peripheral == "USART1" && r.signal.role == "TX"));
    let all = af_rows(raw).into_iter().filter(|r| r.signal == tx).count();
    assert_eq!(rows.len(), all);
    assert!(placements_for(raw, SignalId { peripheral: "USART1", role: "NO_SUCH" }).is_empty());
}

#[test]
fn rows_are_edited_step_by_step_and_keys_undo_them() {
    let mut app = PeriPlannerApp::new(g474r(), Design::new());
    app.active.design = Design::new();
    app.add_row(RequirementSpec::UseUsb);
    app.apply_hrtim_action(HrtimAction::AddPhaseOn(HrtimId::TimB));
    app.apply_hrtim_action(HrtimAction::AddRoleOn(HrtimId::TimC, HrtimRole::VoltageModePwm));
    assert_eq!(app.active.design.requirements.len(), 3);
    assert_eq!(
        app.active.design.requirements[2],
        RequirementSpec::UseHrtimSub {
            pinned_sub_timer: Some(HrtimId::TimC),
            role: HrtimRole::VoltageModePwm,
            outputs: OutputMode::Ch1Only,
            fault: None,
        }
    );
    app.edit_row(1, RowEdit::SubTimer(None));
    let edited = app.active.design.copy();
    app.assign_row(0, Assignment::Usb);
    assert_eq!(app.active.design.assignments[0], Some(Assignment::Usb));
    app.remove_row(0);
    assert_eq!(app.active.design.requirements.len(), 2);
    // Nothing without the command key.
    app.take_keys(false, false, true, true);
    assert_eq!(app.active.design.requirements.len(), 2);
    app.take_keys(true, false, true, false);
    app.take_keys(true, false, true, false);
    assert_eq!(app.active.design, edited);
    // Both ways of doing it again.
    app.take_keys(true, true, true, false);
    assert_eq!(app.active.design.assignments[0], Some(Assignment::Usb));
    app.take_keys(true, false, false, true);
    assert_eq!(app.active.design.requirements.len(), 2);
    // An edit of a row that is not there is no step.
    let (undo, _) = app.steps();
    assert!(undo);
    let before = app.history.len();
    app.edit_row(9, RowEdit::Group(1));
    assert_eq!(app.history.len(), before);
}

#[test]
fn seeding_twice_is_seeding_once() {
    let ask = |app: &mut PeriPlannerApp, kind: &str, n: u8| {
        app.active.catalog_demands.iter_mut().find(|d| d.kind == kind).unwrap().count = n;
    };
    // More serial lines than there are, conversions, and a bus.
    let mut app = PeriPlannerApp::new(g474r(), Design::new());
    app.active.design = Design::new();
    ask(&mut app, "SERIAL", 9);
    ask(&mut app, "ADC", 3);
    ask(&mut app, "SPI", 2);
    app.seed_from_demands(&templates());
    let once = app.active.design.copy();
    assert_eq!(once.requirements.len(), 3 + 1 + 3 + 2);
    let steps = app.history.len();
    app.seed_from_demands(&templates());
    assert_eq!(app.active.design, once);
    assert_eq!(app.history.len(), steps, "the second time is no step");
    app.summarize_to_demands();
    let count = |app: &PeriPlannerApp, k: &str| {
        app.active.catalog_demands.iter().find(|d| d.kind == k).unwrap().count
    };
    assert_eq!((count(&app, "SERIAL"), count(&app, "ADC"), count(&app, "SPI")), (3, 3, 2));

    let mut app = PeriPlannerApp::new(c531r(), Design::new());
    app.active.mcu = Mcu::C531;
    ask(&mut app, "COMP_PWM", 7);
    app.seed_from_demands(&templates());
    assert_eq!(app.active.c531_design.legs.len(), 2);
    app.seed_from_demands(&templates());
    assert_eq!(app.active.c531_design.legs.len(), 2);

    // A use that is there already is in the way of the second instance.
    let mut app = PeriPlannerApp::new(h523r(), Design::new());
    app.active.mcu = Mcu::H523;
    let mut d = H523Design::new();
    d.add_use("USART2", &[]);
    app.active.h523_designs.insert(Mcu::H523, d);
    ask(&mut app, "SERIAL", 3);
    app.seed_from_demands(&templates());
    let once = app.active.h523_designs.get_or_empty(Mcu::H523);
    app.seed_from_demands(&templates());
    assert_eq!(app.active.h523_designs.get_or_empty(Mcu::H523), once);
}

#[test]
fn seeding_what_is_there_adds_nothing() {
    let mut app = PeriPlannerApp::new(g474r(), Design::new());
    app.active.design = Design::new();
    app.add_row(RequirementSpec::UseUsb);
    app.add_row(RequirementSpec::ShortCircuitFault);
    app.apply_hrtim_action(HrtimAction::AddPhaseOn(HrtimId::TimD));
    app.summarize_to_demands();
    assert_eq!(app.view, ViewMode::Catalog);
    let design = app.active.design.copy();
    app.seed_from_demands(&templates());
    assert_eq!(app.active.design, design);
}
