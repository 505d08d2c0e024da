//! Resource and pin planning for microcontroller designs.
//!
//! A chip is plain data ([`mcu_raw::RawMcuData`]); a design states what it wants
//! from the chip; the planners and checkers of this crate answer what fits where.

// Texts, orders and sets.
pub mod lists;
pub mod names;
pub mod order;
pub mod ranked;
pub mod text;
pub mod texts;
pub mod tokens;

// Chips.
pub mod board;
pub mod desc_asset;
pub mod fabric_data_c5;
pub mod g474;
pub mod footprint_laws;
pub mod inventory_laws;
pub mod mcu;
pub mod mcu_pinout;
pub mod mcu_raw;
pub mod part_registry;
pub mod phys_pinout;
pub mod pinout;
pub mod select;
pub mod variant_laws;

// Allocation.
pub mod allocation_laws;
pub mod constraint;
pub mod kernel;
pub mod matching;

// Designs and their checks.
pub mod c531_assign;
pub mod c531_design;
pub mod c531_laws;
pub mod c531_plan;
pub mod converter_laws;
pub mod design_laws;
pub mod h523_design;
pub mod lowering_laws;
pub mod pin_locks;
pub mod requirement_laws;
pub mod requirements;
pub mod resources;

// The analog front end.
pub mod adc_candidates;
pub mod analog_laws;
pub mod analog_roles;
pub mod analog_view;
pub mod capability_laws;
pub mod caps_laws;
pub mod ceiling_laws;
pub mod crossing_laws;
pub mod frontend_laws;
pub mod frontend_order_laws;
pub mod frontend_plan;
pub mod frontend_slots;
pub mod frontend_solver;
pub mod pairing_laws;
pub mod reading_laws;
pub mod terminal_laws;

// Replacements for a part.
pub mod class_laws;
pub mod dropin;
pub mod dropin_laws;
pub mod dropin_search;
pub mod fingerprint_laws;
pub mod verdict_laws;

// Plans and the code made from them.
pub mod bundle_laws;
pub mod board_text_laws;
pub mod codegen;
pub mod codegen_laws;
pub mod pin_plan;

// Projects, demands and the session.
pub mod counting_laws;
pub mod demand;
pub mod demand_laws;
pub mod filling_laws;
pub mod project;
pub mod seeding_laws;
pub mod session;
pub mod session_demands;
pub mod session_laws;
pub mod startup;
pub mod steering_laws;

// What the views show.
pub mod af_view;
pub mod analog_table;
pub mod browsing_laws;
pub mod claim_laws;
pub mod c531_view;
pub mod comms_view;
pub mod display_laws;
pub mod dropin_view;
pub mod fabric_layout;
pub mod fabric_selection;
pub mod fabric_view;
pub mod frontend_view;
pub mod hrtim_view;
pub mod inventory_view;
pub mod listing_laws;
pub mod pin_pick;
pub mod requirement_row;
pub mod screen;
pub mod table_laws;
