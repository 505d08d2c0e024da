# peri-planner

A planner for the peripherals and pins of STM32 microcontrollers. A chip is plain
data; a design says what it wants from the chip; the library answers what fits
where, what collides, which other part could take its place, and writes the pin
set-up as Rust source.

The functions under `src/` carry contracts that Verus proves; the exceptions are named
at the end. What relates several functions (what an undo restores, what a search may list, what a placement
never shares) stands beside them as public proof functions, most of them in the
modules that end in `_laws`.

## Layout

- `src/` - the verified library. `lib.rs` groups its modules: texts and orders, chips,
  allocation, designs, the analog front end, drop-in replacements, generated code,
  projects and the session, and what each view shows.
- `tests/` - tests against the compiled library: `chips.rs` on small tables of real
  parts, `logic.rs` on values made by hand.
- `app/` - the window (egui), the stored state (RON) and the chip files (JSON, gzip).
  It reads `descriptors.json.gz` and `footprints.json.gz` from the directory that
  `PERI_PLANNER_ASSETS` names, or from `assets`.

## What is not proved

A few functions of the standard library and of `flate2` are called through small
functions marked `external_body`; each says above it what is taken for granted. What
`derive` writes (`Clone`, `Debug`, `Hash`) has no contract, and no proof rests on it.
The rules of the G474 power fabric that assign requirements to peripherals, warn of
conflicts and place analog routes are not part of the library: a design holds what was
assigned, and the plan of its pins lists those that the user chose. Nor are DMA channels
assigned here: `Project::to_pin_plan` takes the assignments and puts them in the plan; the
window has none to give. What a project starts with is handed to `Project::new`; the window
starts one with four sub-timers, a sequencer and two conversions. Of the G474 planner's views
the window shows the timers and the package as lists, and no waveforms.
Positions and colours on the screen are floating point and stay in `app/`.
