//! Development boards: which pins reach a header, and which the board uses itself. A
//! board narrows what a plan may use and says what to keep clear of.

use vstd::prelude::*;

use crate::mcu_pinout::PinId;
use crate::mcu_pinout::PinSet;
use crate::text;
use crate::text::has_prefix;

verus! {

/// How badly the board's own use of a pin stands in the way.
#[derive(Clone, Copy, Debug, PartialEq, Eq, Structural)]
pub enum Severity {
    /// Not to be used: debug lines, the clock.
    Block,
    /// Usable, at a price that is named.
    Warn,
}

/// What a board uses a pin for.
#[derive(Clone, Copy, Debug, PartialEq, Eq)]
pub struct Reservation {
    pub function: &'static str,
    pub severity: Severity,
    pub caveat: &'static str,
}

/// A pin of a board that is on the Arduino header or that the board uses itself.
#[derive(Clone, Copy, Debug)]
pub struct BoardPin {
    pub pin: PinId,
    pub arduino: Option<&'static str>,
    pub reserved: Option<Reservation>,
}

/// A pin of a board as a mathematical value.
pub ghost struct BoardRow {
    pub pin: PinId,
    pub arduino: Option<Seq<char>>,
    pub reserved: Option<(Seq<char>, Severity, Seq<char>)>,
}

impl View for BoardPin {
    type V = BoardRow;

    open spec fn view(&self) -> BoardRow {
        BoardRow {
            pin: self.pin,
            arduino: match self.arduino {
                Some(a) => Some(a@),
                None => None,
            },
            reserved: match self.reserved {
                Some(r) => Some((r.function@, r.severity, r.caveat@)),
                None => None,
            },
        }
    }
}

/// The values of a board's pins.
pub open spec fn board_rows(v: Seq<BoardPin>) -> Seq<BoardRow> {
    v.map_values(|p: BoardPin| p@)
}

/// The connector that a shield is mounted on.
#[derive(Clone, Copy, Debug, PartialEq, Eq, Structural)]
pub enum Connector {
    /// The Morpho headers: all pins.
    Morpho,
    /// The Arduino headers: the labelled pins.
    Arduino,
}

impl Default for Connector {
    fn default() -> (r: Self)
        ensures
            r == Connector::Morpho,
    {
        Connector::Morpho
    }
}

impl Connector {
    /// All connectors.
    pub fn all() -> (r: Vec<Connector>)
        ensures
            r@ == seq![Connector::Morpho, Connector::Arduino],
    {
        let r: Vec<Connector> = vec![Connector::Morpho, Connector::Arduino];
        proof {
            assert(r@ =~= seq![Connector::Morpho, Connector::Arduino]);
        }
        r
    }

    /// The connector's name for the user.
    pub fn label(self) -> (r: &'static str)
        ensures
            r@ == (match self {
                Connector::Morpho => "ST Morpho (CN7/CN10)"@,
                Connector::Arduino => "Arduino Uno"@,
            }),
    {
        match self {
            Connector::Morpho => "ST Morpho (CN7/CN10)",
            Connector::Arduino => "Arduino Uno",
        }
    }
}

/// A board and the chips that it carries.
#[derive(Clone, Debug)]
pub struct BoardProfile {
    pub name: &'static str,
    /// What the names of its chips start with.
    pub chip_prefix: &'static str,
    pub pins: Vec<BoardPin>,
}

/// A board as a mathematical value.
pub ghost struct BoardView {
    pub name: Seq<char>,
    pub chip_prefix: Seq<char>,
    pub pins: Seq<BoardRow>,
}

impl View for BoardProfile {
    type V = BoardView;

    open spec fn view(&self) -> BoardView {
        BoardView {
            name: self.name@,
            chip_prefix: self.chip_prefix@,
            pins: board_rows(self.pins@),
        }
    }
}

/// The values of boards.
pub open spec fn board_views(v: Seq<BoardProfile>) -> Seq<BoardView> {
    v.map_values(|b: BoardProfile| b@)
}

/// Whether a row is the pin's first among the rows.
pub open spec fn is_first_row(rows: Seq<BoardRow>, pin: PinId, i: int) -> bool {
    0 <= i < rows.len() && rows[i].pin == pin && forall|j: int|
        0 <= j < i ==> (#[trigger] rows[j]).pin != pin
}

/// The pins on the Arduino header.
pub open spec fn labelled(rows: Seq<BoardRow>) -> Set<PinId> {
    Set::new(
        |p: PinId|
            exists|i: int|
                0 <= i < rows.len() && (#[trigger] rows[i]).pin == p && rows[i].arduino is Some,
    )
}

/// The pins that the board uses itself.
pub open spec fn taken_up(rows: Seq<BoardRow>) -> Set<PinId> {
    Set::new(
        |p: PinId|
            exists|i: int|
                0 <= i < rows.len() && (#[trigger] rows[i]).pin == p && rows[i].reserved is Some,
    )
}

impl BoardProfile {
    /// What the board says of a pin.
    pub fn find(&self, pin: PinId) -> (r: Option<&BoardPin>)
        ensures
            r matches Some(b) ==> exists|i: int|
                is_first_row(self@.pins, pin, i) && #[trigger] self@.pins[i] == b@,
            r is None ==> forall|i: int|
                0 <= i < self@.pins.len() ==> (#[trigger] self@.pins[i]).pin != pin,
    {
        let ghost rows = self@.pins;
        let mut i: usize = 0;
        while i < self.pins.len()
            invariant
                i <= self.pins@.len(),
                rows == board_rows(self.pins@),
                forall|j: int| 0 <= j < i ==> (#[trigger] rows[j]).pin != pin,
            decreases self.pins@.len() - i,
        {
            proof {
                assert(rows[i as int] == self.pins@[i as int]@);
            }
            if self.pins[i].pin == pin {
                assert(is_first_row(rows, pin, i as int));
                return Some(&self.pins[i]);
            }
            i += 1;
        }
        None
    }

    /// The pins on the Arduino header.
    pub fn arduino_pins(&self) -> (r: PinSet)
        ensures
            r.wf(),
            r@ == labelled(self@.pins),
    {
        let ghost rows = self@.pins;
        let mut r: PinSet = PinSet::new();
        let mut i: usize = 0;
        while i < self.pins.len()
            invariant
                i <= self.pins@.len(),
                rows == board_rows(self.pins@),
                r.wf(),
                forall|p: PinId|
                    r@.contains(p) <==> exists|k: int|
                        0 <= k < i && (#[trigger] rows[k]).pin == p && rows[k].arduino is Some,
            decreases self.pins@.len() - i,
        {
            let ghost had = r@;
            proof {
                assert(rows[i as int] == self.pins@[i as int]@);
            }
            if self.pins[i].arduino.is_some() {
                r.insert(self.pins[i].pin);
            }
            proof {
                assert forall|p: PinId| r@.contains(p) <==> exists|k: int|
                    0 <= k < i + 1 && (#[trigger] rows[k]).pin == p && rows[k].arduino is Some by {
                    if had.contains(p) {
                        let k = choose|k: int|
                            0 <= k < i && (#[trigger] rows[k]).pin == p && rows[k].arduino is Some;
                        assert(rows[k].pin == p);
                    }
                }
            }
            i += 1;
        }
        proof {
            assert(r@ =~= labelled(rows));
        }
        r
    }

    /// The pins that the board uses itself.
    pub fn reserved_pins(&self) -> (r: PinSet)
        ensures
            r.wf(),
            r@ == taken_up(self@.pins),
    {
        let ghost rows = self@.pins;
        let mut r: PinSet = PinSet::new();
        let mut i: usize = 0;
        while i < self.pins.len()
            invariant
                i <= self.pins@.len(),
                rows == board_rows(self.pins@),
                r.wf(),
                forall|p: PinId|
                    r@.contains(p) <==> exists|k: int|
                        0 <= k < i && (#[trigger] rows[k]).pin == p && rows[k].reserved is Some,
            decreases self.pins@.len() - i,
        {
            let ghost had = r@;
            proof {
                assert(rows[i as int] == self.pins@[i as int]@);
            }
            if self.pins[i].reserved.is_some() {
                r.insert(self.pins[i].pin);
            }
            proof {
                assert forall|p: PinId| r@.contains(p) <==> exists|k: int|
                    0 <= k < i + 1 && (#[trigger] rows[k]).pin == p && rows[k].reserved is Some by {
                    if had.contains(p) {
                        let k = choose|k: int|
                            0 <= k < i && (#[trigger] rows[k]).pin == p && rows[k].reserved is Some;
                        assert(rows[k].pin == p);
                    }
                }
            }
            i += 1;
        }
        proof {
            assert(r@ =~= taken_up(rows));
        }
        r
    }

    /// The pins that a shield on the connector can use, of those that are bonded.
    pub fn usable_pins(&self, connector: Connector, bonded: &PinSet) -> (r: PinSet)
        requires
            bonded.wf(),
        ensures
            r.wf(),
            r@ == (match connector {
                Connector::Morpho => bonded@,
                Connector::Arduino => bonded@.intersect(labelled(self@.pins)),
            }),
    {
        let header: PinSet = self.arduino_pins();
        let mut r: PinSet = PinSet::new();
        let mut i: usize = 0;
        while i < bonded.pins.len()
            invariant
                i <= bonded.pins@.len(),
                header@ == labelled(self@.pins),
                r.wf(),
                forall|p: PinId|
                    r@.contains(p) <==> (connector == Connector::Morpho || header@.contains(p))
                        && exists|k: int| 0 <= k < i && #[trigger] bonded.pins@[k] == p,
            decreases bonded.pins@.len() - i,
        {
            let ghost had = r@;
            let pin: PinId = bonded.pins[i];
            if connector == Connector::Morpho || header.contains(&pin) {
                r.insert(pin);
            }
            proof {
                assert forall|p: PinId| r@.contains(p) <==> (connector == Connector::Morpho
                    || header@.contains(p)) && exists|k: int|
                    0 <= k < i + 1 && #[trigger] bonded.pins@[k] == p by {
                    if had.contains(p) {
                        let k = choose|k: int| 0 <= k < i && #[trigger] bonded.pins@[k] == p;
                        assert(bonded.pins@[k] == p);
                    }
                    assert(bonded.pins@[i as int] == pin);
                }
            }
            i += 1;
        }
        proof {
            assert forall|p: PinId| bonded@.contains(p) <==> exists|k: int|
                0 <= k < bonded.pins@.len() && #[trigger] bonded.pins@[k] == p by {}
            match connector {
                Connector::Morpho => {
                    assert(r@ =~= bonded@);
                },
                Connector::Arduino => {
                    assert(r@ =~= bonded@.intersect(labelled(self@.pins)));
                },
            }
        }
        r
    }
}

/// A pin on the header that the board leaves free.
pub open spec fn free_row(port: char, num: u8, label: Seq<char>) -> BoardRow {
    BoardRow { pin: PinId { port, num }, arduino: Some(label), reserved: None }
}

/// A pin on the header that the board uses itself.
pub open spec fn shared_row(
    port: char,
    num: u8,
    label: Seq<char>,
    function: Seq<char>,
    severity: Severity,
    caveat: Seq<char>,
) -> BoardRow {
    BoardRow {
        pin: PinId { port, num },
        arduino: Some(label),
        reserved: Some((function, severity, caveat)),
    }
}

/// A pin that the board uses itself and that is not on the header.
pub open spec fn own_row(
    port: char,
    num: u8,
    function: Seq<char>,
    severity: Severity,
    caveat: Seq<char>,
) -> BoardRow {
    BoardRow {
        pin: PinId { port, num },
        arduino: None,
        reserved: Some((function, severity, caveat)),
    }
}

fn free_pin(port: char, num: u8, label: &'static str) -> (r: BoardPin)
    ensures
        r@ == free_row(port, num, label@),
{
    BoardPin { pin: PinId { port, num }, arduino: Some(label), reserved: None }
}

fn shared_pin(
    port: char,
    num: u8,
    label: &'static str,
    function: &'static str,
    severity: Severity,
    caveat: &'static str,
) -> (r: BoardPin)
    ensures
        r@ == shared_row(port, num, label@, function@, severity, caveat@),
{
    BoardPin {
        pin: PinId { port, num },
        arduino: Some(label),
        reserved: Some(Reservation { function, severity, caveat }),
    }
}

fn own_pin(
    port: char,
    num: u8,
    function: &'static str,
    severity: Severity,
    caveat: &'static str,
) -> (r: BoardPin)
    ensures
        r@ == own_row(port, num, function@, severity, caveat@),
{
    BoardPin {
        pin: PinId { port, num },
        arduino: None,
        reserved: Some(Reservation { function, severity, caveat }),
    }
}

/// The pins of the NUCLEO-G474RE.
pub open spec fn g474re_rows() -> Seq<BoardRow> {
    seq![
        free_row('A', 0, "A0"@),
        free_row('A', 1, "A1"@),
        free_row('A', 4, "A2"@),
        free_row('B', 0, "A3"@),
        free_row('C', 1, "A4"@),
        free_row('C', 0, "A5"@),
        free_row('C', 5, "D0"@),
        free_row('C', 4, "D1"@),
        free_row('A', 10, "D2"@),
        free_row('B', 3, "D3"@),
        free_row('B', 5, "D4"@),
        free_row('B', 4, "D5"@),
        free_row('B', 10, "D6"@),
        free_row('A', 8, "D7"@),
        free_row('A', 9, "D8"@),
        free_row('C', 7, "D9"@),
        free_row('B', 6, "D10"@),
        free_row('A', 7, "D11"@),
        free_row('A', 6, "D12"@),
        shared_row(
            'A',
            5,
            "D13"@,
            "LD2 user LED / Arduino SCK"@,
            Severity::Warn,
            "drives the on-board green LED (~330 Ω) and is the Arduino SPI SCK — as an analog input it carries that load"@,
        ),
        free_row('B', 9, "D14"@),
        free_row('B', 8, "D15"@),
        own_row(
            'C',
            13,
            "B1 user button"@,
            Severity::Warn,
            "tied to the blue user button (switch to GND); not a clean analog node"@,
        ),
        own_row(
            'A',
            2,
            "ST-LINK VCP TX (LPUART1)"@,
            Severity::Warn,
            "on-board ST-LINK virtual COM port — open solder bridge SB to reuse"@,
        ),
        own_row(
            'A',
            3,
            "ST-LINK VCP RX (LPUART1)"@,
            Severity::Warn,
            "on-board ST-LINK virtual COM port — open solder bridge SB to reuse"@,
        ),
        own_row(
            'A',
            13,
            "SWDIO (debug)"@,
            Severity::Block,
            "SWD debug — reusing it disables the on-board debugger"@,
        ),
        own_row(
            'A',
            14,
            "SWCLK (debug)"@,
            Severity::Block,
            "SWD debug — reusing it disables the on-board debugger"@,
        ),
        own_row(
            'C',
            14,
            "LSE OSC32_IN"@,
            Severity::Warn,
            "32 kHz RTC crystal footprint (X2) — usable only if the crystal isn't populated"@,
        ),
        own_row(
            'C',
            15,
            "LSE OSC32_OUT"@,
            Severity::Warn,
            "32 kHz RTC crystal footprint (X2) — usable only if the crystal isn't populated"@,
        ),
    ]
}

/// The Nucleo-64 board of the STM32G474RE. The clock is internal, so PF0 and PF1 are
/// free.
pub open spec fn g474re_board() -> BoardView {
    BoardView { name: "NUCLEO-G474RE"@, chip_prefix: "STM32G474R"@, pins: g474re_rows() }
}

/// The Nucleo-64 board of the STM32G474RE. The clock is internal, so PF0 and PF1 are
/// free.
pub fn nucleo_g474re() -> (r: BoardProfile)
    ensures
        r@ == g474re_board(),
{
    let pins: Vec<BoardPin> = vec![
        free_pin('A', 0, "A0"),
        free_pin('A', 1, "A1"),
        free_pin('A', 4, "A2"),
        free_pin('B', 0, "A3"),
        free_pin('C', 1, "A4"),
        free_pin('C', 0, "A5"),
        free_pin('C', 5, "D0"),
        free_pin('C', 4, "D1"),
        free_pin('A', 10, "D2"),
        free_pin('B', 3, "D3"),
        free_pin('B', 5, "D4"),
        free_pin('B', 4, "D5"),
        free_pin('B', 10, "D6"),
        free_pin('A', 8, "D7"),
        free_pin('A', 9, "D8"),
        free_pin('C', 7, "D9"),
        free_pin('B', 6, "D10"),
        free_pin('A', 7, "D11"),
        free_pin('A', 6, "D12"),
        shared_pin(
            'A',
            5,
            "D13",
            "LD2 user LED / Arduino SCK",
            Severity::Warn,
            "drives the on-board green LED (~330 Ω) and is the Arduino SPI SCK — as an analog input it carries that load",
        ),
        free_pin('B', 9, "D14"),
        free_pin('B', 8, "D15"),
        own_pin(
            'C',
            13,
            "B1 user button",
            Severity::Warn,
            "tied to the blue user button (switch to GND); not a clean analog node",
        ),
        own_pin(
            'A',
            2,
            "ST-LINK VCP TX (LPUART1)",
            Severity::Warn,
            "on-board ST-LINK virtual COM port — open solder bridge SB to reuse",
        ),
        own_pin(
            'A',
            3,
            "ST-LINK VCP RX (LPUART1)",
            Severity::Warn,
            "on-board ST-LINK virtual COM port — open solder bridge SB to reuse",
        ),
        own_pin(
            'A',
            13,
            "SWDIO (debug)",
            Severity::Block,
            "SWD debug — reusing it disables the on-board debugger",
        ),
        own_pin(
            'A',
            14,
            "SWCLK (debug)",
            Severity::Block,
            "SWD debug — reusing it disables the on-board debugger",
        ),
        own_pin(
            'C',
            14,
            "LSE OSC32_IN",
            Severity::Warn,
            "32 kHz RTC crystal footprint (X2) — usable only if the crystal isn't populated",
        ),
        own_pin(
            'C',
            15,
            "LSE OSC32_OUT",
            Severity::Warn,
            "32 kHz RTC crystal footprint (X2) — usable only if the crystal isn't populated",
        ),
    ];
    proof {
        assert(board_rows(pins@) =~= g474re_rows());
    }
    BoardProfile { name: "NUCLEO-G474RE", chip_prefix: "STM32G474R", pins }
}

/// The pins of the NUCLEO-H533RE.
pub open spec fn h533re_rows() -> Seq<BoardRow> {
    seq![
        free_row('A', 0, "A0"@),
        free_row('A', 1, "A1"@),
        free_row('B', 1, "A2"@),
        free_row('B', 0, "A3"@),
        free_row('C', 1, "A4"@),
        free_row('C', 0, "A5"@),
        free_row('B', 15, "D0"@),
        free_row('B', 14, "D1"@),
        free_row('C', 8, "D2"@),
        free_row('B', 3, "D3"@),
        free_row('B', 5, "D4"@),
        free_row('B', 4, "D5"@),
        free_row('B', 10, "D6"@),
        free_row('A', 8, "D7"@),
        free_row('C', 7, "D8"@),
        free_row('C', 6, "D9"@),
        free_row('C', 9, "D10"@),
        free_row('A', 7, "D11"@),
        free_row('A', 6, "D12"@),
        shared_row(
            'A',
            5,
            "D13"@,
            "LD2 user LED / Arduino D13"@,
            Severity::Warn,
            "drives an on-board LED / Arduino SCK — carries that load as an input"@,
        ),
        free_row('B', 7, "D14"@),
        free_row('B', 6, "D15"@),
        own_row(
            'C',
            13,
            "B1 user button"@,
            Severity::Warn,
            "tied to the user button (switch to GND); not a clean analog node"@,
        ),
        own_row(
            'A',
            2,
            "ST-LINK VCP TX (USART2)"@,
            Severity::Warn,
            "on-board ST-LINK virtual COM port — open the SB to reuse"@,
        ),
        own_row(
            'A',
            3,
            "ST-LINK VCP RX (USART2)"@,
            Severity::Warn,
            "on-board ST-LINK virtual COM port — open the SB to reuse"@,
        ),
        own_row(
            'A',
            13,
            "SWDIO (debug)"@,
            Severity::Block,
            "SWD debug — reusing it disables the debugger"@,
        ),
        own_row(
            'A',
            14,
            "SWCLK (debug)"@,
            Severity::Block,
            "SWD debug — reusing it disables the debugger"@,
        ),
        own_row(
            'C',
            14,
            "LSE OSC32_IN"@,
            Severity::Warn,
            "32 kHz RTC crystal footprint — usable only if not populated"@,
        ),
        own_row(
            'C',
            15,
            "LSE OSC32_OUT"@,
            Severity::Warn,
            "32 kHz RTC crystal footprint — usable only if not populated"@,
        ),
    ]
}

/// The Nucleo-64 board of the STM32H533RE. Its headers differ from those of the G474RE
/// board.
pub open spec fn h533re_board() -> BoardView {
    BoardView { name: "NUCLEO-H533RE"@, chip_prefix: "STM32H533R"@, pins: h533re_rows() }
}

/// The Nucleo-64 board of the STM32H533RE. Its headers differ from those of the G474RE
/// board.
pub fn nucleo_h533re() -> (r: BoardProfile)
    ensures
        r@ == h533re_board(),
{
    let pins: Vec<BoardPin> = vec![
        free_pin('A', 0, "A0"),
        free_pin('A', 1, "A1"),
        free_pin('B', 1, "A2"),
        free_pin('B', 0, "A3"),
        free_pin('C', 1, "A4"),
        free_pin('C', 0, "A5"),
        free_pin('B', 15, "D0"),
        free_pin('B', 14, "D1"),
        free_pin('C', 8, "D2"),
        free_pin('B', 3, "D3"),
        free_pin('B', 5, "D4"),
        free_pin('B', 4, "D5"),
        free_pin('B', 10, "D6"),
        free_pin('A', 8, "D7"),
        free_pin('C', 7, "D8"),
        free_pin('C', 6, "D9"),
        free_pin('C', 9, "D10"),
        free_pin('A', 7, "D11"),
        free_pin('A', 6, "D12"),
        shared_pin(
            'A',
            5,
            "D13",
            "LD2 user LED / Arduino D13",
            Severity::Warn,
            "drives an on-board LED / Arduino SCK — carries that load as an input",
        ),
        free_pin('B', 7, "D14"),
        free_pin('B', 6, "D15"),
        own_pin(
            'C',
            13,
            "B1 user button",
            Severity::Warn,
            "tied to the user button (switch to GND); not a clean analog node",
        ),
        own_pin(
            'A',
            2,
            "ST-LINK VCP TX (USART2)",
            Severity::Warn,
            "on-board ST-LINK virtual COM port — open the SB to reuse",
        ),
        own_pin(
            'A',
            3,
            "ST-LINK VCP RX (USART2)",
            Severity::Warn,
            "on-board ST-LINK virtual COM port — open the SB to reuse",
        ),
        own_pin(
            'A',
            13,
            "SWDIO (debug)",
            Severity::Block,
            "SWD debug — reusing it disables the debugger",
        ),
        own_pin(
            'A',
            14,
            "SWCLK (debug)",
            Severity::Block,
            "SWD debug — reusing it disables the debugger",
        ),
        own_pin(
            'C',
            14,
            "LSE OSC32_IN",
            Severity::Warn,
            "32 kHz RTC crystal footprint — usable only if not populated",
        ),
        own_pin(
            'C',
            15,
            "LSE OSC32_OUT",
            Severity::Warn,
            "32 kHz RTC crystal footprint — usable only if not populated",
        ),
    ];
    proof {
        assert(board_rows(pins@) =~= h533re_rows());
    }
    BoardProfile { name: "NUCLEO-H533RE", chip_prefix: "STM32H533R", pins }
}

/// The pins of the NUCLEO-C5A3ZG.
pub open spec fn c5a3zg_rows() -> Seq<BoardRow> {
    seq![
        free_row('H', 4, "A0"@),
        free_row('H', 5, "A1"@),
        free_row('A', 4, "A2"@),
        free_row('B', 0, "A3"@),
        free_row('E', 13, "A4"@),
        free_row('C', 0, "A5"@),
        free_row('D', 6, "D0"@),
        free_row('D', 5, "D1"@),
        free_row('A', 10, "D2"@),
        free_row('B', 3, "D3"@),
        free_row('A', 0, "D4"@),
        free_row('B', 4, "D5"@),
        free_row('B', 10, "D6"@),
        free_row('A', 8, "D7"@),
        free_row('A', 9, "D8"@),
        free_row('C', 6, "D9"@),
        free_row('B', 5, "D10"@),
        free_row('A', 7, "D11"@),
        free_row('A', 6, "D12"@),
        shared_row(
            'A',
            5,
            "D13"@,
            "LD1 green LED / Arduino D13"@,
            Severity::Warn,
            "drives an on-board LED / Arduino SCK — carries that load as an input"@,
        ),
        free_row('B', 7, "D14"@),
        free_row('B', 6, "D15"@),
        own_row(
            'G',
            1,
            "LD2 red user LED"@,
            Severity::Warn,
            "drives the on-board red LED"@,
        ),
        own_row(
            'G',
            2,
            "LD3 blue user LED"@,
            Severity::Warn,
            "drives the on-board blue LED"@,
        ),
        own_row(
            'C',
            13,
            "B1 user button"@,
            Severity::Warn,
            "tied to the user button (switch to GND); not a clean analog node"@,
        ),
        own_row(
            'A',
            2,
            "ST-LINK VCP TX (UART2)"@,
            Severity::Warn,
            "on-board ST-LINK virtual COM port — open the SB to reuse"@,
        ),
        own_row(
            'A',
            3,
            "ST-LINK VCP RX (UART2)"@,
            Severity::Warn,
            "on-board ST-LINK virtual COM port — open the SB to reuse"@,
        ),
        own_row(
            'A',
            13,
            "SWDIO (debug)"@,
            Severity::Block,
            "SWD debug — reusing it disables the debugger"@,
        ),
        own_row(
            'A',
            14,
            "SWCLK (debug)"@,
            Severity::Block,
            "SWD debug — reusing it disables the debugger"@,
        ),
        own_row(
            'C',
            14,
            "LSE OSC32_IN"@,
            Severity::Warn,
            "32 kHz RTC crystal footprint — usable only if not populated"@,
        ),
        own_row(
            'C',
            15,
            "LSE OSC32_OUT"@,
            Severity::Warn,
            "32 kHz RTC crystal footprint — usable only if not populated"@,
        ),
    ]
}

/// The Nucleo-144 board of the STM32C5A3ZG. The serial line of the debugger is shared
/// with the header's.
pub open spec fn c5a3zg_board() -> BoardView {
    BoardView { name: "NUCLEO-C5A3ZG"@, chip_prefix: "STM32C5A3"@, pins: c5a3zg_rows() }
}

/// The Nucleo-144 board of the STM32C5A3ZG. The serial line of the debugger is shared
/// with the header's.
pub fn nucleo_c5a3zg() -> (r: BoardProfile)
    ensures
        r@ == c5a3zg_board(),
{
    let pins: Vec<BoardPin> = vec![
        free_pin('H', 4, "A0"),
        free_pin('H', 5, "A1"),
        free_pin('A', 4, "A2"),
        free_pin('B', 0, "A3"),
        free_pin('E', 13, "A4"),
        free_pin('C', 0, "A5"),
        free_pin('D', 6, "D0"),
        free_pin('D', 5, "D1"),
        free_pin('A', 10, "D2"),
        free_pin('B', 3, "D3"),
        free_pin('A', 0, "D4"),
        free_pin('B', 4, "D5"),
        free_pin('B', 10, "D6"),
        free_pin('A', 8, "D7"),
        free_pin('A', 9, "D8"),
        free_pin('C', 6, "D9"),
        free_pin('B', 5, "D10"),
        free_pin('A', 7, "D11"),
        free_pin('A', 6, "D12"),
        shared_pin(
            'A',
            5,
            "D13",
            "LD1 green LED / Arduino D13",
            Severity::Warn,
            "drives an on-board LED / Arduino SCK — carries that load as an input",
        ),
        free_pin('B', 7, "D14"),
        free_pin('B', 6, "D15"),
        own_pin(
            'G',
            1,
            "LD2 red user LED",
            Severity::Warn,
            "drives the on-board red LED",
        ),
        own_pin(
            'G',
            2,
            "LD3 blue user LED",
            Severity::Warn,
            "drives the on-board blue LED",
        ),
        own_pin(
            'C',
            13,
            "B1 user button",
            Severity::Warn,
            "tied to the user button (switch to GND); not a clean analog node",
        ),
        own_pin(
            'A',
            2,
            "ST-LINK VCP TX (UART2)",
            Severity::Warn,
            "on-board ST-LINK virtual COM port — open the SB to reuse",
        ),
        own_pin(
            'A',
            3,
            "ST-LINK VCP RX (UART2)",
            Severity::Warn,
            "on-board ST-LINK virtual COM port — open the SB to reuse",
        ),
        own_pin(
            'A',
            13,
            "SWDIO (debug)",
            Severity::Block,
            "SWD debug — reusing it disables the debugger",
        ),
        own_pin(
            'A',
            14,
            "SWCLK (debug)",
            Severity::Block,
            "SWD debug — reusing it disables the debugger",
        ),
        own_pin(
            'C',
            14,
            "LSE OSC32_IN",
            Severity::Warn,
            "32 kHz RTC crystal footprint — usable only if not populated",
        ),
        own_pin(
            'C',
            15,
            "LSE OSC32_OUT",
            Severity::Warn,
            "32 kHz RTC crystal footprint — usable only if not populated",
        ),
    ];
    proof {
        assert(board_rows(pins@) =~= c5a3zg_rows());
    }
    BoardProfile { name: "NUCLEO-C5A3ZG", chip_prefix: "STM32C5A3", pins }
}

/// All boards.
pub open spec fn all_board_views() -> Seq<BoardView> {
    seq![g474re_board(), h533re_board(), c5a3zg_board()]
}

/// The boards among the first `n` whose chips have such names.
pub open spec fn boards_upto(v: Seq<BoardView>, chip: Seq<char>, n: int) -> Seq<BoardView>
    decreases n,
{
    if n <= 0 {
        Seq::empty()
    } else if has_prefix(chip, v[n - 1].chip_prefix) {
        boards_upto(v, chip, n - 1).push(v[n - 1])
    } else {
        boards_upto(v, chip, n - 1)
    }
}

fn all_boards() -> (r: Vec<BoardProfile>)
    ensures
        board_views(r@) == all_board_views(),
{
    let r: Vec<BoardProfile> = vec![nucleo_g474re(), nucleo_h533re(), nucleo_c5a3zg()];
    proof {
        assert(board_views(r@) =~= all_board_views());
    }
    r
}

/// The boards that carry the chip.
pub fn boards_for(chip_name: &str) -> (r: Vec<BoardProfile>)
    ensures
        board_views(r@) == boards_upto(
            all_board_views(),
            chip_name@,
            all_board_views().len() as int,
        ),
{
    let mut all: Vec<BoardProfile> = all_boards();
    let ghost v = board_views(all@);
    let mut out: Vec<BoardProfile> = Vec::new();
    proof {
        assert(board_views(out@) =~= boards_upto(v, chip_name@, 0));
    }
    let mut i: usize = 0;
    let n: usize = all.len();
    while i < n
        invariant
            i <= n,
            n == v.len(),
            all@.len() == n - i,
            forall|k: int| 0 <= k < all@.len() ==> (#[trigger] all@[k])@ == v[k + i],
            board_views(out@) == boards_upto(v, chip_name@, i as int),
        decreases n - i,
    {
        let b: BoardProfile = all.remove(0);
        proof {
            assert(b@ == v[i as int]);
        }
        if text::starts_with(chip_name, b.chip_prefix) {
            let ghost had = out@;
            out.push(b);
            proof {
                assert(board_views(out@) =~= board_views(had).push(v[i as int]));
            }
        }
        i += 1;
    }
    out
}

/// Whether no two rows are of one pin.
pub open spec fn pins_are_apart(rows: Seq<BoardRow>) -> bool {
    forall|i: int, j: int|
        0 <= i < j < rows.len() ==> (#[trigger] rows[i]).pin != (#[trigger] rows[j]).pin
}

/// Whether a board keeps a pin clear: it blocks it, and has it on no header.
pub open spec fn blocks_pin(rows: Seq<BoardRow>, pin: PinId) -> bool {
    exists|i: int|
        0 <= i < rows.len() && (#[trigger] rows[i]).pin == pin && rows[i].arduino is None
            && (rows[i].reserved matches Some(r) && r.1 == Severity::Block)
}

/// Every board lists a pin once and blocks the two debug lines.
pub proof fn boards_are_sound(b: int)
    requires
        0 <= b < all_board_views().len(),
    ensures
        pins_are_apart(all_board_views()[b].pins),
        blocks_pin(all_board_views()[b].pins, PinId { port: 'A', num: 13 }),
        blocks_pin(all_board_views()[b].pins, PinId { port: 'A', num: 14 }),
{
    let rows = all_board_views()[b].pins;
    let n = rows.len() as int;
    assert(n == 29 || n == 31);
    assert(rows[n - 4].pin == PinId { port: 'A', num: 13u8 });
    assert(rows[n - 3].pin == PinId { port: 'A', num: 14u8 });
}

} // verus!
