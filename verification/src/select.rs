//! Logical kinds of peripherals: which classes can stand in for each other.

use vstd::prelude::*;

use crate::text;
use crate::text::is_digit;

verus! {

/// A name without its trailing digits.
pub open spec fn class_name(s: Seq<char>) -> Seq<char>
    decreases s.len(),
{
    if s.len() > 0 && is_digit(s.last()) {
        class_name(s.drop_last())
    } else {
        s
    }
}

fn digit(c: char) -> (r: bool)
    ensures
        r == is_digit(c),
{
    '0' <= c && c <= '9'
}

/// The class of an instance: its name without the trailing digits.
pub fn class_of(instance: &str) -> (r: String)
    ensures
        r@ == class_name(instance@),
{
    let mut chars: Vec<char> = text::chars_of(instance);
    while chars.len() > 0 && digit(chars[chars.len() - 1])
        invariant
            class_name(instance@) == class_name(chars@),
        decreases chars@.len(),
    {
        let ghost had = chars@;
        chars.pop();
        proof {
            assert(chars@ =~= had.drop_last());
        }
    }
    text::string_of(&chars)
}

/// The kind of a class: serial classes are one kind, the other known classes are a
/// kind each.
pub open spec fn kind_of_class(c: Seq<char>) -> Option<Seq<char>> {
    if c == "USART"@ || c == "UART"@ || c == "LPUART"@ {
        Some("SERIAL"@)
    } else if c == "SPI"@ {
        Some("SPI"@)
    } else if c == "I2C"@ {
        Some("I2C"@)
    } else if c == "ADC"@ {
        Some("ADC"@)
    } else if c == "UCPD"@ {
        Some("UCPD"@)
    } else {
        None
    }
}

/// The logical kind of an instance, where it has one.
pub fn kind_of(peripheral: &str) -> (r: Option<&'static str>)
    ensures
        r is Some <==> kind_of_class(class_name(peripheral@)) is Some,
        r matches Some(k) ==> kind_of_class(class_name(peripheral@)) == Some(k@),
{
    let class: String = class_of(peripheral);
    let c: &str = class.as_str();
    if text::same(c, "USART") || text::same(c, "UART") || text::same(c, "LPUART") {
        Some("SERIAL")
    } else if text::same(c, "SPI") {
        Some("SPI")
    } else if text::same(c, "I2C") {
        Some("I2C")
    } else if text::same(c, "ADC") {
        Some("ADC")
    } else if text::same(c, "UCPD") {
        Some("UCPD")
    } else {
        None
    }
}

/// The classes of a kind.
pub open spec fn classes_of_kind(k: Seq<char>) -> Seq<Seq<char>> {
    if k == "SERIAL"@ {
        seq!["USART"@, "UART"@, "LPUART"@]
    } else if k == "SPI"@ {
        seq!["SPI"@]
    } else if k == "I2C"@ {
        seq!["I2C"@]
    } else if k == "ADC"@ {
        seq!["ADC"@]
    } else if k == "UCPD"@ {
        seq!["UCPD"@]
    } else {
        Seq::empty()
    }
}

/// The classes of a kind.
pub fn underlying_classes(kind: &str) -> (r: Vec<&'static str>)
    ensures
        text::str_views(r@) == classes_of_kind(kind@),
{
    let r: Vec<&'static str> = if text::same(kind, "SERIAL") {
        vec!["USART", "UART", "LPUART"]
    } else if text::same(kind, "SPI") {
        vec!["SPI"]
    } else if text::same(kind, "I2C") {
        vec!["I2C"]
    } else if text::same(kind, "ADC") {
        vec!["ADC"]
    } else if text::same(kind, "UCPD") {
        vec!["UCPD"]
    } else {
        Vec::new()
    };
    proof {
        assert(text::str_views(r@) =~= classes_of_kind(kind@));
    }
    r
}

/// Every class of a kind is of that kind.
pub proof fn kinds_and_classes_agree(k: Seq<char>, i: int)
    requires
        0 <= i < classes_of_kind(k).len(),
    ensures
        kind_of_class(classes_of_kind(k)[i]) == Some(k),
{
    reveal_strlit("SERIAL");
    reveal_strlit("USART");
    reveal_strlit("UART");
    reveal_strlit("LPUART");
    reveal_strlit("SPI");
    reveal_strlit("I2C");
    reveal_strlit("ADC");
    reveal_strlit("UCPD");
    if k == "SERIAL"@ {
    } else if k == "I2C"@ {
        assert("I2C"@[0] != "SPI"@[0]);
    } else if k == "ADC"@ {
        assert("ADC"@[0] != "SPI"@[0]);
        assert("ADC"@[0] != "I2C"@[0]);
    } else if k == "UCPD"@ {
        assert("UCPD"@[1] != "UART"@[1]);
    }
}

} // verus!
