use vstd::prelude::*;

verus! {

/// Whether printed text ends its line.
#[derive(Clone, Copy, Debug, PartialEq, Eq, Structural)]
pub enum PrintMode {
    Println,
    Print,
}

/// The color of printed text.
#[derive(Clone, Copy, Debug, PartialEq, Eq, Structural)]
pub enum PrintColor {
    /// The color of the terminal as it is.
    Plain,
    Blue,
    Green,
    Red,
    Yellow,
    Cyan,
    Magenta,
}

impl PrintColor {
    /// Red, green and blue of the color.
    pub open spec fn spec_color_triple(&self) -> (u8, u8, u8) {
        match self {
            PrintColor::Plain => (0u8, 0u8, 0u8),
            PrintColor::Blue => (0u8, 0u8, 255u8),
            PrintColor::Green => (0u8, 255u8, 0u8),
            PrintColor::Red => (255u8, 0u8, 0u8),
            PrintColor::Yellow => (255u8, 255u8, 0u8),
            PrintColor::Cyan => (0u8, 255u8, 255u8),
            PrintColor::Magenta => (255u8, 0u8, 255u8),
        }
    }

    /// Red, green and blue of the color.
    pub fn get_color_triple(&self) -> (r: (u8, u8, u8))
        ensures
            r == self.spec_color_triple(),
    {
        match self {
            PrintColor::Plain => (0, 0, 0),
            PrintColor::Blue => (0, 0, 255),
            PrintColor::Green => (0, 255, 0),
            PrintColor::Red => (255, 0, 0),
            PrintColor::Yellow => (255, 255, 0),
            PrintColor::Cyan => (0, 255, 255),
            PrintColor::Magenta => (255, 0, 255),
        }
    }
}

/// The sequence that switches a terminal to bold text: escape, `[1m`.
pub open spec fn bold_sequence() -> Seq<char> {
    seq!['\u{1b}', '[', '1', 'm']
}

/// The sequence that switches a terminal back to plain text: escape, `[m`.
pub open spec fn reset_sequence() -> Seq<char> {
    seq!['\u{1b}', '[', 'm']
}

/// What `termion::style::Bold` prints. The contract is taken from the source of
/// termion, where the text is the constant control sequence introducer followed by
/// `1m`; it is not checked here.
#[verifier::external_body]
fn termion_bold() -> (r: String)
    ensures
        r@ == bold_sequence(),
{
    format!("{}", termion::style::Bold)
}

/// What `termion::style::Reset` prints. The contract is taken from the source of
/// termion, where the text is the constant control sequence introducer followed by
/// `m`; it is not checked here.
#[verifier::external_body]
fn termion_reset() -> (r: String)
    ensures
        r@ == reset_sequence(),
{
    format!("{}", termion::style::Reset)
}

/// What `termion::color::Fg` prints for a color given by red, green and blue.
/// Nothing is claimed of the text: termion prints nothing at all where the
/// environment asks for no color.
#[verifier::external_body]
fn termion_foreground(red: u8, green: u8, blue: u8) -> (r: String) {
    format!("{}", termion::color::Fg(termion::color::Rgb(red, green, blue)))
}

/// The text `s` between the sequences that style it: the bold sequence if the text
/// is bold, the color sequence, the text, the reset sequence.
pub open spec fn styled(s: Seq<char>, color_sequence: Seq<char>, bolded: bool) -> Seq<char> {
    (if bolded {
        bold_sequence()
    } else {
        Seq::<char>::empty()
    }) + color_sequence + s + reset_sequence()
}

/// Puts the text together with the sequences that style it, the color sequence
/// being given.
pub fn style_text(s: &str, color_sequence: &str, bolded: bool) -> (r: String)
    ensures
        r@ == styled(s@, color_sequence@, bolded),
{
    let mut string = String::new();
    if bolded {
        let bold = termion_bold();
        string.append(bold.as_str());
    }
    string.append(color_sequence);
    string.append(s);
    let reset = termion_reset();
    string.append(reset.as_str());
    assert(string@ =~= styled(s@, color_sequence@, bolded));
    string
}

/// The text as it is sent to a terminal: styled bold if asked for, and in the
/// given color, where the color is not plain and the terminal takes colors.
pub fn optima_print_string(s: &str, color: PrintColor, bolded: bool) -> (r: String)
    ensures
        color == PrintColor::Plain ==> r@ == styled(s@, Seq::<char>::empty(), bolded),
        exists|color_sequence: Seq<char>| r@ == styled(s@, color_sequence, bolded),
{
    if color != PrintColor::Plain {
        let c = color.get_color_triple();
        let color_sequence = termion_foreground(c.0, c.1, c.2);
        style_text(s, color_sequence.as_str(), bolded)
    } else {
        let plain = String::new();
        style_text(s, plain.as_str(), bolded)
    }
}

} // verus!
