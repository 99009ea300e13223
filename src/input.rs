use vstd::prelude::*;

verus! {

/// What is left of a byte sequence once ANSI escape sequences are taken out.
pub uninterp spec fn stripped_of(data: Seq<u8>) -> Seq<u8>;

/// The text that bytes decode to as UTF-8, with U+FFFD in place of each
/// malformed sequence.
pub uninterp spec fn decoded_lossy(bytes: Seq<u8>) -> Seq<char>;

/// Relies on strip_ansi_escapes::strip: removes escape sequences; the result
/// depends on the bytes alone.
#[verifier::external_body]
fn strip_escapes(data: &[u8]) -> (r: Vec<u8>)
    ensures
        r@ == stripped_of(data@),
{
    strip_ansi_escapes::strip(data)
}

/// Relies on String::from_utf8_lossy: decodes UTF-8 and replaces what is
/// malformed rather than failing; the result depends on the bytes alone.
#[verifier::external_body]
fn decode_lossy(bytes: &[u8]) -> (r: String)
    ensures
        r@ == decoded_lossy(bytes@),
{
    String::from_utf8_lossy(bytes).into_owned()
}

/// The text typed in an event that is no known key: escape sequences taken
/// out, then decoded without ever failing.
pub fn typed_text(data: &[u8]) -> (r: String)
    ensures
        r@ == decoded_lossy(stripped_of(data@)),
{
    let stripped = strip_escapes(data);
    decode_lossy(stripped.as_slice())
}

/// A command that one keystroke event stands for.
pub enum Command {
    Disconnect,
    Submit,
    DeleteLastChar,
    ScrollBack(u16),
    ScrollForward(u16),
    AppendText(String),
}

/// The mathematical counterpart of [`Command`].
pub enum CommandView {
    Disconnect,
    Submit,
    DeleteLastChar,
    ScrollBack(u16),
    ScrollForward(u16),
    AppendText(Seq<char>),
}

impl View for Command {
    type V = CommandView;

    open spec fn view(&self) -> CommandView {
        match self {
            Command::Disconnect => CommandView::Disconnect,
            Command::Submit => CommandView::Submit,
            Command::DeleteLastChar => CommandView::DeleteLastChar,
            Command::ScrollBack(n) => CommandView::ScrollBack(*n),
            Command::ScrollForward(n) => CommandView::ScrollForward(*n),
            Command::AppendText(t) => CommandView::AppendText(t@),
        }
    }
}

/// Lines moved by one page key.
pub const PAGE_LINES: u16 = 10;

/// The command that a raw byte sequence stands for. Every sequence has one.
pub open spec fn command_of(data: Seq<u8>) -> CommandView {
    if data == seq![3u8] {
        CommandView::Disconnect
    } else if data == seq![13u8] {
        CommandView::Submit
    } else if data == seq![127u8] || data == seq![8u8] {
        CommandView::DeleteLastChar
    } else if data == seq![27u8, 91u8, 65u8] {
        CommandView::ScrollBack(1)
    } else if data == seq![27u8, 91u8, 66u8] {
        CommandView::ScrollForward(1)
    } else if data == seq![27u8, 91u8, 53u8, 126u8] {
        CommandView::ScrollBack(PAGE_LINES)
    } else if data == seq![27u8, 91u8, 54u8, 126u8] {
        CommandView::ScrollForward(PAGE_LINES)
    } else {
        CommandView::AppendText(decoded_lossy(stripped_of(data)))
    }
}

/// Classifies one input event. No byte sequence is refused: anything that is
/// not a known key becomes text.
pub fn interpret(data: &[u8]) -> (r: Command)
    ensures
        r@ == command_of(data@),
{
    let n = data.len();
    if n == 1 && data[0] == 3 {
        assert(data@ =~= seq![3u8]);
        Command::Disconnect
    } else if n == 1 && data[0] == 13 {
        assert(data@ =~= seq![13u8]);
        Command::Submit
    } else if n == 1 && (data[0] == 127 || data[0] == 8) {
        assert(data@ =~= seq![127u8] || data@ =~= seq![8u8]);
        Command::DeleteLastChar
    } else if n == 3 && data[0] == 27 && data[1] == 91 && data[2] == 65 {
        assert(data@ =~= seq![27u8, 91u8, 65u8]);
        Command::ScrollBack(1)
    } else if n == 3 && data[0] == 27 && data[1] == 91 && data[2] == 66 {
        assert(data@ =~= seq![27u8, 91u8, 66u8]);
        Command::ScrollForward(1)
    } else if n == 4 && data[0] == 27 && data[1] == 91 && data[2] == 53 && data[3] == 126 {
        assert(data@ =~= seq![27u8, 91u8, 53u8, 126u8]);
        Command::ScrollBack(PAGE_LINES)
    } else if n == 4 && data[0] == 27 && data[1] == 91 && data[2] == 54 && data[3] == 126 {
        assert(data@ =~= seq![27u8, 91u8, 54u8, 126u8]);
        Command::ScrollForward(PAGE_LINES)
    } else {
        Command::AppendText(typed_text(data))
    }
}

} // verus!
