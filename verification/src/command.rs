//! The command grammar: `<verb> ":" <args>`, where the arguments of `measure`
//! are `<amount> "," <delay_ms>`.

use vstd::prelude::*;
use vstd::string::StringExecFns;
use crate::decimal::{parse_u64, read_u64};
use crate::text::{find, first_index, piece_views, split, split_text};

verus! {

/// One of the two arguments of `measure`.
#[derive(Clone, Copy, Debug, PartialEq, Eq)]
pub enum Field {
    /// The number of samples to take.
    Amount,
    /// The pause before each sample, in milliseconds.
    Delay,
}

/// A message that is not a command.
#[derive(Clone, Debug, PartialEq, Eq)]
pub enum ParseError {
    /// The message is empty.
    InvalidCommandString,
    /// `measure` came without a colon, so without arguments.
    MissingArgs,
    /// The arguments of `measure` are not two fields; `got` counts them.
    WrongArgCount { got: usize },
    /// A field of `measure` is not an unsigned decimal numeral of 64 bits;
    /// `raw_text` is the field as it was sent.
    NotANumber { field: Field, raw_text: String },
}

/// A parsed message.
#[derive(Clone, Debug, PartialEq, Eq)]
pub enum Command {
    /// Take `amount` samples, pausing `delay_ms` milliseconds before each.
    Measure { amount: u64, delay_ms: u64 },
    /// A verb that this node does not know.
    Unknown { verb: String },
}

/// A [`ParseError`] with its text as a sequence of characters.
pub enum ParseErrorView {
    InvalidCommandString,
    MissingArgs,
    WrongArgCount { got: nat },
    NotANumber { field: Field, raw_text: Seq<char> },
}

/// A [`Command`] with its text as a sequence of characters.
pub enum CommandView {
    Measure { amount: u64, delay_ms: u64 },
    Unknown { verb: Seq<char> },
}

impl View for ParseError {
    type V = ParseErrorView;

    open spec fn view(&self) -> ParseErrorView {
        match *self {
            ParseError::InvalidCommandString => ParseErrorView::InvalidCommandString,
            ParseError::MissingArgs => ParseErrorView::MissingArgs,
            ParseError::WrongArgCount { got } => ParseErrorView::WrongArgCount { got: got as nat },
            ParseError::NotANumber { field, raw_text } => ParseErrorView::NotANumber {
                field,
                raw_text: raw_text@,
            },
        }
    }
}

impl View for Command {
    type V = CommandView;

    open spec fn view(&self) -> CommandView {
        match *self {
            Command::Measure { amount, delay_ms } => CommandView::Measure { amount, delay_ms },
            Command::Unknown { verb } => CommandView::Unknown { verb: verb@ },
        }
    }
}

/// The view of what [`parse_measure_args`] returns.
pub open spec fn args_view(r: Result<(u64, u64), ParseError>) -> Result<
    (u64, u64),
    ParseErrorView,
> {
    match r {
        Ok(pair) => Ok(pair),
        Err(e) => Err(e@),
    }
}

/// The view of what [`parse_command`] returns.
pub open spec fn parsed_view(r: Result<Command, ParseError>) -> Result<
    CommandView,
    ParseErrorView,
> {
    match r {
        Ok(command) => Ok(command@),
        Err(e) => Err(e@),
    }
}

/// The one verb that this node acts on.
pub open spec fn measure_verb() -> Seq<char> {
    seq!['m', 'e', 'a', 's', 'u', 'r', 'e']
}

/// What the arguments of `measure` read as. They are cut at every comma. Any
/// number of fields but two is an error that carries the number. Then the
/// amount is read, then the delay, and the first that is no numeral of 64 bits
/// is the error.
pub open spec fn read_measure_args(args: Seq<char>) -> Result<(u64, u64), ParseErrorView> {
    let fields = split(args, ',');
    if fields.len() != 2 {
        Err(ParseErrorView::WrongArgCount { got: fields.len() })
    } else {
        match read_u64(fields[0]) {
            None => Err(ParseErrorView::NotANumber { field: Field::Amount, raw_text: fields[0] }),
            Some(amount) => match read_u64(fields[1]) {
                None => Err(
                    ParseErrorView::NotANumber { field: Field::Delay, raw_text: fields[1] },
                ),
                Some(delay_ms) => Ok((amount, delay_ms)),
            },
        }
    }
}

/// What a message reads as. The verb is what stands before the first colon,
/// or the whole message where there is none; the arguments are all that
/// follows that colon. An empty message is an error. Any verb but `measure`
/// is an unknown command, whatever follows it. `measure` without a colon
/// lacks its arguments.
pub open spec fn read_command(text: Seq<char>) -> Result<CommandView, ParseErrorView> {
    let colon = first_index(text, ':');
    let verb = text.take(colon);
    if text.len() == 0 {
        Err(ParseErrorView::InvalidCommandString)
    } else if verb != measure_verb() {
        Ok(CommandView::Unknown { verb })
    } else if colon == text.len() {
        Err(ParseErrorView::MissingArgs)
    } else {
        match read_measure_args(text.skip(colon + 1)) {
            Ok((amount, delay_ms)) => Ok(CommandView::Measure { amount, delay_ms }),
            Err(e) => Err(e),
        }
    }
}

/// Reads the arguments of `measure`: the amount and the delay, in that order.
pub fn parse_measure_args(arg_string: &str) -> (r: Result<(u64, u64), ParseError>)
    ensures
        args_view(r) == read_measure_args(arg_string@),
{
    let args: Vec<&str> = split_text(arg_string, ',');
    assert(piece_views(args@).len() == args@.len());
    if args.len() != 2 {
        return Err(ParseError::WrongArgCount { got: args.len() });
    }
    assert(piece_views(args@)[0] == args@[0]@);
    assert(piece_views(args@)[1] == args@[1]@);
    let amount: u64 = match parse_u64(args[0]) {
        Some(num) => num,
        None => {
            return Err(
                ParseError::NotANumber { field: Field::Amount, raw_text: String::from_str(args[0]) },
            );
        },
    };
    let delay_ms: u64 = match parse_u64(args[1]) {
        Some(num) => num,
        None => {
            return Err(
                ParseError::NotANumber { field: Field::Delay, raw_text: String::from_str(args[1]) },
            );
        },
    };
    Ok((amount, delay_ms))
}

/// Reads one message.
pub fn parse_command(text: &str) -> (r: Result<Command, ParseError>)
    ensures
        parsed_view(r) == read_command(text@),
{
    let n: usize = text.unicode_len();
    if n == 0 {
        return Err(ParseError::InvalidCommandString);
    }
    let colon: usize = find(text, ':');
    let verb: String = String::from_str(text.substring_char(0, colon));
    assert(verb@ =~= text@.take(colon as int));
    let known: String = String::from_str("measure");
    proof {
        reveal_strlit("measure");
        assert(known@ =~= measure_verb());
    }
    if verb != known {
        return Ok(Command::Unknown { verb });
    }
    if colon == n {
        return Err(ParseError::MissingArgs);
    }
    let args: &str = text.substring_char(colon + 1, n);
    assert(args@ =~= text@.skip(colon + 1));
    match parse_measure_args(args) {
        Ok((amount, delay_ms)) => Ok(Command::Measure { amount, delay_ms }),
        Err(e) => Err(e),
    }
}

} // verus!
