//! The command line.
use vstd::prelude::*;
use vstd::string::*;

use crate::text::{same_text, texts};

verus! {

/// What the command line asks for.
pub enum Command {
    /// Show how the program is used.
    Help,
    /// Pack a directory of assets into a container, with that many threads.
    Pack { assets: String, output: String, threads: usize },
    /// Unpack a container into a directory.
    Unpack { input: String, output: String },
    /// Something that is not known.
    Unknown { command: String },
}

/// What a [`Command`] says.
#[verifier::ext_equal]
pub enum CommandView {
    Help,
    Pack { assets: Seq<char>, output: Seq<char>, threads: usize },
    Unpack { input: Seq<char>, output: Seq<char> },
    Unknown { command: Seq<char> },
}

impl View for Command {
    type V = CommandView;

    open spec fn view(&self) -> CommandView {
        match self {
            Command::Help => CommandView::Help,
            Command::Pack { assets, output, threads } => CommandView::Pack {
                assets: assets@,
                output: output@,
                threads: *threads,
            },
            Command::Unpack { input, output } => CommandView::Unpack {
                input: input@,
                output: output@,
            },
            Command::Unknown { command } => CommandView::Unknown { command: command@ },
        }
    }
}

/// Whether a character is a decimal digit.
pub open spec fn is_digit(c: char) -> bool {
    48 <= c as int && c as int <= 57
}

/// The number that digits write.
pub open spec fn digits_value(digits: Seq<char>) -> int
    decreases digits.len(),
{
    if digits.len() == 0 {
        0
    } else {
        10 * digits_value(digits.drop_last()) + (digits.last() as int - 48)
    }
}

/// A text without the plus sign that it may begin with.
pub open spec fn unsigned(text: Seq<char>) -> Seq<char> {
    if text.len() > 0 && text[0] == '+' {
        text.drop_first()
    } else {
        text
    }
}

/// The number that a text writes: digits, behind a plus sign or not, of no more than a machine word
/// can hold.
pub open spec fn number_of(text: Seq<char>) -> Option<usize> {
    let digits = unsigned(text);
    if digits.len() > 0 && (forall|i: int| 0 <= i < digits.len() ==> is_digit(#[trigger] digits[i]))
        && digits_value(digits) <= usize::MAX {
        Some(digits_value(digits) as usize)
    } else {
        None
    }
}

/// Reads a number.
pub fn parse_number(text: &str) -> (number: Option<usize>)
    ensures
        number == number_of(text@),
{
    let count: usize = text.unicode_len();
    let from: usize = if count > 0 && text.get_char(0) == '+' {
        1
    } else {
        0
    };
    let ghost digits = unsigned(text@);
    assert(digits =~= text@.skip(from as int));
    if from == count {
        return None;
    }
    let mut value: usize = 0;
    let mut i: usize = from;
    let mut fits: bool = true;
    assert(digits.take(0) =~= Seq::<char>::empty());
    while i < count
        invariant
            count == text@.len(),
            from <= i <= count,
            digits == unsigned(text@),
            digits == text@.skip(from as int),
            forall|k: int| 0 <= k < i - from ==> is_digit(#[trigger] digits[k]),
            fits ==> value == digits_value(digits.take(i - from)),
            !fits ==> digits_value(digits.take(i - from)) > usize::MAX,
        decreases count - i,
    {
        let code: u32 = text.get_char(i) as u32;
        assert(text@[i as int] == digits[i - from]);
        if code < 48 || code > 57 {
            assert(!is_digit(digits[i - from]));
            return None;
        }
        proof {
            let next = digits.take(i - from + 1);
            assert(next.drop_last() =~= digits.take(i - from));
            assert(next.last() == digits[i - from]);
        }
        let digit: u32 = code - 48;
        if fits {
            let bigger: u128 = 10 * (value as u128) + digit as u128;
            if bigger > usize::MAX as u128 {
                fits = false;
            } else {
                value = bigger as usize;
            }
        }
        i = i + 1;
    }
    assert(digits.take(count - from) =~= digits);
    if fits {
        Some(value)
    } else {
        None
    }
}

/// Whether a text begins with the option for threads.
pub open spec fn begins_as_option(text: Seq<char>) -> bool {
    text.len() >= 2 && text[0] == '-' && text[1] == 'j'
}

/// The number of threads that the arguments from `i` on ask for, `threads` being asked for so far.
pub open spec fn threads_asked(args: Seq<Seq<char>>, i: int, threads: usize) -> usize
    decreases args.len() - i,
{
    if i < 0 || i >= args.len() {
        threads
    } else if args[i] == "-j"@ {
        if i + 1 < args.len() && number_of(args[i + 1]) is Some {
            threads_asked(args, i + 2, number_of(args[i + 1])->0)
        } else {
            threads_asked(args, i + 1, threads)
        }
    } else if begins_as_option(args[i]) && number_of(args[i].skip(2)) is Some {
        threads_asked(args, i + 1, number_of(args[i].skip(2))->0)
    } else {
        threads_asked(args, i + 1, threads)
    }
}

/// What the arguments ask for, the first being the name of the program.
pub open spec fn command_of(args: Seq<Seq<char>>, threads: usize) -> CommandView {
    if args.len() < 2 || args.contains("-h"@) || args.contains("--help"@) {
        CommandView::Help
    } else if args[1] == "pack"@ {
        if args.len() < 4 {
            CommandView::Help
        } else {
            CommandView::Pack {
                assets: args[2],
                output: args[3],
                threads: threads_asked(args, 4, threads),
            }
        }
    } else if args[1] == "unpack"@ {
        if args.len() < 4 {
            CommandView::Help
        } else {
            CommandView::Unpack { input: args[2], output: args[3] }
        }
    } else {
        CommandView::Unknown { command: args[1] }
    }
}

/// Whether one of the arguments is this text.
fn has_argument(args: &Vec<String>, text: &str) -> (has: bool)
    ensures
        has == texts(args@).contains(text@),
{
    let ghost views = texts(args@);
    let mut i: usize = 0;
    while i < args.len()
        invariant
            views == texts(args@),
            i <= args@.len(),
            forall|k: int| 0 <= k < i ==> #[trigger] views[k] != text@,
        decreases args@.len() - i,
    {
        assert(views[i as int] == args@[i as int]@);
        if same_text(args[i].as_str(), text) {
            assert(views.contains(text@));
            return true;
        }
        i = i + 1;
    }
    false
}

/// Reads the number of threads from the arguments behind the paths.
fn parse_threads(args: &Vec<String>, default_threads: usize) -> (threads: usize)
    ensures
        threads == threads_asked(texts(args@), 4, default_threads),
{
    let ghost views = texts(args@);
    let mut threads: usize = default_threads;
    let mut i: usize = 4;
    while i < args.len()
        invariant
            views == texts(args@),
            threads_asked(views, 4, default_threads) == threads_asked(views, i as int, threads),
        decreases args@.len() - i,
    {
        assert(views[i as int] == args@[i as int]@);
        assert(args@.len() == args.len());
        let arg: &str = args[i].as_str();
        if same_text(arg, "-j") {
            if i + 1 < args.len() {
                assert(views[i + 1] == args@[i + 1]@);
                if let Some(number) = parse_number(args[i + 1].as_str()) {
                    threads = number;
                    i = i + 1;
                }
            }
        } else {
            let count: usize = arg.unicode_len();
            if count >= 2 && arg.get_char(0) == '-' && arg.get_char(1) == 'j' {
                let rest: &str = arg.substring_char(2, count);
                assert(rest@ =~= arg@.skip(2));
                if let Some(number) = parse_number(rest) {
                    threads = number;
                }
            }
        }
        i = i + 1;
    }
    threads
}

/// Reads the command line; the first argument is the name of the program, and `default_threads`
/// stands where no number of threads is asked for.
pub fn parse_command(args: &Vec<String>, default_threads: usize) -> (command: Command)
    ensures
        command@ == command_of(texts(args@), default_threads),
{
    let ghost views = texts(args@);
    if args.len() < 2 || has_argument(args, "-h") || has_argument(args, "--help") {
        return Command::Help;
    }
    assert(views[1] == args@[1]@);
    if same_text(args[1].as_str(), "pack") {
        if args.len() < 4 {
            return Command::Help;
        }
        assert(views[2] == args@[2]@ && views[3] == args@[3]@);
        Command::Pack {
            assets: args[2].clone(),
            output: args[3].clone(),
            threads: parse_threads(args, default_threads),
        }
    } else if same_text(args[1].as_str(), "unpack") {
        if args.len() < 4 {
            return Command::Help;
        }
        assert(views[2] == args@[2]@ && views[3] == args@[3]@);
        Command::Unpack { input: args[2].clone(), output: args[3].clone() }
    } else {
        Command::Unknown { command: args[1].clone() }
    }
}

} // verus!
