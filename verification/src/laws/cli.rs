//! The command line.
use vstd::prelude::*;

use crate::cli::{
    begins_as_option, command_of, digits_value, is_digit, number_of, threads_asked, unsigned,
    Command,
};
use crate::laws::text::{decimals_write_their_number, is_number, value};
use crate::text::{decimal, texts};

verus! {

/// Whether an argument asks for help.
pub open spec fn asks_for_help(arg: String) -> bool {
    arg@ == seq!['-', 'h'] || arg@ == seq!['-', '-', 'h', 'e', 'l', 'p']
}

/// Whether no argument asks for help.
pub open spec fn no_help(args: Seq<String>) -> bool {
    forall|i: int| 0 <= i < args.len() ==> !asks_for_help(#[trigger] args[i])
}

proof fn lemma_help(args: Seq<String>)
    ensures
        (texts(args).contains("-h"@) || texts(args).contains("--help"@)) == !no_help(args),
{
    reveal_strlit("-h");
    reveal_strlit("--help");
    let views = texts(args);
    assert("-h"@ =~= seq!['-', 'h']);
    assert("--help"@ =~= seq!['-', '-', 'h', 'e', 'l', 'p']);
    if views.contains("-h"@) {
        let i = choose|i: int| 0 <= i < views.len() && views[i] == "-h"@;
        assert(asks_for_help(args[i]));
    }
    if views.contains("--help"@) {
        let i = choose|i: int| 0 <= i < views.len() && views[i] == "--help"@;
        assert(asks_for_help(args[i]));
    }
    if !no_help(args) {
        let i = choose|i: int| 0 <= i < args.len() && asks_for_help(#[trigger] args[i]);
        assert(views[i] == args[i]@);
    }
}

proof fn lemma_commands()
    ensures
        "pack"@ == seq!['p', 'a', 'c', 'k'],
        "unpack"@ == seq!['u', 'n', 'p', 'a', 'c', 'k'],
{
    reveal_strlit("pack");
    reveal_strlit("unpack");
    assert("pack"@ =~= seq!['p', 'a', 'c', 'k']);
    assert("unpack"@ =~= seq!['u', 'n', 'p', 'a', 'c', 'k']);
}

/// `unpack` with two paths, whatever follows them, unpacks the first into the second.
pub proof fn unpacking_takes_two_paths(args: Seq<String>, threads: usize, command: Command)
    requires
        command@ == command_of(texts(args), threads),
        args.len() >= 4,
        no_help(args),
        args[1]@ == seq!['u', 'n', 'p', 'a', 'c', 'k'],
    ensures
        command matches Command::Unpack { input, output } && input@ == args[2]@ && output@
            == args[3]@,
{
    lemma_help(args);
    lemma_commands();
    assert(texts(args)[1] == args[1]@);
    assert(args[1]@[0] == 'u');
    assert(seq!['p', 'a', 'c', 'k'][0] == 'p');
}

/// `pack` with two paths, whatever follows them, packs the first into the second; where nothing
/// follows, with as many threads as by default.
pub proof fn packing_takes_two_paths(args: Seq<String>, default_threads: usize, command: Command)
    requires
        command@ == command_of(texts(args), default_threads),
        args.len() >= 4,
        no_help(args),
        args[1]@ == seq!['p', 'a', 'c', 'k'],
    ensures
        command matches Command::Pack { assets, output, threads } && assets@ == args[2]@
            && output@ == args[3]@ && (args.len() == 4 ==> threads == default_threads),
{
    lemma_help(args);
    lemma_commands();
    assert(texts(args)[1] == args[1]@);
}

/// Help is shown where there is no command, where it is asked for anywhere, and where a command
/// lacks a path; and nowhere else.
pub proof fn help_is_shown_where_it_is_needed(args: Seq<String>, threads: usize, command: Command)
    requires
        command@ == command_of(texts(args), threads),
    ensures
        command is Help == (args.len() < 2 || !no_help(args) || (args.len() < 4 && (args[1]@ == seq![
            'p',
            'a',
            'c',
            'k',
        ] || args[1]@ == seq!['u', 'n', 'p', 'a', 'c', 'k']))),
{
    lemma_help(args);
    lemma_commands();
    if args.len() >= 2 {
        assert(texts(args)[1] == args[1]@);
    }
}

/// A word that is no command is given back as it is.
pub proof fn other_words_are_unknown(args: Seq<String>, threads: usize, command: Command)
    requires
        command@ == command_of(texts(args), threads),
        args.len() >= 2,
        no_help(args),
        args[1]@ != seq!['p', 'a', 'c', 'k'],
        args[1]@ != seq!['u', 'n', 'p', 'a', 'c', 'k'],
    ensures
        command matches Command::Unknown { command } && command@ == args[1]@,
{
    lemma_help(args);
    lemma_commands();
    assert(texts(args)[1] == args[1]@);
}

/// The number of threads that a command packs with.
pub open spec fn threads_of(command: Command) -> usize {
    match command {
        Command::Pack { assets, output, threads } => threads,
        _ => 0,
    }
}

/// Whether an argument begins with the option for threads.
pub open spec fn is_option(arg: Seq<char>) -> bool {
    arg.len() >= 2 && arg[0] == '-' && arg[1] == 'j'
}

proof fn lemma_option()
    ensures
        "-j"@ == seq!['-', 'j'],
{
    reveal_strlit("-j");
    assert("-j"@ =~= seq!['-', 'j']);
}

/// What one more argument changes, the last one before it being no option that waits for a number.
proof fn lemma_one_more(args: Seq<Seq<char>>, arg: Seq<char>, i: int, threads: usize)
    requires
        0 <= i <= args.len(),
        number_of(arg) is None || i == args.len() || args.last() != "-j"@,
    ensures
        threads_asked(args.push(arg), i, threads) == threads_asked(
            seq![arg],
            0,
            threads_asked(args, i, threads),
        ),
    decreases args.len() - i,
{
    let all = args.push(arg);
    if i == args.len() {
        assert(all[i] == arg);
        assert(threads_asked(all, i + 1, threads) == threads);
        reveal_with_fuel(threads_asked, 3);
    } else {
        assert(all[i] == args[i]);
        if args[i] == "-j"@ {
            if i + 1 < args.len() {
                assert(all[i + 1] == args[i + 1]);
                if number_of(args[i + 1]) is Some {
                    lemma_one_more(args, arg, i + 2, number_of(args[i + 1])->0);
                } else {
                    lemma_one_more(args, arg, i + 1, threads);
                }
            } else {
                assert(args.last() == args[i]);
                assert(all[i + 1] == arg);
                lemma_one_more(args, arg, i + 1, threads);
            }
        } else if begins_as_option(args[i]) && number_of(args[i].skip(2)) is Some {
            lemma_one_more(args, arg, i + 1, number_of(args[i].skip(2))->0);
        } else {
            lemma_one_more(args, arg, i + 1, threads);
        }
    }
}

/// A number is no text that begins with a dash.
proof fn lemma_no_number(arg: Seq<char>)
    requires
        arg.len() > 0,
        arg[0] == '-',
    ensures
        number_of(arg) is None,
{
    assert(!is_digit(unsigned(arg)[0]));
}

/// Whether a command packs with these arguments.
pub open spec fn packs(args: Seq<String>, default_threads: usize, command: Command) -> bool {
    &&& command@ == command_of(texts(args), default_threads)
    &&& args.len() >= 4
    &&& no_help(args)
    &&& args[1]@ == seq!['p', 'a', 'c', 'k']
}

proof fn lemma_packs(args: Seq<String>, default_threads: usize, command: Command)
    requires
        packs(args, default_threads, command),
    ensures
        threads_of(command) == threads_asked(texts(args), 4, default_threads),
{
    packing_takes_two_paths(args, default_threads, command);
    lemma_help(args);
    lemma_commands();
    assert(texts(args)[1] == args[1]@);
}

/// `-jN` at the end asks for N threads, whatever stands before it.
pub proof fn the_last_option_counts(
    args: Seq<String>,
    option: String,
    number: usize,
    default_threads: usize,
    command: Command,
)
    requires
        args.len() >= 4,
        packs(args.push(option), default_threads, command),
        is_option(option@),
        number_of(option@.skip(2)) == Some(number),
    ensures
        threads_of(command) == number,
{
    let views = texts(args);
    lemma_packs(args.push(option), default_threads, command);
    assert(texts(args.push(option)) =~= views.push(option@));
    lemma_no_number(option@);
    lemma_one_more(views, option@, 4, default_threads);
    lemma_option();
    assert(number_of(Seq::<char>::empty()) is None);
    if option@ == "-j"@ {
        assert(option@.skip(2) =~= Seq::<char>::empty());
    }
    reveal_with_fuel(threads_asked, 3);
}

/// `-j` and a number at the end ask for that many threads, whatever stands before them.
pub proof fn an_option_takes_the_next_number(
    args: Seq<String>,
    option: String,
    word: String,
    number: usize,
    default_threads: usize,
    command: Command,
)
    requires
        args.len() >= 4,
        packs(args.push(option).push(word), default_threads, command),
        option@ == seq!['-', 'j'],
        number_of(word@) == Some(number),
    ensures
        threads_of(command) == number,
{
    let views = texts(args);
    let all = views.push(option@).push(word@);
    lemma_packs(args.push(option).push(word), default_threads, command);
    assert(texts(args.push(option).push(word)) =~= all);
    lemma_option();
    lemma_two_more(views, word@, 4, default_threads);
}

proof fn lemma_two_more(args: Seq<Seq<char>>, word: Seq<char>, i: int, threads: usize)
    requires
        0 <= i <= args.len(),
        number_of(word) is Some,
    ensures
        threads_asked(args.push("-j"@).push(word), i, threads) == number_of(word)->0,
    decreases args.len() - i,
{
    let all = args.push("-j"@).push(word);
    lemma_option();
    lemma_no_number("-j"@);
    if i == args.len() {
        assert(all[i] == "-j"@);
        assert(all[i + 1] == word);
        assert(threads_asked(all, i + 2, number_of(word)->0) == number_of(word)->0);
    } else {
        assert(all[i] == args[i]);
        if args[i] == "-j"@ {
            if i + 1 < args.len() {
                assert(all[i + 1] == args[i + 1]);
                if number_of(args[i + 1]) is Some {
                    lemma_two_more(args, word, i + 2, number_of(args[i + 1])->0);
                } else {
                    lemma_two_more(args, word, i + 1, threads);
                }
            } else {
                assert(all[i + 1] == "-j"@);
                lemma_two_more(args, word, i + 1, threads);
            }
        } else if begins_as_option(args[i]) && number_of(args[i].skip(2)) is Some {
            lemma_two_more(args, word, i + 1, number_of(args[i].skip(2))->0);
        } else {
            lemma_two_more(args, word, i + 1, threads);
        }
    }
}

/// An argument behind the paths changes nothing if it is neither a number behind `-j` nor begins
/// with `-j` and a number.
pub proof fn other_arguments_change_nothing(
    args: Seq<String>,
    arg: String,
    default_threads: usize,
    fewer: Command,
    more: Command,
)
    requires
        packs(args, default_threads, fewer),
        packs(args.push(arg), default_threads, more),
        number_of(arg@) is None || args.len() == 4 || args.last()@ != seq!['-', 'j'],
        !is_option(arg@) || number_of(arg@.skip(2)) is None,
    ensures
        threads_of(more) == threads_of(fewer),
{
    let views = texts(args);
    lemma_packs(args, default_threads, fewer);
    lemma_packs(args.push(arg), default_threads, more);
    assert(texts(args.push(arg)) =~= views.push(arg@));
    lemma_option();
    assert(views.last() == args.last()@);
    lemma_one_more(views, arg@, 4, default_threads);
    reveal_with_fuel(threads_asked, 3);
}

/// A number is read back from its digits, with a plus sign in front or not, if it fits into a
/// machine word, and only then.
pub proof fn numbers_read_back(number: nat)
    ensures
        number_of(decimal(number)) == (if number <= usize::MAX {
            Some(number as usize)
        } else {
            None
        }),
        number_of(seq!['+'] + decimal(number)) == number_of(decimal(number)),
{
    let digits = decimal(number);
    decimals_write_their_number(number);
    lemma_digits(digits);
    assert(unsigned(digits) == digits);
    let signed = seq!['+'] + digits;
    assert(signed.drop_first() =~= digits);
}

proof fn lemma_digits(text: Seq<char>)
    requires
        is_number(text, 10),
    ensures
        digits_value(text) == value(text, 10),
        forall|i: int| 0 <= i < text.len() ==> is_digit(#[trigger] text[i]),
    decreases text.len(),
{
    if text.len() > 0 {
        let front = text.drop_last();
        assert forall|i: int| 0 <= i < front.len() implies 0
            <= crate::laws::text::digit_value(#[trigger] front[i]) < 10 by {
            assert(front[i] == text[i]);
        }
        lemma_digits(front);
        assert(0 <= crate::laws::text::digit_value(text[text.len() - 1]) < 10);
        assert forall|i: int| 0 <= i < text.len() implies is_digit(#[trigger] text[i]) by {
            assert(0 <= crate::laws::text::digit_value(text[i]) < 10);
        }
    }
}

/// A text is a number if it is digits, at least one, behind a plus sign or not, whose value fits
/// into a machine word; nothing else is one.
pub proof fn numbers_are_digits(text: Seq<char>)
    ensures
        ({
            let digits = if text.len() > 0 && text[0] == '+' {
                text.skip(1)
            } else {
                text
            };
            number_of(text) == (if digits.len() > 0 && is_number(digits, 10) && value(digits, 10)
                <= usize::MAX {
                Some(value(digits, 10) as usize)
            } else {
                None
            })
        }),
{
    let digits = if text.len() > 0 && text[0] == '+' {
        text.skip(1)
    } else {
        text
    };
    assert(unsigned(text) =~= digits);
    if is_number(digits, 10) {
        lemma_digits(digits);
    } else {
        let i = choose|i: int|
            0 <= i < digits.len() && !(0 <= crate::laws::text::digit_value(#[trigger] digits[i])
                < 10);
        assert(!is_digit(digits[i]));
    }
}

} // verus!
