use crate::game::Game;
use vstd::prelude::*;
use vstd::string::*;

verus! {

/// Whether `c` is white space: one of the characters to which Unicode gives
/// the property of that name. They are the tab, the line feed, the vertical
/// tab, the form feed, the carriage return, the space, the next-line
/// control, the no-break space, the Ogham space mark, the spaces from the en
/// quad to the hair space, the line and the paragraph separator, the narrow
/// no-break space, the medium mathematical space and the ideographic space.
pub open spec fn spec_is_whitespace(c: char) -> bool {
    let code = c as int;
    ||| 0x09 <= code <= 0x0d
    ||| code == 0x20
    ||| code == 0x85
    ||| code == 0xa0
    ||| code == 0x1680
    ||| 0x2000 <= code <= 0x200a
    ||| code == 0x2028
    ||| code == 0x2029
    ||| code == 0x202f
    ||| code == 0x205f
    ||| code == 0x3000
}

/// `char::is_whitespace`: true of the characters with Unicode's white-space
/// property, which [`spec_is_whitespace`] lists, and of no others.
#[verifier::external_body]
fn is_whitespace(c: char) -> (space: bool)
    ensures
        space == spec_is_whitespace(c),
{
    c.is_whitespace()
}

/// The number that the first `upto` characters of `text` write in decimal
/// digits, if they are digits all.
pub open spec fn spec_digits(text: Seq<char>, upto: int) -> Option<int>
    decreases upto,
{
    if upto <= 0 {
        Some(0)
    } else {
        match spec_digits(text, upto - 1) {
            Some(value) => if 48 <= text[upto - 1] as int <= 57 {
                Some(10 * value + (text[upto - 1] as int - 48))
            } else {
                None
            },
            None => None,
        }
    }
}

/// The number that `text` is the notation of, if it is one that does not
/// exceed `max`: decimal digits, at least one, after a plus sign or without.
pub open spec fn spec_number(text: Seq<char>, max: int) -> Option<int> {
    let signed = text.len() > 0 && text[0] == '+';
    let digits = if signed {
        text.subrange(1, text.len() as int)
    } else {
        text
    };
    if digits.len() == 0 {
        None
    } else {
        match spec_digits(digits, digits.len() as int) {
            Some(value) => if value <= max {
                Some(value)
            } else {
                None
            },
            None => None,
        }
    }
}

/// The number that `text` is the notation of, if it fits sixteen bits.
pub open spec fn spec_parse_u16(text: Seq<char>) -> Option<u16> {
    match spec_number(text, u16::MAX as int) {
        Some(value) => Some(value as u16),
        None => None,
    }
}

/// The number that `text` is the notation of, if it fits a machine word.
pub open spec fn spec_parse_usize(text: Seq<char>) -> Option<usize> {
    match spec_number(text, usize::MAX as int) {
        Some(value) => Some(value as usize),
        None => None,
    }
}

/// Digits never take from the number written before them.
proof fn lemma_digits_grow(text: Seq<char>, upto: int, all: int)
    requires
        0 <= upto <= all,
        spec_digits(text, all) is Some,
    ensures
        spec_digits(text, upto) is Some,
        0 <= spec_digits(text, upto)->0 <= spec_digits(text, all)->0,
    decreases all - upto,
{
    if upto < all {
        lemma_digits_grow(text, upto + 1, all);
    } else {
        lemma_digits_nonnegative(text, all);
    }
}

proof fn lemma_digits_nonnegative(text: Seq<char>, upto: int)
    ensures
        spec_digits(text, upto) matches Some(value) ==> value >= 0,
    decreases upto,
{
    if upto > 0 {
        lemma_digits_nonnegative(text, upto - 1);
    }
}

/// A run of digits that went wrong does not come right.
proof fn lemma_digits_fail(text: Seq<char>, upto: int, all: int)
    requires
        0 <= upto <= all,
        spec_digits(text, upto) is None,
    ensures
        spec_digits(text, all) is None,
    decreases all - upto,
{
    if upto < all {
        lemma_digits_fail(text, upto + 1, all);
    }
}

/// Reads a number that does not exceed `max`.
fn parse_number(text: &str, max: u64) -> (number: Option<u64>)
    requires
        max >= 9,
    ensures
        match number {
            Some(value) => spec_number(text@, max as int) == Some(value as int),
            None => spec_number(text@, max as int) is None,
        },
{
    let len = text.unicode_len();
    let start: usize = if len > 0 && text.get_char(0) == '+' {
        1
    } else {
        0
    };
    if start == len {
        return None;
    }
    let ghost digits = if start == 1 {
        text@.subrange(1, len as int)
    } else {
        text@
    };
    let mut value: u64 = 0;
    let mut at: usize = start;
    while at < len
        invariant
            len == text@.len(),
            start <= at <= len,
            start <= 1,
            max >= 9,
            (start == 1) == (len > 0 && text@[0] == '+'),
            digits == (if start == 1 {
                text@.subrange(1, len as int)
            } else {
                text@
            }),
            digits.len() == len - start,
            forall|k: int| 0 <= k < digits.len() ==> digits[k] == text@[start + k],
            spec_digits(digits, at - start) == Some(value as int),
            value <= max,
        decreases len - at,
    {
        let code = text.get_char(at) as u32;
        proof {
            assert(code == digits[at - start] as int);
        }
        if code < 48 || code > 57 {
            proof {
                assert(spec_digits(digits, at - start + 1) is None);
                lemma_digits_fail(digits, at - start + 1, digits.len() as int);
            }
            return None;
        }
        let digit = (code - 48) as u64;
        if value > (max - digit) / 10 {
            proof {
                let next = 10 * value + digit;
                assert(next > max) by (nonlinear_arith)
                    requires
                        value > (max - digit) / 10,
                        next == 10 * value + digit,
                        0 <= digit <= 9,
                        digit <= max,
                ;
                if spec_digits(digits, digits.len() as int) is Some {
                    lemma_digits_grow(digits, at - start + 1, digits.len() as int);
                }
            }
            return None;
        }
        proof {
            assert(10 * value + digit <= max) by (nonlinear_arith)
                requires
                    value <= (max - digit) / 10,
                    0 <= digit <= max,
            ;
        }
        value = 10 * value + digit;
        at = at + 1;
    }
    Some(value)
}

/// The number that `text` is the decimal notation of, if it fits sixteen
/// bits.
pub fn parse_u16(text: &str) -> (number: Option<u16>)
    ensures
        number == spec_parse_u16(text@),
{
    match parse_number(text, 65_535) {
        Some(value) => Some(value as u16),
        None => None,
    }
}

/// The number that `text` is the decimal notation of, if it fits a machine
/// word.
pub fn parse_usize(text: &str) -> (number: Option<usize>)
    ensures
        number == spec_parse_usize(text@),
{
    match parse_number(text, usize::MAX as u64) {
        Some(value) => Some(value as usize),
        None => None,
    }
}

/// The first index at or after `from` whose character is white space, or is
/// not, as `space` asks; the length of the line where there is none.
pub open spec fn spec_seek(line: Seq<char>, from: int, space: bool) -> int
    decreases line.len() - from,
{
    if from < 0 || from >= line.len() {
        line.len() as int
    } else if spec_is_whitespace(line[from]) == space {
        from
    } else {
        spec_seek(line, from + 1, space)
    }
}

/// The words of `line` from index `from` on: the runs of characters that
/// are not white space, each as long as it can be.
pub open spec fn spec_words(line: Seq<char>, from: int) -> Seq<Seq<char>>
    decreases line.len() - from,
{
    let start = spec_seek(line, from, false);
    let end = spec_seek(line, start, true);
    if 0 <= from <= start < end <= line.len() {
        seq![line.subrange(start, end)] + spec_words(line, end)
    } else {
        Seq::empty()
    }
}

proof fn lemma_seek(line: Seq<char>, from: int, space: bool)
    requires
        0 <= from <= line.len(),
    ensures
        from <= spec_seek(line, from, space) <= line.len(),
        spec_seek(line, from, space) < line.len() ==> spec_is_whitespace(
            line[spec_seek(line, from, space)],
        ) == space,
    decreases line.len() - from,
{
    if from < line.len() && spec_is_whitespace(line[from]) != space {
        lemma_seek(line, from + 1, space);
    }
}

fn seek(line: &str, from: usize, space: bool) -> (at: usize)
    requires
        from <= line@.len(),
    ensures
        at == spec_seek(line@, from as int, space),
        from <= at <= line@.len(),
{
    let len = line.unicode_len();
    let mut at = from;
    while at < len
        invariant
            len == line@.len(),
            from <= at <= len,
            spec_seek(line@, from as int, space) == spec_seek(line@, at as int, space),
        decreases len - at,
    {
        if is_whitespace(line.get_char(at)) == space {
            return at;
        }
        at = at + 1;
    }
    at
}

/// Splits `line` into its words.
pub fn words(line: &str) -> (words: Vec<String>)
    ensures
        words@.len() == spec_words(line@, 0).len(),
        forall|k: int| 0 <= k < words@.len() ==> (#[trigger] words@[k])@ == spec_words(line@, 0)[k],
{
    let len = line.unicode_len();
    let mut words: Vec<String> = Vec::new();
    let mut from: usize = 0;
    loop
        invariant
            len == line@.len(),
            from <= len,
            spec_words(line@, 0).len() == words@.len() + spec_words(line@, from as int).len(),
            forall|k: int|
                0 <= k < words@.len() ==> (#[trigger] words@[k])@ == spec_words(line@, 0)[k],
            forall|k: int|
                0 <= k < spec_words(line@, from as int).len() ==> spec_words(line@, 0)[words@.len()
                    + k] == #[trigger] spec_words(line@, from as int)[k],
        ensures
            words@.len() == spec_words(line@, 0).len(),
            forall|k: int|
                0 <= k < words@.len() ==> (#[trigger] words@[k])@ == spec_words(line@, 0)[k],
        decreases len - from,
    {
        let start = seek(line, from, false);
        if start >= len {
            break ;
        }
        let end = seek(line, start, true);
        proof {
            lemma_seek(line@, from as int, false);
            lemma_seek(line@, start as int, true);
            assert(end > start);
            let rest = spec_words(line@, from as int);
            assert(rest =~= seq![line@.subrange(start as int, end as int)] + spec_words(
                line@,
                end as int,
            ));
            assert(rest[0] == line@.subrange(start as int, end as int));
            assert forall|k: int|
                0 <= k < spec_words(line@, end as int).len() implies spec_words(
                line@,
                0,
            )[words@.len() + 1 + k] == #[trigger] spec_words(line@, end as int)[k] by {
                assert(rest[k + 1] == spec_words(line@, end as int)[k]);
            }
        }
        words.push(String::from_str(line.substring_char(start, end)));
        from = end;
    }
    words
}

/// Whether the two texts are the same.
pub fn same(text: &str, other: &str) -> (same: bool)
    ensures
        same == (text@ == other@),
{
    String::from_str(text) == String::from_str(other)
}

/// The command of a line: its first word, and `oops` for a line without a
/// word.
pub fn command(words: &Vec<String>) -> (command: String)
    ensures
        command@ == if words@.len() > 0 {
            words@[0]@
        } else {
            "oops"@
        },
{
    if words.len() > 0 {
        words[0].clone()
    } else {
        String::from_str("oops")
    }
}

/// What a game's front end is asked to do.
#[derive(Clone, Copy, PartialEq, Eq, Debug, Structural)]
pub enum Order {
    Quit,
    SetOption,
    Position,
    IsReady,
    Go,
    Display,
    Identify,
    NewGame,
    Stop,
    Ignore,
}

/// The order that `command` gives between searches. `name` is the word the
/// protocol is greeted with and `new_game` the word that starts a new game;
/// the fixed commands are looked for first. Anything else is ignored.
pub fn order(command: &str, name: &str, new_game: &str) -> (order: Order)
    ensures
        order == if command@ == "quit"@ {
            Order::Quit
        } else if command@ == "setoption"@ {
            Order::SetOption
        } else if command@ == "position"@ {
            Order::Position
        } else if command@ == "isready"@ {
            Order::IsReady
        } else if command@ == "go"@ {
            Order::Go
        } else if command@ == "d"@ {
            Order::Display
        } else if command@ == name@ {
            Order::Identify
        } else if command@ == new_game@ {
            Order::NewGame
        } else {
            Order::Ignore
        },
{
    if same(command, "quit") {
        Order::Quit
    } else if same(command, "setoption") {
        Order::SetOption
    } else if same(command, "position") {
        Order::Position
    } else if same(command, "isready") {
        Order::IsReady
    } else if same(command, "go") {
        Order::Go
    } else if same(command, "d") {
        Order::Display
    } else if same(command, name) {
        Order::Identify
    } else if same(command, new_game) {
        Order::NewGame
    } else {
        Order::Ignore
    }
}

/// The order that `command` gives while a search runs.
pub fn search_order(command: &str, name: &str) -> (order: Order)
    ensures
        order == if command@ == "quit"@ {
            Order::Quit
        } else if command@ == "isready"@ {
            Order::IsReady
        } else if command@ == "stop"@ {
            Order::Stop
        } else if command@ == name@ {
            Order::Identify
        } else {
            Order::Ignore
        },
{
    if same(command, "quit") {
        Order::Quit
    } else if same(command, "isready") {
        Order::IsReady
    } else if same(command, "stop") {
        Order::Stop
    } else if same(command, name) {
        Order::Identify
    } else {
        Order::Ignore
    }
}

/// What the self-play harness is asked to do.
#[derive(Clone, Copy, PartialEq, Eq, Debug, Structural)]
pub enum Control {
    /// Report the counters.
    Info,
    /// Raise the abort flag.
    Stop,
    Ignore,
}

/// The request that `command` makes of the self-play harness.
pub fn control(command: &str) -> (control: Control)
    ensures
        control == if command@ == "info"@ {
            Control::Info
        } else if command@ == "stop"@ {
            Control::Stop
        } else {
            Control::Ignore
        },
{
    if same(command, "info") {
        Control::Info
    } else if same(command, "stop") {
        Control::Stop
    } else {
        Control::Ignore
    }
}

/// Why the arguments of the self-play harness cannot be used.
#[derive(Clone, Copy, PartialEq, Eq, Debug, Structural)]
pub enum ArgsError {
    /// `--threads` is the last argument: its number is missing.
    MissingValue,
    /// What follows `--threads` is no number.
    InvalidNumber,
    /// The argument at this index is not known.
    Unknown(usize),
    /// No number of threads is given.
    MissingThreads,
}

/// What the arguments from index `at` on say, when `threads` is the number
/// of threads read so far: every `--threads` takes the argument after it for
/// its number, the last of them counts, and nothing else may occur.
pub open spec fn spec_parse_args(args: Seq<String>, at: int, threads: Option<usize>) -> Result<
    usize,
    ArgsError,
>
    decreases args.len() - at,
{
    if at < 0 || at >= args.len() {
        match threads {
            Some(threads) => Ok(threads),
            None => Err(ArgsError::MissingThreads),
        }
    } else if args[at]@ == "--threads"@ {
        if at + 1 >= args.len() {
            Err(ArgsError::MissingValue)
        } else {
            match spec_parse_usize(args[at + 1]@) {
                None => Err(ArgsError::InvalidNumber),
                Some(threads) => spec_parse_args(args, at + 2, Some(threads)),
            }
        }
    } else {
        Err(ArgsError::Unknown(at as usize))
    }
}

/// Reads the number of threads from the arguments of the process, the
/// first of which is the name of the program.
pub fn parse_args(args: &Vec<String>) -> (threads: Result<usize, ArgsError>)
    ensures
        threads == spec_parse_args(args@, 1, None),
{
    let mut threads: Option<usize> = None;
    let mut at: usize = 1;
    while at < args.len()
        invariant
            1 <= at,
            spec_parse_args(args@, 1, None) == spec_parse_args(args@, at as int, threads),
        decreases args@.len() - at,
    {
        if same(args[at].as_str(), "--threads") {
            if at + 1 >= args.len() {
                return Err(ArgsError::MissingValue);
            }
            match parse_usize(args[at + 1].as_str()) {
                None => {
                    return Err(ArgsError::InvalidNumber);
                },
                Some(number) => {
                    threads = Some(number);
                },
            }
            at = at + 2;
        } else {
            return Err(ArgsError::Unknown(at));
        }
    }
    match threads {
        Some(threads) => Ok(threads),
        None => Err(ArgsError::MissingThreads),
    }
}

/// Why a `position` command cannot be followed.
#[derive(Clone, Copy, PartialEq, Eq, Debug, Structural)]
pub enum PositionError {
    /// The word at this index is taken for a position but does not describe
    /// one.
    Notation(usize),
    /// The word at this index is taken for a move but is no number.
    Number(usize),
    /// The word at this index is a number but no legal move where it stands.
    Illegal(usize),
}

/// What the words of a `position` command from word `at` on make of
/// position `pos`. Until a position has been named, which `started` tells,
/// the word `position` and the word `notation` are passed over, `startpos`
/// names the default position, and any other word is taken for the
/// description of a position. Every word after that is the code of a move,
/// which has to be legal where it is played.
pub open spec fn spec_position<G: Game>(
    pos: G,
    commands: Seq<String>,
    notation: Seq<char>,
    at: int,
    started: bool,
) -> Result<G, PositionError>
    decreases commands.len() - at,
{
    if at < 0 || at >= commands.len() {
        Ok(pos)
    } else if started {
        match spec_parse_u16(commands[at]@) {
            None => Err(PositionError::Number(at as usize)),
            Some(mov) => if pos.spec_legal_moves().contains(mov) {
                spec_position(pos.spec_make_move(mov), commands, notation, at + 1, true)
            } else {
                Err(PositionError::Illegal(at as usize))
            },
        }
    } else if commands[at]@ == "position"@ {
        spec_position(pos, commands, notation, at + 1, false)
    } else if commands[at]@ == "startpos"@ {
        spec_position(G::spec_default(), commands, notation, at + 1, true)
    } else if commands[at]@ == notation {
        spec_position(pos, commands, notation, at + 1, false)
    } else {
        match G::spec_from_notation(commands[at]@) {
            None => Err(PositionError::Notation(at as usize)),
            Some(named) => spec_position(named, commands, notation, at + 1, true),
        }
    }
}

/// Follows a `position` command, whose words are `commands`, from position
/// `from`, and returns the position it leads to.
pub fn position<G: Game>(from: G, commands: &Vec<String>, notation: &str) -> (result: Result<
    G,
    PositionError,
>)
    ensures
        result == spec_position(from, commands@, notation@, 0, false),
{
    let mut pos = from;
    let mut started = false;
    let mut at: usize = 0;
    while at < commands.len()
        invariant
            at <= commands@.len(),
            spec_position(from, commands@, notation@, 0, false) == spec_position(
                pos,
                commands@,
                notation@,
                at as int,
                started,
            ),
        decreases commands@.len() - at,
    {
        let word = commands[at].as_str();
        proof {
            let here = spec_position(pos, commands@, notation@, at as int, started);
            assert(here == if started {
                match spec_parse_u16(commands@[at as int]@) {
                    None => Err(PositionError::Number(at)),
                    Some(mov) => if pos.spec_legal_moves().contains(mov) {
                        spec_position(pos.spec_make_move(mov), commands@, notation@, at + 1, true)
                    } else {
                        Err(PositionError::Illegal(at))
                    },
                }
            } else if commands@[at as int]@ == "position"@ {
                spec_position(pos, commands@, notation@, at + 1, false)
            } else if commands@[at as int]@ == "startpos"@ {
                spec_position(G::spec_default(), commands@, notation@, at + 1, true)
            } else if commands@[at as int]@ == notation@ {
                spec_position(pos, commands@, notation@, at + 1, false)
            } else {
                match G::spec_from_notation(commands@[at as int]@) {
                    None => Err(PositionError::Notation(at)),
                    Some(named) => spec_position(named, commands@, notation@, at + 1, true),
                }
            });
        }
        if started {
            match parse_u16(word) {
                None => {
                    return Err(PositionError::Number(at));
                },
                Some(mov) => {
                    let moves = pos.get_legal_moves();
                    if !contains(&moves, mov) {
                        return Err(PositionError::Illegal(at));
                    }
                    pos.make_move(mov);
                },
            }
        } else if same(word, "position") {
        } else if same(word, "startpos") {
            pos = G::default();
            started = true;
        } else if same(word, notation) {
        } else {
            match G::from_notation(word) {
                None => {
                    return Err(PositionError::Notation(at));
                },
                Some(named) => {
                    pos = named;
                    started = true;
                },
            }
        }
        at = at + 1;
    }
    Ok(pos)
}

/// Whether `mov` is among `moves`.
pub fn contains(moves: &Vec<u16>, mov: u16) -> (found: bool)
    ensures
        found == moves@.contains(mov),
{
    let mut k: usize = 0;
    while k < moves.len()
        invariant
            k <= moves@.len(),
            forall|j: int| 0 <= j < k ==> moves@[j] != mov,
        decreases moves@.len() - k,
    {
        if moves[k] == mov {
            return true;
        }
        k = k + 1;
    }
    false
}

} // verus!
