//! The decisions behind the commands: which command was asked for, whether a
//! typed count of files is usable, and forgetting a tracked file.

use vstd::prelude::*;
use crate::storage::{Store, lemma_remove_forgets, is_tracked, removed, path_exists, remove_row, unique_paths, EntryView};
use crate::text::{chars_equal, trim, trimmed};

verus! {

/// A decimal digit.
pub open spec fn is_digit(c: char) -> bool {
    '0' <= c && c <= '9'
}

/// The number that a run of decimal digits spells.
pub open spec fn digits_value(s: Seq<char>) -> nat
    decreases s.len(),
{
    if s.len() == 0 {
        0
    } else {
        digits_value(s.drop_last()) * 10 + ((s.last() as nat) - ('0' as nat)) as nat
    }
}

/// What `str::parse::<u32>` accepts: an optional `+`, then one or more
/// decimal digits whose value fits in a `u32`.
pub open spec fn parse_u32_spec(s: Seq<char>) -> Option<u32> {
    if unsigned_part(s).len() > 0 && all_digits(unsigned_part(s)) && digits_value(
        unsigned_part(s),
    ) <= u32::MAX {
        Some(digits_value(unsigned_part(s)) as u32)
    } else {
        None
    }
}

/// The text after an optional leading `+`.
pub open spec fn unsigned_part(s: Seq<char>) -> Seq<char> {
    if s.len() > 0 && s[0] == '+' {
        s.drop_first()
    } else {
        s
    }
}

/// Every char is a decimal digit.
pub open spec fn all_digits(d: Seq<char>) -> bool {
    forall|i: int| 0 <= i < d.len() ==> is_digit(#[trigger] d[i])
}

proof fn lemma_digits_value_grows(s: Seq<char>, c: char)
    requires
        is_digit(c),
    ensures
        digits_value(s.push(c)) == digits_value(s) * 10 + ((c as nat) - ('0' as nat)),
        digits_value(s.push(c)) >= digits_value(s),
{
    assert(s.push(c).drop_last() =~= s);
}

/// Reads a `u32` written in decimal, as `str::parse::<u32>` does.
pub fn parse_u32(s: &str) -> (res: Option<u32>)
    ensures
        res == parse_u32_spec(s@),
{
    let n = s.unicode_len();
    let start: usize = if n > 0 && s.get_char(0) == '+' {
        1
    } else {
        0
    };
    let ghost d = unsigned_part(s@);
    assert(d =~= s@.subrange(start as int, n as int));
    if start == n {
        return None;
    }
    let mut value: u64 = 0;
    let mut i: usize = start;
    while i < n
        invariant
            n == s@.len(),
            start < n,
            start <= i <= n,
            d == s@.subrange(start as int, n as int),
            d == unsigned_part(s@),
            forall|t: int| start <= t < i ==> is_digit(#[trigger] s@[t]),
            value == digits_value(s@.subrange(start as int, i as int)),
            value <= u32::MAX,
        decreases n - i,
    {
        let c = s.get_char(i);
        if !('0' <= c && c <= '9') {
            assert(d[i - start] == s@[i as int]);
            assert(!is_digit(d[i - start]));
            assert(!all_digits(d));
            return None;
        }
        proof {
            lemma_digits_value_grows(s@.subrange(start as int, i as int), c);
            assert(s@.subrange(start as int, i as int).push(c) =~= s@.subrange(
                start as int,
                i + 1,
            ));
        }
        let digit = ((c as u32) - ('0' as u32)) as u64;
        value = value * 10 + digit;
        if value > 0xffff_ffff {
            proof {
                assert(d.take(i + 1 - start) =~= s@.subrange(start as int, i + 1));
                if all_digits(d) {
                    lemma_digits_bounded_prefix(d, (i + 1 - start) as int);
                    assert(digits_value(d) > u32::MAX);
                }
            }
            return None;
        }
        i = i + 1;
    }
    assert(s@.subrange(start as int, n as int) =~= d);
    Some(value as u32)
}

/// The value of digits only grows as more digits follow.
proof fn lemma_digits_bounded_prefix(d: Seq<char>, k: int)
    requires
        0 <= k <= d.len(),
        forall|i: int| 0 <= i < d.len() ==> is_digit(#[trigger] d[i]),
    ensures
        digits_value(d.take(k)) <= digits_value(d),
    decreases d.len() - k,
{
    if k < d.len() {
        lemma_digits_bounded_prefix(d, k + 1);
        lemma_digits_value_grows(d.take(k), d[k]);
        assert(d.take(k).push(d[k]) =~= d.take(k + 1));
    } else {
        assert(d.take(k) =~= d);
    }
}

/// Why a typed count of files is refused.
#[derive(PartialEq, Eq, Structural, Debug, Clone, Copy)]
pub enum CountError {
    /// The count is zero.
    NotPositive,
    /// The text is not a number.
    NotANumber,
}

impl CountError {
    /// The prompt shown before asking again.
    pub fn message(&self) -> (res: &'static str)
        ensures
            res@ == match *self {
                CountError::NotPositive => "Please enter a number greater than 0"@,
                CountError::NotANumber => "Please enter a valid number"@,
            },
    {
        match self {
            CountError::NotPositive => "Please enter a number greater than 0",
            CountError::NotANumber => "Please enter a valid number",
        }
    }
}

/// The outcome of reading a count from a typed line.
pub open spec fn file_count_spec(line: Seq<char>) -> Result<u32, CountError> {
    match parse_u32_spec(trimmed(line)) {
        Some(count) => if count > 0 {
            Ok(count)
        } else {
            Err(CountError::NotPositive)
        },
        None => Err(CountError::NotANumber),
    }
}

/// Reads how many files a search should return from a typed line: the line
/// without surrounding white space must be a decimal number above zero.
pub fn check_file_count(line: &str) -> (res: Result<u32, CountError>)
    ensures
        res == file_count_spec(line@),
{
    match parse_u32(trim(line)) {
        Some(count) => if count > 0 {
            Ok(count)
        } else {
            Err(CountError::NotPositive)
        },
        None => Err(CountError::NotANumber),
    }
}

/// Stops tracking `abs_path` when it is tracked; reports whether it was.
pub fn abandon_watch<V, R>(store: &mut Store<V, R>, abs_path: &str) -> (res: bool)
    ensures
        res == is_tracked(old(store)@, abs_path@),
        final(store)@ == if res {
            Some(removed(old(store)@->0, abs_path@))
        } else {
            old(store)@
        },
{
    if !path_exists(store, abs_path) {
        return false;
    }
    remove_row(store, abs_path);
    true
}

/// The commands of the command line.
#[derive(PartialEq, Eq, Structural, Debug, Clone, Copy)]
pub enum Command {
    Init,
    Watch,
    Abandon,
    Search,
    Debug,
    Shutdown,
    Help,
    Invalid,
}

pub open spec fn command_spec(word: Seq<char>) -> Command {
    if word == "init"@ {
        Command::Init
    } else if word == "watch"@ {
        Command::Watch
    } else if word == "abandon"@ {
        Command::Abandon
    } else if word == "search"@ {
        Command::Search
    } else if word == "debug"@ {
        Command::Debug
    } else if word == "shutdown"@ {
        Command::Shutdown
    } else if word == "help"@ {
        Command::Help
    } else {
        Command::Invalid
    }
}

/// The command named by the first argument.
pub fn parse_command(word: &str) -> (res: Command)
    ensures
        res == command_spec(word@),
{
    if chars_equal(word, "init") {
        Command::Init
    } else if chars_equal(word, "watch") {
        Command::Watch
    } else if chars_equal(word, "abandon") {
        Command::Abandon
    } else if chars_equal(word, "search") {
        Command::Search
    } else if chars_equal(word, "debug") {
        Command::Debug
    } else if chars_equal(word, "shutdown") {
        Command::Shutdown
    } else if chars_equal(word, "help") {
        Command::Help
    } else {
        Command::Invalid
    }
}

/// A count that is accepted is at least one.
pub proof fn lemma_accepted_count_positive(line: Seq<char>)
    ensures
        file_count_spec(line) matches Ok(count) ==> count > 0,
{
}

/// After a file is abandoned it is no longer tracked, when no path is
/// tracked twice.
pub proof fn lemma_abandon_forgets<V, R>(sv: Option<Seq<EntryView<V, R>>>, abs_path: Seq<char>)
    requires
        sv matches Some(s) ==> unique_paths(s),
    ensures
        !is_tracked(
            if is_tracked(sv, abs_path) {
                Some(removed(sv->0, abs_path))
            } else {
                sv
            },
            abs_path,
        ),
{
    if is_tracked(sv, abs_path) {
        lemma_remove_forgets(sv->0, abs_path);
    }
}

/// A count is accepted exactly when the trimmed line is a number of at least
/// one, and then it is that number; zero is refused as not positive, and
/// anything that is not a number as not a number.
pub proof fn lemma_file_count_outcomes(line: Seq<char>)
    ensures
        match parse_u32_spec(trimmed(line)) {
            Some(n) => n >= 1 ==> file_count_spec(line) == Ok::<u32, CountError>(n),
            None => true,
        },
        file_count_spec(line) == Err::<u32, CountError>(CountError::NotPositive) <==> parse_u32_spec(
            trimmed(line),
        ) == Some(0u32),
        file_count_spec(line) == Err::<u32, CountError>(CountError::NotANumber) <==> parse_u32_spec(
            trimmed(line),
        ) is None,
{
}

/// Each further decimal digit multiplies the value so far by ten and adds
/// the digit.
pub proof fn lemma_digits_value_step(s: Seq<char>, c: char)
    requires
        is_digit(c),
    ensures
        digits_value(s.push(c)) == digits_value(s) * 10 + ((c as int) - ('0' as int)),
        digits_value(seq![c]) == (c as int) - ('0' as int),
{
    lemma_digits_value_grows(s, c);
    lemma_digits_value_grows(Seq::<char>::empty(), c);
    assert(Seq::<char>::empty().push(c) =~= seq![c]);
}

/// A leading `+` does not change the number read, and text with a char
/// other than a digit (past that sign) is not a number.
pub proof fn lemma_parse_u32_sign_and_digits(s: Seq<char>)
    ensures
        s.len() > 0 && s[0] != '+' ==> parse_u32_spec(seq!['+'] + s) == parse_u32_spec(s),
        s.len() > 0 && s[0] != '+' && (exists|i: int| 0 <= i < s.len() && !is_digit(#[trigger] s[i]))
            ==> parse_u32_spec(s) is None,
        parse_u32_spec(Seq::<char>::empty()) is None,
        parse_u32_spec(seq!['+']) is None,
{
    if s.len() > 0 && s[0] != '+' {
        assert((seq!['+'] + s).drop_first() =~= s);
    }
    assert(seq!['+'].drop_first() =~= Seq::<char>::empty());
}

} // verus!
