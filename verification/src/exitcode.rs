//! Configuration values (exit mode, buffer size) and exit-status
//! classification: everything that decides which exit code the tool itself
//! reports.

use vstd::prelude::*;
use vstd::string::StrSliceExecFns;

verus! {

/// Whether a character is a decimal digit.
pub open spec fn is_digit(c: char) -> bool {
    48 <= (c as u32) <= 57
}

/// The numeric value of a decimal digit character.
pub open spec fn digit_value(c: char) -> int {
    (c as u32) - 48
}

/// Whether every character of the sequence is a decimal digit.
pub open spec fn all_digits(s: Seq<char>) -> bool {
    forall|i: int| 0 <= i < s.len() ==> is_digit(#[trigger] s[i])
}

/// The number denoted by a sequence of decimal digits, most significant
/// first.
pub open spec fn digits_value(s: Seq<char>) -> int
    decreases s.len(),
{
    if s.len() == 0 {
        0
    } else {
        digits_value(s.drop_last()) * 10 + digit_value(s.last())
    }
}

/// The digit part of an unsigned decimal string: everything after an
/// optional leading plus sign.
pub open spec fn unsigned_digits(s: Seq<char>) -> Seq<char> {
    if s.len() > 0 && s[0] == '+' {
        s.drop_first()
    } else {
        s
    }
}

/// Whether the string is an unsigned decimal number: an optional plus sign
/// followed by at least one digit.
pub open spec fn is_unsigned_dec(s: Seq<char>) -> bool {
    unsigned_digits(s).len() > 0 && all_digits(unsigned_digits(s))
}

/// The number denoted by an unsigned decimal string.
pub open spec fn unsigned_dec_value(s: Seq<char>) -> int {
    digits_value(unsigned_digits(s))
}

/// The digit part of a signed decimal string: everything after an optional
/// leading plus or minus sign.
pub open spec fn signed_digits(s: Seq<char>) -> Seq<char> {
    if s.len() > 0 && (s[0] == '+' || s[0] == '-') {
        s.drop_first()
    } else {
        s
    }
}

/// Whether the string is a signed decimal number: an optional sign followed
/// by at least one digit.
pub open spec fn is_signed_dec(s: Seq<char>) -> bool {
    signed_digits(s).len() > 0 && all_digits(signed_digits(s))
}

/// The number denoted by a signed decimal string.
pub open spec fn signed_dec_value(s: Seq<char>) -> int {
    if s.len() > 0 && s[0] == '-' {
        -digits_value(signed_digits(s))
    } else {
        digits_value(signed_digits(s))
    }
}

/// Whether the string denotes a buffer size representable as a `usize`.
pub open spec fn valid_usize_str(s: Seq<char>) -> bool {
    is_unsigned_dec(s) && unsigned_dec_value(s) <= usize::MAX
}

/// Whether the string denotes a number representable as an `i32`.
pub open spec fn valid_i32_str(s: Seq<char>) -> bool {
    is_signed_dec(s) && i32::MIN <= signed_dec_value(s) <= i32::MAX
}

/// A digit string denotes a nonnegative number.
pub proof fn lemma_digits_value_nonneg(s: Seq<char>)
    requires
        all_digits(s),
    ensures
        digits_value(s) >= 0,
    decreases s.len(),
{
    if s.len() > 0 {
        assert(all_digits(s.drop_last()));
        lemma_digits_value_nonneg(s.drop_last());
    }
}

/// Extending a digit string to the right never decreases its value.
pub proof fn lemma_digits_value_take_le(s: Seq<char>, k: int)
    requires
        all_digits(s),
        0 <= k <= s.len(),
    ensures
        digits_value(s.take(k)) <= digits_value(s),
    decreases s.len() - k,
{
    if k == s.len() {
        assert(s.take(k) =~= s);
    } else {
        assert(s.take(k + 1).drop_last() =~= s.take(k));
        assert(s.take(k + 1).last() == s[k]);
        assert(all_digits(s.take(k)));
        lemma_digits_value_nonneg(s.take(k));
        assert(digits_value(s.take(k)) <= digits_value(s.take(k + 1)));
        lemma_digits_value_take_le(s, k + 1);
    }
}

/// Parses an unsigned decimal string into a `usize`, accepting exactly the
/// strings whose value fits.
fn parse_usize_str(s: &str) -> (r: Option<usize>)
    ensures
        r is Some <==> valid_usize_str(s@),
        r is Some ==> r.unwrap() == unsigned_dec_value(s@),
{
    let n = s.unicode_len();
    let mut start: usize = 0;
    if n > 0 && s.get_char(0) == '+' {
        start = 1;
    }
    proof {
        assert(s@.subrange(start as int, n as int) =~= unsigned_digits(s@));
    }
    if start >= n {
        return None;
    }
    let mut i: usize = start;
    let mut acc: usize = 0;
    proof {
        assert(s@.subrange(start as int, start as int) =~= Seq::<char>::empty());
    }
    while i < n
        invariant
            n == s@.len(),
            start <= i <= n,
            start < n,
            s@.subrange(start as int, n as int) == unsigned_digits(s@),
            all_digits(s@.subrange(start as int, i as int)),
            acc == digits_value(s@.subrange(start as int, i as int)),
        decreases n - i,
    {
        let c = s.get_char(i);
        let u = c as u32;
        if u < 48 || u > 57 {
            proof {
                assert(!is_digit(s@[i as int]));
                assert(unsigned_digits(s@)[i - start] == s@[i as int]);
            }
            return None;
        }
        let d = (u - 48) as usize;
        let ghost prefix = s@.subrange(start as int, i as int);
        let ghost prefix1 = s@.subrange(start as int, i as int + 1);
        proof {
            assert(prefix1.drop_last() =~= prefix);
            assert(prefix1.last() == s@[i as int]);
            assert(all_digits(prefix1));
            assert(digits_value(prefix1) == acc * 10 + d);
        }
        if acc > (usize::MAX - d) / 10 {
            proof {
                assert(acc * 10 + d > usize::MAX) by (nonlinear_arith)
                    requires
                        acc > (usize::MAX - d) / 10,
                        d <= 9,
                ;
                let digits = unsigned_digits(s@);
                if all_digits(digits) {
                    assert(prefix1 =~= digits.take(i + 1 - start));
                    lemma_digits_value_take_le(digits, i + 1 - start);
                    assert(unsigned_dec_value(s@) > usize::MAX);
                }
            }
            return None;
        }
        proof {
            assert(acc * 10 + d <= usize::MAX) by (nonlinear_arith)
                requires
                    acc <= (usize::MAX - d) / 10,
                    d <= 9,
            ;
        }
        acc = acc * 10 + d;
        i = i + 1;
    }
    proof {
        assert(s@.subrange(start as int, n as int) == unsigned_digits(s@));
    }
    Some(acc)
}

/// Parses a signed decimal string into an `i32`, accepting exactly the
/// strings whose value fits.
fn parse_i32_str(s: &str) -> (r: Option<i32>)
    ensures
        r is Some <==> valid_i32_str(s@),
        r is Some ==> r.unwrap() == signed_dec_value(s@),
{
    let n = s.unicode_len();
    let mut start: usize = 0;
    let mut negative = false;
    if n > 0 {
        let c0 = s.get_char(0);
        if c0 == '+' {
            start = 1;
        } else if c0 == '-' {
            start = 1;
            negative = true;
        }
    }
    proof {
        assert(s@.subrange(start as int, n as int) =~= signed_digits(s@));
    }
    if start >= n {
        return None;
    }
    let limit: u32 = if negative {
        2147483648
    } else {
        2147483647
    };
    let mut i: usize = start;
    let mut acc: u32 = 0;
    proof {
        assert(s@.subrange(start as int, start as int) =~= Seq::<char>::empty());
    }
    while i < n
        invariant
            n == s@.len(),
            start <= i <= n,
            start < n,
            negative ==> s@[0] == '-',
            !negative ==> (s@.len() == 0 || s@[0] != '-'),
            limit == if negative { 2147483648u32 } else { 2147483647u32 },
            s@.subrange(start as int, n as int) == signed_digits(s@),
            all_digits(s@.subrange(start as int, i as int)),
            acc <= limit,
            acc == digits_value(s@.subrange(start as int, i as int)),
        decreases n - i,
    {
        let c = s.get_char(i);
        let u = c as u32;
        if u < 48 || u > 57 {
            proof {
                assert(!is_digit(s@[i as int]));
                assert(signed_digits(s@)[i - start] == s@[i as int]);
            }
            return None;
        }
        let d = u - 48;
        let ghost prefix = s@.subrange(start as int, i as int);
        let ghost prefix1 = s@.subrange(start as int, i as int + 1);
        proof {
            assert(prefix1.drop_last() =~= prefix);
            assert(prefix1.last() == s@[i as int]);
            assert(all_digits(prefix1));
            assert(digits_value(prefix1) == acc * 10 + d);
        }
        if acc > (limit - d) / 10 {
            proof {
                assert(acc * 10 + d > limit) by (nonlinear_arith)
                    requires
                        acc > (limit - d) / 10,
                        d <= 9,
                        d <= limit,
                ;
                let digits = signed_digits(s@);
                if all_digits(digits) {
                    assert(prefix1 =~= digits.take(i + 1 - start));
                    lemma_digits_value_take_le(digits, i + 1 - start);
                    assert(digits_value(digits) > limit);
                }
            }
            return None;
        }
        proof {
            assert(acc * 10 + d <= limit) by (nonlinear_arith)
                requires
                    acc <= (limit - d) / 10,
                    d <= 9,
                    d <= limit,
            ;
        }
        acc = acc * 10 + d;
        i = i + 1;
    }
    proof {
        assert(s@.subrange(start as int, n as int) == signed_digits(s@));
    }
    if negative {
        let wide: i64 = -(acc as i64);
        Some(wide as i32)
    } else {
        Some(acc as i32)
    }
}

/// Parses the `--buffer-size` value: an unsigned decimal number that must
/// be at least 1.
pub fn parse_buffer_size(s: &str) -> (r: Result<usize, String>)
    ensures
        match r {
            Ok(v) => valid_usize_str(s@) && v == unsigned_dec_value(s@) && v >= 1,
            Err(_) => !valid_usize_str(s@) || unsigned_dec_value(s@) == 0,
        },
{
    match parse_usize_str(s) {
        Some(v) => {
            if v == 0 {
                Err("buffer size must be at least 1".to_owned())
            } else {
                Ok(v)
            }
        },
        None => Err("invalid buffer size".to_owned()),
    }
}

/// The characters of the literal exit-mode keyword that mirrors the failing
/// command's own exit code.
pub open spec fn mirror_chars() -> Seq<char> {
    seq!['m', 'i', 'r', 'r', 'o', 'r']
}

/// Whether the string is exactly the mirror keyword.
fn is_mirror(s: &str) -> (r: bool)
    ensures
        r == (s@ == mirror_chars()),
{
    let n = s.unicode_len();
    if n != 6 {
        return false;
    }
    let r = s.get_char(0) == 'm' && s.get_char(1) == 'i' && s.get_char(2) == 'r' && s.get_char(3)
        == 'r' && s.get_char(4) == 'o' && s.get_char(5) == 'r';
    proof {
        if r {
            assert(s@ =~= mirror_chars());
        }
    }
    r
}

/// What the tool's own exit code should be when a command fails: a fixed
/// configured code, or the failing command's own code.
pub enum ExitMode {
    Fixed(i32),
    Mirror,
}

impl ExitMode {
    /// The exit code this mode selects for a command that failed with
    /// `actual`.
    pub open spec fn chosen_code(self, actual: i32) -> i32 {
        match self {
            ExitMode::Fixed(code) => code,
            ExitMode::Mirror => actual,
        }
    }

    /// Parses the `--exit` value: the mirror keyword, or a decimal `i32`.
    pub fn parse(s: &str) -> (r: Result<ExitMode, String>)
        ensures
            match r {
                Ok(ExitMode::Mirror) => s@ == mirror_chars(),
                Ok(ExitMode::Fixed(code)) => s@ != mirror_chars() && valid_i32_str(s@) && code
                    == signed_dec_value(s@),
                Err(_) => s@ != mirror_chars() && !valid_i32_str(s@),
            },
    {
        if is_mirror(s) {
            Ok(ExitMode::Mirror)
        } else {
            match parse_i32_str(s) {
                Some(code) => Ok(ExitMode::Fixed(code)),
                None => Err("invalid exit code: use an integer or the mirror keyword".to_owned()),
            }
        }
    }

    /// The exit code to report when a command failed with `actual`.
    pub fn code(&self, actual: i32) -> (r: i32)
        ensures
            r == self.chosen_code(actual),
    {
        match self {
            ExitMode::Fixed(code) => *code,
            ExitMode::Mirror => actual,
        }
    }
}

/// Classifies how a child process ended into a single signed exit code: a
/// normal exit code is used verbatim; termination by a signal maps to 128
/// plus the signal number; anything else defaults to 1.
pub fn status_to_exit_code(code: Option<i32>, signal: Option<i32>) -> (r: i32)
    requires
        code is None && signal is Some ==> signal.unwrap() <= i32::MAX - 128,
    ensures
        code is Some ==> r == code.unwrap(),
        code is None && signal is Some ==> r == 128 + signal.unwrap(),
        code is None && signal is None ==> r == 1,
{
    match code {
        Some(c) => c,
        None => match signal {
            Some(sig) => 128 + sig,
            None => 1,
        },
    }
}

/// Why a command could not be run to completion by the runner itself, as
/// opposed to the command failing on its own.
#[derive(Clone, Copy, Debug, PartialEq, Eq, Structural)]
pub enum RunError {
    /// The command string could not be tokenized, or held no tokens.
    Parse,
    /// The program was not found at spawn time.
    SpawnNotFound,
    /// The program could not be spawned for another reason.
    SpawnOther,
    /// Reading the child's output failed.
    Read,
    /// Waiting for the child's exit status failed.
    Wait,
    /// An output reader task ended abnormally.
    ReaderPanic,
    /// A redirected pipe handle was missing on the child.
    MissingPipe,
}

/// The process exit code each runner error maps to.
pub open spec fn error_code_spec(e: RunError) -> i32 {
    match e {
        RunError::Parse => 2,
        RunError::SpawnNotFound => 127,
        RunError::SpawnOther => 126,
        RunError::Read => 125,
        RunError::Wait => 125,
        RunError::ReaderPanic => 125,
        RunError::MissingPipe => 125,
    }
}

/// Maps a runner error to the process exit code operators see: 2 for a
/// command string that does not parse, 127 for a missing program, 126 for
/// another launch failure, 125 for any capture or wait fault of the runner
/// itself.
pub fn error_exit_code(e: &RunError) -> (r: i32)
    ensures
        r == error_code_spec(*e),
{
    match e {
        RunError::Parse => 2,
        RunError::SpawnNotFound => 127,
        RunError::SpawnOther => 126,
        RunError::Read => 125,
        RunError::Wait => 125,
        RunError::ReaderPanic => 125,
        RunError::MissingPipe => 125,
    }
}

/// What the sequencer does after one command has run.
#[derive(Debug, PartialEq, Eq, Structural)]
pub enum NextStep {
    /// The command succeeded: run the next one.
    Continue,
    /// The command failed: stop the run and exit with the given code.
    Stop(i32),
}

/// The sequencer's decision after a command exited with `exit_code`: keep
/// going on success, stop with the configured failure code otherwise.
pub fn next_step(mode: &ExitMode, exit_code: i32) -> (r: NextStep)
    ensures
        exit_code == 0 ==> r == NextStep::Continue,
        exit_code != 0 ==> r == NextStep::Stop(mode.chosen_code(exit_code)),
{
    if exit_code == 0 {
        NextStep::Continue
    } else {
        NextStep::Stop(mode.code(exit_code))
    }
}

/// How many commands a fail-fast run attempts, given the exit code each
/// command would produce if it ran: commands run in order while they exit
/// with 0, and the first nonzero exit is the last command attempted.
pub open spec fn episodes(outcomes: Seq<i32>) -> nat
    decreases outcomes.len(),
{
    if outcomes.len() == 0 {
        0
    } else if outcomes[0] == 0 {
        1 + episodes(outcomes.drop_first())
    } else {
        1
    }
}

/// Fail-fast law: when the first `k` commands succeed and command `k`
/// fails, exactly `k + 1` commands are attempted — never more.
pub proof fn lemma_fail_fast(outcomes: Seq<i32>, k: int)
    requires
        0 <= k < outcomes.len(),
        forall|i: int| 0 <= i < k ==> #[trigger] outcomes[i] == 0,
        outcomes[k] != 0,
    ensures
        episodes(outcomes) == k + 1,
    decreases k,
{
    if k > 0 {
        let rest = outcomes.drop_first();
        assert forall|i: int| 0 <= i < k - 1 implies #[trigger] rest[i] == 0 by {
            assert(outcomes[i + 1] == 0);
        }
        assert(rest[k - 1] != 0);
        lemma_fail_fast(rest, k - 1);
    }
}

/// A run with no failures attempts every command.
pub proof fn lemma_all_succeed(outcomes: Seq<i32>)
    requires
        forall|i: int| 0 <= i < outcomes.len() ==> #[trigger] outcomes[i] == 0,
    ensures
        episodes(outcomes) == outcomes.len(),
    decreases outcomes.len(),
{
    if outcomes.len() > 0 {
        let rest = outcomes.drop_first();
        assert forall|i: int| 0 <= i < rest.len() implies #[trigger] rest[i] == 0 by {
            assert(outcomes[i + 1] == 0);
        }
        lemma_all_succeed(rest);
    }
}

} // verus!
