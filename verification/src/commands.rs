//! The command language of the interactive shell.
//!
//! The shell reads one line at a time; this module decides what the line
//! means. Numeric arguments are parsed as fixed-point ticks (see
//! [`crate::models::api_models::PRICE_SCALE`]), so the decision is exact
//! and the shell itself only performs the chosen action.

use crate::api::{all_digits, digits_value, is_digit, spec_find};
use crate::models::api_models::PRICE_SCALE;
use vstd::prelude::*;
use vstd::string::StrSliceExecFns;
use vstd::string::StringExecFns;

verus! {

/// A command's argument: absent, unreadable, or a value.
#[derive(Clone, Copy, Debug, PartialEq, Eq, Structural)]
pub enum CommandArg<T> {
    /// The command came without an argument; the shell ignores the line.
    Missing,
    /// The argument did not parse; the shell reports it.
    Invalid,
    Value(T),
}

/// One line of the shell, decided. Volumes and profit fractions are in
/// ticks of `1 / PRICE_SCALE`.
#[derive(Clone, Copy, Debug, PartialEq, Eq, Structural)]
pub enum Command {
    Help,
    Volume(CommandArg<u64>),
    Profit(CommandArg<u64>),
    Top(CommandArg<u64>),
    Refresh,
    Quit,
    Unknown,
    Empty,
}

/// ASCII whitespace, the separators the shell recognizes.
pub open spec fn is_space(c: char) -> bool {
    c == ' ' || c == '\t' || c == '\n' || c == '\r'
}

/// The first position at or after `i` that is not whitespace.
pub open spec fn skip_ws(s: Seq<char>, i: int) -> int
    decreases s.len() - i,
{
    if 0 <= i < s.len() && is_space(s[i]) {
        skip_ws(s, i + 1)
    } else {
        i
    }
}

/// The first position at or after `i` that is whitespace (or the end).
pub open spec fn skip_token(s: Seq<char>, i: int) -> int
    decreases s.len() - i,
{
    if 0 <= i < s.len() && !is_space(s[i]) {
        skip_token(s, i + 1)
    } else {
        i
    }
}

/// Powers of ten.
pub open spec fn pow10(k: int) -> int
    decreases k,
{
    if k <= 0 {
        1
    } else {
        10 * pow10(k - 1)
    }
}

/// The fixed-point reading of one token: an integer part of at most 12
/// digits, optionally followed by a dot and one to six fractional digits,
/// scaled to ticks of `1 / PRICE_SCALE`. Anything else does not parse.
pub open spec fn spec_parse_fixed(t: Seq<char>) -> Option<u64> {
    match spec_find(t, '.') {
        None => if 1 <= t.len() <= 12 && all_digits(t) {
            Some((digits_value(t) * (PRICE_SCALE as int)) as u64)
        } else {
            None
        },
        Some(p) => {
            let int_part = t.subrange(0, p);
            let frac_part = t.subrange(p + 1, t.len() as int);
            if 1 <= int_part.len() <= 12 && 1 <= frac_part.len() <= 6 && all_digits(int_part)
                && all_digits(frac_part) {
                Some(
                    (digits_value(int_part) * (PRICE_SCALE as int) + digits_value(frac_part)
                        * pow10(6 - frac_part.len())) as u64,
                )
            } else {
                None
            }
        },
    }
}

/// The whole-number reading of one token: one to nineteen decimal digits
/// whose value fits in a `u64`. Anything else does not parse.
pub open spec fn spec_parse_count(t: Seq<char>) -> Option<u64> {
    if 1 <= t.len() && all_digits(t) && digits_value(t) <= u64::MAX {
        Some(digits_value(t) as u64)
    } else {
        None
    }
}

/// The argument token after position `from`, read with `fixed` ticks or
/// as a whole number.
pub open spec fn spec_arg(s: Seq<char>, from: int, fixed: bool) -> CommandArg<u64> {
    let c = skip_ws(s, from);
    if c >= s.len() {
        CommandArg::Missing
    } else {
        let d = skip_token(s, c);
        let parsed = if fixed {
            spec_parse_fixed(s.subrange(c, d))
        } else {
            spec_parse_count(s.subrange(c, d))
        };
        match parsed {
            Some(v) => CommandArg::Value(v),
            None => CommandArg::Invalid,
        }
    }
}

/// What one line of the shell means: the first whitespace-separated token
/// picks the command, the second (where one is expected) its argument.
pub open spec fn spec_parse_command(s: Seq<char>) -> Command {
    let a = skip_ws(s, 0);
    if a >= s.len() {
        Command::Empty
    } else {
        let b = skip_token(s, a);
        let t1 = s.subrange(a, b);
        if t1 == "help"@ {
            Command::Help
        } else if t1 == "quit"@ || t1 == "exit"@ {
            Command::Quit
        } else if t1 == "refresh"@ {
            Command::Refresh
        } else if t1 == "volume"@ {
            Command::Volume(spec_arg(s, b, true))
        } else if t1 == "profit"@ {
            Command::Profit(spec_arg(s, b, true))
        } else if t1 == "top"@ {
            Command::Top(spec_arg(s, b, false))
        } else {
            Command::Unknown
        }
    }
}

/// A digit string of at most twelve digits stays below ten to the
/// twelfth.
proof fn lemma_digits_value_bound(s: Seq<char>)
    requires
        all_digits(s),
    ensures
        digits_value(s) < pow10(s.len() as int),
        digits_value(s) >= 0,
    decreases s.len(),
{
    if s.len() > 0 {
        assert(forall|k: int| 0 <= k < s.drop_last().len() ==> (#[trigger] s.drop_last()[k])
            == s[k]);
        lemma_digits_value_bound(s.drop_last());
        assert(is_digit(s[s.len() - 1]));
    }
}

/// Whether the character at one position is whitespace.
fn is_space_at(s: &str, i: usize) -> (r: bool)
    requires
        i < s@.len(),
    ensures
        r == is_space(s@[i as int]),
{
    let c = s.get_char(i);
    c == ' ' || c == '\t' || c == '\n' || c == '\r'
}

/// The executable whitespace skip, mirroring `skip_ws`.
fn skip_ws_exec(s: &str, from: usize) -> (r: usize)
    requires
        from <= s@.len(),
    ensures
        r == skip_ws(s@, from as int),
        from <= r <= s@.len(),
{
    let n = s.unicode_len();
    let mut i: usize = from;
    while i < n && is_space_at(s, i)
        invariant
            from <= i <= n,
            n == s@.len(),
            skip_ws(s@, from as int) == skip_ws(s@, i as int),
        decreases n - i,
    {
        i += 1;
    }
    i
}

/// The executable token skip, mirroring `skip_token`.
fn skip_token_exec(s: &str, from: usize) -> (r: usize)
    requires
        from <= s@.len(),
    ensures
        r == skip_token(s@, from as int),
        from <= r <= s@.len(),
{
    let n = s.unicode_len();
    let mut i: usize = from;
    while i < n && !is_space_at(s, i)
        invariant
            from <= i <= n,
            n == s@.len(),
            skip_token(s@, from as int) == skip_token(s@, i as int),
        decreases n - i,
    {
        i += 1;
    }
    i
}

/// Parses a whole-number token.
fn parse_count(t: &str) -> (r: Option<u64>)
    ensures
        r == spec_parse_count(t@),
{
    let n = t.unicode_len();
    if n == 0 {
        return None;
    }
    let mut value: u64 = 0;
    let mut i: usize = 0;
    proof {
        assert(t@.take(0) =~= Seq::<char>::empty());
    }
    while i < n
        invariant
            i <= n,
            n == t@.len(),
            all_digits(t@.take(i as int)),
            value == digits_value(t@.take(i as int)),
        decreases n - i,
    {
        let c = t.get_char(i);
        let cu = c as u32;
        proof {
            assert(t@.take(i as int + 1).drop_last() =~= t@.take(i as int));
            assert(t@.take(i as int + 1).last() == t@[i as int]);
        }
        if cu < 48 || cu > 57 {
            proof {
                assert(!is_digit(t@[i as int]));
            }
            return None;
        }
        let digit = (cu - 48) as u64;
        if value > (u64::MAX - digit) / 10 {
            proof {
                let m = (u64::MAX - digit) as int;
                vstd::arithmetic::div_mod::lemma_fundamental_div_mod(m, 10);
                vstd::arithmetic::div_mod::lemma_mod_division_less_than_divisor(m, 10);
                assert(digits_value(t@.take(i as int + 1)) > u64::MAX);
                if all_digits(t@) {
                    crate::api::lemma_digits_value_extend(t@, i as int + 1);
                }
            }
            return None;
        }
        value = value * 10 + digit;
        i += 1;
    }
    proof {
        assert(t@.take(n as int) =~= t@);
    }
    Some(value)
}

/// Parses a fixed-point token into ticks.
fn parse_fixed(t: &str) -> (r: Option<u64>)
    ensures
        r == spec_parse_fixed(t@),
{
    let n = t.unicode_len();
    let (int_end, has_dot) = match crate::api::find_char(t, '.') {
        Some(p) => (p, true),
        None => (n, false),
    };
    if int_end < 1 || int_end > 12 {
        return None;
    }
    let mut int_value: u64 = 0;
    let mut i: usize = 0;
    proof {
        assert(t@.take(0) =~= Seq::<char>::empty());
        if has_dot {
            assert(t@.subrange(0, int_end as int) =~= t@.take(int_end as int));
        } else {
            assert(t@ =~= t@.take(int_end as int));
        }
    }
    while i < int_end
        invariant
            i <= int_end,
            int_end <= n,
            n == t@.len(),
            1 <= int_end <= 12,
            has_dot ==> spec_find(t@, '.') == Some(int_end as int),
            !has_dot ==> spec_find(t@, '.') is None && int_end == n,
            all_digits(t@.take(i as int)),
            int_value == digits_value(t@.take(i as int)),
        decreases int_end - i,
    {
        let c = t.get_char(i);
        let cu = c as u32;
        proof {
            assert(t@.take(i as int + 1).drop_last() =~= t@.take(i as int));
            assert(t@.take(i as int + 1).last() == t@[i as int]);
        }
        if cu < 48 || cu > 57 {
            proof {
                assert(!is_digit(t@[i as int]));
                if has_dot {
                    assert(t@.subrange(0, int_end as int)[i as int] == t@[i as int]);
                    assert(!all_digits(t@.subrange(0, int_end as int)));
                } else {
                    assert(!all_digits(t@));
                }
            }
            return None;
        }
        proof {
            lemma_digits_value_bound(t@.take(i as int));
            lemma_pow10_le(i as int, 11);
            assert(pow10(11) == 100000000000) by {
                reveal_with_fuel(pow10, 12);
            }
        }
        let digit = (cu - 48) as u64;
        int_value = int_value * 10 + digit;
        i += 1;
    }
    proof {
        lemma_digits_value_bound(t@.take(int_end as int));
        lemma_pow10_le(int_end as int, 12);
        assert(pow10(12) == 1000000000000) by {
            reveal_with_fuel(pow10, 13);
        }
    }
    if !has_dot {
        proof {
            assert(int_value * (PRICE_SCALE as int) <= u64::MAX) by (nonlinear_arith)
                requires
                    0 <= int_value < 1000000000000,
            ;
        }
        return Some(int_value * (PRICE_SCALE as u64));
    }
    let frac_len = n - (int_end + 1);
    if frac_len < 1 || frac_len > 6 {
        return None;
    }
    let mut frac_value: u64 = 0;
    let mut j: usize = int_end + 1;
    proof {
        assert(t@.subrange(int_end as int + 1, int_end as int + 1) =~= Seq::<char>::empty());
    }
    while j < n
        invariant
            int_end + 1 <= j <= n,
            n == t@.len(),
            1 <= n - (int_end + 1) <= 6,
            1 <= int_end <= 12,
            spec_find(t@, '.') == Some(int_end as int),
            all_digits(t@.subrange(int_end as int + 1, j as int)),
            frac_value == digits_value(t@.subrange(int_end as int + 1, j as int)),
        decreases n - j,
    {
        let c = t.get_char(j);
        let cu = c as u32;
        proof {
            assert(t@.subrange(int_end as int + 1, j as int + 1).drop_last() =~= t@.subrange(
                int_end as int + 1,
                j as int,
            ));
            assert(t@.subrange(int_end as int + 1, j as int + 1).last() == t@[j as int]);
        }
        if cu < 48 || cu > 57 {
            proof {
                assert(!is_digit(t@[j as int]));
                assert(t@.subrange(int_end as int + 1, n as int)[j - int_end - 1] == t@[j as int]);
                assert(!all_digits(t@.subrange(int_end as int + 1, n as int)));
            }
            return None;
        }
        proof {
            lemma_digits_value_bound(t@.subrange(int_end as int + 1, j as int));
            lemma_pow10_le(j - int_end - 1, 5);
            assert(pow10(5) == 100000) by {
                reveal_with_fuel(pow10, 6);
            }
        }
        let digit = (cu - 48) as u64;
        frac_value = frac_value * 10 + digit;
        j += 1;
    }
    proof {
        assert(t@.subrange(int_end as int + 1, n as int) =~= t@.subrange(
            int_end as int + 1,
            j as int,
        ));
        lemma_digits_value_bound(t@.subrange(int_end as int + 1, n as int));
    }
    let mut scale: u64 = 1;
    let mut k: usize = frac_len;
    while k < 6
        invariant
            1 <= frac_len,
            frac_len <= k <= 6,
            scale == pow10(k - frac_len),
            scale <= 100000,
        decreases 6 - k,
    {
        proof {
            lemma_pow10_le(k - frac_len, 5);
            lemma_pow10_le(k + 1 - frac_len, 5);
            assert(pow10(5) == 100000) by {
                reveal_with_fuel(pow10, 6);
            }
            assert(pow10(k + 1 - frac_len) == 10 * pow10(k - frac_len));
        }
        scale = scale * 10;
        k += 1;
    }
    proof {
        lemma_pow10_mul(frac_len as int, 6 - frac_len);
        lemma_pow10_pos(6 - frac_len);
        assert(pow10(6) == 1000000) by {
            reveal_with_fuel(pow10, 7);
        }
        assert(frac_value * scale < pow10(frac_len as int) * pow10(6 - frac_len))
            by (nonlinear_arith)
            requires
                0 <= frac_value,
                frac_value < pow10(frac_len as int),
                scale == pow10(6 - frac_len),
                pow10(6 - frac_len) >= 1,
        ;
        assert(int_value * (PRICE_SCALE as int) <= u64::MAX - 1000000) by (nonlinear_arith)
            requires
                0 <= int_value < 1000000000000,
        ;
    }
    Some(int_value * (PRICE_SCALE as u64) + frac_value * scale)
}

/// Products of powers of ten.
proof fn lemma_pow10_mul(a: int, b: int)
    requires
        a >= 0,
        b >= 0,
    ensures
        pow10(a) * pow10(b) == pow10(a + b),
    decreases a,
{
    if a == 0 {
        assert(pow10(0) == 1);
    } else {
        lemma_pow10_mul(a - 1, b);
        assert(pow10(a) == 10 * pow10(a - 1));
        assert(pow10(a) * pow10(b) == 10 * (pow10(a - 1) * pow10(b))) by (nonlinear_arith)
            requires
                pow10(a) == 10 * pow10(a - 1),
        ;
    }
}

/// Powers of ten are positive and monotonic.
proof fn lemma_pow10_le(a: int, b: int)
    requires
        0 <= a <= b,
    ensures
        pow10(a) <= pow10(b),
        pow10(b) >= 1,
    decreases b,
{
    lemma_pow10_pos(b);
    if a < b {
        lemma_pow10_le(a, b - 1);
        lemma_pow10_pos(b - 1);
    }
}

proof fn lemma_pow10_pos(a: int)
    ensures
        pow10(a) >= 1,
    decreases a,
{
    if a > 0 {
        lemma_pow10_pos(a - 1);
    }
}

/// Reads the argument token after position `from`.
fn parse_arg(s: &str, from: usize, fixed: bool) -> (r: CommandArg<u64>)
    requires
        from <= s@.len(),
    ensures
        r == spec_arg(s@, from as int, fixed),
{
    let c = skip_ws_exec(s, from);
    let n = s.unicode_len();
    if c >= n {
        return CommandArg::Missing;
    }
    let d = skip_token_exec(s, c);
    proof {
        lemma_skip_token_at_least(s@, c as int);
    }
    let token = s.substring_char(c, d);
    let parsed = if fixed {
        parse_fixed(token)
    } else {
        parse_count(token)
    };
    match parsed {
        Some(v) => CommandArg::Value(v),
        None => CommandArg::Invalid,
    }
}

/// `skip_token` never moves backwards.
proof fn lemma_skip_token_at_least(s: Seq<char>, i: int)
    ensures
        skip_token(s, i) >= i,
        i <= s.len() ==> skip_token(s, i) <= s.len(),
    decreases s.len() - i,
{
    if 0 <= i < s.len() && !is_space(s[i]) {
        lemma_skip_token_at_least(s, i + 1);
    }
}

/// Decides one line of the shell. The first whitespace-separated token
/// picks the command; `volume` and `profit` read a fixed-point argument,
/// `top` a whole number; an empty line means nothing and an unknown first
/// token is reported as such.
pub fn parse_command(cmd: &str) -> (c: Command)
    ensures
        c == spec_parse_command(cmd@),
{
    let n = cmd.unicode_len();
    let a = skip_ws_exec(cmd, 0);
    if a >= n {
        return Command::Empty;
    }
    let b = skip_token_exec(cmd, a);
    proof {
        lemma_skip_token_at_least(cmd@, a as int);
    }
    let token = cmd.substring_char(a, b).to_owned();
    if token == String::from_str("help") {
        Command::Help
    } else if token == String::from_str("quit") || token == String::from_str("exit") {
        Command::Quit
    } else if token == String::from_str("refresh") {
        Command::Refresh
    } else if token == String::from_str("volume") {
        Command::Volume(parse_arg(cmd, b, true))
    } else if token == String::from_str("profit") {
        Command::Profit(parse_arg(cmd, b, true))
    } else if token == String::from_str("top") {
        Command::Top(parse_arg(cmd, b, false))
    } else {
        Command::Unknown
    }
}

} // verus!
