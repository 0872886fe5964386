//! Settings read from environment variables.
use vstd::prelude::*;
use vstd::string::*;

use crate::float_bits;
use crate::numeric;
use crate::string_map::StringMap;
use crate::text;

verus! {

/// The environment variables that are set, each with a value that is text.
#[derive(Debug)]
pub struct EnvVars {
    vars: StringMap<String>,
}

impl View for EnvVars {
    type V = Map<Seq<char>, Seq<char>>;

    closed spec fn view(&self) -> Map<Seq<char>, Seq<char>> {
        self.vars@
    }
}

impl EnvVars {
    /// An environment in which nothing is set.
    pub fn new() -> (r: Self)
        ensures
            r@ == Map::<Seq<char>, Seq<char>>::empty(),
    {
        EnvVars { vars: StringMap::new() }
    }

    /// Sets a variable.
    pub fn set(&mut self, name: &str, value: &str)
        ensures
            final(self)@ == old(self)@.insert(name@, value@),
    {
        self.vars.insert(name.to_owned(), value.to_owned());
    }

    /// The value of a variable that is set.
    pub fn var(&self, name: &str) -> (r: Option<&String>)
        ensures
            match r {
                Some(value) => self@.contains_key(name@) && value@ == self@[name@],
                None => !self@.contains_key(name@),
            },
    {
        self.vars.get(name)
    }
}

/// The trimmed value of a variable, or `default` where it is not set or blank.
pub open spec fn text_setting(
    env: Map<Seq<char>, Seq<char>>,
    key: Seq<char>,
    default: Seq<char>,
) -> Seq<char> {
    if env.contains_key(key) && text::trimmed(env[key]).len() > 0 {
        text::trimmed(env[key])
    } else {
        default
    }
}

/// The positive number up to `max` that a variable spells, if it spells one.
pub open spec fn positive_number(
    env: Map<Seq<char>, Seq<char>>,
    key: Seq<char>,
    max: nat,
) -> Option<nat> {
    if env.contains_key(key) && numeric::unsigned_number(env[key], max) is Some
        && numeric::unsigned_number(env[key], max)->0 > 0 {
        numeric::unsigned_number(env[key], max)
    } else {
        None
    }
}

/// The positive number that a variable spells, or `default` where it spells none up to `max`.
pub open spec fn number_setting(
    env: Map<Seq<char>, Seq<char>>,
    key: Seq<char>,
    default: int,
    max: nat,
) -> int {
    match positive_number(env, key, max) {
        Some(n) => n as int,
        None => default,
    }
}

/// The truth value that a word stands for, in any case of its letters.
pub open spec fn truth_word(word: Seq<char>) -> Option<bool> {
    let w = word.map_values(|c: char| text::ascii_lower(c));
    if w == "1"@ || w == "true"@ || w == "yes"@ || w == "on"@ {
        Some(true)
    } else if w == "0"@ || w == "false"@ || w == "no"@ || w == "off"@ {
        Some(false)
    } else {
        None
    }
}

/// The truth value of a variable, or `default` where it holds no such word.
pub open spec fn flag_setting(
    env: Map<Seq<char>, Seq<char>>,
    key: Seq<char>,
    default: bool,
) -> bool {
    if env.contains_key(key) && truth_word(env[key]) is Some {
        truth_word(env[key])->0
    } else {
        default
    }
}

/// Reads a text setting.
pub fn env_or_default(env: &EnvVars, key: &str, default: &str) -> (r: String)
    ensures
        r@ == text_setting(env@, key@, default@),
{
    if let Some(value) = env.var(key) {
        let value = text::trim(value.as_str());
        if !value.is_empty() {
            return value.to_owned();
        }
    }
    default.to_owned()
}

/// Reads a positive number no greater than `max`.
fn env_number(env: &EnvVars, key: &str, max: u64) -> (r: Option<u64>)
    ensures
        match r {
            Some(n) => positive_number(env@, key@, max as nat) == Some(n as nat),
            None => positive_number(env@, key@, max as nat) is None,
        },
{
    if let Some(value) = env.var(key) {
        if let Some(n) = numeric::parse_unsigned(value.as_str(), max) {
            if n > 0 {
                return Some(n);
            }
        }
    }
    None
}

/// Reads a positive number.
pub fn env_u64(env: &EnvVars, key: &str, default: u64) -> (r: u64)
    ensures
        r == number_setting(env@, key@, default as int, u64::MAX as nat),
{
    match env_number(env, key, u64::MAX) {
        Some(n) => n,
        None => default,
    }
}

/// Reads a positive number that counts things in memory.
pub fn env_usize(env: &EnvVars, key: &str, default: usize) -> (r: usize)
    ensures
        r == number_setting(env@, key@, default as int, usize::MAX as nat),
{
    match env_number(env, key, usize::MAX as u64) {
        Some(n) => n as usize,
        None => default,
    }
}

/// Reads a positive number that fits in a signed 32-bit one.
pub fn env_i32(env: &EnvVars, key: &str, default: i32) -> (r: i32)
    ensures
        r == number_setting(env@, key@, default as int, i32::MAX as nat),
{
    match env_number(env, key, i32::MAX as u64) {
        Some(n) => n as i32,
        None => default,
    }
}

/// Reads a truth value.
pub fn env_bool(env: &EnvVars, key: &str, default: bool) -> (r: bool)
    ensures
        r == flag_setting(env@, key@, default),
{
    if let Some(value) = env.var(key) {
        let word = value.as_str().to_ascii_lowercase();
        let w = word.as_str();
        if text::same_text(w, "1") || text::same_text(w, "true") || text::same_text(w, "yes")
            || text::same_text(w, "on") {
            return true;
        }
        if text::same_text(w, "0") || text::same_text(w, "false") || text::same_text(w, "no")
            || text::same_text(w, "off") {
            return false;
        }
    }
    default
}

/// Tells whether the 32-bit floating point number with the given bits lies between zero and
/// one, ends included.
pub open spec fn in_unit_interval(bits: u32) -> bool {
    bits <= 0x3f80_0000 || bits == 0x8000_0000
}

/// Reads a proportion, given the bits of the number that the variable spells, if it spells one.
pub fn env_f32(parsed: Option<u32>, default: u32) -> (r: u32)
    ensures
        r == match parsed {
            Some(bits) => if in_unit_interval(bits) {
                bits
            } else {
                default
            },
            None => default,
        },
{
    match parsed {
        Some(bits) => if bits <= 0x3f80_0000 || bits == 0x8000_0000 {
            bits
        } else {
            default
        },
        None => default,
    }
}

/// A text setting is what the variable holds but for white space at its ends, however long it is,
/// and the default where the variable is not set or blank.
pub proof fn text_that_is_set_is_taken(
    env: Map<Seq<char>, Seq<char>>,
    key: Seq<char>,
    default: Seq<char>,
) -> (ends: (Seq<char>, Seq<char>))
    ensures
        ({
            let setting = text_setting(env, key, default);
            if env.contains_key(key) && !text::all_white(env[key]) {
                &&& env[key] == ends.0 + setting + ends.1
                &&& text::all_white(ends.0)
                &&& text::all_white(ends.1)
                &&& setting.len() > 0
                &&& !text::white_space(setting.first())
                &&& !text::white_space(setting.last())
            } else {
                setting == default
            }
        }),
{
    let s = env[key];
    let (a, b) = text::trimming_takes_off_only_white_space(s);
    if text::trimmed(s).len() == 0 {
        assert(s == a + b);
    }
    if text::all_white(s) {
        text::trimming_leaves_the_middle(s, seq![], seq![]);
        assert(s + Seq::<char>::empty() + Seq::<char>::empty() == s);
    }
    (a, b)
}

/// A number setting is the number that the variable spells, where it is positive and not too great,
/// and the default otherwise.
pub proof fn number_that_is_set_is_taken(
    env: Map<Seq<char>, Seq<char>>,
    key: Seq<char>,
    default: int,
    max: nat,
    n: nat,
)
    ensures
        env.contains_key(key) && env[key] == numeric::decimal(n) && 0 < n <= max ==> number_setting(
            env,
            key,
            default,
            max,
        ) == n,
        env.contains_key(key) && env[key] == numeric::decimal(n) && (n == 0 || n > max)
            ==> number_setting(env, key, default, max) == default,
        env.contains_key(key) && n > 0 && numeric::unsigned_number(env[key], max) == Some(n)
            ==> number_setting(env, key, default, max) == n,
        !env.contains_key(key) ==> number_setting(env, key, default, max) == default,
        env.contains_key(key) && (exists|i: int|
            1 <= i < env[key].len() && !(48 <= (#[trigger] env[key][i]) as u32 <= 57))
            ==> number_setting(env, key, default, max) == default,
        env.contains_key(key) && env[key].len() == 0 ==> number_setting(env, key, default, max)
            == default,
{
    if n <= max {
        numeric::decimal_reads_back(n, max);
    } else {
        numeric::decimal_reads_back(n, n);
        numeric::greater_numbers_are_not_taken(numeric::decimal(n), n, max);
    }
    if numeric::unsigned_number(env[key], max) is Some {
        numeric::only_digits_spell_a_number(env[key], max);
    }
}

/// A flag is the truth value of the word that the variable holds, in any case of its letters, and
/// the default where it holds no such word.
pub proof fn flag_that_is_set_is_taken(
    env: Map<Seq<char>, Seq<char>>,
    key: Seq<char>,
    default: bool,
    word: Seq<char>,
)
    requires
        env.contains_key(key),
        word.len() == env[key].len(),
        forall|i: int|
            0 <= i < word.len() ==> #[trigger] word[i] == text::ascii_lower(env[key][i]),
    ensures
        word == "1"@ || word == "true"@ || word == "yes"@ || word == "on"@ ==> flag_setting(
            env,
            key,
            default,
        ),
        word == "0"@ || word == "false"@ || word == "no"@ || word == "off"@ ==> !flag_setting(
            env,
            key,
            default,
        ),
        flag_setting(env, key, true) && !flag_setting(env, key, false) <==> word != "1"@ && word
            != "true"@ && word != "yes"@ && word != "on"@ && word != "0"@ && word != "false"@
            && word != "no"@ && word != "off"@,
        flag_setting(env.remove(key), key, default) == default,
{
    let lowered = env[key].map_values(|c: char| text::ascii_lower(c));
    assert(lowered == word);
    reveal_strlit("1");
    reveal_strlit("true");
    reveal_strlit("yes");
    reveal_strlit("on");
    reveal_strlit("0");
    reveal_strlit("false");
    reveal_strlit("no");
    reveal_strlit("off");
    assert("1"@[0] != "0"@[0]);
    assert("yes"@[0] != "off"@[0]);
    assert("on"@[0] != "no"@[0]);
}

/// A number is a proportion if and only if it is not less than zero and not greater than one.
pub proof fn proportions_lie_between_zero_and_one(bits: u32)
    ensures
        in_unit_interval(bits) <==> {
            &&& float_bits::equal_numbers(bits, bits)
            &&& !float_bits::exceeds(bits, 0x3f80_0000)
            &&& !float_bits::exceeds(0, bits)
        },
{
}

} // verus!
