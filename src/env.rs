//! Configuration keys and the parsing of their numeric values.

use vstd::prelude::*;
use vstd::string::StringSliceAdditionalSpecFns;

verus! {

/// The configuration keys read at startup.
#[allow(non_camel_case_types)]
#[derive(Clone, Copy, Debug, PartialEq, Eq, Structural)]
pub enum EnvVariable {
    CHUNK_WIDTH,
    CHUNK_HEIGHT,
    CELL_SIZE,
    CELL_SCALE,
    PLAYER_SPEED,
    MINE_CHANCE,
    WALL_CHANCE,
}

pub open spec fn key_name(v: EnvVariable) -> Seq<char> {
    match v {
        EnvVariable::CHUNK_WIDTH => "CHUNK_WIDTH"@,
        EnvVariable::CHUNK_HEIGHT => "CHUNK_HEIGHT"@,
        EnvVariable::CELL_SIZE => "CELL_SIZE"@,
        EnvVariable::CELL_SCALE => "CELL_SCALE"@,
        EnvVariable::PLAYER_SPEED => "PLAYER_SPEED"@,
        EnvVariable::MINE_CHANCE => "MINE_CHANCE"@,
        EnvVariable::WALL_CHANCE => "WALL_CHANCE"@,
    }
}

impl EnvVariable {
    /// The key's name as it appears in the environment.
    pub fn as_str(&self) -> (r: &'static str)
        ensures
            r@ == key_name(*self),
    {
        match self {
            EnvVariable::CHUNK_WIDTH => "CHUNK_WIDTH",
            EnvVariable::CHUNK_HEIGHT => "CHUNK_HEIGHT",
            EnvVariable::CELL_SIZE => "CELL_SIZE",
            EnvVariable::CELL_SCALE => "CELL_SCALE",
            EnvVariable::PLAYER_SPEED => "PLAYER_SPEED",
            EnvVariable::MINE_CHANCE => "MINE_CHANCE",
            EnvVariable::WALL_CHANCE => "WALL_CHANCE",
        }
    }
}

/// Why a configuration value could not be had.
#[derive(Clone, Copy, Debug, PartialEq, Eq, Structural)]
pub enum ConfigError {
    /// The key is not set.
    Missing(EnvVariable),
    /// The key's value is not a number of the expected kind.
    Unparsable(EnvVariable),
}

pub open spec fn is_digit(b: u8) -> bool {
    48 <= b <= 57
}

/// The value of the decimal digits `s`, most significant first.
pub open spec fn digits_value(s: Seq<u8>) -> int
    decreases s.len(),
{
    if s.len() == 0 {
        0
    } else {
        digits_value(s.drop_last()) * 10 + (s.last() - 48)
    }
}

/// The digits of `s`: all of it, or what follows one leading `+`.
pub open spec fn digits_of(s: Seq<u8>) -> Seq<u8> {
    if s.len() > 0 && s[0] == 43 {
        s.subrange(1, s.len() as int)
    } else {
        s
    }
}

/// `s` is a decimal numeral that fits in 32 bits: an optional `+` followed by one or more
/// digits.
pub open spec fn is_numeral(s: Seq<u8>) -> bool {
    let d = digits_of(s);
    &&& d.len() > 0
    &&& forall|i: int| 0 <= i < d.len() ==> is_digit(#[trigger] d[i])
    &&& digits_value(d) <= u32::MAX
}

/// Reads the value of `var` from its raw text `raw` (`None` when the key is not set): the
/// text must be a decimal numeral of at most 32 bits, with an optional leading `+`.
pub fn acquire_num(var: EnvVariable, raw: Option<&str>) -> (r: Result<u32, ConfigError>)
    ensures
        raw is None ==> r == Err::<u32, ConfigError>(ConfigError::Missing(var)),
        raw matches Some(s) ==> (is_numeral(s.spec_bytes()) ==> r == Ok::<u32, ConfigError>(
            digits_value(digits_of(s.spec_bytes())) as u32,
        )) && (!is_numeral(s.spec_bytes()) ==> r == Err::<u32, ConfigError>(
            ConfigError::Unparsable(var),
        )),
{
    let text = match raw {
        None => return Err(ConfigError::Missing(var)),
        Some(t) => t,
    };
    let bytes = text.as_bytes();
    let n = bytes.len();
    let start: usize = if n > 0 && bytes[0] == 43 {
        1
    } else {
        0
    };
    if start == n {
        return Err(ConfigError::Unparsable(var));
    }
    let ghost s = bytes@;
    let ghost d = digits_of(s);
    assert(d =~= s.subrange(start as int, n as int));
    let mut acc: u64 = 0;
    let mut too_big = false;
    let mut i: usize = start;
    while i < n
        invariant
            n == s.len(),
            s == bytes@,
            s == text.spec_bytes(),
            raw == Some(text),
            d == digits_of(s),
            d == s.subrange(start as int, n as int),
            start <= i <= n,
            forall|j: int| 0 <= j < i - start ==> is_digit(#[trigger] d[j]),
            too_big == (digits_value(d.subrange(0, i - start)) > u32::MAX),
            !too_big ==> acc == digits_value(d.subrange(0, i - start)),
        decreases n - i,
    {
        let b = bytes[i];
        let ghost k = i - start;
        assert(d[k] == b);
        if b < 48 || b > 57 {
            assert(!is_digit(d[k]));
            return Err(ConfigError::Unparsable(var));
        }
        proof {
            let t = d.subrange(0, k + 1);
            assert(t.drop_last() =~= d.subrange(0, k));
            assert(t.last() == b);
            assert(digits_value(d.subrange(0, k)) >= 0) by {
                lemma_digits_nonneg(d.subrange(0, k));
            }
        }
        if !too_big {
            acc = acc * 10 + (b - 48) as u64;
            if acc > 0xFFFF_FFFF {
                too_big = true;
            }
        }
        i = i + 1;
    }
    assert(d.subrange(0, n - start) =~= d);
    if too_big {
        Err(ConfigError::Unparsable(var))
    } else {
        Ok(acc as u32)
    }
}

proof fn lemma_digits_nonneg(s: Seq<u8>)
    requires
        forall|i: int| 0 <= i < s.len() ==> is_digit(#[trigger] s[i]),
    ensures
        digits_value(s) >= 0,
    decreases s.len(),
{
    if s.len() > 0 {
        lemma_digits_nonneg(s.drop_last());
    }
}

} // verus!
