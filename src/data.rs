//! Tournament games, and their encoding as the input and expected-output
//! buffers that the networks are trained on.
use vstd::prelude::*;
use vstd::string::StrSliceExecFns;

verus! {

/// Bytes of a game's input buffer.
pub const INPUT_BYTES: usize = 67;

/// Bytes of a game's output buffer.
pub const OUTPUT_BYTES: usize = 3;

/// Input bits.
pub const NUM_INPUTS: usize = INPUT_BYTES * 8;

/// Output bits.
pub const NUM_OUTPUTS: usize = OUTPUT_BYTES * 8;

/// Maximum length for a team name.
pub const NAME_LEN: usize = 32;

/// What level of the tournament a game took place in.
#[derive(Clone, Copy, Debug, PartialEq, Eq, Structural, PartialOrd, Ord, Hash)]
pub enum Round {
    OpeningRound,
    RoundOf64,
    RoundOf32,
    Sweet16,
    Elite8,
    Semifinals,
    Championship,
}

/// The code of a round: its place in the tournament, from 0.
pub open spec fn round_code(r: Round) -> u8 {
    match r {
        Round::OpeningRound => 0,
        Round::RoundOf64 => 1,
        Round::RoundOf32 => 2,
        Round::Sweet16 => 3,
        Round::Elite8 => 4,
        Round::Semifinals => 5,
        Round::Championship => 6,
    }
}

impl Round {
    /// The round's code, for storing as bits.
    pub fn to_u8(self) -> (r: u8)
        ensures
            r == round_code(self),
    {
        match self {
            Round::OpeningRound => 0,
            Round::RoundOf64 => 1,
            Round::RoundOf32 => 2,
            Round::Sweet16 => 3,
            Round::Elite8 => 4,
            Round::Semifinals => 5,
            Round::Championship => 6,
        }
    }
}

/// What region the teams were from (none for the championship).
#[derive(Clone, Copy, Debug, PartialEq, Eq, Structural, PartialOrd, Ord, Hash)]
pub enum Region {
    East,
    Midwest,
    South,
    Southeast,
    Southwest,
    West,
}

/// The code of a region, from 1: 0 stands for no region.
pub open spec fn region_code(r: Region) -> u8 {
    match r {
        Region::East => 1,
        Region::Midwest => 2,
        Region::South => 3,
        Region::Southeast => 4,
        Region::Southwest => 5,
        Region::West => 6,
    }
}

impl Region {
    /// The region's code, for storing as bits.
    pub fn to_u8(self) -> (r: u8)
        ensures
            r == region_code(self),
    {
        match self {
            Region::East => 1,
            Region::Midwest => 2,
            Region::South => 3,
            Region::Southeast => 4,
            Region::Southwest => 5,
            Region::West => 6,
        }
    }
}

/// Why a game cannot be encoded.
#[derive(Clone, Copy, Debug, PartialEq, Eq, Structural)]
pub enum DataError {
    /// The year is not a number that fits in a byte.
    InvalidYear,
    /// The year has fewer than two characters.
    YearTooShort,
    /// A team name is longer than `NAME_LEN` bytes.
    NameTooLong,
}

/// One game of a tournament.
#[derive(Clone, Debug)]
pub struct Game {
    /// The last two digits of the year: 85, 86... 12, ... 18.
    pub year: [char; 2],
    pub round: Round,
    pub region: Option<Region>,
    pub winner_seed: u8,
    pub winner_name: [char; NAME_LEN],
    pub winner_score: u8,
    pub loser_seed: u8,
    pub loser_name: [char; NAME_LEN],
    pub loser_score: u8,
    pub overtime: u8,
}

/// Whether `c` is a decimal digit.
pub open spec fn is_digit(c: char) -> bool {
    '0' <= c <= '9'
}

/// The value of a decimal digit.
pub open spec fn digit_value(c: char) -> int {
    c as int - '0' as int
}

/// The value of a string of decimal digits.
pub open spec fn digits_value(s: Seq<char>) -> int
    decreases s.len(),
{
    if s.len() == 0 {
        0
    } else {
        digits_value(s.drop_last()) * 10 + digit_value(s.last())
    }
}

/// Every character of `s` is a decimal digit.
pub open spec fn all_digits(s: Seq<char>) -> bool {
    forall|i: int| 0 <= i < s.len() ==> is_digit(#[trigger] s[i])
}

/// `s` read as a byte, as `str::parse::<u8>` reads it: one or more decimal
/// digits, after an optional `+`, whose value is at most 255.
pub open spec fn parse_u8(s: Seq<char>) -> Option<u8> {
    let digits = if s.len() > 0 && s[0] == '+' {
        s.drop_first()
    } else {
        s
    };
    if digits.len() > 0 && all_digits(digits) && digits_value(digits) <= 255 {
        Some(digits_value(digits) as u8)
    } else {
        None
    }
}

proof fn lemma_digits_value_prefix(s: Seq<char>, j: int)
    requires
        all_digits(s),
        0 <= j <= s.len(),
    ensures
        0 <= digits_value(s.take(j)) <= digits_value(s),
    decreases s.len(),
{
    if j < s.len() {
        assert(s.drop_last().take(j) =~= s.take(j));
        assert(all_digits(s.drop_last()));
        lemma_digits_value_prefix(s.drop_last(), j);
    } else {
        assert(s.take(j) =~= s);
        lemma_digits_value_nonneg(s);
    }
}

proof fn lemma_digits_value_nonneg(s: Seq<char>)
    requires
        all_digits(s),
    ensures
        digits_value(s) >= 0,
    decreases s.len(),
{
    if s.len() > 0 {
        assert(all_digits(s.drop_last()));
        lemma_digits_value_nonneg(s.drop_last());
    }
}

/// The byte of a character: the low eight bits of its code.
pub open spec fn char_byte(c: char) -> u8 {
    ((c as u32) % 256) as u8
}

/// The seed byte: the higher seed number's low four bits, then the lower
/// one's.
pub open spec fn seeds_byte(high: u8, low: u8) -> u8 {
    (((high & 0x0Fu8) as int) * 16 + (low & 0x0Fu8) as int) as u8
}

/// The input buffer of a game between team `a` and team `b`, the team with
/// the higher seed number first (`a` on equal seeds): byte 0 the year, byte 1
/// the round code times 8 plus the region code, byte 2 the seeds, then the 32
/// characters of each team's name as bytes.
pub open spec fn encode_game(
    year: u8,
    round: Round,
    region: Option<Region>,
    seed_a: u8,
    name_a: Seq<char>,
    seed_b: u8,
    name_b: Seq<char>,
) -> Seq<u8> {
    let a_first = seed_a >= seed_b;
    let (hs, ls) = if a_first {
        (seed_a, seed_b)
    } else {
        (seed_b, seed_a)
    };
    let (hn, ln) = if a_first {
        (name_a, name_b)
    } else {
        (name_b, name_a)
    };
    let region = match region {
        Some(r) => region_code(r),
        None => 0,
    };
    seq![year, (round_code(round) * 8 + region) as u8, seeds_byte(hs, ls)] + hn.map_values(
        |c: char| char_byte(c),
    ) + ln.map_values(|c: char| char_byte(c))
}

/// The input buffer of a game whose year reads as `year`.
pub open spec fn input_bits(g: Game, year: u8) -> Seq<u8> {
    encode_game(year, g.round, g.region, g.winner_seed, g.winner_name@, g.loser_seed, g.loser_name@)
}

/// The year byte of a year string: its first two characters read as a byte
/// (0 when they do not read as one).
pub open spec fn year_byte(year: Seq<char>) -> u8 {
    match parse_u8(year.take(2)) {
        Some(y) => y,
        None => 0,
    }
}

/// A team name in `NAME_LEN` characters: cut there, or filled with `'\0'`.
pub open spec fn padded_name(name: Seq<char>) -> Seq<char> {
    Seq::new(NAME_LEN as nat, |i: int| if i < name.len() { name[i] } else { '\0' })
}

/// The two year characters read as a number.
fn parse_year(year: &[char; 2]) -> (r: Option<u8>)
    ensures
        r == parse_u8(year@),
{
    let a = year[0];
    let b = year[1];
    let ghost y = year@;
    proof {
        let t = y.drop_first();
        assert(t.drop_last().len() == 0);
        assert(t.last() == b);
        assert(digits_value(t.drop_last()) == 0);
        assert(digits_value(t) == digit_value(b));
        assert(y.drop_last().drop_last().len() == 0);
        assert(y.drop_last().last() == a);
        assert(digits_value(y.drop_last().drop_last()) == 0);
        assert(digits_value(y.drop_last()) == digit_value(a));
        assert(digits_value(y) == digit_value(a) * 10 + digit_value(b));
    }
    if a == '+' && '0' <= b && b <= '9' {
        assert(all_digits(y.drop_first()));
        Some((b as u32 - '0' as u32) as u8)
    } else if '0' <= a && a <= '9' && '0' <= b && b <= '9' {
        assert(all_digits(y));
        Some(((a as u32 - '0' as u32) * 10 + (b as u32 - '0' as u32)) as u8)
    } else {
        proof {
            if a == '+' {
                assert(!is_digit(y.drop_first()[0]));
            } else if !('0' <= a && a <= '9') {
                assert(!is_digit(y[0]));
            } else {
                assert(!is_digit(y[1]));
            }
        }
        None
    }
}

/// `s` read as a byte, as `str::parse::<u8>` reads it.
fn parse_str_u8(s: &str) -> (r: Option<u8>)
    ensures
        r == parse_u8(s@),
{
    let n = s.unicode_len();
    if n == 0 {
        return None;
    }
    let mut i: usize = 0;
    if s.get_char(0) == '+' {
        if n == 1 {
            assert(s@.drop_first().len() == 0);
            return None;
        }
        i = 1;
    }
    let start = i;
    let ghost digits = s@.subrange(start as int, n as int);
    assert(digits =~= if s@.len() > 0 && s@[0] == '+' {
        s@.drop_first()
    } else {
        s@
    });
    let mut v: u32 = 0;
    while i < n
        invariant
            n == s@.len(),
            start <= i <= n,
            start < n,
            digits == s@.subrange(start as int, n as int),
            digits == (if s@.len() > 0 && s@[0] == '+' {
                s@.drop_first()
            } else {
                s@
            }),
            all_digits(digits.take(i - start)),
            v == digits_value(digits.take(i - start)),
            v <= 255,
        decreases n - i,
    {
        let c = s.get_char(i);
        if !('0' <= c && c <= '9') {
            assert(!is_digit(digits[i - start]));
            assert(!all_digits(digits));
            return None;
        }
        assert(digits.take(i - start + 1).drop_last() =~= digits.take(i - start));
        assert(digits.take(i - start + 1).last() == c);
        v = v * 10 + (c as u32 - '0' as u32);
        if v > 255 {
            proof {
                if all_digits(digits) {
                    lemma_digits_value_prefix(digits, i - start + 1);
                }
            }
            return None;
        }
        i += 1;
    }
    assert(digits.take(n - start) =~= digits);
    Some(v as u8)
}

/// Writes the bytes of the characters of `name` into `bits` from `at`.
fn write_name(bits: &mut [u8; INPUT_BYTES], at: usize, name: &[char; NAME_LEN])
    requires
        at + NAME_LEN <= INPUT_BYTES,
    ensures
        forall|i: int| 0 <= i < NAME_LEN ==> #[trigger] final(bits)@[at + i] == char_byte(name@[i]),
        forall|i: int| 0 <= i < INPUT_BYTES && !(at <= i < at + NAME_LEN) ==> #[trigger] final(bits)@[i] == old(bits)@[i],
{
    let mut i: usize = 0;
    while i < NAME_LEN
        invariant
            at + NAME_LEN <= INPUT_BYTES,
            i <= NAME_LEN,
            forall|k: int| 0 <= k < i ==> #[trigger] bits@[at + k] == char_byte(name@[k]),
            forall|k: int| 0 <= k < INPUT_BYTES && !(at <= k < at + i) ==> #[trigger] bits@[k] == old(bits)@[k],
        decreases NAME_LEN - i,
    {
        let c = name[i];
        let b: u8 = ((c as u32) % 256) as u8;
        bits[at + i] = b;
        i += 1;
    }
}

impl Game {
    /// The expected output of the game: the higher seed number's score, the
    /// other score, then the overtime count.
    pub fn to_output_bits(self) -> (r: [u8; OUTPUT_BYTES])
        ensures
            r@ == if self.winner_seed >= self.loser_seed {
                seq![self.winner_score, self.loser_score, self.overtime]
            } else {
                seq![self.loser_score, self.winner_score, self.overtime]
            },
    {
        if self.winner_seed >= self.loser_seed {
            [self.winner_score, self.loser_score, self.overtime]
        } else {
            [self.loser_score, self.winner_score, self.overtime]
        }
    }

    /// The input buffer of the game (see `input_bits`). The teams are put
    /// higher seed number first, not winner first, so that the buffer does
    /// not give the result away. Fails when the year is not a number.
    pub fn to_input_bits(self) -> (r: Result<[u8; INPUT_BYTES], DataError>)
        ensures
            parse_u8(self.year@) is None ==> r == Err::<[u8; INPUT_BYTES], DataError>(DataError::InvalidYear),
            parse_u8(self.year@) matches Some(y) ==> r matches Ok(bits) && bits@ == input_bits(self, y),
    {
        let mut bits = [0u8; INPUT_BYTES];
        let year = match parse_year(&self.year) {
            Some(y) => y,
            None => return Err(DataError::InvalidYear),
        };
        bits[0] = year;
        let region = match self.region {
            Some(r) => r.to_u8(),
            None => 0,
        };
        bits[1] = self.round.to_u8() * 8 + region;
        let (high, low) = if self.winner_seed >= self.loser_seed {
            (self.winner_seed, self.loser_seed)
        } else {
            (self.loser_seed, self.winner_seed)
        };
        assert(high & 0x0Fu8 <= 15u8) by (bit_vector);
        assert(low & 0x0Fu8 <= 15u8) by (bit_vector);
        let seeds: u8 = (high & 0x0F) * 16 + (low & 0x0F);
        bits[2] = seeds;
        if self.winner_seed >= self.loser_seed {
            write_name(&mut bits, 3, &self.winner_name);
            write_name(&mut bits, 3 + NAME_LEN, &self.loser_name);
        } else {
            write_name(&mut bits, 3, &self.loser_name);
            write_name(&mut bits, 3 + NAME_LEN, &self.winner_name);
        }
        proof {
            let spec_bits = input_bits(self, year);
            assert(spec_bits == encode_game(year, self.round, self.region, self.winner_seed, self.winner_name@, self.loser_seed, self.loser_name@));
            let hn = if self.winner_seed >= self.loser_seed {
                self.winner_name@
            } else {
                self.loser_name@
            };
            let ln = if self.winner_seed >= self.loser_seed {
                self.loser_name@
            } else {
                self.winner_name@
            };
            assert(spec_bits.len() == INPUT_BYTES);
            assert forall|k: int| 0 <= k < INPUT_BYTES implies bits@[k] == spec_bits[k] by {
                if 3 <= k < 3 + NAME_LEN {
                    assert(bits@[3 + (k - 3)] == char_byte(hn[k - 3]));
                } else if 3 + NAME_LEN <= k {
                    assert(bits@[3 + NAME_LEN + (k - 3 - NAME_LEN)] == char_byte(ln[k - 3 - NAME_LEN]));
                }
            }
            assert(bits@ =~= spec_bits);
        }
        Ok(bits)
    }
}

/// The characters of a team name in a fixed-size array: the first
/// `NAME_LEN` characters, the rest filled with `'\0'`.
pub fn name_to_chars(name: &str) -> (r: [char; NAME_LEN])
    ensures
        r@ == padded_name(name@),
{
    let mut list = ['\0'; NAME_LEN];
    let len = name.unicode_len();
    let mut i: usize = 0;
    while i < NAME_LEN && i < len
        invariant
            len == name@.len(),
            i <= NAME_LEN,
            i <= len,
            forall|k: int| 0 <= k < i ==> #[trigger] list@[k] == name@[k],
            forall|k: int| i <= k < NAME_LEN ==> #[trigger] list@[k] == '\0',
        decreases NAME_LEN - i,
    {
        list[i] = name.get_char(i);
        i += 1;
    }
    assert(i == NAME_LEN || i == name@.len());
    assert(list@ =~= padded_name(name@));
    list
}

/// The input buffer for predicting a game between the team with the higher
/// seed number and the one with the lower, from the values a user gives.
/// Fails when the year does not read as a byte, when it has fewer than two
/// characters, or when a team name is longer than `NAME_LEN` bytes, in that
/// order. The year byte comes from the year's first two characters.
pub fn prediction_input(
    year: &str,
    round: Round,
    region: Option<Region>,
    high_seed: u8,
    high_seed_team: &str,
    low_seed: u8,
    low_seed_team: &str,
) -> (r: Result<[u8; INPUT_BYTES], DataError>)
    ensures
        parse_u8(year@) is None ==> r == Err::<[u8; INPUT_BYTES], DataError>(DataError::InvalidYear),
        parse_u8(year@) is Some && year@.len() < 2 ==> r == Err::<[u8; INPUT_BYTES], DataError>(
            DataError::YearTooShort,
        ),
        parse_u8(year@) is Some && year@.len() >= 2 && (high_seed_team.len() > NAME_LEN
            || low_seed_team.len() > NAME_LEN) ==> r == Err::<[u8; INPUT_BYTES], DataError>(
            DataError::NameTooLong,
        ),
        parse_u8(year@) is Some && year@.len() >= 2 && high_seed_team.len() <= NAME_LEN
            && low_seed_team.len() <= NAME_LEN ==> (r matches Ok(bits) && bits@ == encode_game(
            year_byte(year@),
            round,
            region,
            high_seed,
            padded_name(high_seed_team@),
            low_seed,
            padded_name(low_seed_team@),
        )),
{
    if parse_str_u8(year).is_none() {
        return Err(DataError::InvalidYear);
    }
    if year.unicode_len() < 2 {
        return Err(DataError::YearTooShort);
    }
    if high_seed_team.len() > NAME_LEN || low_seed_team.len() > NAME_LEN {
        return Err(DataError::NameTooLong);
    }
    let game = Game {
        year: [year.get_char(0), year.get_char(1)],
        round,
        region,
        winner_seed: high_seed,
        winner_name: name_to_chars(high_seed_team),
        winner_score: 0,
        loser_seed: low_seed,
        loser_name: name_to_chars(low_seed_team),
        loser_score: 0,
        overtime: 0,
    };
    assert(game.year@ =~= year@.take(2));
    proof {
        let t = year@.take(2);
        let digits = if year@[0] == '+' {
            year@.drop_first()
        } else {
            year@
        };
        assert(all_digits(digits));
        if year@[0] == '+' {
            assert(is_digit(digits[0]));
            assert(t.drop_first()[0] == digits[0]);
            assert(t.drop_first().len() == 1);
            assert(all_digits(t.drop_first()));
            assert(t.drop_first().drop_last().len() == 0);
            assert(digits_value(t.drop_first().drop_last()) == 0);
        } else {
            assert(is_digit(digits[0]) && is_digit(digits[1]));
            assert(all_digits(t));
            assert(t.drop_last().drop_last().len() == 0);
            assert(digits_value(t.drop_last().drop_last()) == 0);
            assert(digits_value(t.drop_last()) == digit_value(t[0]));
        }
    }
    match game.to_input_bits() {
        Ok(bits) => Ok(bits),
        Err(e) => Err(e),
    }
}

} // verus!
