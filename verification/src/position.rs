//! The position index: a total order over the events of a room's timeline.
//!
//! A position lives in one of two disjoint domains. `Normal` positions are
//! handed out by a strictly increasing counter when an event is first
//! appended; `Backfilled` positions belong to history inserted after the
//! fact and sort before every normal position. A position round-trips
//! losslessly through an opaque string token used as a pagination cursor.

use vstd::prelude::*;
use vstd::string::*;

verus! {

/// A malformed pagination cursor token.
#[derive(Clone, Copy, Debug, PartialEq, Eq, Structural)]
pub struct ParseError;

/// Direction of a paginated scan over positions.
#[derive(Clone, Copy, Debug, PartialEq, Eq, Structural)]
pub enum Direction {
    Forward,
    Backward,
}

/// A position in a room's timeline: retroactively inserted history
/// (`Backfilled`) sorts before every normally appended position (`Normal`);
/// within a domain, positions are ordered by their counter value.
#[derive(Clone, Copy, Debug, PartialEq, Eq, Structural)]
pub enum PduCount {
    Backfilled(u64),
    Normal(u64),
}

impl PduCount {
    /// The raw counter value, without its domain.
    pub open spec fn value(self) -> u64 {
        match self {
            PduCount::Backfilled(n) => n,
            PduCount::Normal(n) => n,
        }
    }

    /// The total order: all backfilled positions precede all normal ones.
    pub open spec fn spec_le(self, other: Self) -> bool {
        match (self, other) {
            (PduCount::Backfilled(a), PduCount::Backfilled(b)) => a <= b,
            (PduCount::Backfilled(_), PduCount::Normal(_)) => true,
            (PduCount::Normal(_), PduCount::Backfilled(_)) => false,
            (PduCount::Normal(a), PduCount::Normal(b)) => a <= b,
        }
    }

    pub open spec fn spec_lt(self, other: Self) -> bool {
        self.spec_le(other) && self != other
    }

    /// Decides the total order.
    pub fn le(&self, other: &Self) -> (r: bool)
        ensures
            r == self.spec_le(*other),
    {
        match (self, other) {
            (PduCount::Backfilled(a), PduCount::Backfilled(b)) => a <= b,
            (PduCount::Backfilled(_), PduCount::Normal(_)) => true,
            (PduCount::Normal(_), PduCount::Backfilled(_)) => false,
            (PduCount::Normal(a), PduCount::Normal(b)) => a <= b,
        }
    }

    pub open spec fn spec_min() -> Self {
        PduCount::Backfilled(0)
    }

    pub open spec fn spec_max() -> Self {
        PduCount::Normal(u64::MAX)
    }

    /// The least position, used as the open lower pagination bound.
    pub fn min() -> (r: Self)
        ensures
            r == Self::spec_min(),
    {
        PduCount::Backfilled(0)
    }

    /// The greatest position, used as the open upper pagination bound.
    pub fn max() -> (r: Self)
        ensures
            r == Self::spec_max(),
    {
        PduCount::Normal(u64::MAX)
    }

    /// Serializes the position to its canonical opaque cursor token.
    pub fn stringify(&self) -> (r: String)
        ensures
            r@ == token_chars(*self),
    {
        let mut digits: Vec<u64> = Vec::new();
        let mut m: u64 = match self {
            PduCount::Backfilled(n) => *n,
            PduCount::Normal(n) => *n,
        };
        let ghost n: u64 = m;
        digits.push(m % 10);
        m = m / 10;
        proof {
            assert(digits@ =~= seq![n % 10]);
            assert(digits@.drop_first() =~= Seq::<u64>::empty());
            assert(chars_of_rev(Seq::<u64>::empty()) =~= Seq::<char>::empty());
            assert(chars_of_rev(digits@) =~= seq![digit_char((n % 10) as int)]);
            if m > 0 {
                assert(n >= 10);
                assert(dec_digits(n as nat) =~= dec_digits((n / 10) as nat) + chars_of_rev(
                    digits@,
                ));
            } else {
                assert(n < 10);
                assert(n % 10 == n);
                assert(dec_digits(n as nat) =~= chars_of_rev(digits@));
            }
        }
        while m > 0
            invariant
                forall|k: int| 0 <= k < digits@.len() ==> digits@[k] < 10,
                digits@.len() >= 1,
                m > 0 ==> dec_digits(n as nat) =~= dec_digits(m as nat) + chars_of_rev(
                    digits@,
                ),
                m == 0 ==> dec_digits(n as nat) =~= chars_of_rev(digits@),
            decreases m,
        {
            let ghost m0: u64 = m;
            let ghost old_digits: Seq<u64> = digits@;
            proof {
                lemma_chars_of_rev_push(old_digits, m0 % 10);
            }
            digits.push(m % 10);
            m = m / 10;
            proof {
                assert(digits@ =~= old_digits.push(m0 % 10));
                assert(chars_of_rev(digits@) =~= seq![digit_char((m0 % 10) as int)]
                    + chars_of_rev(old_digits));
                if m > 0 {
                    assert(m0 >= 10);
                    assert(dec_digits(m0 as nat) =~= dec_digits((m0 / 10) as nat) + seq![
                        digit_char((m0 % 10) as int),
                    ]);
                    assert(dec_digits(n as nat) =~= dec_digits(m as nat) + chars_of_rev(
                        digits@,
                    ));
                } else {
                    assert(m0 < 10);
                    assert(m0 % 10 == m0);
                    assert(dec_digits(m0 as nat) =~= seq![digit_char(m0 as int)]);
                    assert(dec_digits(n as nat) =~= chars_of_rev(digits@));
                }
            }
        }
        let mut s = String::new();
        if let PduCount::Backfilled(_) = self {
            s.append("-");
            proof {
                reveal_strlit("-");
                assert(s@ =~= seq!['-']);
            }
        }
        let ghost prefix: Seq<char> = s@;
        let mut i: usize = digits.len();
        proof {
            assert(digits@.skip(i as int) =~= Seq::<u64>::empty());
            assert(s@ =~= prefix + chars_of_rev(digits@.skip(i as int)));
        }
        while i > 0
            invariant
                i <= digits@.len(),
                forall|k: int| 0 <= k < digits@.len() ==> digits@[k] < 10,
                s@ =~= prefix + chars_of_rev(digits@.skip(i as int)),
            decreases i,
        {
            i = i - 1;
            let ghost before: Seq<char> = s@;
            s.append(digit_str(digits[i]));
            proof {
                assert(digits@.skip(i as int).drop_first() =~= digits@.skip(i as int + 1));
                assert(s@ =~= before + seq![digit_char(digits@[i as int] as int)]);
                assert(s@ =~= prefix + chars_of_rev(digits@.skip(i as int)));
            }
        }
        proof {
            assert(digits@.skip(0) =~= digits@);
            assert(s@ =~= prefix + chars_of_rev(digits@));
            match *self {
                PduCount::Normal(v) => {
                    assert(v == n);
                    assert(prefix =~= Seq::<char>::empty());
                    assert(s@ =~= token_chars(*self));
                },
                PduCount::Backfilled(v) => {
                    assert(v == n);
                    assert(prefix =~= seq!['-']);
                    assert(s@ =~= token_chars(*self));
                },
            }
        }
        s
    }
}

/// One decimal digit as a string slice.
fn digit_str(d: u64) -> (r: &'static str)
    requires
        d < 10,
    ensures
        r@ =~= seq![digit_char(d as int)],
{
    proof {
        reveal_strlit("0");
        reveal_strlit("1");
        reveal_strlit("2");
        reveal_strlit("3");
        reveal_strlit("4");
        reveal_strlit("5");
        reveal_strlit("6");
        reveal_strlit("7");
        reveal_strlit("8");
        reveal_strlit("9");
    }
    if d == 0 {
        "0"
    } else if d == 1 {
        "1"
    } else if d == 2 {
        "2"
    } else if d == 3 {
        "3"
    } else if d == 4 {
        "4"
    } else if d == 5 {
        "5"
    } else if d == 6 {
        "6"
    } else if d == 7 {
        "7"
    } else if d == 8 {
        "8"
    } else {
        "9"
    }
}

/// Is `c` a decimal digit?
pub open spec fn is_dec_digit(c: char) -> bool {
    48 <= c as int <= 57
}

/// The numeric value of a digit character.
pub open spec fn digit_val(c: char) -> int {
    c as int - 48
}

/// The digit character for a value below ten.
pub open spec fn digit_char(d: int) -> char {
    if d == 0 {
        '0'
    } else if d == 1 {
        '1'
    } else if d == 2 {
        '2'
    } else if d == 3 {
        '3'
    } else if d == 4 {
        '4'
    } else if d == 5 {
        '5'
    } else if d == 6 {
        '6'
    } else if d == 7 {
        '7'
    } else if d == 8 {
        '8'
    } else {
        '9'
    }
}

pub open spec fn all_digits(s: Seq<char>) -> bool {
    forall|i: int| 0 <= i < s.len() ==> is_dec_digit(s[i])
}

/// The number denoted by a big-endian sequence of digit characters.
pub open spec fn dec_value(s: Seq<char>) -> int
    decreases s.len(),
{
    if s.len() == 0 {
        0
    } else {
        dec_value(s.drop_last()) * 10 + digit_val(s.last())
    }
}

/// The canonical big-endian digit sequence of a number.
pub open spec fn dec_digits(n: nat) -> Seq<char>
    decreases n,
{
    if n < 10 {
        seq![digit_char(n as int)]
    } else {
        dec_digits(n / 10).push(digit_char((n % 10) as int))
    }
}

/// The digit characters of a little-endian digit sequence, most
/// significant digit first.
pub open spec fn chars_of_rev(ds: Seq<u64>) -> Seq<char>
    decreases ds.len(),
{
    if ds.len() == 0 {
        Seq::empty()
    } else {
        chars_of_rev(ds.drop_first()) + seq![digit_char(ds[0] as int)]
    }
}

proof fn lemma_chars_of_rev_push(ds: Seq<u64>, d: u64)
    ensures
        chars_of_rev(ds.push(d)) =~= seq![digit_char(d as int)] + chars_of_rev(ds),
    decreases ds.len(),
{
    if ds.len() == 0 {
        assert(ds.push(d).drop_first() =~= Seq::<u64>::empty());
        assert(chars_of_rev(Seq::<u64>::empty()) =~= Seq::<char>::empty());
    } else {
        assert(ds.push(d).drop_first() =~= ds.drop_first().push(d));
        lemma_chars_of_rev_push(ds.drop_first(), d);
        assert(ds.push(d)[0] == ds[0]);
        assert(chars_of_rev(ds.push(d)) =~= chars_of_rev(ds.drop_first().push(d)) + seq![
            digit_char(ds[0] as int),
        ]);
        assert(chars_of_rev(ds) =~= chars_of_rev(ds.drop_first()) + seq![
            digit_char(ds[0] as int),
        ]);
    }
}

/// The canonical token of a position: its counter in decimal, with a
/// leading minus sign for the backfilled domain.
pub open spec fn token_chars(p: PduCount) -> Seq<char> {
    match p {
        PduCount::Normal(n) => dec_digits(n as nat),
        PduCount::Backfilled(n) => seq!['-'] + dec_digits(n as nat),
    }
}

/// Is `s` a well-formed cursor token?
pub open spec fn token_valid(s: Seq<char>) -> bool {
    if s.len() > 0 && s[0] == '-' {
        let d = s.skip(1);
        d.len() > 0 && all_digits(d) && dec_value(d) <= u64::MAX
    } else {
        s.len() > 0 && all_digits(s) && dec_value(s) <= u64::MAX
    }
}

/// The position a well-formed token denotes.
pub open spec fn token_value(s: Seq<char>) -> PduCount {
    if s.len() > 0 && s[0] == '-' {
        PduCount::Backfilled(dec_value(s.skip(1)) as u64)
    } else {
        PduCount::Normal(dec_value(s) as u64)
    }
}

/// A sequence of digits denotes a number no smaller than any of its
/// prefixes.
proof fn lemma_dec_value_nonneg(s: Seq<char>)
    requires
        all_digits(s),
    ensures
        dec_value(s) >= 0,
    decreases s.len(),
{
    if s.len() > 0 {
        assert(all_digits(s.drop_last()));
        lemma_dec_value_nonneg(s.drop_last());
    }
}

proof fn lemma_dec_value_prefix_le(s: Seq<char>, i: int)
    requires
        all_digits(s),
        0 <= i <= s.len(),
    ensures
        dec_value(s.take(i)) <= dec_value(s),
    decreases s.len() - i,
{
    if i < s.len() {
        lemma_dec_value_prefix_le(s, i + 1);
        assert(s.take(i + 1).drop_last() =~= s.take(i));
        assert(all_digits(s.take(i)));
        lemma_dec_value_nonneg(s.take(i));
        assert(dec_value(s.take(i + 1)) == dec_value(s.take(i)) * 10 + digit_val(s.take(i + 1).last()));
        assert(dec_value(s.take(i)) * 10 >= dec_value(s.take(i))) by (nonlinear_arith)
            requires dec_value(s.take(i)) >= 0;
    } else {
        assert(s.take(i) =~= s);
    }
}

/// Parses an opaque cursor token back to the position it denotes;
/// rejects anything but an optional minus sign followed by digits whose
/// value fits the counter.
pub fn parse(token: &str) -> (r: Result<PduCount, ParseError>)
    ensures
        token_valid(token@) ==> r == Ok::<PduCount, ParseError>(token_value(token@)),
        !token_valid(token@) ==> r == Err::<PduCount, ParseError>(ParseError),
{
    let n = token.unicode_len();
    if n == 0 {
        return Err(ParseError);
    }
    let neg = token.get_char(0) == '-';
    let start: usize = if neg {
        1
    } else {
        0
    };
    let ghost digits: Seq<char> = token@.skip(start as int);
    proof {
        assert(token@.skip(0) =~= token@);
    }
    if start == n {
        // a bare minus sign carries no digits
        return Err(ParseError);
    }
    let mut acc: u64 = 0;
    let mut i: usize = start;
    proof {
        assert(digits.take(0) =~= Seq::<char>::empty());
    }
    while i < n
        invariant
            start <= i <= n,
            n == token@.len(),
            start < n,
            neg == (token@[0] == '-'),
            start == if neg {
                1int
            } else {
                0int
            },
            digits =~= token@.skip(start as int),
            all_digits(digits.take(i - start)),
            acc == dec_value(digits.take(i - start)),
        decreases n - i,
    {
        let c = token.get_char(i);
        let cv = c as u32;
        if cv < 48 || cv > 57 {
            proof {
                assert(digits[i - start] == token@[i as int]);
                assert(!is_dec_digit(digits[i - start]));
                assert(!all_digits(digits));
                assert(!token_valid(token@));
            }
            return Err(ParseError);
        }
        let d: u64 = (cv - 48) as u64;
        let ghost taken: Seq<char> = digits.take(i + 1 - start);
        proof {
            assert(taken.drop_last() =~= digits.take(i - start));
            assert(taken.last() == digits[i - start]);
            assert(digits[i - start] == token@[i as int]);
            assert(digit_val(taken.last()) == d);
            assert(dec_value(taken) == acc * 10 + d);
            assert(all_digits(taken));
        }
        let step = match acc.checked_mul(10) {
            Some(x) => x.checked_add(d),
            None => None,
        };
        match step {
            Some(next) => {
                acc = next;
                i = i + 1;
            },
            None => {
                // the value no longer fits the counter, and appending more
                // digits can only grow it
                proof {
                    assert(dec_value(taken) > u64::MAX);
                    if all_digits(digits) {
                        lemma_dec_value_prefix_le(digits, i + 1 - start);
                        assert(dec_value(digits) >= dec_value(taken));
                    }
                    if neg {
                        assert(token@[0] == '-');
                        assert(!token_valid(token@));
                    } else {
                        assert(token@.skip(0) =~= token@);
                        assert(token@ == digits);
                        assert(!token_valid(token@));
                    }
                }
                return Err(ParseError);
            },
        }
    }
    proof {
        assert(digits.take(n - start) =~= digits);
        assert(all_digits(digits));
        assert(dec_value(digits) == acc <= u64::MAX);
        assert(token_valid(token@));
    }
    if neg {
        Ok(PduCount::Backfilled(acc))
    } else {
        Ok(PduCount::Normal(acc))
    }
}

/// The canonical digit sequence of `n` is made of digits and denotes `n`.
proof fn lemma_dec_digits_value(n: nat)
    ensures
        all_digits(dec_digits(n)),
        dec_digits(n).len() >= 1,
        dec_value(dec_digits(n)) == n,
    decreases n,
{
    if n < 10 {
        let s = dec_digits(n);
        assert(s =~= seq![digit_char(n as int)]);
        assert(s.drop_last() =~= Seq::<char>::empty());
        assert(dec_value(s) == dec_value(s.drop_last()) * 10 + digit_val(s.last()));
        assert(dec_value(s) == digit_val(digit_char(n as int)));
    } else {
        lemma_dec_digits_value(n / 10);
        assert(dec_digits(n).drop_last() =~= dec_digits(n / 10));
        assert(dec_value(dec_digits(n)) == dec_value(dec_digits(n / 10)) * 10 + digit_val(
            digit_char((n % 10) as int),
        ));
        assert(digit_val(digit_char((n % 10) as int)) == n % 10);
        assert((n / 10) * 10 + n % 10 == n);
    }
}

/// Round trip of the cursor encoding: the canonical token of any position
/// is well formed and parses back to that very position.
pub proof fn lemma_token_round_trip(p: PduCount)
    ensures
        token_valid(token_chars(p)),
        token_value(token_chars(p)) == p,
{
    match p {
        PduCount::Normal(n) => {
            lemma_dec_digits_value(n as nat);
            let s = token_chars(p);
            assert(is_dec_digit(s[0]));
            assert(s[0] != '-');
        },
        PduCount::Backfilled(n) => {
            lemma_dec_digits_value(n as nat);
            let s = token_chars(p);
            assert(s[0] == '-');
            assert(s.skip(1) =~= dec_digits(n as nat));
        },
    }
}

/// The two position domains never meet: every backfilled position sorts
/// strictly before every normal one, and no backfilled position equals a
/// normal one.
pub proof fn lemma_backfilled_before_normal(a: PduCount, b: PduCount)
    requires
        a is Backfilled,
        b is Normal,
    ensures
        a.spec_lt(b),
        a != b,
{
}

} // verus!
