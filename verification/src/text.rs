//! Text helpers: decimal numbers in both directions, runs of one character and
//! the part of a text behind its last separator.

use vstd::prelude::*;
use vstd::utf8::{encode_utf8, is_ascii_chars_encode_utf8};

verus! {

/// `String::push` appends one character at the end of the string.
pub assume_specification[ String::push ](s: &mut String, c: char)
    ensures
        final(s)@ == old(s)@.push(c),
;

/// The ASCII digit that stands for `d`.
pub open spec fn digit(d: nat) -> char {
    ('0' as nat + d) as char
}

/// The decimal notation of `n`, without leading zeros.
pub open spec fn decimal(n: nat) -> Seq<char>
    decreases n,
{
    if n < 10 {
        seq![digit(n)]
    } else {
        decimal(n / 10).push(digit(n % 10))
    }
}

/// `n` hundredths, written with two digits behind the point.
pub open spec fn two_places(n: nat) -> Seq<char> {
    decimal(n / 100).push('.').push(digit(n / 10 % 10)).push(digit(n % 10))
}

/// `c`, `n` times over.
pub open spec fn run_of(c: char, n: nat) -> Seq<char> {
    Seq::new(n, |i: int| c)
}

/// What follows the last `c` in `s`, or all of `s` where it holds no `c`.
pub open spec fn after_last(s: Seq<char>, c: char) -> Seq<char>
    decreases s.len(),
{
    if s.len() == 0 || s.last() == c {
        Seq::empty()
    } else {
        after_last(s.drop_last(), c).push(s.last())
    }
}

/// The value of a `range` field that asks for the bytes from `start` to `end`, both
/// included.
pub open spec fn range_text(start: nat, end: nat) -> Seq<char> {
    "bytes="@ + decimal(start) + "-"@ + decimal(end)
}

/// The number of bytes that a text takes up.
pub open spec fn byte_len(s: Seq<char>) -> usize {
    encode_utf8(s).len() as usize
}

/// The bytes of two texts together are those of the one followed by those of the other.
pub proof fn lemma_encode_joined(a: Seq<char>, b: Seq<char>)
    ensures
        encode_utf8(a + b) == encode_utf8(a) + encode_utf8(b),
    decreases a.len(),
{
    if a.len() == 0 {
        assert(a + b =~= b);
        assert(encode_utf8(a) + encode_utf8(b) =~= encode_utf8(b));
    } else {
        assert((a + b).drop_first() =~= a.drop_first() + b);
        lemma_encode_joined(a.drop_first(), b);
        assert(encode_utf8(a + b) =~= encode_utf8(a) + encode_utf8(b));
    }
}

/// Why a text is no number.
#[derive(Clone, Copy, PartialEq, Eq, Debug, Structural)]
pub enum NumberError {
    /// The text is empty.
    Empty,
    /// A character other than a digit stands where a digit should.
    InvalidDigit,
    /// The number does not fit in `usize`.
    TooLarge,
}

/// True of the ten ASCII digits.
pub open spec fn is_digit(c: char) -> bool {
    '0' <= c <= '9'
}

/// The number that the digits of `s` make when `acc` stands before them. The
/// leftmost character that spoils it decides the error.
pub open spec fn read_digits(s: Seq<char>, acc: nat) -> Result<nat, NumberError>
    decreases s.len(),
{
    if s.len() == 0 {
        Ok(acc)
    } else if !is_digit(s[0]) {
        Err(NumberError::InvalidDigit)
    } else {
        let next = acc * 10 + (s[0] as nat - '0' as nat) as nat;
        if next > usize::MAX {
            Err(NumberError::TooLarge)
        } else {
            read_digits(s.drop_first(), next)
        }
    }
}

/// The number that `s` denotes: one digit at least, behind an optional plus sign.
pub open spec fn read_number(s: Seq<char>) -> Result<nat, NumberError> {
    if s.len() == 0 {
        Err(NumberError::Empty)
    } else if s[0] == '+' {
        if s.len() == 1 {
            Err(NumberError::InvalidDigit)
        } else {
            read_digits(s.drop_first(), 0)
        }
    } else {
        read_digits(s, 0)
    }
}

proof fn lemma_read_joined(a: Seq<char>, last: char, acc: nat)
    requires
        is_digit(last),
    ensures
        read_digits(a.push(last), acc) == match read_digits(a, acc) {
            Ok(n) => {
                let next = n * 10 + (last as nat - '0' as nat) as nat;
                if next > usize::MAX {
                    Err::<nat, NumberError>(NumberError::TooLarge)
                } else {
                    Ok(next)
                }
            },
            Err(e) => Err(e),
        },
    decreases a.len(),
{
    let s = a.push(last);
    if a.len() == 0 {
        assert(s.drop_first() =~= Seq::<char>::empty());
        reveal_with_fuel(read_digits, 2);
    } else {
        assert(s.drop_first() =~= a.drop_first().push(last));
        let next = acc * 10 + (s[0] as nat - '0' as nat) as nat;
        if is_digit(s[0]) && next <= usize::MAX {
            lemma_read_joined(a.drop_first(), last, next);
        }
    }
}

/// A number is read back from its decimal notation.
pub proof fn law_numbers_are_read_back(n: nat)
    requires
        n <= usize::MAX,
    ensures
        read_number(decimal(n)) == Ok::<nat, NumberError>(n),
        read_digits(decimal(n), 0) == Ok::<nat, NumberError>(n),
        decimal(n).len() > 0 && is_digit(decimal(n)[0]),
    decreases n,
{
    if n < 10 {
        assert(decimal(n).drop_first() =~= Seq::<char>::empty());
        reveal_with_fuel(read_digits, 2);
    } else {
        law_numbers_are_read_back(n / 10);
        lemma_read_joined(decimal(n / 10), digit(n % 10), 0);
        assert(decimal(n)[0] == decimal(n / 10)[0]);
    }
}

/// A number that does not fit in `usize` is refused.
pub proof fn law_large_numbers_are_refused(n: nat)
    requires
        n > usize::MAX,
    ensures
        read_number(decimal(n)) == Err::<nat, NumberError>(NumberError::TooLarge),
        read_digits(decimal(n), 0) == Err::<nat, NumberError>(NumberError::TooLarge),
        decimal(n).len() > 0 && is_digit(decimal(n)[0]),
    decreases n,
{
    if n / 10 > usize::MAX {
        law_large_numbers_are_refused(n / 10);
    } else {
        law_numbers_are_read_back(n / 10);
    }
    lemma_read_joined(decimal(n / 10), digit(n % 10), 0);
    assert(decimal(n)[0] == decimal(n / 10)[0]);
}

/// A name behind the last separator holds no separator, and a path that ends with it is
/// taken apart there.
pub proof fn law_tail_is_behind_the_last(head: Seq<char>, tail: Seq<char>, c: char)
    requires
        !tail.contains(c),
    ensures
        after_last(tail, c) == tail,
        after_last(head.push(c) + tail, c) == tail,
    decreases tail.len(),
{
    if tail.len() == 0 {
        assert(head.push(c) + tail =~= head.push(c));
    } else {
        let rest = tail.drop_last();
        assert(tail.last() == tail[tail.len() - 1]);
        assert forall|i: int| 0 <= i < rest.len() implies rest[i] != c by {
            assert(rest[i] == tail[i]);
        }
        law_tail_is_behind_the_last(head, rest, c);
        assert((head.push(c) + tail).drop_last() =~= head.push(c) + rest);
        assert(rest.push(tail.last()) =~= tail);
    }
}

/// The numbers below ten are written as one digit each, in their order from `0` to `9`.
pub proof fn law_digits_are_in_order(d: nat)
    requires
        d < 10,
    ensures
        decimal(d).len() == 1,
        decimal(d)[0] as int == '0' as int + d,
        d == 9 ==> decimal(d)[0] == '9',
{
}

/// Every other number is written as its tens, followed by its last digit.
pub proof fn law_decimal_places(tens: nat, d: nat)
    requires
        tens > 0,
        d < 10,
    ensures
        decimal(10 * tens + d) == decimal(tens) + decimal(d),
{
    assert((10 * tens + d) / 10 == tens && (10 * tens + d) % 10 == d);
    assert(decimal(10 * tens + d) =~= decimal(tens) + decimal(d));
}

/// The notation of a number holds nothing but digits, and begins with a zero only where it is
/// nothing else.
pub proof fn law_decimal_is_plain(n: nat)
    ensures
        decimal(n).len() > 0,
        forall|i: int| 0 <= i < decimal(n).len() ==> '0' <= #[trigger] decimal(n)[i] <= '9',
        decimal(n)[0] == '0' <==> n == 0,
    decreases n,
{
    if n >= 10 {
        law_decimal_is_plain(n / 10);
        let rest = decimal(n / 10);
        assert forall|i: int| 0 <= i < decimal(n).len() implies '0' <= #[trigger] decimal(n)[i]
            <= '9' by {
            if i < rest.len() {
                assert(decimal(n)[i] == rest[i]);
            }
        }
        assert(decimal(n)[0] == rest[0]);
    }
}

/// A text of one character is a number only where that is a digit, and nothing is none.
pub proof fn law_one_character_is_read(c: char)
    ensures
        read_number(Seq::empty()) == Err::<nat, NumberError>(NumberError::Empty),
        '0' <= c <= '9' ==> read_number(seq![c]) == Ok::<nat, NumberError>(
            (c as int - '0' as int) as nat,
        ),
        !('0' <= c <= '9') ==> read_number(seq![c]) == Err::<nat, NumberError>(
            NumberError::InvalidDigit,
        ),
{
    assert(seq![c].drop_first() =~= Seq::<char>::empty());
    reveal_with_fuel(read_digits, 2);
}

/// A further digit makes ten times the number and the digit, if that fits. Anything else
/// spoils the number, and what is spoiled stays so, for the first reason there was.
pub proof fn law_next_character_is_read(s: Seq<char>, c: char)
    requires
        s.len() > 0,
        s != seq!['+'],
    ensures
        read_number(s.push(c)) == match read_number(s) {
            Err(e) => Err(e),
            Ok(n) => if !('0' <= c <= '9') {
                Err::<nat, NumberError>(NumberError::InvalidDigit)
            } else if n * 10 + (c as int - '0' as int) > usize::MAX {
                Err(NumberError::TooLarge)
            } else {
                Ok((n * 10 + (c as int - '0' as int)) as nat)
            },
        },
{
    let t = s.push(c);
    if s[0] == '+' {
        if s.len() == 1 {
            assert(s =~= seq!['+']);
        }
        assert(t.drop_first() =~= s.drop_first().push(c));
        lemma_next_read(s.drop_first(), c, 0);
    } else {
        lemma_next_read(s, c, 0);
    }
}

proof fn lemma_next_read(a: Seq<char>, c: char, acc: nat)
    ensures
        read_digits(a.push(c), acc) == match read_digits(a, acc) {
            Err(e) => Err(e),
            Ok(n) => if !('0' <= c <= '9') {
                Err::<nat, NumberError>(NumberError::InvalidDigit)
            } else if n * 10 + (c as int - '0' as int) > usize::MAX {
                Err(NumberError::TooLarge)
            } else {
                Ok((n * 10 + (c as int - '0' as int)) as nat)
            },
        },
    decreases a.len(),
{
    if is_digit(c) {
        lemma_read_joined(a, c, acc);
    } else {
        let s = a.push(c);
        if a.len() > 0 {
            assert(s.drop_first() =~= a.drop_first().push(c));
            let next = acc * 10 + (s[0] as nat - '0' as nat) as nat;
            if is_digit(s[0]) && next <= usize::MAX {
                lemma_next_read(a.drop_first(), c, next);
            }
        }
    }
}

/// A plus sign may stand before a digit, and before nothing else.
pub proof fn law_sign_is_read(s: Seq<char>)
    ensures
        read_number(seq!['+'] + s) == if s.len() > 0 && '0' <= s[0] <= '9' {
            read_number(s)
        } else {
            Err::<nat, NumberError>(NumberError::InvalidDigit)
        },
{
    let t = seq!['+'] + s;
    assert(t.drop_first() =~= s);
}

/// Hundredths are written as the whole part, a point, and exactly two digits.
pub proof fn law_two_places(n: nat)
    ensures
        ({
            let s = two_places(n);
            let k = s.len() - 3;
            &&& k > 0
            &&& s.take(k) == decimal(n / 100)
            &&& s[k] == '.'
            &&& s.skip(k + 1) == decimal(100 + n % 100).skip(1)
        }),
{
    let s = two_places(n);
    let k = s.len() - 3;
    law_decimal_is_plain(n / 100);
    assert(s.take(k) =~= decimal(n / 100));
    let m = 100 + n % 100;
    law_decimal_places(1, n % 100 / 10);
    law_decimal_places(10 + n % 100 / 10, n % 10);
    assert(m == 10 * (10 + n % 100 / 10) + n % 10);
    assert(n / 10 % 10 == n % 100 / 10);
    assert(decimal(m) =~= decimal(1) + decimal(n % 100 / 10) + decimal(n % 10));
    assert(s.skip(k + 1) =~= decimal(m).skip(1));
}

/// A run holds the character as often as was asked for, and nothing else.
pub proof fn law_runs(c: char, n: nat)
    ensures
        run_of(c, n).len() == n,
        forall|i: int| 0 <= i < n ==> #[trigger] run_of(c, n)[i] == c,
{
}

/// The value of a `range` field is the word `bytes`, an equals sign, and two plain numbers with
/// a hyphen between them. The first reads back as the first byte, the second as the last.
pub proof fn law_range_names_its_ends(start: nat, end: nat) -> (r: (Seq<char>, Seq<char>))
    requires
        start <= usize::MAX,
        end <= usize::MAX,
    ensures
        range_text(start, end) == seq!['b', 'y', 't', 'e', 's', '='] + r.0 + seq!['-'] + r.1,
        read_number(r.0) == Ok::<nat, NumberError>(start),
        read_number(r.1) == Ok::<nat, NumberError>(end),
        forall|i: int| 0 <= i < r.0.len() ==> '0' <= #[trigger] r.0[i] <= '9',
        forall|i: int| 0 <= i < r.1.len() ==> '0' <= #[trigger] r.1[i] <= '9',
        r.0[0] == '0' ==> start == 0 && r.0.len() == 1,
        r.1[0] == '0' ==> end == 0 && r.1.len() == 1,
{
    reveal_strlit("bytes=");
    reveal_strlit("-");
    assert("bytes="@ =~= seq!['b', 'y', 't', 'e', 's', '=']);
    assert("-"@ =~= seq!['-']);
    law_numbers_are_read_back(start);
    law_numbers_are_read_back(end);
    law_decimal_is_plain(start);
    law_decimal_is_plain(end);
    (decimal(start), decimal(end))
}

/// A text takes up as many bytes as its encoding has, and one for each character where all of
/// them are ASCII.
pub proof fn law_byte_len(s: Seq<char>)
    requires
        encode_utf8(s).len() <= usize::MAX,
    ensures
        byte_len(s) == encode_utf8(s).len(),
        (forall|i: int| 0 <= i < s.len() ==> '\0' <= #[trigger] s[i] <= '\u{7f}') ==> byte_len(s)
            == s.len(),
{
    if forall|i: int| 0 <= i < s.len() ==> '\0' <= #[trigger] s[i] <= '\u{7f}' {
        is_ascii_chars_encode_utf8(s);
    }
}

/// Reads a decimal number.
pub fn parse_number(s: &str) -> (r: Result<usize, NumberError>)
    ensures
        match r {
            Ok(n) => read_number(s@) == Ok::<nat, NumberError>(n as nat),
            Err(e) => read_number(s@) == Err::<nat, NumberError>(e),
        },
{
    let n = s.unicode_len();
    if n == 0 {
        return Err(NumberError::Empty);
    }
    let signed = s.get_char(0) == '+';
    if signed && n == 1 {
        return Err(NumberError::InvalidDigit);
    }
    let mut skip = signed;
    let mut acc: usize = 0;
    let ghost from: int = if signed { 1 } else { 0 };
    assert(s@.skip(from) =~= if signed { s@.drop_first() } else { s@ });
    for x in it: s.chars()
        invariant
            it.seq() == s@,
            s@.len() > 0,
            from == (if signed { 1int } else { 0int }),
            signed == (s@[0] == '+'),
            signed ==> s@.len() > 1,
            skip == (it.index() < from),
            !skip ==> read_digits(s@.skip(it.index() as int), acc as nat) == read_number(s@),
            skip ==> acc == 0,
            read_number(s@) == read_digits(s@.skip(from), 0),
    {
        let ghost i = it.index() as int;
        if skip {
            skip = false;
        } else {
            assert(s@.skip(i)[0] == x);
            assert(s@.skip(i).drop_first() =~= s@.skip(i + 1));
            if x < '0' || x > '9' {
                return Err(NumberError::InvalidDigit);
            }
            let d: usize = x as usize - 48;
            match acc.checked_mul(10) {
                None => {
                    return Err(NumberError::TooLarge);
                },
                Some(m) => match m.checked_add(d) {
                    None => {
                        return Err(NumberError::TooLarge);
                    },
                    Some(sum) => {
                        acc = sum;
                    },
                },
            }
        }
    }
    assert(s@.skip(s@.len() as int) =~= Seq::empty());
    Ok(acc)
}

/// Appends the digit that stands for `d`.
pub fn push_digit(out: &mut String, d: u8)
    requires
        d < 10,
    ensures
        final(out)@ == old(out)@.push(digit(d as nat)),
{
    out.push((48 + d) as char);
}

/// Appends the decimal notation of `n`.
pub fn push_decimal(out: &mut String, n: u128)
    ensures
        final(out)@ == old(out)@ + decimal(n as nat),
    decreases n,
{
    if n >= 10 {
        push_decimal(out, n / 10);
    }
    push_digit(out, (n % 10) as u8);
    assert(out@ =~= old(out)@ + decimal(n as nat));
}

/// Appends `n` hundredths with two digits behind the point.
pub fn push_two_places(out: &mut String, n: u128)
    ensures
        final(out)@ == old(out)@ + two_places(n as nat),
{
    push_decimal(out, n / 100);
    out.push('.');
    push_digit(out, (n / 10 % 10) as u8);
    push_digit(out, (n % 10) as u8);
    assert(out@ =~= old(out)@ + two_places(n as nat));
}

/// The value of a `range` field that asks for the bytes from `start` to `end`.
pub fn range_value(start: usize, end: usize) -> (r: String)
    ensures
        r@ == range_text(start as nat, end as nat),
{
    let mut out = "bytes=".to_string();
    push_decimal(&mut out, start as u128);
    out.append("-");
    push_decimal(&mut out, end as u128);
    out
}

/// Appends `c` `n` times.
pub fn push_run(out: &mut String, c: char, n: usize)
    ensures
        final(out)@ == old(out)@ + run_of(c, n as nat),
{
    let mut i: usize = 0;
    while i < n
        invariant
            i <= n,
            out@ == old(out)@ + run_of(c, i as nat),
        decreases n - i,
    {
        out.push(c);
        i = i + 1;
        assert(out@ =~= old(out)@ + run_of(c, i as nat));
    }
}

/// Whether `c` stands anywhere in `s`.
pub fn holds(s: &str, c: char) -> (r: bool)
    ensures
        r == s@.contains(c),
{
    for x in it: s.chars()
        invariant
            it.seq() == s@,
            forall|i: int| 0 <= i < it.index() ==> s@[i] != c,
    {
        if x == c {
            assert(s@[it.index() as int] == c);
            return true;
        }
    }
    false
}

/// What follows the last `c` in `s`, or all of `s` where it holds no `c`.
pub fn tail_after(s: &str, c: char) -> (r: String)
    ensures
        r@ == after_last(s@, c),
{
    let mut out = String::new();
    assert(s@.take(0) =~= Seq::empty());
    for x in it: s.chars()
        invariant
            it.seq() == s@,
            out@ == after_last(s@.take(it.index() as int), c),
    {
        let ghost i = it.index() as int;
        assert(s@.take(i + 1).drop_last() =~= s@.take(i));
        if x == c {
            out = String::new();
        } else {
            out.push(x);
        }
    }
    assert(s@.take(s@.len() as int) =~= s@);
    out
}

} // verus!
