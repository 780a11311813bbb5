//! Numbers as text: decimal and hexadecimal, written and read back.

use crate::text::{from_chars, to_chars};
use vstd::prelude::*;

verus! {

/// The character of a decimal digit.
pub open spec fn digit(d: int) -> char {
    (48 + d) as u8 as char
}

/// The decimal digits of a number, without leading zeros.
pub open spec fn digits(n: nat) -> Seq<char>
    decreases n,
{
    if n < 10 {
        seq![digit(n as int)]
    } else {
        digits(n / 10).push(digit((n % 10) as int))
    }
}

/// A number in decimal, with a minus sign if it is negative.
pub open spec fn decimal(n: int) -> Seq<char> {
    if n < 0 {
        seq!['-'] + digits((-n) as nat)
    } else {
        digits(n as nat)
    }
}

/// The character of a hexadecimal digit, in lower case.
pub open spec fn hexit(d: int) -> char {
    if d < 10 {
        (48 + d) as u8 as char
    } else {
        (87 + d) as u8 as char
    }
}

/// The hexadecimal digits of a number, without leading zeros.
pub open spec fn hexits(n: nat) -> Seq<char>
    decreases n,
{
    if n < 16 {
        seq![hexit(n as int)]
    } else {
        hexits(n / 16).push(hexit((n % 16) as int))
    }
}

/// Whether a character is a decimal digit.
pub open spec fn is_digit(c: char) -> bool {
    '0' <= c && c <= '9'
}

/// Whether a text is a non-empty run of decimal digits.
pub open spec fn is_number(s: Seq<char>) -> bool {
    s.len() > 0 && forall|i: int| 0 <= i < s.len() ==> is_digit(#[trigger] s[i])
}

/// What a run of decimal digits stands for.
pub open spec fn number(s: Seq<char>) -> int
    decreases s.len(),
{
    if s.len() == 0 {
        0
    } else {
        number(s.drop_last()) * 10 + (s.last() as int - 48)
    }
}

/// The value of a text as a number from 0 to `max`: digits, after an optional
/// plus sign.
pub open spec fn unsigned_value(s: Seq<char>, max: int) -> Option<int> {
    let body = if s.len() > 0 && s[0] == '+' {
        s.skip(1)
    } else {
        s
    };
    if is_number(body) && number(body) <= max {
        Some(number(body))
    } else {
        None
    }
}

/// The value of a text as a number from `-max - 1` to `max`: digits, after an
/// optional sign.
pub open spec fn signed_value(s: Seq<char>, max: int) -> Option<int> {
    if s.len() > 0 && s[0] == '-' {
        if is_number(s.skip(1)) && number(s.skip(1)) <= max + 1 {
            Some(-number(s.skip(1)))
        } else {
            None
        }
    } else {
        unsigned_value(s, max)
    }
}

/// The digits of a number are a run of digits that stands for it.
pub proof fn lemma_digits_number(n: nat)
    ensures
        is_number(digits(n)),
        number(digits(n)) == n,
    decreases n,
{
    if n < 10 {
        assert(digits(n).drop_last() =~= Seq::<char>::empty());
        assert(number(Seq::<char>::empty()) == 0);
        assert(digits(n).last() == digit(n as int));
    } else {
        let front = digits(n / 10);
        lemma_digits_number(n / 10);
        assert(digits(n).drop_last() =~= front);
        assert(digits(n).last() == digit((n % 10) as int));
        assert forall|i: int| 0 <= i < digits(n).len() implies is_digit(#[trigger] digits(n)[i]) by {
            if i < front.len() {
                assert(digits(n)[i] == front[i]);
            }
        }
    }
}

/// Writing a number in decimal and reading it back gives the number.
pub proof fn law_decimal_roundtrip(n: int, max: int)
    requires
        -max - 1 <= n <= max,
    ensures
        signed_value(decimal(n), max) == Some(n),
        n >= 0 ==> unsigned_value(decimal(n), max) == Some(n),
{
    if n < 0 {
        lemma_digits_number((-n) as nat);
        assert(decimal(n).skip(1) =~= digits((-n) as nat));
    } else {
        lemma_digits_number(n as nat);
        assert(is_digit(digits(n as nat)[0]));
    }
}

/// A run of digits stands for a number that is not negative, and its prefixes
/// stand for smaller ones.
proof fn lemma_number_grows(s: Seq<char>, k: int)
    requires
        forall|i: int| 0 <= i < s.len() ==> is_digit(#[trigger] s[i]),
        0 <= k <= s.len(),
    ensures
        0 <= number(s.take(k)) <= number(s),
    decreases s.len(),
{
    if s.len() == 0 {
        assert(s.take(k) =~= s);
    } else {
        assert(is_digit(s[s.len() - 1]));
        let front = s.drop_last();
        assert forall|i: int| 0 <= i < front.len() implies is_digit(#[trigger] front[i]) by {
            assert(front[i] == s[i]);
        }
        lemma_number_grows(front, front.len() as int);
        assert(front.take(front.len() as int) =~= front);
        if k < s.len() {
            lemma_number_grows(front, k);
            assert(front.take(k) =~= s.take(k));
        } else {
            assert(s.take(k) =~= s);
        }
    }
}

/// A value that was read lies within the bounds it was read with.
pub proof fn lemma_signed_range(s: Seq<char>, max: int)
    requires
        max >= 0,
    ensures
        signed_value(s, max) matches Some(n) ==> -max - 1 <= n <= max,
        unsigned_value(s, max) matches Some(n) ==> 0 <= n <= max,
{
    let t = s.skip(1);
    if is_number(s) {
        lemma_number_grows(s, s.len() as int);
        assert(s.take(s.len() as int) =~= s);
    }
    if s.len() > 0 && is_number(t) {
        lemma_number_grows(t, t.len() as int);
        assert(t.take(t.len() as int) =~= t);
    }
}

/// The decimal digits of a number.
pub fn nat_text(n: u128) -> (s: String)
    ensures
        s@ == digits(n as nat),
{
    let mut rev: Vec<char> = Vec::new();
    let mut rest: u128 = n;
    while rest >= 10
        invariant
            digits(n as nat) == digits(rest as nat) + rev@.reverse(),
        decreases rest,
    {
        let d: u8 = (rest % 10) as u8;
        let ghost before = rev@;
        rev.push((48 + d) as char);
        proof {
            let r = digits((rest / 10) as nat);
            assert(digits(rest as nat) == r.push(digit(d as int)));
            assert(rev@.reverse() =~= seq![digit(d as int)] + before.reverse());
            assert(r.push(digit(d as int)) + before.reverse() =~= r + rev@.reverse());
        }
        rest = rest / 10;
    }
    let d: u8 = rest as u8;
    let ghost before = rev@;
    rev.push((48 + d) as char);
    assert(rev@.reverse() =~= seq![digit(d as int)] + before.reverse());
    let out = backwards(&rev);
    from_chars(out.as_slice())
}

/// A number in decimal.
pub fn int_text(n: i64) -> (s: String)
    ensures
        s@ == decimal(n as int),
{
    if n < 0 {
        let m: u128 = (-(n as i128)) as u128;
        proof {
            reveal_strlit("-");
            assert("-"@ =~= seq!['-']);
        }
        crate::text::cat("-", nat_text(m).as_str())
    } else {
        nat_text(n as u128)
    }
}

/// The hexadecimal digits of a number.
pub fn hex_text(n: u128) -> (s: String)
    ensures
        s@ == hexits(n as nat),
{
    let mut rev: Vec<char> = Vec::new();
    let mut rest: u128 = n;
    while rest >= 16
        invariant
            hexits(n as nat) == hexits(rest as nat) + rev@.reverse(),
        decreases rest,
    {
        let d: u8 = (rest % 16) as u8;
        let ghost before = rev@;
        rev.push(hex_char(d));
        proof {
            let r = hexits((rest / 16) as nat);
            assert(hexits(rest as nat) == r.push(hexit(d as int)));
            assert(rev@.reverse() =~= seq![hexit(d as int)] + before.reverse());
            assert(r.push(hexit(d as int)) + before.reverse() =~= r + rev@.reverse());
        }
        rest = rest / 16;
    }
    let d: u8 = rest as u8;
    let ghost before = rev@;
    rev.push(hex_char(d));
    assert(rev@.reverse() =~= seq![hexit(d as int)] + before.reverse());
    let out = backwards(&rev);
    from_chars(out.as_slice())
}

fn hex_char(d: u8) -> (c: char)
    requires
        d < 16,
    ensures
        c == hexit(d as int),
{
    if d < 10 {
        (48 + d) as char
    } else {
        (87 + d) as char
    }
}

fn backwards(v: &Vec<char>) -> (out: Vec<char>)
    ensures
        out@ == v@.reverse(),
{
    let mut out: Vec<char> = Vec::new();
    for i in 0..v.len()
        invariant
            out.len() == i,
            forall|k: int| 0 <= k < i ==> #[trigger] out@[k] == v@[v.len() - 1 - k],
    {
        out.push(v[v.len() - 1 - i]);
    }
    assert(out@ =~= v@.reverse());
    out
}

/// The value of a run of digits, if it is one and at most `max`.
fn run_value(cs: &[char], from: usize, max: u128) -> (r: Option<u128>)
    requires
        from <= cs.len(),
        max <= 0xffff_ffff_ffff_ffff,
    ensures
        r is Some <==> is_number(cs@.skip(from as int)) && number(cs@.skip(from as int)) <= max,
        r matches Some(n) ==> n == number(cs@.skip(from as int)) && n <= max,
{
    let ghost body = cs@.skip(from as int);
    if from == cs.len() {
        return None;
    }
    let mut n: u128 = 0;
    assert(body.take(0) =~= Seq::<char>::empty());
    for i in from..cs.len()
        invariant
            body == cs@.skip(from as int),
            from < cs.len(),
            max <= 0xffff_ffff_ffff_ffff,
            n == number(body.take(i - from)),
            n <= max,
            forall|k: int| 0 <= k < i - from ==> is_digit(#[trigger] body[k]),
    {
        let c = cs[i];
        assert(body[i - from] == c);
        if !('0' <= c && c <= '9') {
            return None;
        }
        let d: u128 = (c as u32 - 48) as u128;
        let ghost t = body.take(i - from + 1);
        assert(t.drop_last() =~= body.take(i - from));
        assert(t.last() == c);
        n = n * 10 + d;
        if n > max {
            proof {
                if is_number(body) {
                    lemma_number_grows(body, i - from + 1);
                }
            }
            return None;
        }
    }
    assert(body.take(body.len() as int) =~= body);
    Some(n)
}

/// The value of a text as a number up to `max`.
fn unsigned_up_to(s: &str, max: u128) -> (r: Option<u128>)
    requires
        max <= 0xffff_ffff_ffff_ffff,
    ensures
        match r {
            Some(n) => n <= max && unsigned_value(s@, max as int) == Some(n as int),
            None => unsigned_value(s@, max as int) is None,
        },
{
    let cs = to_chars(s);
    assert(cs@.skip(0) =~= cs@);
    let from: usize = if cs.len() > 0 && cs[0] == '+' {
        1
    } else {
        0
    };
    run_value(cs.as_slice(), from, max)
}

/// The value of a text as a `usize`.
pub fn parse_usize(s: &str) -> (r: Option<usize>)
    ensures
        match r {
            Some(n) => unsigned_value(s@, usize::MAX as int) == Some(n as int),
            None => unsigned_value(s@, usize::MAX as int) is None,
        },
{
    match unsigned_up_to(s, usize::MAX as u128) {
        Some(n) => Some(n as usize),
        None => None,
    }
}

/// The value of a text as a number from `-max - 1` to `max`.
fn signed_up_to(s: &str, max: u128) -> (r: Option<i128>)
    requires
        max < 0xffff_ffff_ffff_ffff,
    ensures
        match r {
            Some(n) => -max - 1 <= n <= max && signed_value(s@, max as int) == Some(n as int),
            None => signed_value(s@, max as int) is None,
        },
{
    let cs = to_chars(s);
    if cs.len() > 0 && cs[0] == '-' {
        match run_value(cs.as_slice(), 1, max + 1) {
            Some(n) => Some(-(n as i128)),
            None => None,
        }
    } else {
        match unsigned_up_to(s, max) {
            Some(n) => Some(n as i128),
            None => None,
        }
    }
}

/// The value of a text as an `i64`.
pub fn parse_i64(s: &str) -> (r: Option<i64>)
    ensures
        match r {
            Some(n) => signed_value(s@, i64::MAX as int) == Some(n as int),
            None => signed_value(s@, i64::MAX as int) is None,
        },
{
    match signed_up_to(s, i64::MAX as u128) {
        Some(n) => Some(n as i64),
        None => None,
    }
}

/// The value of a text as an `i32`.
pub fn parse_i32(s: &str) -> (r: Option<i32>)
    ensures
        match r {
            Some(n) => signed_value(s@, i32::MAX as int) == Some(n as int),
            None => signed_value(s@, i32::MAX as int) is None,
        },
{
    match signed_up_to(s, i32::MAX as u128) {
        Some(n) => Some(n as i32),
        None => None,
    }
}

/// Why a text is no number.
#[derive(Debug, Clone, Copy, PartialEq, Eq, Structural)]
pub enum NumberFault {
    Empty,
    InvalidDigit,
    TooLarge,
}

/// How many digits a text starts with.
pub open spec fn leading_digits(s: Seq<char>) -> int
    decreases s.len(),
{
    if s.len() == 0 || !is_digit(s[0]) {
        0
    } else {
        1 + leading_digits(s.skip(1))
    }
}

/// Why a text is no number from 0 to `max`, if it is none: the first fault from
/// the left. Digits that exceed the bound come before whatever follows them.
pub open spec fn fault_of(s: Seq<char>, max: int) -> NumberFault {
    let body = if s.len() > 0 && s[0] == '+' {
        s.skip(1)
    } else {
        s
    };
    if s.len() == 0 {
        NumberFault::Empty
    } else if number(body.take(leading_digits(body))) > max {
        NumberFault::TooLarge
    } else {
        NumberFault::InvalidDigit
    }
}

proof fn lemma_leading_digits(s: Seq<char>)
    ensures
        0 <= leading_digits(s) <= s.len(),
        forall|i: int| 0 <= i < leading_digits(s) ==> is_digit(#[trigger] s[i]),
        leading_digits(s) < s.len() ==> !is_digit(s[leading_digits(s)]),
    decreases s.len(),
{
    if s.len() > 0 && is_digit(s[0]) {
        let t = s.skip(1);
        lemma_leading_digits(t);
        assert forall|i: int| 0 <= i < leading_digits(s) implies is_digit(#[trigger] s[i]) by {
            if i > 0 {
                assert(t[i - 1] == s[i]);
            }
        }
        if leading_digits(s) < s.len() {
            assert(t[leading_digits(t)] == s[leading_digits(s)]);
        }
    }
}

/// Why a text is no `usize`, if it is none.
pub fn usize_fault(s: &str) -> (r: NumberFault)
    ensures
        r == fault_of(s@, usize::MAX as int),
{
    let cs = to_chars(s);
    if cs.len() == 0 {
        return NumberFault::Empty;
    }
    assert(cs@.skip(0) =~= cs@);
    let from: usize = if cs[0] == '+' {
        1
    } else {
        0
    };
    let max: u128 = usize::MAX as u128;
    let ghost body = cs@.skip(from as int);
    let ghost run = body.take(leading_digits(body));
    proof {
        lemma_leading_digits(body);
        assert(body.take(0) =~= Seq::<char>::empty());
        assert forall|i: int| 0 <= i < run.len() implies is_digit(#[trigger] run[i]) by {
            assert(run[i] == body[i]);
        }
    }
    let mut n: u128 = 0;
    let mut i: usize = from;
    while i < cs.len() && '0' <= cs[i] && cs[i] <= '9'
        invariant
            from <= i <= cs.len(),
            cs@ == s@,
            cs.len() > 0,
            body == cs@.skip(from as int),
            body == if s@[0] == '+' {
                s@.skip(1)
            } else {
                s@
            },
            run == body.take(leading_digits(body)),
            0 <= leading_digits(body) <= body.len(),
            leading_digits(body) < body.len() ==> !is_digit(body[leading_digits(body)]),
            forall|k: int| 0 <= k < run.len() ==> is_digit(#[trigger] run[k]),
            forall|k: int| 0 <= k < i - from ==> is_digit(#[trigger] body[k]),
            i - from <= leading_digits(body),
            max == usize::MAX as u128,
            n == number(body.take(i - from)),
            n <= max,
        decreases cs.len() - i,
    {
        let c = cs[i];
        assert(body[i - from] == c);
        let d: u128 = (c as u32 - 48) as u128;
        let ghost t = body.take(i - from + 1);
        assert(t.drop_last() =~= body.take(i - from));
        assert(t.last() == c);
        n = n * 10 + d;
        i = i + 1;
        if n > max {
            proof {
                lemma_number_grows(run, i - from);
                assert(run.take(i - from) =~= body.take(i - from));
            }
            return NumberFault::TooLarge;
        }
    }
    assert(i - from == leading_digits(body)) by {
        if i - from < leading_digits(body) {
            assert(is_digit(run[i - from]));
            assert(run[i - from] == body[i - from]);
            assert(body[i - from] == cs@[i as int]);
        }
    }
    NumberFault::InvalidDigit
}

/// Digits count by their place: in a run of digits, those before the last ones stand for their
/// value times ten for each digit that follows.
pub proof fn law_digits_count_by_place(a: Seq<char>, b: Seq<char>)
    ensures
        number(a + b) == number(a) * vstd::arithmetic::power::pow(10, b.len()) + number(b),
        a.len() == 1 ==> number(a) == a[0] as int - '0' as int,
{
    lemma_place(a, b);
    if a.len() == 1 {
        assert(a.drop_last() =~= Seq::<char>::empty());
        assert(number(a.drop_last()) == 0);
        assert(a.last() == a[0]);
    }
}

proof fn lemma_place(a: Seq<char>, b: Seq<char>)
    ensures
        number(a + b) == number(a) * vstd::arithmetic::power::pow(10, b.len()) + number(b),
    decreases b.len(),
{
    if b.len() == 0 {
        assert(a + b =~= a);
        vstd::arithmetic::power::lemma_pow0(10);
    } else {
        let front = b.drop_last();
        lemma_place(a, front);
        assert((a + b).drop_last() =~= a + front);
        assert((a + b).last() == b.last());
        let p = vstd::arithmetic::power::pow(10, front.len());
        let q = vstd::arithmetic::power::pow(10, b.len());
        assert(q == 10 * p) by {
            vstd::arithmetic::power::lemma_pow_adds(10, 1, front.len());
            vstd::arithmetic::power::lemma_pow1(10);
            assert(b.len() == 1 + front.len());
        }
        assert(number(a + front) * 10 == number(a) * q + number(front) * 10) by (nonlinear_arith)
            requires
                number(a + front) == number(a) * p + number(front),
                q == 10 * p,
        ;
    }
}

/// Which texts are numbers: a run of digits with or without a plus sign and with any zeros in
/// front, if it stands for no more than the bound; behind a minus sign, what is at most one more.
pub proof fn law_texts_that_are_numbers(s: Seq<char>, max: int)
    requires
        is_number(s),
    ensures
        unsigned_value(s, max) is Some <==> number(s) <= max,
        unsigned_value(s, max) is Some ==> unsigned_value(s, max) == Some(number(s)),
        unsigned_value(seq!['+'] + s, max) == unsigned_value(s, max),
        unsigned_value(seq!['0'] + s, max) == unsigned_value(s, max),
        unsigned_value(seq!['-'] + s, max) is None,
        signed_value(s, max) == unsigned_value(s, max),
        signed_value(seq!['+'] + s, max) == unsigned_value(s, max),
        signed_value(seq!['-'] + s, max) is Some <==> number(s) <= max + 1,
        signed_value(seq!['-'] + s, max) is Some ==> signed_value(seq!['-'] + s, max) == Some(
            -number(s),
        ),
{
    assert(is_digit(s[0]));
    let plus = seq!['+'] + s;
    let zero = seq!['0'] + s;
    let minus = seq!['-'] + s;
    assert(plus.skip(1) =~= s);
    assert(minus.skip(1) =~= s);
    assert(minus[0] == '-' && plus[0] == '+' && zero[0] == '0');
    assert(!is_digit(minus[0]));
    assert forall|i: int| 0 <= i < zero.len() implies is_digit(#[trigger] zero[i]) by {
        if i > 0 {
            assert(is_digit(s[i - 1]));
        }
    }
    law_digits_count_by_place(seq!['0'], s);
    assert(number(seq!['0']) == 0) by {
        law_digits_count_by_place(seq!['0'], Seq::empty());
    }
    let p = vstd::arithmetic::power::pow(10, s.len());
    assert(0 * p == 0);
}

/// What is no number: a text without digits, or with anything but digits behind its sign.
pub proof fn law_texts_that_are_no_numbers(s: Seq<char>, max: int, i: int)
    requires
        s.len() == 0 || (0 < i < s.len() && !is_digit(s[i])) || (!is_digit(s[0]) && s[0] != '+'
            && s[0] != '-') || (s.len() == 1 && !is_digit(s[0])),
    ensures
        unsigned_value(s, max) is None,
        signed_value(s, max) is None,
{
    let t = s.skip(1);
    if s.len() > 0 && 0 < i < s.len() && !is_digit(s[i]) {
        assert(t[i - 1] == s[i]);
    }
}

/// Why a text is refused: the empty one for being empty, one that begins with digits beyond the
/// bound for that, whatever follows, and every other for a character that is no digit.
pub proof fn law_faults(s: Seq<char>, rest: Seq<char>, max: int)
    ensures
        fault_of(s, max) is Empty <==> s.len() == 0,
        is_number(s) && number(s) > max ==> fault_of(s + rest, max) is TooLarge && fault_of(
            seq!['+'] + s + rest,
            max,
        ) is TooLarge,
        is_number(s) && number(s) <= max && rest.len() > 0 && !is_digit(rest[0]) ==> fault_of(
            s + rest,
            max,
        ) is InvalidDigit,
        max >= 0 && s.len() > 0 && !is_digit(s[0]) && s[0] != '+' ==> fault_of(s, max)
            is InvalidDigit,
{
    if is_number(s) {
        let t = s + rest;
        let u = seq!['+'] + s + rest;
        assert(is_digit(s[0]));
        assert(t[0] == s[0]);
        assert(u[0] == '+');
        assert(u.skip(1) =~= t);
        lemma_leading_digits(t);
        let k = leading_digits(t);
        assert(k >= s.len()) by {
            if k < s.len() {
                assert(t[k] == s[k]);
                assert(is_digit(s[k]));
            }
        }
        let run = t.take(k);
        assert forall|i: int| 0 <= i < run.len() implies is_digit(#[trigger] run[i]) by {
            assert(run[i] == t[i]);
        }
        lemma_number_grows(run, s.len() as int);
        assert(run.take(s.len() as int) =~= s);
        if rest.len() > 0 && !is_digit(rest[0]) {
            assert(t[s.len() as int] == rest[0]);
            assert(k == s.len());
            assert(run =~= s);
        }
    }
    if s.len() > 0 && !is_digit(s[0]) {
        assert(s.take(0) =~= Seq::<char>::empty());
        assert(number(s.take(0)) == 0);
    }
}

/// What a run of lower-case hexadecimal digits stands for.
pub open spec fn hex_value(s: Seq<char>) -> int
    decreases s.len(),
{
    if s.len() == 0 {
        0
    } else {
        let c = s.last();
        hex_value(s.drop_last()) * 16 + if is_digit(c) {
            c as int - '0' as int
        } else {
            c as int - 'a' as int + 10
        }
    }
}

/// The hexadecimal digits of a number stand for it, are all lower-case ones, and do not begin
/// with a zero unless the number is zero; so with decimal digits.
pub proof fn law_digits_stand_for_the_number(n: nat)
    ensures
        hex_value(hexits(n)) == n,
        forall|i: int| 0 <= i < hexits(n).len() ==> crate::stamp::is_hexit(#[trigger] hexits(n)[i]),
        hexits(n).len() > 0 && digits(n).len() > 0,
        hexits(n)[0] == '0' ==> n == 0,
        number(digits(n)) == n,
        is_number(digits(n)),
        digits(n)[0] == '0' ==> n == 0,
    decreases n,
{
    lemma_digits_number(n);
    if n >= 10 {
        law_digits_stand_for_the_number(n / 10);
        assert(digits(n)[0] == digits(n / 10)[0]);
    } else {
        assert(digits(n)[0] == digit(n as int));
    }
    if n < 16 {
        assert(hexits(n).drop_last() =~= Seq::<char>::empty());
        assert(hex_value(Seq::<char>::empty()) == 0);
        assert(hexits(n).last() == hexit(n as int));
        assert(hexits(n)[0] == hexit(n as int));
    } else {
        law_digits_stand_for_the_number(n / 16);
        let front = hexits(n / 16);
        assert(hexits(n).drop_last() =~= front);
        assert(hexits(n).last() == hexit((n % 16) as int));
        assert(hexits(n)[0] == front[0]);
        assert forall|i: int| 0 <= i < hexits(n).len() implies crate::stamp::is_hexit(
            #[trigger] hexits(n)[i],
        ) by {
            if i < front.len() {
                assert(hexits(n)[i] == front[i]);
            }
        }
    }
}

}
