//! Numbers and bytes as text, and pieces of text.
use vstd::prelude::*;

verus! {

/// The character of a hexadecimal digit, in lower case.
pub open spec fn digit_char(d: int) -> char {
    if d < 10 {
        ('0' as int + d) as char
    } else {
        ('a' as int + d - 10) as char
    }
}

fn digit_text(d: u64) -> (r: &'static str)
    requires
        d < 16,
    ensures
        r@ == seq![digit_char(d as int)],
{
    proof {
        reveal_strlit("0");
        reveal_strlit("1");
        reveal_strlit("2");
        reveal_strlit("3");
        reveal_strlit("4");
        reveal_strlit("5");
        reveal_strlit("6");
        reveal_strlit("7");
        reveal_strlit("8");
        reveal_strlit("9");
        reveal_strlit("a");
        reveal_strlit("b");
        reveal_strlit("c");
        reveal_strlit("d");
        reveal_strlit("e");
        reveal_strlit("f");
    }
    let r: &'static str =
        if d == 0 {
            "0"
        } else if d == 1 {
            "1"
        } else if d == 2 {
            "2"
        } else if d == 3 {
            "3"
        } else if d == 4 {
            "4"
        } else if d == 5 {
            "5"
        } else if d == 6 {
            "6"
        } else if d == 7 {
            "7"
        } else if d == 8 {
            "8"
        } else if d == 9 {
            "9"
        } else if d == 10 {
            "a"
        } else if d == 11 {
            "b"
        } else if d == 12 {
            "c"
        } else if d == 13 {
            "d"
        } else if d == 14 {
            "e"
        } else {
            "f"
        };
    assert(r@ =~= seq![digit_char(d as int)]);
    r
}

/// A number in decimal digits.
pub open spec fn decimal(n: nat) -> Seq<char>
    decreases n,
{
    if n < 10 {
        seq![digit_char(n as int)]
    } else {
        decimal(n / 10).push(digit_char((n % 10) as int))
    }
}

/// A number in decimal digits.
pub fn decimal_text(n: u64) -> (r: String)
    ensures
        r@ == decimal(n as nat),
    decreases n,
{
    if n < 10 {
        String::from_str(digit_text(n))
    } else {
        let mut r: String = decimal_text(n / 10);
        r.append(digit_text(n % 10));
        assert(r@ =~= decimal(n as nat));
        r
    }
}

/// Bytes in hexadecimal digits, two for each.
pub open spec fn hex(bytes: Seq<u8>) -> Seq<char>
    decreases bytes.len(),
{
    if bytes.len() == 0 {
        Seq::empty()
    } else {
        hex(bytes.drop_last()).push(digit_char(bytes.last() as int / 16)).push(digit_char(bytes.last() as int % 16))
    }
}

/// Bytes in hexadecimal digits, two for each.
pub fn hex_text(bytes: &[u8]) -> (r: String)
    ensures
        r@ == hex(bytes@),
        r@.len() == 2 * bytes@.len(),
{
    let mut r: String = String::new();
    let mut i: usize = 0;
    while i < bytes.len()
        invariant
            i <= bytes@.len(),
            r@ == hex(bytes@.take(i as int)),
            r@.len() == 2 * i,
        decreases bytes@.len() - i,
    {
        r.append(digit_text((bytes[i] / 16) as u64));
        r.append(digit_text((bytes[i] % 16) as u64));
        proof {
            assert(bytes@.take(i + 1).drop_last() =~= bytes@.take(i as int));
            assert(r@ =~= hex(bytes@.take(i + 1)));
        }
        i = i + 1;
    }
    assert(bytes@.take(i as int) =~= bytes@);
    r
}

/// A character is a decimal digit.
pub open spec fn is_digit(c: char) -> bool {
    '0' <= c && c <= '9'
}

/// The number that decimal digits spell.
pub open spec fn digits_value(s: Seq<char>) -> nat
    decreases s.len(),
{
    if s.len() == 0 {
        0
    } else {
        10 * digits_value(s.drop_last()) + (s.last() as int - '0' as int) as nat
    }
}

/// A text without its leading plus sign.
pub open spec fn without_plus(s: Seq<char>) -> Seq<char> {
    if s.len() > 0 && s[0] == '+' {
        s.skip(1)
    } else {
        s
    }
}

/// The number that a text spells: decimal digits, at least one, after a plus sign at most.
/// There is none where the number needs more than 64 bits.
pub open spec fn parsed(s: Seq<char>) -> Option<u64> {
    let digits = without_plus(s);
    if digits.len() > 0 && (forall|i: int| 0 <= i < digits.len() ==> is_digit(#[trigger] digits[i])) && digits_value(
        digits,
    ) <= u64::MAX {
        Some(digits_value(digits) as u64)
    } else {
        None
    }
}

proof fn lemma_value_grows(s: Seq<char>, k: int)
    requires
        0 <= k <= s.len(),
        forall|i: int| 0 <= i < s.len() ==> is_digit(#[trigger] s[i]),
    ensures
        digits_value(s.take(k)) <= digits_value(s),
    decreases s.len() - k,
{
    if k == s.len() {
        assert(s.take(k) =~= s);
    } else {
        lemma_value_grows(s, k + 1);
        assert(s.take(k + 1).drop_last() =~= s.take(k));
        assert(is_digit(s[k]));
    }
}

/// The number that a text spells.
pub fn parse_u64(s: &str) -> (r: Option<u64>)
    ensures
        r == parsed(s@),
{
    let n: usize = s.unicode_len();
    let start: usize = if n > 0 && s.get_char(0) == '+' {
        1
    } else {
        0
    };
    let ghost digits = without_plus(s@);
    if start == n {
        return None;
    }
    let mut value: u64 = 0;
    let mut i: usize = start;
    while i < n
        invariant
            n == s@.len(),
            start <= i <= n,
            digits == s@.skip(start as int),
            digits == without_plus(s@),
            forall|k: int| 0 <= k < i - start ==> is_digit(#[trigger] digits[k]),
            value == digits_value(digits.take(i - start)),
        decreases n - i,
    {
        let c: char = s.get_char(i);
        assert(c == digits[i - start]);
        if c < '0' || c > '9' {
            return None;
        }
        let d: u64 = (c as u32 - '0' as u32) as u64;
        proof {
            let longer = digits.take(i - start + 1);
            assert(longer.drop_last() =~= digits.take(i - start));
            assert(digits_value(longer) == 10 * value + d);
            if (forall|k: int| 0 <= k < digits.len() ==> is_digit(#[trigger] digits[k])) {
                lemma_value_grows(digits, i - start + 1);
            }
        }
        if value > u64::MAX / 10 || (value == u64::MAX / 10 && d > u64::MAX % 10) {
            return None;
        }
        value = 10 * value + d;
        i = i + 1;
    }
    assert(digits.take(n - start) =~= digits);
    Some(value)
}

/// A number comes back from its decimal digits.
pub proof fn law_parse_after_decimal(n: u64)
    ensures
        parsed(decimal(n as nat)) == Some(n),
{
    lemma_decimal(n as nat);
    let s = decimal(n as nat);
    assert(is_digit(s[0]));
    assert(without_plus(s) == s);
}

proof fn lemma_decimal(n: nat)
    ensures
        decimal(n).len() > 0,
        forall|i: int| 0 <= i < decimal(n).len() ==> is_digit(#[trigger] decimal(n)[i]),
        digits_value(decimal(n)) == n,
    decreases n,
{
    let s = decimal(n);
    if n >= 10 {
        lemma_decimal(n / 10);
        let before = decimal(n / 10);
        assert(s.drop_last() =~= before);
        assert forall|i: int| 0 <= i < s.len() implies is_digit(#[trigger] s[i]) by {
            if i < before.len() {
                assert(s[i] == before[i]);
            }
        }
    } else {
        assert(s.drop_last() =~= Seq::<char>::empty());
        assert(digits_value(s.drop_last()) == 0);
    }
}

/// The first `n` characters, or all where there are fewer.
pub open spec fn leading_chars(s: Seq<char>, n: int) -> Seq<char> {
    if s.len() <= n {
        s
    } else {
        s.take(n)
    }
}

/// The first `n` characters, or all where there are fewer.
pub fn first_chars(s: &str, n: usize) -> (r: String)
    ensures
        r@ == leading_chars(s@, n as int),
{
    let len: usize = s.unicode_len();
    if len <= n {
        String::from_str(s)
    } else {
        String::from_str(s.substring_char(0, n))
    }
}

/// Whether two texts are equal.
pub fn same_text(a: &str, b: &str) -> (r: bool)
    ensures
        r == (a@ == b@),
{
    let x: String = String::from_str(a);
    let y: String = String::from_str(b);
    x == y
}

/// `part` stands somewhere in `text`.
pub open spec fn holds(text: Seq<char>, part: Seq<char>) -> bool {
    exists|before: Seq<char>, after: Seq<char>| text == #[trigger] (before + part + after)
}

/// What stands between two texts stands in the whole.
pub proof fn lemma_holds(before: Seq<char>, part: Seq<char>, after: Seq<char>)
    ensures
        holds(before + part + after, part),
{
}

/// What stands in a text also stands in any text around it.
pub proof fn lemma_holds_around(before: Seq<char>, text: Seq<char>, after: Seq<char>, part: Seq<char>)
    requires
        holds(text, part),
    ensures
        holds(before + text + after, part),
{
    let (a, b) = choose|a: Seq<char>, b: Seq<char>| text == #[trigger] (a + part + b);
    let (x, y) = (before + a, b + after);
    assert(before + text + after =~= x + part + y);
}

/// Decimal digits have no leading zero but for zero itself, and one digit more multiplies the
/// number by ten and adds it.
pub proof fn law_decimal_digits(n: nat)
    ensures
        n < 10 ==> decimal(n) == seq![('0' as int + n) as char],
        n > 0 ==> decimal(n)[0] != '0',
        forall|d: nat| d < 10 && n > 0 ==> #[trigger] decimal(10 * n + d) == decimal(n).push(('0' as int + d) as char),
    decreases n,
{
    if n >= 10 {
        law_decimal_digits(n / 10);
        lemma_decimal(n / 10);
    }
    assert forall|d: nat| d < 10 && n > 0 implies #[trigger] decimal(10 * n + d) == decimal(n).push(
        ('0' as int + d) as char,
    ) by {
        assert((10 * n + d) / 10 == n && (10 * n + d) % 10 == d);
    }
}

/// What a text spells: without a character, or with one that is no digit behind a plus sign at
/// most, nothing. A plus sign makes no difference, and one digit more multiplies by ten and adds.
pub proof fn law_parsed(s: Seq<char>, c: char)
    ensures
        parsed(Seq::empty()) is None && parsed(seq!['+']) is None,
        forall|i: int| 0 < i < s.len() && !('0' <= #[trigger] s[i] && s[i] <= '9') ==> parsed(s) is None,
        s.len() > 0 && '0' <= s[0] && s[0] <= '9' ==> parsed(seq!['+'] + s) == parsed(s),
        '0' <= c && c <= '9' ==> parsed(seq![c]) == Some((c as int - '0' as int) as u64),
        (parsed(s) matches Some(v) && '0' <= c && c <= '9') ==> parsed(s.push(c)) == (if 10 * parsed(s)->Some_0 + (
        c as int - '0' as int) <= u64::MAX {
            Some((10 * parsed(s)->Some_0 + (c as int - '0' as int)) as u64)
        } else {
            None
        }),
{
    assert forall|i: int| 0 < i < s.len() && !('0' <= #[trigger] s[i] && s[i] <= '9') implies parsed(s) is None by {
        let digits = without_plus(s);
        let at = if s[0] == '+' {
            i - 1
        } else {
            i
        };
        assert(digits[at] == s[i]);
        assert(!is_digit(digits[at]));
    }
    assert(without_plus(seq!['+']).len() == 0);
    if s.len() > 0 && '0' <= s[0] && s[0] <= '9' {
        assert((seq!['+'] + s).skip(1) =~= s);
        assert(without_plus(seq!['+'] + s) == s);
        assert(without_plus(s) == s);
    }
    if '0' <= c && c <= '9' {
        let one = seq![c];
        assert(one.drop_last() =~= Seq::empty());
        assert(digits_value(one.drop_last()) == 0);
        assert(digits_value(one) == c as int - '0' as int);
        assert(is_digit(one[0]));
        assert(without_plus(one) == one);
        if parsed(s) is Some {
            let digits = without_plus(s);
            let more = digits.push(c);
            assert(without_plus(s.push(c)) =~= more);
            assert(more.drop_last() =~= digits);
            assert(digits_value(more) == 10 * digits_value(digits) + (c as int - '0' as int));
            assert forall|i: int| 0 <= i < more.len() implies is_digit(#[trigger] more[i]) by {
                if i < digits.len() {
                    assert(more[i] == digits[i]);
                }
            }
        }
    }
}

/// Bytes in hexadecimal digits: two characters for each byte, the one of its upper half first,
/// and different bytes give different texts.
pub proof fn law_hex(a: Seq<u8>, b: Seq<u8>)
    ensures
        hex(a).len() == 2 * a.len(),
        forall|i: int|
            0 <= i < a.len() ==> hex(a)[2 * i] == digit_char(#[trigger] a[i] as int / 16) && hex(a)[2 * i + 1]
                == digit_char(a[i] as int % 16),
        forall|d: int| 0 <= d < 10 ==> #[trigger] digit_char(d) == ('0' as int + d) as char,
        forall|d: int| 10 <= d < 16 ==> #[trigger] digit_char(d) == ('a' as int + d - 10) as char,
        hex(a) == hex(b) ==> a == b,
{
    lemma_hex(a);
    lemma_hex(b);
    if hex(a) == hex(b) {
        assert forall|i: int| 0 <= i < a.len() implies a[i] == b[i] by {
            let (x, y) = (a[i] as int, b[i] as int);
            assert(hex(a)[2 * i] == hex(b)[2 * i] && hex(a)[2 * i + 1] == hex(b)[2 * i + 1]);
            assert(digit_char(x / 16) == digit_char(y / 16) && digit_char(x % 16) == digit_char(y % 16));
            assert(x / 16 == y / 16 && x % 16 == y % 16);
        }
        assert(a =~= b);
    }
}

proof fn lemma_hex(bytes: Seq<u8>)
    ensures
        hex(bytes).len() == 2 * bytes.len(),
        forall|i: int|
            0 <= i < bytes.len() ==> hex(bytes)[2 * i] == digit_char(#[trigger] bytes[i] as int / 16) && hex(bytes)[2 * i
                + 1] == digit_char(bytes[i] as int % 16),
    decreases bytes.len(),
{
    if bytes.len() > 0 {
        let rest = bytes.drop_last();
        lemma_hex(rest);
        assert forall|i: int| 0 <= i < bytes.len() implies hex(bytes)[2 * i] == digit_char(
            #[trigger] bytes[i] as int / 16,
        ) && hex(bytes)[2 * i + 1] == digit_char(bytes[i] as int % 16) by {
            if i < rest.len() {
                assert(rest[i] == bytes[i]);
                assert(hex(bytes)[2 * i] == hex(rest)[2 * i]);
                assert(hex(bytes)[2 * i + 1] == hex(rest)[2 * i + 1]);
            }
        }
    }
}

/// The leading characters are those that the text starts with, as many as asked for or all.
pub proof fn law_leading_chars(s: Seq<char>, n: int)
    requires
        0 <= n,
    ensures
        leading_chars(s, n).is_prefix_of(s),
        leading_chars(s, n).len() <= n,
        leading_chars(s, n).len() == n || leading_chars(s, n) == s,
{
}

} // verus!
