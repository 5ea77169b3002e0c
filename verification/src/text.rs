//! Decimal and hexadecimal rendering of numbers, string building, and the wall
//! clock.
use vstd::prelude::*;
use vstd::string::StringExecFns;

verus! {

/// The character of the decimal digit `d`.
pub open spec fn digit_char(d: nat) -> char {
    if d == 0 {
        '0'
    } else if d == 1 {
        '1'
    } else if d == 2 {
        '2'
    } else if d == 3 {
        '3'
    } else if d == 4 {
        '4'
    } else if d == 5 {
        '5'
    } else if d == 6 {
        '6'
    } else if d == 7 {
        '7'
    } else if d == 8 {
        '8'
    } else {
        '9'
    }
}

/// The decimal representation of `n`, without sign or leading zeros.
pub open spec fn decimal(n: nat) -> Seq<char>
    decreases n,
{
    if n < 10 {
        seq![digit_char(n)]
    } else {
        decimal(n / 10).push(digit_char(n % 10))
    }
}

fn digit_str(d: u64) -> (s: &'static str)
    requires
        d < 10,
    ensures
        s@ == seq![digit_char(d as nat)],
{
    proof {
        reveal_strlit("0");
        reveal_strlit("1");
        reveal_strlit("2");
        reveal_strlit("3");
        reveal_strlit("4");
        reveal_strlit("5");
        reveal_strlit("6");
        reveal_strlit("7");
        reveal_strlit("8");
        reveal_strlit("9");
    }
    if d == 0 {
        "0"
    } else if d == 1 {
        "1"
    } else if d == 2 {
        "2"
    } else if d == 3 {
        "3"
    } else if d == 4 {
        "4"
    } else if d == 5 {
        "5"
    } else if d == 6 {
        "6"
    } else if d == 7 {
        "7"
    } else if d == 8 {
        "8"
    } else {
        "9"
    }
}

/// Renders `n` in decimal, as `n.to_string()` does.
pub fn decimal_string(n: u64) -> (s: String)
    ensures
        s@ == decimal(n as nat),
    decreases n,
{
    if n < 10 {
        String::from_str(digit_str(n))
    } else {
        let mut s = decimal_string(n / 10);
        s.append(digit_str(n % 10));
        s
    }
}

/// The character of the hexadecimal digit `d`, in upper case.
pub open spec fn hex_digit(d: nat) -> char {
    if d == 0 {
        '0'
    } else if d == 1 {
        '1'
    } else if d == 2 {
        '2'
    } else if d == 3 {
        '3'
    } else if d == 4 {
        '4'
    } else if d == 5 {
        '5'
    } else if d == 6 {
        '6'
    } else if d == 7 {
        '7'
    } else if d == 8 {
        '8'
    } else if d == 9 {
        '9'
    } else if d == 10 {
        'A'
    } else if d == 11 {
        'B'
    } else if d == 12 {
        'C'
    } else if d == 13 {
        'D'
    } else if d == 14 {
        'E'
    } else {
        'F'
    }
}

/// The hexadecimal representation of `n` in upper case, without leading zeros,
/// as `{:X}` writes it.
pub open spec fn hex(n: nat) -> Seq<char>
    decreases n,
{
    if n < 16 {
        seq![hex_digit(n)]
    } else {
        hex(n / 16).push(hex_digit(n % 16))
    }
}

/// The hexadecimal representation of `n` on at least two digits, as `{:02X}`
/// writes it.
pub open spec fn hex2(n: nat) -> Seq<char> {
    if n < 16 {
        seq!['0'] + hex(n)
    } else {
        hex(n)
    }
}

fn hex_digit_str(d: u64) -> (s: &'static str)
    requires
        d < 16,
    ensures
        s@ == seq![hex_digit(d as nat)],
{
    proof {
        reveal_strlit("0");
        reveal_strlit("1");
        reveal_strlit("2");
        reveal_strlit("3");
        reveal_strlit("4");
        reveal_strlit("5");
        reveal_strlit("6");
        reveal_strlit("7");
        reveal_strlit("8");
        reveal_strlit("9");
        reveal_strlit("A");
        reveal_strlit("B");
        reveal_strlit("C");
        reveal_strlit("D");
        reveal_strlit("E");
        reveal_strlit("F");
    }
    if d == 0 {
        "0"
    } else if d == 1 {
        "1"
    } else if d == 2 {
        "2"
    } else if d == 3 {
        "3"
    } else if d == 4 {
        "4"
    } else if d == 5 {
        "5"
    } else if d == 6 {
        "6"
    } else if d == 7 {
        "7"
    } else if d == 8 {
        "8"
    } else if d == 9 {
        "9"
    } else if d == 10 {
        "A"
    } else if d == 11 {
        "B"
    } else if d == 12 {
        "C"
    } else if d == 13 {
        "D"
    } else if d == 14 {
        "E"
    } else {
        "F"
    }
}

/// Renders `n` in upper-case hexadecimal, as `format!("{:X}", n)` does.
pub fn hex_string(n: u64) -> (s: String)
    ensures
        s@ == hex(n as nat),
    decreases n,
{
    if n < 16 {
        String::from_str(hex_digit_str(n))
    } else {
        let mut s = hex_string(n / 16);
        s.append(hex_digit_str(n % 16));
        s
    }
}

/// Renders `n` in upper-case hexadecimal on at least two digits, as
/// `format!("{:02X}", n)` does.
pub fn hex2_string(n: u8) -> (s: String)
    ensures
        s@ == hex2(n as nat),
{
    if n < 16 {
        let mut s = String::from_str("0");
        s.append(hex_digit_str(n as u64));
        proof {
            reveal_strlit("0");
            assert(s@ =~= seq!['0'] + hex(n as nat));
        }
        s
    } else {
        hex_string(n as u64)
    }
}

/// Concatenates `prefix`, `a`, `sep` and `b`.
pub fn join4(prefix: &str, a: &str, sep: &str, b: &str) -> (s: String)
    ensures
        s@ == prefix@ + a@ + sep@ + b@,
{
    let mut s = String::from_str(prefix);
    s.append(a);
    s.append(sep);
    s.append(b);
    s
}

/// Reads the wall clock: `SystemTime::now().duration_since(UNIX_EPOCH)` in
/// whole seconds, or `None` where the clock reads earlier than the epoch (the
/// `Err` of `duration_since`). Nothing is stated of the value: it depends on the
/// time.
#[verifier::external_body]
fn clock_secs() -> Option<u64> {
    match std::time::SystemTime::now().duration_since(std::time::UNIX_EPOCH) {
        Ok(d) => Some(d.as_secs()),
        Err(_) => None,
    }
}

/// The seconds since the Unix epoch. A clock set before the epoch reads as 0
/// (rather than panicking, as unwrapping `duration_since` would).
pub fn now_unix_secs() -> u64 {
    match clock_secs() {
        Some(t) => t,
        None => 0,
    }
}

/// The value of an upper-case hexadecimal digit character.
pub open spec fn hex_char_value(c: char) -> int {
    if '0' <= c <= '9' {
        c as int - '0' as int
    } else {
        c as int - 'A' as int + 10
    }
}

/// The value of a string of hexadecimal digits read most significant first.
pub open spec fn hex_value(s: Seq<char>) -> int
    decreases s.len(),
{
    if s.len() == 0 {
        0
    } else {
        hex_value(s.drop_last()) * 16 + hex_char_value(s.last())
    }
}

/// Every character is a digit or an upper-case letter from `A` to `F`.
pub open spec fn upper_hex_digits(s: Seq<char>) -> bool {
    forall|i: int| 0 <= i < s.len() ==> ('0' <= #[trigger] s[i] <= '9' || 'A' <= s[i] <= 'F')
}

/// The digit character of `d` below 16 is an upper-case hexadecimal digit of
/// value `d`.
proof fn lemma_hex_digit_value(d: nat)
    requires
        d < 16,
    ensures
        hex_char_value(hex_digit(d)) == d,
        '0' <= hex_digit(d) <= '9' || 'A' <= hex_digit(d) <= 'F',
        d > 0 ==> hex_digit(d) != '0',
{
    assert('0' as int == 48 && '9' as int == 57 && 'A' as int == 65 && 'F' as int == 70);
}

/// The hexadecimal text of `n` is upper-case hexadecimal digits whose value is
/// `n`, the first of them nonzero unless `n` is 0.
pub proof fn law_hex_reads_back(n: nat)
    ensures
        hex(n).len() > 0,
        upper_hex_digits(hex(n)),
        hex_value(hex(n)) == n,
        n > 0 ==> hex(n)[0] != '0',
    decreases n,
{
    lemma_hex_digit_value(n % 16);
    assert(hex_value(Seq::<char>::empty()) == 0);
    if n < 16 {
        assert(hex(n).drop_last() =~= Seq::<char>::empty());
        assert(hex_value(hex(n)) == hex_value(hex(n).drop_last()) * 16 + hex_char_value(hex(n).last()));
    } else {
        law_hex_reads_back(n / 16);
        let h = hex(n / 16);
        assert(hex(n).last() == hex_digit(n % 16));
        assert(hex_value(hex(n)) == hex_value(hex(n).drop_last()) * 16 + hex_char_value(hex(n).last()));
        assert(hex(n).drop_last() =~= h);
        assert(hex(n)[0] == h[0]);
        assert forall|i: int| 0 <= i < hex(n).len() implies ('0' <= #[trigger] hex(n)[i] <= '9' || 'A' <= hex(n)[i] <= 'F') by {
            if i < h.len() {
                assert(hex(n)[i] == h[i]);
            }
        }
    }
}

/// `{:02X}` of a byte is exactly two upper-case hexadecimal digits whose value
/// is the byte.
pub proof fn law_hex2_of_byte(n: nat)
    requires
        n < 256,
    ensures
        hex2(n).len() == 2,
        upper_hex_digits(hex2(n)),
        hex_value(hex2(n)) == n,
{
    law_hex_reads_back(n);
    if n < 16 {
        assert(hex2(n).drop_last() =~= seq!['0']);
        assert(hex_value(seq!['0']) == 0) by {
            assert(seq!['0'].drop_last() =~= Seq::<char>::empty());
            assert(hex_char_value('0') == 0);
            assert(hex_value(Seq::<char>::empty()) == 0);
        }
        assert(hex2(n)[0] == '0');
        assert(hex2(n)[1] == hex(n)[0]);
    } else {
        law_hex_reads_back(n / 16);
        assert(hex(n / 16).len() == 1);
    }
}

/// The decimal text of `n` is digits, the first nonzero unless `n` is 0.
pub proof fn law_decimal_leading_digit(n: nat)
    ensures
        decimal(n).len() > 0,
        forall|i: int| 0 <= i < decimal(n).len() ==> '0' <= #[trigger] decimal(n)[i] <= '9',
        n > 0 ==> decimal(n)[0] != '0',
    decreases n,
{
    if n >= 10 {
        law_decimal_leading_digit(n / 10);
        let d = decimal(n / 10);
        assert(decimal(n)[0] == d[0]);
        assert forall|i: int| 0 <= i < decimal(n).len() implies '0' <= #[trigger] decimal(n)[i] <= '9' by {
            if i < d.len() {
                assert(decimal(n)[i] == d[i]);
            }
        }
    }
}

} // verus!
