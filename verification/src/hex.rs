//! Hexadecimal numerals.
use crate::text::chars_of;
use vstd::prelude::*;
use vstd::string::*;

verus! {

/// The value of a hexadecimal digit.
pub open spec fn digit_value(c: char) -> Option<int> {
    if '0' <= c <= '9' {
        Some(c as int - '0' as int)
    } else if 'a' <= c <= 'f' {
        Some(c as int - 'a' as int + 10)
    } else if 'A' <= c <= 'F' {
        Some(c as int - 'A' as int + 10)
    } else {
        None
    }
}

/// The value of a hexadecimal digit.
pub fn digit(c: char) -> (r: Option<u32>)
    ensures
        r is Some <==> digit_value(c) is Some,
        r matches Some(v) ==> v == digit_value(c)->0 && v < 16,
{
    let n: u32 = c as u32;
    if 48 <= n && n <= 57 {
        Some(n - 48)
    } else if 97 <= n && n <= 102 {
        Some(n - 87)
    } else if 65 <= n && n <= 70 {
        Some(n - 55)
    } else {
        None
    }
}

/// Every character is a hexadecimal digit.
pub open spec fn all_digits(s: Seq<char>) -> bool {
    forall|i: int| 0 <= i < s.len() ==> digit_value(#[trigger] s[i]) is Some
}

/// The number that a sequence of digits denotes.
pub open spec fn digits_value(s: Seq<char>) -> int
    decreases s.len(),
{
    if s.len() == 0 {
        0
    } else {
        digits_value(s.drop_last()) * 16 + digit_value(s.last())->0
    }
}

/// A numeral without the plus sign that may lead it.
pub open spec fn unsigned(s: Seq<char>) -> Seq<char> {
    if s.len() > 0 && s[0] == '+' {
        s.subrange(1, s.len() as int)
    } else {
        s
    }
}

/// The 32-bit number that a numeral denotes; nothing for anything else.
pub open spec fn hex_u32(s: Seq<char>) -> Option<u32> {
    let d = unsigned(s);
    if d.len() > 0 && all_digits(d) && digits_value(d) <= u32::MAX {
        Some(digits_value(d) as u32)
    } else {
        None
    }
}

proof fn digits_grow(s: Seq<char>, n: int)
    requires
        0 <= n <= s.len(),
        all_digits(s),
    ensures
        0 <= digits_value(s.take(n)) <= digits_value(s),
    decreases s.len(),
{
    if n == s.len() {
        assert(s.take(n) =~= s);
        if n > 0 {
            assert(all_digits(s.drop_last())) by {
                assert forall|i: int| 0 <= i < s.drop_last().len() implies digit_value(
                    #[trigger] s.drop_last()[i],
                ) is Some by {
                    assert(digit_value(s[i]) is Some);
                }
            }
            digits_grow(s.drop_last(), n - 1);
            assert(s.drop_last().take(n - 1) =~= s.drop_last());
            assert(digit_value(s[n - 1]) is Some);
        }
    } else {
        assert(all_digits(s.drop_last())) by {
            assert forall|i: int| 0 <= i < s.drop_last().len() implies digit_value(
                #[trigger] s.drop_last()[i],
            ) is Some by {
                assert(digit_value(s[i]) is Some);
            }
        }
        digits_grow(s.drop_last(), n);
        assert(s.drop_last().take(n) =~= s.take(n));
        assert(digit_value(s[s.len() - 1]) is Some);
    }
}

/// Reads a hexadecimal numeral.
pub fn parse_hex(s: &str) -> (r: Option<u32>)
    ensures
        r == hex_u32(s@),
{
    let cs = chars_of(s);
    let n: usize = cs.len();
    let start: usize = if n > 0 && cs[0] == '+' {
        1
    } else {
        0
    };
    let ghost d = unsigned(s@);
    assert(d =~= s@.subrange(start as int, n as int));
    if start == n {
        return None;
    }
    let mut value: u64 = 0;
    let mut i: usize = start;
    assert(d.take(0) =~= Seq::<char>::empty());
    while i < n
        invariant
            n == cs.len(),
            cs@ == s@,
            start <= i <= n,
            start < n,
            d == unsigned(s@),
            d == s@.subrange(start as int, n as int),
            all_digits(d.take(i - start)),
            value == digits_value(d.take(i - start)),
            value <= u32::MAX,
        decreases n - i,
    {
        let c: char = cs[i];
        let ghost part = d.take(i - start);
        let ghost more = d.take(i + 1 - start);
        proof {
            assert(more.drop_last() =~= part);
            assert(more.last() == c);
        }
        match digit(c) {
            None => {
                assert(d[i - start] == c);
                assert(digit_value(d[i - start]) is None);
                return None;
            },
            Some(v) => {
                assert(all_digits(more)) by {
                    assert forall|k: int| 0 <= k < more.len() implies digit_value(
                        #[trigger] more[k],
                    ) is Some by {
                        if k < part.len() {
                            assert(digit_value(part[k]) is Some);
                        }
                    }
                }
                value = value * 16 + v as u64;
                if value > u32::MAX as u64 {
                    proof {
                        if all_digits(d) {
                            digits_grow(d, i + 1 - start);
                        }
                    }
                    return None;
                }
            },
        }
        i = i + 1;
    }
    assert(d.take(n - start) =~= d);
    Some(value as u32)
}

/// The lower-case digit of a value below sixteen.
pub open spec fn digit_char(v: int) -> char {
    if v < 10 {
        (v + '0' as int) as char
    } else {
        (v - 10 + 'a' as int) as char
    }
}

pub fn digit_text(v: u32) -> (r: &'static str)
    requires
        v < 16,
    ensures
        r@ == seq![digit_char(v as int)],
{
    proof {
        reveal_strlit("0");
        reveal_strlit("1");
        reveal_strlit("2");
        reveal_strlit("3");
        reveal_strlit("4");
        reveal_strlit("5");
        reveal_strlit("6");
        reveal_strlit("7");
        reveal_strlit("8");
        reveal_strlit("9");
        reveal_strlit("a");
        reveal_strlit("b");
        reveal_strlit("c");
        reveal_strlit("d");
        reveal_strlit("e");
        reveal_strlit("f");
    }
    let r: &'static str = match v {
        0 => "0",
        1 => "1",
        2 => "2",
        3 => "3",
        4 => "4",
        5 => "5",
        6 => "6",
        7 => "7",
        8 => "8",
        9 => "9",
        10 => "a",
        11 => "b",
        12 => "c",
        13 => "d",
        14 => "e",
        _ => "f",
    };
    assert(r@ =~= seq![digit_char(v as int)]);
    r
}

/// The `n` lowest hexadecimal digits of `x`, highest first.
pub open spec fn low_digits(x: int, n: int) -> Seq<char>
    decreases n,
{
    if n <= 0 {
        Seq::empty()
    } else {
        low_digits(x / 16, n - 1).push(digit_char(x % 16))
    }
}

/// A 32-bit number as eight digits.
pub fn hex8(x: u32) -> (r: String)
    ensures
        r@ == low_digits(x as int, 8),
{
    let mut out = String::new();
    let d7: u32 = x / 0x1000_0000;
    let d6: u32 = (x / 0x100_0000) % 16;
    let d5: u32 = (x / 0x10_0000) % 16;
    let d4: u32 = (x / 0x1_0000) % 16;
    let d3: u32 = (x / 0x1000) % 16;
    let d2: u32 = (x / 0x100) % 16;
    let d1: u32 = (x / 16) % 16;
    let d0: u32 = x % 16;
    out.append(digit_text(d7));
    out.append(digit_text(d6));
    out.append(digit_text(d5));
    out.append(digit_text(d4));
    out.append(digit_text(d3));
    out.append(digit_text(d2));
    out.append(digit_text(d1));
    out.append(digit_text(d0));
    proof {
        reveal_with_fuel(low_digits, 9);
        let v = x as int;
        assert(v / 16 / 16 == v / 0x100);
        assert(v / 0x100 / 16 == v / 0x1000);
        assert(v / 0x1000 / 16 == v / 0x1_0000);
        assert(v / 0x1_0000 / 16 == v / 0x10_0000);
        assert(v / 0x10_0000 / 16 == v / 0x100_0000);
        assert(v / 0x100_0000 / 16 == v / 0x1000_0000);
        assert(v / 0x1000_0000 < 16);
        assert(out@ =~= low_digits(v, 8));
    }
    out
}

proof fn low_digits_denote(x: int, n: int)
    requires
        x >= 0,
        n >= 0,
    ensures
        low_digits(x, n).len() == n,
        all_digits(low_digits(x, n)),
        n > 0 ==> low_digits(x, n)[0] != '+',
    decreases n,
{
    if n > 0 {
        low_digits_denote(x / 16, n - 1);
        let front = low_digits(x / 16, n - 1);
        let all = low_digits(x, n);
        assert(all.drop_last() =~= front);
        assert forall|i: int| 0 <= i < all.len() implies digit_value(#[trigger] all[i]) is Some by {
            if i < front.len() {
                assert(digit_value(front[i]) is Some);
            }
        }
        if n == 1 {
            assert(front =~= Seq::<char>::empty());
        } else {
            assert(all[0] == front[0]);
        }
    }
}

proof fn low_digits_value(x: int, n: int)
    requires
        x >= 0,
        n >= 0,
        x < vstd::arithmetic::power::pow(16, n as nat),
    ensures
        digits_value(low_digits(x, n)) == x,
    decreases n,
{
    reveal(vstd::arithmetic::power::pow);
    if n > 0 {
        assert(x / 16 < vstd::arithmetic::power::pow(16, (n - 1) as nat)) by {
            assert(vstd::arithmetic::power::pow(16, n as nat) == 16 * vstd::arithmetic::power::pow(
                16,
                (n - 1) as nat,
            ));
        }
        low_digits_value(x / 16, n - 1);
        assert(low_digits(x, n).drop_last() =~= low_digits(x / 16, n - 1));
    }
}

/// A number written out is read back.
pub proof fn hex_round_trip(x: u32)
    ensures
        hex_u32(low_digits(x as int, 8)) == Some(x),
{
    low_digits_denote(x as int, 8);
    assert(vstd::arithmetic::power::pow(16, 8) == 0x1_0000_0000) by {
        reveal_with_fuel(vstd::arithmetic::power::pow, 9);
    }
    low_digits_value(x as int, 8);
}

/// Lower and upper case digits have the sixteen values, in order; nothing else is a digit.
pub proof fn sixteen_digits(c: char)
    ensures
        digit_value('0') == Some(0int) && digit_value('9') == Some(9int),
        digit_value('a') == Some(10int) && digit_value('f') == Some(15int),
        digit_value('A') == Some(10int) && digit_value('F') == Some(15int),
        digit_value(c) is Some <==> '0' <= c <= '9' || 'a' <= c <= 'f' || 'A' <= c <= 'F',
        forall|d: char|
            digit_value(c) is Some && d as int == c as int + 1 && c != '9' && c != 'f' && c != 'F'
                ==> #[trigger] digit_value(d) == Some(digit_value(c)->0 + 1),
{
}

/// Each digit counts sixteen times the one behind it, and a plus sign in front counts nothing.
pub proof fn digits_count_by_place(s: Seq<char>, c: char)
    requires
        digit_value(c) is Some,
    ensures
        digits_value(s.push(c)) == 16 * digits_value(s) + digit_value(c)->0,
        hex_u32(seq![c]) == Some(digit_value(c)->0 as u32),
        s.len() > 0 && s[0] != '+' ==> hex_u32(seq!['+'] + s) == hex_u32(s),
        hex_u32(Seq::<char>::empty()) is None,
{
    assert(s.push(c).drop_last() =~= s);
    let one = seq![c];
    assert(unsigned(one) =~= one);
    assert(one.drop_last() =~= Seq::<char>::empty());
    assert(digits_value(one.drop_last()) == 0);
    if s.len() > 0 {
        let t = seq!['+'] + s;
        assert(t.subrange(1, t.len() as int) =~= s);
    }
}

/// A number in hexadecimal has as many digits as asked for, all of them lower case.
pub proof fn low_digits_are_digits(x: int, n: int)
    requires
        0 <= x,
        0 <= n,
    ensures
        low_digits(x, n).len() == n,
        forall|i: int|
            0 <= i < n ==> ('0' <= #[trigger] low_digits(x, n)[i] <= '9' || 'a' <= low_digits(x, n)[i]
                <= 'f'),
    decreases n,
{
    if n > 0 {
        low_digits_are_digits(x / 16, n - 1);
        let front = low_digits(x / 16, n - 1);
        assert forall|i: int| 0 <= i < n implies ('0' <= #[trigger] low_digits(x, n)[i] <= '9' || 'a'
            <= low_digits(x, n)[i] <= 'f') by {
            if i < n - 1 {
                assert(low_digits(x, n)[i] == front[i]);
            }
        }
    }
}

} // verus!
