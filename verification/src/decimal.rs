//! Decimal numerals.
use crate::hex::unsigned;
use crate::text::chars_of;
use vstd::prelude::*;
use vstd::string::*;

verus! {

/// `c` is a decimal digit.
pub open spec fn is_decimal(c: char) -> bool {
    '0' <= c <= '9'
}

pub open spec fn all_decimal(s: Seq<char>) -> bool {
    forall|i: int| 0 <= i < s.len() ==> is_decimal(#[trigger] s[i])
}

/// The number that a sequence of digits denotes.
pub open spec fn decimal_value(s: Seq<char>) -> int
    decreases s.len(),
{
    if s.len() == 0 {
        0
    } else {
        decimal_value(s.drop_last()) * 10 + (s.last() as int - '0' as int)
    }
}

/// The 64-bit number that a numeral denotes; nothing for anything else.
pub open spec fn decimal_u64(s: Seq<char>) -> Option<u64> {
    let d = unsigned(s);
    if d.len() > 0 && all_decimal(d) && decimal_value(d) <= u64::MAX {
        Some(decimal_value(d) as u64)
    } else {
        None
    }
}

/// The 32-bit number that a numeral denotes; nothing for anything else.
pub open spec fn decimal_u32(s: Seq<char>) -> Option<u32> {
    match decimal_u64(s) {
        Some(v) => if v <= u32::MAX {
            Some(v as u32)
        } else {
            None
        },
        None => None,
    }
}

proof fn value_grows(s: Seq<char>, n: int)
    requires
        0 <= n <= s.len(),
        all_decimal(s),
    ensures
        0 <= decimal_value(s.take(n)) <= decimal_value(s),
    decreases s.len(),
{
    if s.len() > 0 {
        let front = s.drop_last();
        assert(all_decimal(front)) by {
            assert forall|i: int| 0 <= i < front.len() implies is_decimal(#[trigger] front[i]) by {
                assert(is_decimal(s[i]));
            }
        }
        assert(is_decimal(s[s.len() - 1]));
        if n == s.len() {
            value_grows(front, n - 1);
            assert(s.take(n) =~= s);
            assert(front.take(n - 1) =~= front);
        } else {
            value_grows(front, n);
            assert(front.take(n) =~= s.take(n));
        }
    } else {
        assert(s.take(n) =~= s);
    }
}

/// Reads a decimal numeral.
pub fn parse_u64(s: &str) -> (r: Option<u64>)
    ensures
        r == decimal_u64(s@),
{
    let cs = chars_of(s);
    let n: usize = cs.len();
    let start: usize = if n > 0 && cs[0] == '+' {
        1
    } else {
        0
    };
    let ghost d = unsigned(s@);
    assert(d =~= s@.subrange(start as int, n as int));
    if start == n {
        return None;
    }
    let mut value: u64 = 0;
    let mut i: usize = start;
    assert(d.take(0) =~= Seq::<char>::empty());
    while i < n
        invariant
            n == cs.len(),
            cs@ == s@,
            start <= i <= n,
            start < n,
            d == unsigned(s@),
            d == s@.subrange(start as int, n as int),
            all_decimal(d.take(i - start)),
            value == decimal_value(d.take(i - start)),
        decreases n - i,
    {
        let c: char = cs[i];
        let ghost part = d.take(i - start);
        let ghost more = d.take(i + 1 - start);
        proof {
            assert(more.drop_last() =~= part);
            assert(more.last() == c);
            assert(d[i - start] == c);
        }
        if !('0' <= c && c <= '9') {
            assert(!is_decimal(d[i - start]));
            return None;
        }
        assert(all_decimal(more)) by {
            assert forall|k: int| 0 <= k < more.len() implies is_decimal(#[trigger] more[k]) by {
                if k < part.len() {
                    assert(is_decimal(part[k]));
                }
            }
        }
        let digit: u64 = (c as u32 - 48) as u64;
        if value > (u64::MAX - digit) / 10 {
            proof {
                if all_decimal(d) {
                    value_grows(d, i + 1 - start);
                }
            }
            return None;
        }
        value = value * 10 + digit;
        i = i + 1;
    }
    assert(d.take(n - start) =~= d);
    Some(value)
}

pub fn parse_u32(s: &str) -> (r: Option<u32>)
    ensures
        r == decimal_u32(s@),
{
    match parse_u64(s) {
        Some(v) => if v <= u32::MAX as u64 {
            Some(v as u32)
        } else {
            None
        },
        None => None,
    }
}

/// The digit of a value below ten.
pub open spec fn decimal_char(v: int) -> char {
    (v + '0' as int) as char
}

fn decimal_text(v: u64) -> (r: &'static str)
    requires
        v < 10,
    ensures
        r@ == seq![decimal_char(v as int)],
{
    proof {
        reveal_strlit("0");
        reveal_strlit("1");
        reveal_strlit("2");
        reveal_strlit("3");
        reveal_strlit("4");
        reveal_strlit("5");
        reveal_strlit("6");
        reveal_strlit("7");
        reveal_strlit("8");
        reveal_strlit("9");
    }
    let r: &'static str = match v {
        0 => "0",
        1 => "1",
        2 => "2",
        3 => "3",
        4 => "4",
        5 => "5",
        6 => "6",
        7 => "7",
        8 => "8",
        _ => "9",
    };
    assert(r@ =~= seq![decimal_char(v as int)]);
    r
}

/// The shortest numeral of `n`.
pub open spec fn numeral(n: int) -> Seq<char>
    decreases n,
{
    if n < 10 {
        seq![decimal_char(n)]
    } else {
        numeral(n / 10).push(decimal_char(n % 10))
    }
}

/// Writes a number out.
pub fn u64_text(n: u64) -> (r: String)
    ensures
        r@ == numeral(n as int),
    decreases n,
{
    if n < 10 {
        let mut r = String::new();
        r.append(decimal_text(n));
        assert(r@ =~= numeral(n as int));
        r
    } else {
        let mut r = u64_text(n / 10);
        let ghost front = r@;
        r.append(decimal_text(n % 10));
        assert(r@ =~= front.push(decimal_char((n % 10) as int)));
        r
    }
}

/// A number with its sign, where it is negative.
pub open spec fn signed_numeral(n: int) -> Seq<char> {
    if n < 0 {
        "-"@ + numeral(-n)
    } else {
        numeral(n)
    }
}

pub fn i64_text(n: i64) -> (r: String)
    ensures
        r@ == signed_numeral(n as int),
{
    if n < 0 {
        let size: u64 = (-(n as i128)) as u64;
        let mut r = "-".to_owned();
        r.append(u64_text(size).as_str());
        r
    } else {
        u64_text(n as u64)
    }
}

proof fn numeral_denotes(n: int)
    requires
        0 <= n,
    ensures
        numeral(n).len() > 0,
        all_decimal(numeral(n)),
        decimal_value(numeral(n)) == n,
    decreases n,
{
    let s = numeral(n);
    if n >= 10 {
        numeral_denotes(n / 10);
        let front = numeral(n / 10);
        assert(s.drop_last() =~= front);
        assert forall|i: int| 0 <= i < s.len() implies is_decimal(#[trigger] s[i]) by {
            if i < front.len() {
                assert(is_decimal(front[i]));
            }
        }
    } else {
        assert(s.drop_last() =~= Seq::<char>::empty());
        assert(decimal_value(Seq::<char>::empty()) == 0);
    }
}

pub proof fn numeral_is_digits(n: int)
    requires
        0 <= n,
    ensures
        numeral(n).len() > 0,
        all_decimal(numeral(n)),
{
    numeral_denotes(n);
}

/// A number written out is read back.
pub proof fn decimal_round_trip(n: u64)
    ensures
        decimal_u64(numeral(n as int)) == Some(n),
{
    numeral_denotes(n as int);
    assert(is_decimal(numeral(n as int)[0]));
}

/// Each digit counts ten times the one behind it, and a single digit is its own value.
pub proof fn decimals_count_by_place(s: Seq<char>, c: char)
    requires
        '0' <= c <= '9',
    ensures
        decimal_value(s.push(c)) == 10 * decimal_value(s) + (c as int - '0' as int),
        decimal_u64(seq![c]) == Some((c as int - '0' as int) as u64),
        decimal_u64(Seq::<char>::empty()) is None,
        decimal_u64(s.push('.')) is None && decimal_u64(seq!['-'] + s) is None,
{
    assert(s.push(c).drop_last() =~= s);
    let one = seq![c];
    assert(unsigned(one) =~= one);
    assert(one.drop_last() =~= Seq::<char>::empty());
    assert(decimal_value(one.drop_last()) == 0);
    let dot = s.push('.');
    let d = unsigned(dot);
    if d.len() > 0 && all_decimal(d) {
        assert(d.last() == '.');
        assert(is_decimal(d[d.len() - 1]));
    }
    let minus = seq!['-'] + s;
    assert(minus[0] == '-');
    assert(unsigned(minus) == minus);
    if all_decimal(minus) {
        assert(is_decimal(minus[0]));
    }
}

/// A number is written without zeros in front, and a negative one with its sign.
pub proof fn numerals_are_plain(n: int)
    ensures
        n > 0 ==> numeral(n)[0] != '0',
        n == 0 ==> numeral(n) == seq!['0'],
        n < 0 ==> signed_numeral(n) == seq!['-'] + numeral(-n),
        n >= 0 ==> signed_numeral(n) == numeral(n),
    decreases n,
{
    reveal_strlit("-");
    if n < 0 {
        assert("-"@ =~= seq!['-']);
    } else if n >= 10 {
        numerals_are_plain(n / 10);
        numeral_denotes(n / 10);
        assert(numeral(n)[0] == numeral(n / 10)[0]);
    } else {
        assert(n == 0 ==> numeral(n) =~= seq!['0']);
    }
}

} // verus!
