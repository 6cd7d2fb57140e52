//! Numbers as little-endian bytes.
use vstd::prelude::*;

verus! {

/// The lowest `width` bytes of `n`, lowest first.
pub open spec fn le_bytes(n: int, width: nat) -> Seq<u8>
    decreases width,
{
    if width == 0 {
        Seq::empty()
    } else {
        seq![(n % 256) as u8] + le_bytes(n / 256, (width - 1) as nat)
    }
}

/// The number whose little-endian bytes are `s`.
pub open spec fn le_value(s: Seq<u8>) -> int
    decreases s.len(),
{
    if s.len() == 0 {
        0
    } else {
        s[0] + 256 * le_value(s.subrange(1, s.len() as int))
    }
}

/// How many numbers `width` bytes can hold.
pub open spec fn span(width: nat) -> int
    decreases width,
{
    if width == 0 {
        1
    } else {
        256 * span((width - 1) as nat)
    }
}

pub proof fn spans()
    ensures
        span(4) == 0x1_0000_0000,
        span(8) == 0x1_0000_0000_0000_0000,
{
    reveal_with_fuel(span, 9);
}

pub proof fn le_bytes_len(n: int, width: nat)
    ensures
        le_bytes(n, width).len() == width,
    decreases width,
{
    if width > 0 {
        le_bytes_len(n / 256, (width - 1) as nat);
    }
}

/// What is read back from the bytes of a number is that number.
pub proof fn read_after_write(n: int, width: nat)
    requires
        0 <= n < span(width),
    ensures
        le_value(le_bytes(n, width)) == n,
    decreases width,
{
    le_bytes_len(n, width);
    if width > 0 {
        let rest = le_bytes(n / 256, (width - 1) as nat);
        read_after_write(n / 256, (width - 1) as nat);
        assert(le_bytes(n, width).subrange(1, width as int) =~= rest);
    }
}

/// What is written for the number of some bytes are those bytes.
pub proof fn write_after_read(s: Seq<u8>)
    ensures
        0 <= le_value(s) < span(s.len()),
        le_bytes(le_value(s), s.len()) == s,
    decreases s.len(),
{
    if s.len() > 0 {
        let rest = s.subrange(1, s.len() as int);
        write_after_read(rest);
        assert(le_value(s) / 256 == le_value(rest));
        assert(le_value(s) % 256 == s[0]);
        assert(le_bytes(le_value(s), s.len()) =~= s);
    } else {
        assert(le_bytes(le_value(s), s.len()) =~= s);
    }
}

/// Appends the lowest `width` bytes of `n`, lowest first.
pub fn put_le(out: &mut Vec<u8>, n: u64, width: usize)
    ensures
        final(out)@ == old(out)@ + le_bytes(n as int, width as nat),
{
    let mut rest: u64 = n;
    let mut i: usize = 0;
    assert(out@ + le_bytes(rest as int, width as nat) =~= old(out)@ + le_bytes(n as int, width as nat));
    while i < width
        invariant
            i <= width,
            out@ + le_bytes(rest as int, (width - i) as nat) == old(out)@ + le_bytes(
                n as int,
                width as nat,
            ),
        decreases width - i,
    {
        let ghost was = out@;
        let ghost tail = le_bytes((rest / 256) as int, (width - i - 1) as nat);
        let low: u8 = (rest % 256) as u8;
        out.push(low);
        assert(out@ + tail =~= was + (seq![low] + tail));
        rest = rest / 256;
        i = i + 1;
    }
    assert(out@ + le_bytes(rest as int, 0) =~= out@);
}

/// Reads `width` bytes, lowest first.
pub fn get_le(s: &[u8], at: usize, width: usize) -> (r: u64)
    requires
        width <= 8,
        at + width <= s@.len(),
    ensures
        r == le_value(s@.subrange(at as int, at + width)),
{
    let n: usize = s.len();
    let mut r: u64 = 0;
    let mut i: usize = width;
    proof {
        spans();
        assert(span(0) == 1);
    }
    while i > 0
        invariant
            i <= width <= 8,
            n == s@.len(),
            at + width <= n,
            r == le_value(s@.subrange(at + i, at + width)),
        decreases i,
    {
        i = i - 1;
        proof {
            let now = s@.subrange(at + i, at + width);
            assert(now.subrange(1, now.len() as int) =~= s@.subrange(at + i + 1, at + width));
            write_after_read(now);
            assert(span(now.len()) <= span(8)) by {
                reveal_with_fuel(span, 9);
            }
            spans();
        }
        r = s[at + i] as u64 + 256 * r;
    }
    r
}

/// Appends a byte string.
pub fn put_all(out: &mut Vec<u8>, s: &[u8])
    ensures
        final(out)@ == old(out)@ + s@,
{
    out.extend_from_slice(s);
    assert(out@ =~= old(out)@ + s@);
}

/// The bytes from `from` up to `to`.
pub fn cut(s: &[u8], from: usize, to: usize) -> (r: Vec<u8>)
    requires
        from <= to <= s@.len(),
    ensures
        r@ == s@.subrange(from as int, to as int),
{
    let mut r: Vec<u8> = Vec::new();
    let mut i: usize = from;
    while i < to
        invariant
            from <= i <= to <= s@.len(),
            r@ == s@.subrange(from as int, i as int),
        decreases to - i,
    {
        r.push(s[i]);
        assert(s@.subrange(from as int, i + 1) =~= s@.subrange(from as int, i as int).push(s@[i as int]));
        i = i + 1;
    }
    r
}

/// The lowest byte comes first.
pub proof fn lowest_byte_first(n: int, width: nat)
    requires
        width > 0,
    ensures
        le_bytes(n, width)[0] == n % 256,
        forall|i: int|
            1 <= i < width ==> #[trigger] le_bytes(n, width)[i] == le_bytes(n / 256, (width - 1) as nat)[i
                - 1],
        0 <= n < 256 ==> forall|i: int| 1 <= i < width ==> #[trigger] le_bytes(n, width)[i] == 0,
    decreases width,
{
    le_bytes_len(n / 256, (width - 1) as nat);
    if 0 <= n < 256 && width > 1 {
        lowest_byte_first(0, (width - 1) as nat);
        assert forall|i: int| 1 <= i < width implies #[trigger] le_bytes(n, width)[i] == 0 by {
            assert(n / 256 == 0);
            assert(le_bytes(n, width)[i] == le_bytes(0, (width - 1) as nat)[i - 1]);
        }
    }
}

} // verus!
