//! Little-endian integers in byte buffers.
use vstd::prelude::*;

verus! {

/// `256` to the power of `width`: one more than the largest value of `width` bytes.
pub open spec fn byte_range(width: nat) -> nat
    decreases width,
{
    if width == 0 {
        1
    } else {
        256 * byte_range((width - 1) as nat)
    }
}

/// The `width` low bytes of `x`, least significant first.
pub open spec fn le_bytes(x: nat, width: nat) -> Seq<u8>
    decreases width,
{
    if width == 0 {
        Seq::empty()
    } else {
        seq![(x % 256) as u8] + le_bytes(x / 256, (width - 1) as nat)
    }
}

/// The number that the bytes of `s` write, least significant first.
pub open spec fn le_value(s: Seq<u8>) -> nat
    decreases s.len(),
{
    if s.len() == 0 {
        0
    } else {
        s[0] as nat + 256 * le_value(s.drop_first())
    }
}

/// Writing takes exactly `width` bytes.
pub proof fn le_bytes_len(x: nat, width: nat)
    ensures
        le_bytes(x, width).len() == width,
    decreases width,
{
    if width > 0 {
        le_bytes_len(x / 256, (width - 1) as nat);
    }
}

/// What was written is read back, when it fits the width.
pub proof fn le_value_of_bytes(x: nat, width: nat)
    requires
        x < byte_range(width),
    ensures
        le_value(le_bytes(x, width)) == x,
    decreases width,
{
    if width > 0 {
        let rest = le_bytes(x / 256, (width - 1) as nat);
        assert(le_bytes(x, width).drop_first() =~= rest);
        le_value_of_bytes(x / 256, (width - 1) as nat);
    }
}

/// What was read, written again at the same width, gives the same bytes.
pub proof fn le_bytes_of_value(s: Seq<u8>)
    ensures
        le_bytes(le_value(s), s.len()) == s,
        le_value(s) < byte_range(s.len()),
    decreases s.len(),
{
    if s.len() > 0 {
        let rest = s.drop_first();
        le_bytes_of_value(rest);
        let v = le_value(s);
        assert(v % 256 == s[0] as nat);
        assert(v / 256 == le_value(rest));
        assert(seq![s[0]] + rest =~= s);
    } else {
        assert(le_bytes(0, 0) =~= s);
    }
}

/// Ranges of the two widths that the formats use.
pub proof fn byte_range_values()
    ensures
        byte_range(1) == 0x100,
        byte_range(4) == 0x1_0000_0000,
        byte_range(8) == 0x1_0000_0000_0000_0000,
{
    reveal_with_fuel(byte_range, 9);
}

/// Appends the `width` low bytes of `x` to `buf`.
pub fn push_le(buf: &mut Vec<u8>, x: u64, width: usize)
    ensures
        final(buf)@ == old(buf)@ + le_bytes(x as nat, width as nat),
{
    let mut rest: u64 = x;
    let mut i: usize = 0;
    let ghost start = buf@;
    while i < width
        invariant
            i <= width,
            start + le_bytes(x as nat, width as nat) == buf@ + le_bytes(
                rest as nat,
                (width - i) as nat,
            ),
        decreases width - i,
    {
        let ghost before = buf@;
        buf.push((rest % 256) as u8);
        proof {
            assert(before + le_bytes(rest as nat, (width - i) as nat) =~= buf@ + le_bytes(
                (rest / 256) as nat,
                (width - i - 1) as nat,
            ));
        }
        rest = rest / 256;
        i += 1;
    }
    assert(buf@ + le_bytes(rest as nat, 0) =~= buf@);
}

/// Reads the `width` bytes of `data` from `at` on.
pub fn read_le(data: &[u8], at: usize, width: usize) -> (x: u64)
    requires
        at + width <= data@.len(),
        width <= 8,
    ensures
        x == le_value(data@.subrange(at as int, at + width)),
{
    let ghost whole = data@.subrange(at as int, at + width);
    let end: usize = data.len();
    let mut x: u64 = 0;
    let mut i: usize = width;
    proof {
        assert(whole.skip(width as int) =~= Seq::empty());
        byte_range_values();
    }
    while i > 0
        invariant
            i <= width <= 8,
            at + width <= end == data@.len(),
            whole == data@.subrange(at as int, at + width),
            x == le_value(whole.skip(i as int)),
        decreases i,
    {
        i -= 1;
        proof {
            let tail = whole.skip(i as int);
            assert(tail.drop_first() =~= whole.skip(i + 1));
            assert(tail[0] == data@[at + i]);
            le_bytes_of_value(tail);
            byte_range_grows(tail.len(), 8);
            byte_range_values();
        }
        x = data[at + i] as u64 + 256 * x;
    }
    assert(whole.skip(0) =~= whole);
    x
}

/// More bytes hold larger numbers.
pub proof fn byte_range_grows(a: nat, b: nat)
    requires
        a <= b,
    ensures
        byte_range(a) <= byte_range(b),
    decreases b,
{
    if a < b {
        byte_range_grows(a, (b - 1) as nat);
    }
}

} // verus!
