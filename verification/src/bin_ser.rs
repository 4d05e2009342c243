//! Big-endian integers as byte strings.
use vstd::prelude::*;

verus! {

/// The number that `s` stands for, most significant byte first.
pub open spec fn be_value(s: Seq<u8>) -> nat
    decreases s.len(),
{
    if s.len() == 0 {
        0
    } else {
        be_value(s.drop_last()) * 256 + s.last() as nat
    }
}

/// The `n` lowest base-256 digits of `v`, most significant first.
pub open spec fn be_digits(v: nat, n: nat) -> Seq<u8>
    decreases n,
{
    if n == 0 {
        Seq::empty()
    } else {
        be_digits(v / 256, (n - 1) as nat).push((v % 256) as u8)
    }
}

/// Whether `v` can be written with `n` base-256 digits.
pub open spec fn fits_digits(v: nat, n: nat) -> bool
    decreases n,
{
    if n == 0 {
        v == 0
    } else {
        fits_digits(v / 256, (n - 1) as nat)
    }
}

/// `n` digits are `n` bytes.
pub proof fn lemma_be_digits_len(v: nat, n: nat)
    ensures
        be_digits(v, n).len() == n,
    decreases n,
{
    if n > 0 {
        lemma_be_digits_len(v / 256, (n - 1) as nat);
    }
}

/// Writing a number that fits and reading it back gives the number.
pub proof fn lemma_value_of_digits(v: nat, n: nat)
    requires
        fits_digits(v, n),
    ensures
        be_value(be_digits(v, n)) == v,
    decreases n,
{
    if n > 0 {
        let rest = be_digits(v / 256, (n - 1) as nat);
        lemma_value_of_digits(v / 256, (n - 1) as nat);
        assert(be_digits(v, n).drop_last() =~= rest);
    }
}

/// Reading a byte string and writing the number back gives the byte string.
pub proof fn lemma_digits_of_value(s: Seq<u8>)
    ensures
        be_digits(be_value(s), s.len()) == s,
        fits_digits(be_value(s), s.len()),
    decreases s.len(),
{
    if s.len() > 0 {
        lemma_digits_of_value(s.drop_last());
        let hi = be_value(s.drop_last());
        assert((hi * 256 + s.last() as nat) / 256 == hi);
        assert((hi * 256 + s.last() as nat) % 256 == s.last() as nat);
        assert(be_digits(hi, (s.len() - 1) as nat).push(s.last()) =~= s);
    } else {
        assert(be_digits(0, 0) =~= s);
    }
}

/// What fits in `n <= 8` digits is below the `n`-th power of 256.
pub proof fn lemma_fits_bound(v: nat, n: nat)
    requires
        fits_digits(v, n),
        n <= 8,
    ensures
        n == 0 ==> v == 0,
        n == 1 ==> v < 0x100,
        n == 2 ==> v < 0x1_0000,
        n == 3 ==> v < 0x100_0000,
        n == 4 ==> v < 0x1_0000_0000,
        n == 5 ==> v < 0x100_0000_0000,
        n == 6 ==> v < 0x1_0000_0000_0000,
        n == 7 ==> v < 0x100_0000_0000_0000,
        n == 8 ==> v < 0x1_0000_0000_0000_0000,
    decreases n,
{
    if n > 0 {
        lemma_fits_bound(v / 256, (n - 1) as nat);
    }
}

/// A number below the `n`-th power of 256 fits in `n` digits.
pub proof fn lemma_bound_fits(v: nat, n: nat)
    requires
        n == 2 && v < 0x1_0000 || n == 4 && v < 0x1_0000_0000 || n == 8 && v
            < 0x1_0000_0000_0000_0000,
    ensures
        fits_digits(v, n),
{
    reveal_with_fuel(fits_digits, 9);
}

/// Appends the `n` lowest bytes of `v`, most significant first.
pub fn write_be(out: &mut Vec<u8>, v: u64, n: usize)
    ensures
        final(out)@ == old(out)@ + be_digits(v as nat, n as nat),
    decreases n,
{
    if n > 0 {
        write_be(out, v / 256, n - 1);
        out.push((v % 256) as u8);
        assert(out@ =~= old(out)@ + be_digits(v as nat, n as nat));
    } else {
        assert(out@ =~= old(out)@ + be_digits(v as nat, n as nat));
    }
}

/// Reads the `n` bytes at `at` as one number, most significant first.
pub fn read_be(buf: &[u8], at: usize, n: usize) -> (v: u64)
    requires
        n <= 8,
        at + n <= buf@.len(),
    ensures
        v as nat == be_value(buf@.subrange(at as int, at + n)),
    decreases n,
{
    if n == 0 {
        0
    } else {
        let hi = read_be(buf, at, n - 1);
        let ghost s = buf@.subrange(at as int, at + n);
        proof {
            assert(s.drop_last() =~= buf@.subrange(at as int, at + n - 1));
            lemma_digits_of_value(s.drop_last());
            lemma_fits_bound(hi as nat, (n - 1) as nat);
        }
        assert(at + n <= buf.len());
        hi * 256 + buf[at + (n - 1)] as u64
    }
}

/// Appends the bytes of `src`.
pub fn write_bytes(out: &mut Vec<u8>, src: &[u8])
    ensures
        final(out)@ == old(out)@ + src@,
{
    let mut i: usize = 0;
    while i < src.len()
        invariant
            i <= src@.len(),
            out@ == old(out)@ + src@.subrange(0, i as int),
        decreases src@.len() - i,
    {
        out.push(src[i]);
        assert(out@ =~= old(out)@ + src@.subrange(0, i + 1));
        i += 1;
    }
    assert(src@.subrange(0, i as int) =~= src@);
}

/// Whether `a` and `b` hold the same bytes.
pub fn bytes_equal(a: &[u8], b: &[u8]) -> (r: bool)
    ensures
        r == (a@ == b@),
{
    if a.len() != b.len() {
        return false;
    }
    let mut i: usize = 0;
    while i < a.len()
        invariant
            i <= a@.len(),
            a@.len() == b@.len(),
            forall|j: int| 0 <= j < i ==> a@[j] == b@[j],
        decreases a@.len() - i,
    {
        if a[i] != b[i] {
            return false;
        }
        i += 1;
    }
    assert(a@ =~= b@);
    true
}

/// Appends `v` as two bytes.
pub fn write_u16(out: &mut Vec<u8>, v: u16)
    ensures
        final(out)@ == old(out)@ + be_digits(v as nat, 2),
{
    write_be(out, v as u64, 2)
}

/// Appends `v` as four bytes.
pub fn write_u32(out: &mut Vec<u8>, v: u32)
    ensures
        final(out)@ == old(out)@ + be_digits(v as nat, 4),
{
    write_be(out, v as u64, 4)
}

/// Appends `v` as eight bytes.
pub fn write_u64(out: &mut Vec<u8>, v: u64)
    ensures
        final(out)@ == old(out)@ + be_digits(v as nat, 8),
{
    write_be(out, v, 8)
}

/// Reads the two bytes at `at` as one number.
pub fn read_u16(buf: &[u8], at: usize) -> (v: u16)
    requires
        at + 2 <= buf@.len(),
    ensures
        v as nat == be_value(buf@.subrange(at as int, at + 2)),
{
    let v = read_be(buf, at, 2);
    proof {
        let s = buf@.subrange(at as int, at + 2);
        lemma_digits_of_value(s);
        lemma_fits_bound(v as nat, 2);
    }
    v as u16
}

/// Reads the four bytes at `at` as one number.
pub fn read_u32(buf: &[u8], at: usize) -> (v: u32)
    requires
        at + 4 <= buf@.len(),
    ensures
        v as nat == be_value(buf@.subrange(at as int, at + 4)),
{
    let v = read_be(buf, at, 4);
    proof {
        let s = buf@.subrange(at as int, at + 4);
        lemma_digits_of_value(s);
        lemma_fits_bound(v as nat, 4);
    }
    v as u32
}

/// Reads the eight bytes at `at` as one number.
pub fn read_u64(buf: &[u8], at: usize) -> (v: u64)
    requires
        at + 8 <= buf@.len(),
    ensures
        v as nat == be_value(buf@.subrange(at as int, at + 8)),
{
    read_be(buf, at, 8)
}

} // verus!
