//! Integers and byte strings in both byte orders.

use vstd::prelude::*;

verus! {

/// Two bytes, most significant first.
pub open spec fn be16(v: u16) -> Seq<u8> {
    seq![(v / 256) as u8, (v % 256) as u8]
}

/// Two bytes, least significant first.
pub open spec fn le16(v: u16) -> Seq<u8> {
    seq![(v % 256) as u8, (v / 256) as u8]
}

/// Four bytes, most significant first.
pub open spec fn be32(v: u32) -> Seq<u8> {
    seq![
        (v / 0x100_0000) as u8,
        (v / 0x1_0000 % 256) as u8,
        (v / 0x100 % 256) as u8,
        (v % 256) as u8,
    ]
}

/// Four bytes, least significant first.
pub open spec fn le32(v: u32) -> Seq<u8> {
    seq![
        (v % 256) as u8,
        (v / 0x100 % 256) as u8,
        (v / 0x1_0000 % 256) as u8,
        (v / 0x100_0000) as u8,
    ]
}

/// The two bytes at `i`, read most significant first.
pub open spec fn u16_be(s: Seq<u8>, i: int) -> u16 {
    (s[i] * 256 + s[i + 1]) as u16
}

/// The two bytes at `i`, read least significant first.
pub open spec fn u16_le(s: Seq<u8>, i: int) -> u16 {
    (s[i] + s[i + 1] * 256) as u16
}

/// The four bytes at `i`, read most significant first.
pub open spec fn u32_be(s: Seq<u8>, i: int) -> u32 {
    (s[i] * 0x100_0000 + s[i + 1] * 0x1_0000 + s[i + 2] * 0x100 + s[i + 3]) as u32
}

/// The four bytes at `i`, read least significant first.
pub open spec fn u32_le(s: Seq<u8>, i: int) -> u32 {
    (s[i] + s[i + 1] * 0x100 + s[i + 2] * 0x1_0000 + s[i + 3] * 0x100_0000) as u32
}

/// A run of zero bytes.
pub open spec fn zeros(n: nat) -> Seq<u8> {
    Seq::new(n, |i: int| 0u8)
}

/// Reading a written integer gives it back, in either byte order and at any place.
pub proof fn integers_read_back(s: Seq<u8>, i: int, short: u16, long: u32)
    requires
        0 <= i,
    ensures
        i + 2 <= s.len() && s.subrange(i, i + 2) == be16(short) ==> u16_be(s, i) == short,
        i + 2 <= s.len() && s.subrange(i, i + 2) == le16(short) ==> u16_le(s, i) == short,
        i + 4 <= s.len() && s.subrange(i, i + 4) == be32(long) ==> u32_be(s, i) == long,
        i + 4 <= s.len() && s.subrange(i, i + 4) == le32(long) ==> u32_le(s, i) == long,
{
    if i + 2 <= s.len() {
        let two = s.subrange(i, i + 2);
        assert(two[0] == s[i] && two[1] == s[i + 1]);
    }
    if i + 4 <= s.len() {
        let four = s.subrange(i, i + 4);
        assert(four[0] == s[i] && four[1] == s[i + 1] && four[2] == s[i + 2] && four[3] == s[i + 3]);
    }
}

/// The bytes in front of the first zero.
pub open spec fn until_zero(s: Seq<u8>) -> Seq<u8>
    decreases s.len(),
{
    if s.len() == 0 || s[0] == 0 { Seq::empty() } else { seq![s[0]] + until_zero(s.skip(1)) }
}

/// Appends a byte string.
pub fn append(out: &mut Vec<u8>, data: &[u8])
    ensures
        final(out)@ == old(out)@ + data@,
{
    let ghost start = out@;
    let mut i: usize = 0;
    while i < data.len()
        invariant
            i <= data@.len(),
            out@ == start + data@.take(i as int),
        decreases data@.len() - i,
    {
        out.push(data[i]);
        i += 1;
        assert(out@ =~= start + data@.take(i as int));
    }
    assert(data@.take(i as int) =~= data@);
}

/// A copy of a byte string.
pub fn copy(data: &[u8]) -> (out: Vec<u8>)
    ensures
        out@ == data@,
{
    let mut out: Vec<u8> = Vec::new();
    append(&mut out, data);
    assert(out@ =~= data@);
    out
}

/// A copy of `data[from..to]`.
pub fn copy_range(data: &[u8], from: usize, to: usize) -> (out: Vec<u8>)
    requires
        from <= to <= data@.len(),
    ensures
        out@ == data@.subrange(from as int, to as int),
{
    let mut out: Vec<u8> = Vec::new();
    let mut i: usize = from;
    while i < to
        invariant
            from <= i <= to <= data@.len(),
            out@ == data@.subrange(from as int, i as int),
        decreases to - i,
    {
        out.push(data[i]);
        i += 1;
        assert(out@ =~= data@.subrange(from as int, i as int));
    }
    out
}

/// Appends a run of zero bytes.
pub fn append_zeros(out: &mut Vec<u8>, n: usize)
    ensures
        final(out)@ == old(out)@ + zeros(n as nat),
{
    let ghost start = out@;
    let mut i: usize = 0;
    while i < n
        invariant
            i <= n,
            out@ == start + zeros(i as nat),
        decreases n - i,
    {
        out.push(0u8);
        i += 1;
        assert(out@ =~= start + zeros(i as nat));
    }
}

/// Whether two byte strings are the same.
pub fn same(a: &[u8], b: &[u8]) -> (r: bool)
    ensures
        r == (a@ == b@),
{
    if a.len() != b.len() {
        return false;
    }
    let mut i: usize = 0;
    while i < a.len()
        invariant
            i <= a@.len(),
            a@.len() == b@.len(),
            forall|j: int| 0 <= j < i ==> a@[j] == b@[j],
        decreases a@.len() - i,
    {
        if a[i] != b[i] {
            return false;
        }
        i += 1;
    }
    assert(a@ =~= b@);
    true
}

/// Appends `v`, most significant byte first.
pub fn put_be16(out: &mut Vec<u8>, v: u16)
    ensures
        final(out)@ == old(out)@ + be16(v),
{
    let ghost start = out@;
    out.push((v / 256) as u8);
    out.push((v % 256) as u8);
    assert(out@ =~= start + be16(v));
}

/// Appends `v`, least significant byte first.
pub fn put_le16(out: &mut Vec<u8>, v: u16)
    ensures
        final(out)@ == old(out)@ + le16(v),
{
    let ghost start = out@;
    out.push((v % 256) as u8);
    out.push((v / 256) as u8);
    assert(out@ =~= start + le16(v));
}

/// Appends `v`, most significant byte first.
pub fn put_be32(out: &mut Vec<u8>, v: u32)
    ensures
        final(out)@ == old(out)@ + be32(v),
{
    let ghost start = out@;
    out.push((v / 0x100_0000) as u8);
    out.push((v / 0x1_0000 % 256) as u8);
    out.push((v / 0x100 % 256) as u8);
    out.push((v % 256) as u8);
    assert(out@ =~= start + be32(v));
}

/// Appends `v`, least significant byte first.
pub fn put_le32(out: &mut Vec<u8>, v: u32)
    ensures
        final(out)@ == old(out)@ + le32(v),
{
    let ghost start = out@;
    out.push((v % 256) as u8);
    out.push((v / 0x100 % 256) as u8);
    out.push((v / 0x1_0000 % 256) as u8);
    out.push((v / 0x100_0000) as u8);
    assert(out@ =~= start + le32(v));
}

/// Reads two bytes, most significant first.
pub fn get_be16(s: &[u8], i: usize) -> (v: u16)
    requires
        i + 2 <= s@.len(),
    ensures
        v == u16_be(s@, i as int),
{
    s[i] as u16 * 256 + s[i + 1] as u16
}

/// Reads two bytes, least significant first.
pub fn get_le16(s: &[u8], i: usize) -> (v: u16)
    requires
        i + 2 <= s@.len(),
    ensures
        v == u16_le(s@, i as int),
{
    s[i] as u16 + s[i + 1] as u16 * 256
}

/// Reads four bytes, most significant first.
pub fn get_be32(s: &[u8], i: usize) -> (v: u32)
    requires
        i + 4 <= s@.len(),
    ensures
        v == u32_be(s@, i as int),
{
    s[i] as u32 * 0x100_0000 + s[i + 1] as u32 * 0x1_0000 + s[i + 2] as u32 * 0x100 + s[i + 3] as u32
}

/// Reads four bytes, least significant first.
pub fn get_le32(s: &[u8], i: usize) -> (v: u32)
    requires
        i + 4 <= s@.len(),
    ensures
        v == u32_le(s@, i as int),
{
    s[i] as u32 + s[i + 1] as u32 * 0x100 + s[i + 2] as u32 * 0x1_0000 + s[i + 3] as u32 * 0x100_0000
}

/// Where the first zero of a field stands, or its end.
pub fn zero_at(payload: &[u8], from: usize, to: usize) -> (end: usize)
    requires
        from <= to <= payload@.len(),
    ensures
        from <= end <= to,
        payload@.subrange(from as int, end as int) == until_zero(payload@.subrange(from as int, to as int)),
{
    let mut end: usize = from;
    let ghost field = payload@.subrange(from as int, to as int);
    assert(payload@.subrange(from as int, from as int) + until_zero(payload@.subrange(from as int, to as int))
        =~= until_zero(field));
    while end < to && payload[end] != 0
        invariant
            from <= end <= to <= payload@.len(),
            payload@.subrange(from as int, end as int) + until_zero(payload@.subrange(end as int, to as int))
                == until_zero(field),
        decreases to - end,
    {
        let ghost rest = payload@.subrange(end as int, to as int);
        assert(rest.skip(1) =~= payload@.subrange(end + 1, to as int));
        assert(payload@.subrange(from as int, end + 1) + until_zero(rest.skip(1))
            =~= payload@.subrange(from as int, end as int) + until_zero(rest));
        end += 1;
    }
    assert(payload@.subrange(from as int, end as int) + until_zero(payload@.subrange(end as int, to as int))
        =~= payload@.subrange(from as int, end as int));
    end
}

/// What the bytes of an integer weigh: most significant first each byte counts 256 times the next one,
/// least significant first it is the other way round.
pub proof fn bytes_weigh(short: u16, long: u32)
    ensures
        be16(short).len() == 2 && le16(short).len() == 2 && be32(long).len() == 4 && le32(long).len() == 4,
        256 * be16(short)[0] + be16(short)[1] == short,
        le16(short)[0] + 256 * le16(short)[1] == short,
        0x100_0000 * be32(long)[0] + 0x1_0000 * be32(long)[1] + 0x100 * be32(long)[2] + be32(long)[3] == long,
        le32(long)[0] + 0x100 * le32(long)[1] + 0x1_0000 * le32(long)[2] + 0x100_0000 * le32(long)[3] == long,
{
}

/// A field goes up to its first zero, or to its end where it holds none.
pub proof fn a_zero_ends_a_field(s: Seq<u8>)
    ensures
        until_zero(s).len() <= s.len(),
        until_zero(s) == s.take(until_zero(s).len() as int),
        !until_zero(s).contains(0),
        until_zero(s).len() < s.len() ==> s[until_zero(s).len() as int] == 0,
    decreases s.len(),
{
    let t = until_zero(s);
    if s.len() == 0 || s[0] == 0 {
        assert(t =~= s.take(0));
    } else {
        let u = s.skip(1);
        a_zero_ends_a_field(u);
        assert(t =~= s.take(t.len() as int));
        assert forall|k: int| 0 <= k < t.len() implies t[k] != 0 by {
            if k > 0 {
                assert(t[k] == until_zero(u)[k - 1]);
                assert(until_zero(u).contains(until_zero(u)[k - 1]));
            }
        }
    }
}

} // verus!
