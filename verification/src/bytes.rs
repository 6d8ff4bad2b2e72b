//! Fixed-width integers as bytes, and byte strings that begin with a known part.

use vstd::prelude::*;

verus! {

/// The `n` low bytes of `v`, least significant first.
pub open spec fn le_bytes(v: nat, n: nat) -> Seq<u8>
    decreases n,
{
    if n == 0 {
        Seq::empty()
    } else {
        seq![(v % 256) as u8] + le_bytes(v / 256, (n - 1) as nat)
    }
}

/// The `n` low bytes of `v`, most significant first.
pub open spec fn be_bytes(v: nat, n: nat) -> Seq<u8>
    decreases n,
{
    if n == 0 {
        Seq::empty()
    } else {
        be_bytes(v / 256, (n - 1) as nat).push((v % 256) as u8)
    }
}

/// How many values `n` bytes can tell apart.
pub open spec fn byte_span(n: nat) -> nat
    decreases n,
{
    if n == 0 {
        1
    } else {
        256 * byte_span((n - 1) as nat)
    }
}

pub proof fn lemma_byte_span()
    ensures
        byte_span(4) == 0x1_0000_0000,
        byte_span(8) == 0x1_0000_0000_0000_0000,
{
    reveal_with_fuel(byte_span, 9);
}

pub broadcast proof fn lemma_le_len(v: nat, n: nat)
    ensures
        #[trigger] le_bytes(v, n).len() == n,
    decreases n,
{
    if n > 0 {
        lemma_le_len(v / 256, (n - 1) as nat);
    }
}

pub broadcast proof fn lemma_be_len(v: nat, n: nat)
    ensures
        #[trigger] be_bytes(v, n).len() == n,
    decreases n,
{
    if n > 0 {
        lemma_be_len(v / 256, (n - 1) as nat);
    }
}

/// `n` bytes hold one value only.
pub proof fn lemma_le_injective(v: nat, w: nat, n: nat)
    requires
        v < byte_span(n),
        w < byte_span(n),
        le_bytes(v, n) == le_bytes(w, n),
    ensures
        v == w,
    decreases n,
{
    if n > 0 {
        let m = (n - 1) as nat;
        let a = seq![(v % 256) as u8] + le_bytes(v / 256, m);
        let b = seq![(w % 256) as u8] + le_bytes(w / 256, m);
        assert(a[0] == b[0]);
        assert(a.subrange(1, a.len() as int) =~= le_bytes(v / 256, m));
        assert(b.subrange(1, b.len() as int) =~= le_bytes(w / 256, m));
        assert(v / 256 < byte_span(m) && w / 256 < byte_span(m));
        lemma_le_injective(v / 256, w / 256, m);
    }
}

/// See `lemma_le_injective`.
pub proof fn lemma_be_injective(v: nat, w: nat, n: nat)
    requires
        v < byte_span(n),
        w < byte_span(n),
        be_bytes(v, n) == be_bytes(w, n),
    ensures
        v == w,
    decreases n,
{
    if n > 0 {
        let m = (n - 1) as nat;
        let a = be_bytes(v / 256, m).push((v % 256) as u8);
        let b = be_bytes(w / 256, m).push((w % 256) as u8);
        assert(a.last() == b.last());
        assert(a.drop_last() =~= be_bytes(v / 256, m));
        assert(b.drop_last() =~= be_bytes(w / 256, m));
        assert(v / 256 < byte_span(m) && w / 256 < byte_span(m));
        lemma_be_injective(v / 256, w / 256, m);
    }
}

/// The value of a byte string, least significant byte first.
pub open spec fn le_value(bytes: Seq<u8>) -> nat
    decreases bytes.len(),
{
    if bytes.len() == 0 {
        0
    } else {
        bytes[0] as nat + 256 * le_value(bytes.skip(1))
    }
}

/// Whether `bytes` end before their first record does.
pub open spec fn truncated(bytes: Seq<u8>) -> bool {
    bytes.len() < 4 || bytes.len() < 4 + le_value(bytes.take(4))
}

pub proof fn lemma_le_value(v: nat, n: nat)
    requires
        v < byte_span(n),
    ensures
        le_value(le_bytes(v, n)) == v,
    decreases n,
{
    if n > 0 {
        let m = (n - 1) as nat;
        lemma_le_value(v / 256, m);
        assert(le_bytes(v, n).skip(1) =~= le_bytes(v / 256, m));
    }
}

/// Two byte strings that begin `bytes` with heads of one length have the same
/// head, and their rests begin what follows it.
pub proof fn lemma_same_head(
    head1: Seq<u8>,
    rest1: Seq<u8>,
    head2: Seq<u8>,
    rest2: Seq<u8>,
    bytes: Seq<u8>,
)
    requires
        (head1 + rest1).is_prefix_of(bytes),
        (head2 + rest2).is_prefix_of(bytes),
        head1.len() == head2.len(),
    ensures
        head1 == head2,
        rest1.is_prefix_of(bytes.skip(head1.len() as int)),
        rest2.is_prefix_of(bytes.skip(head1.len() as int)),
{
    let n = head1.len() as int;
    assert forall|i: int| 0 <= i < n implies head1[i] == head2[i] by {
        assert((head1 + rest1)[i] == bytes[i]);
        assert((head2 + rest2)[i] == bytes[i]);
    }
    assert(head1 =~= head2);
    assert forall|i: int| 0 <= i < rest1.len() implies rest1[i] == bytes.skip(n)[i] by {
        assert((head1 + rest1)[n + i] == bytes[n + i]);
    }
    assert forall|i: int| 0 <= i < rest2.len() implies rest2[i] == bytes.skip(n)[i] by {
        assert((head2 + rest2)[n + i] == bytes[n + i]);
    }
}

/// Appends the four bytes of `v`, least significant first.
pub fn push_u32_le(buf: &mut Vec<u8>, v: u32)
    ensures
        final(buf)@ == old(buf)@ + le_bytes(v as nat, 4),
{
    buf.push((v % 256) as u8);
    buf.push((v / 256 % 256) as u8);
    buf.push((v / 65_536 % 256) as u8);
    buf.push((v / 16_777_216) as u8);
    proof {
        reveal_with_fuel(le_bytes, 5);
        assert(buf@ =~= old(buf)@ + le_bytes(v as nat, 4));
    }
}

/// Appends the four bytes of `v`, most significant first.
pub fn push_u32_be(buf: &mut Vec<u8>, v: u32)
    ensures
        final(buf)@ == old(buf)@ + be_bytes(v as nat, 4),
{
    buf.push((v / 16_777_216) as u8);
    buf.push((v / 65_536 % 256) as u8);
    buf.push((v / 256 % 256) as u8);
    buf.push((v % 256) as u8);
    proof {
        reveal_with_fuel(be_bytes, 5);
        assert(buf@ =~= old(buf)@ + be_bytes(v as nat, 4));
    }
}

/// The value of the four bytes at `pos`, least significant first.
pub fn read_u32_le(bytes: &[u8], pos: usize) -> (v: u32)
    requires
        pos + 4 <= bytes@.len(),
    ensures
        le_bytes(v as nat, 4) == bytes@.subrange(pos as int, pos + 4),
{
    let b0: u32 = bytes[pos] as u32;
    let b1: u32 = bytes[pos + 1] as u32;
    let b2: u32 = bytes[pos + 2] as u32;
    let b3: u32 = bytes[pos + 3] as u32;
    let v: u32 = b0 + 256 * b1 + 65_536 * b2 + 16_777_216 * b3;
    proof {
        reveal_with_fuel(le_bytes, 5);
        assert(v % 256 == b0);
        assert(v / 256 % 256 == b1);
        assert(v / 256 / 256 % 256 == b2);
        assert(v / 256 / 256 / 256 % 256 == b3);
        assert(le_bytes(v as nat, 4) =~= bytes@.subrange(pos as int, pos + 4));
    }
    v
}

/// The value of the four bytes at `pos`, most significant first.
pub fn read_u32_be(bytes: &[u8], pos: usize) -> (v: u32)
    requires
        pos + 4 <= bytes@.len(),
    ensures
        be_bytes(v as nat, 4) == bytes@.subrange(pos as int, pos + 4),
{
    let b0: u32 = bytes[pos] as u32;
    let b1: u32 = bytes[pos + 1] as u32;
    let b2: u32 = bytes[pos + 2] as u32;
    let b3: u32 = bytes[pos + 3] as u32;
    let v: u32 = b3 + 256 * b2 + 65_536 * b1 + 16_777_216 * b0;
    proof {
        reveal_with_fuel(be_bytes, 5);
        assert(v % 256 == b3);
        assert(v / 256 % 256 == b2);
        assert(v / 256 / 256 % 256 == b1);
        assert(v / 256 / 256 / 256 % 256 == b0);
        assert(be_bytes(v as nat, 4) =~= bytes@.subrange(pos as int, pos + 4));
    }
    v
}

/// The low 32 bits of a length, which is what a four-byte length field holds.
pub fn low_u32(len: usize) -> (low: u32)
    ensures
        low == len as nat % 0x1_0000_0000,
{
    (len as u64 % 0x1_0000_0000) as u32
}

} // verus!
