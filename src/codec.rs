//! Building blocks of the snapshot format: little-endian integers, fixed-width
//! byte fields and optional fields with a presence flag.
use vstd::prelude::*;

verus! {

/// Two little-endian bytes.
pub open spec fn u16_le(v: u16) -> Seq<u8> {
    seq![(v & 0xff) as u8, ((v >> 8) & 0xff) as u8]
}

pub open spec fn u16_of(b: Seq<u8>) -> u16 {
    (b[0] as u16) | ((b[1] as u16) << 8)
}

/// Four little-endian bytes.
pub open spec fn u32_le(v: u32) -> Seq<u8> {
    seq![(v & 0xff) as u8, ((v >> 8) & 0xff) as u8, ((v >> 16) & 0xff) as u8, ((v >> 24) & 0xff) as u8]
}

pub open spec fn u32_of(b: Seq<u8>) -> u32 {
    (b[0] as u32) | ((b[1] as u32) << 8) | ((b[2] as u32) << 16) | ((b[3] as u32) << 24)
}

/// Eight little-endian bytes.
pub open spec fn u64_le(v: u64) -> Seq<u8> {
    u32_le((v & 0xffff_ffff) as u32) + u32_le((v >> 32) as u32)
}

pub open spec fn u64_of(b: Seq<u8>) -> u64 {
    (u32_of(b.subrange(0, 4)) as u64) | ((u32_of(b.subrange(4, 8)) as u64) << 32)
}

/// Two little-endian bytes read back as the value.
pub proof fn lemma_u16_le(v: u16)
    ensures
        u16_le(v).len() == 2,
        u16_of(u16_le(v)) == v,
{
    let b0 = (v & 0xff) as u8;
    let b1 = ((v >> 8) & 0xff) as u8;
    assert(b0 == (v & 0xff) as u8 && b1 == ((v >> 8) & 0xff) as u8 ==> ((b0 as u16) | ((b1 as u16)
        << 8)) == v) by (bit_vector);
}

/// Four little-endian bytes read back as the value.
pub proof fn lemma_u32_le(v: u32)
    ensures
        u32_le(v).len() == 4,
        u32_of(u32_le(v)) == v,
{
    let b0 = (v & 0xff) as u8;
    let b1 = ((v >> 8) & 0xff) as u8;
    let b2 = ((v >> 16) & 0xff) as u8;
    let b3 = ((v >> 24) & 0xff) as u8;
    assert(b0 == (v & 0xff) as u8 && b1 == ((v >> 8) & 0xff) as u8 && b2 == ((v >> 16) & 0xff) as u8
        && b3 == ((v >> 24) & 0xff) as u8 ==> ((b0 as u32) | ((b1 as u32) << 8) | ((b2 as u32)
        << 16) | ((b3 as u32) << 24)) == v) by (bit_vector);
}

/// Eight little-endian bytes read back as the value.
pub proof fn lemma_u64_le(v: u64)
    ensures
        u64_le(v).len() == 8,
        u64_of(u64_le(v)) == v,
{
    let lo = (v & 0xffff_ffff) as u32;
    let hi = (v >> 32) as u32;
    lemma_u32_le(lo);
    lemma_u32_le(hi);
    assert(u64_le(v).subrange(0, 4) =~= u32_le(lo));
    assert(u64_le(v).subrange(4, 8) =~= u32_le(hi));
    assert(lo == (v & 0xffff_ffff) as u32 && hi == (v >> 32) as u32 ==> ((lo as u64) | ((hi as u64)
        << 32)) == v) by (bit_vector);
}

/// `n` zero bytes.
pub open spec fn zeros(n: nat) -> Seq<u8> {
    Seq::new(n, |i: int| 0u8)
}

/// An optional field of `n` bytes: a flag byte, then the value or `n` zero bytes.
pub open spec fn opt_field(o: Option<Seq<u8>>, n: nat) -> Seq<u8> {
    match o {
        Some(v) => seq![1u8] + v,
        None => seq![0u8] + zeros(n),
    }
}

/// What an optional field reads back as.
pub open spec fn opt_field_of(b: Seq<u8>) -> Option<Seq<u8>> {
    if b[0] == 0 {
        None
    } else {
        Some(b.subrange(1, b.len() as int))
    }
}

/// Whether the bytes of an optional field are well formed: a flag of 0 or 1, and
/// zero padding after a 0.
pub open spec fn opt_field_ok(b: Seq<u8>) -> bool {
    &&& b.len() >= 1
    &&& b[0] <= 1
    &&& b[0] == 0 ==> b.subrange(1, b.len() as int) == zeros((b.len() - 1) as nat)
}

/// A well-formed optional field is the encoding of what it reads back as.
pub proof fn lemma_opt_field_canonical(b: Seq<u8>, n: nat)
    requires
        opt_field_ok(b),
        b.len() == n + 1,
    ensures
        opt_field(opt_field_of(b), n) == b,
{
    if b[0] == 0 {
        assert(opt_field(opt_field_of(b), n) =~= b);
    } else {
        assert(opt_field(opt_field_of(b), n) =~= b);
    }
}

/// A little-endian encoding is the encoding of the value it reads back as.
pub proof fn lemma_u16_canonical(b: Seq<u8>)
    requires
        b.len() == 2,
    ensures
        u16_le(u16_of(b)) == b,
{
    let b0 = b[0];
    let b1 = b[1];
    let v = u16_of(b);
    assert(v == ((b0 as u16) | ((b1 as u16) << 8)) ==> (v & 0xff) as u8 == b0 && ((v >> 8) & 0xff) as u8
        == b1) by (bit_vector);
    assert(u16_le(v) =~= b);
}

/// Four bytes are the little-endian encoding of the value they read as.
pub proof fn lemma_u32_canonical(b: Seq<u8>)
    requires
        b.len() == 4,
    ensures
        u32_le(u32_of(b)) == b,
{
    let b0 = b[0];
    let b1 = b[1];
    let b2 = b[2];
    let b3 = b[3];
    let v = u32_of(b);
    assert(v == ((b0 as u32) | ((b1 as u32) << 8) | ((b2 as u32) << 16) | ((b3 as u32) << 24)) ==> (v
        & 0xff) as u8 == b0 && ((v >> 8) & 0xff) as u8 == b1 && ((v >> 16) & 0xff) as u8 == b2 && ((v
        >> 24) & 0xff) as u8 == b3) by (bit_vector);
    assert(u32_le(v) =~= b);
}

/// Eight bytes are the little-endian encoding of the value they read as.
pub proof fn lemma_u64_canonical(b: Seq<u8>)
    requires
        b.len() == 8,
    ensures
        u64_le(u64_of(b)) == b,
{
    let lo = u32_of(b.subrange(0, 4));
    let hi = u32_of(b.subrange(4, 8));
    let v = u64_of(b);
    lemma_u32_canonical(b.subrange(0, 4));
    lemma_u32_canonical(b.subrange(4, 8));
    assert(v == ((lo as u64) | ((hi as u64) << 32)) ==> (v & 0xffff_ffff) as u32 == lo && (v >> 32) as u32
        == hi) by (bit_vector);
    assert(u64_le(v) =~= b);
}

/// Two byte strings made of the same `n`-byte records are equal.
pub proof fn lemma_records_equal(a: Seq<u8>, b: Seq<u8>, count: nat, n: nat)
    requires
        n > 0,
        a.len() == n * count,
        b.len() == n * count,
        forall|k: int| 0 <= k < count ==> #[trigger] a.subrange(n * k, n * k + n) == b.subrange(n * k, n * k + n),
    ensures
        a == b,
{
    assert forall|p: int| 0 <= p < a.len() implies a[p] == b[p] by {
        let k = p / (n as int);
        let q = p % (n as int);
        assert(p == n * k + q && 0 <= q < n) by (nonlinear_arith)
            requires
                k == p / (n as int),
                q == p % (n as int),
                n > 0,
                p >= 0,
        ;
        assert(0 <= k < count) by (nonlinear_arith)
            requires
                p == n * k + q,
                0 <= q < n,
                0 <= p < n * count,
                n > 0,
        ;
        assert(0 <= n * k && n * k + n <= n * count) by (nonlinear_arith)
            requires
                0 <= k < count,
                n > 0,
        ;
        assert(a.subrange(n * k, n * k + n)[q] == a[p]);
        assert(b.subrange(n * k, n * k + n)[q] == b[p]);
    }
    assert(a =~= b);
}

/// An optional field is well formed, has `n + 1` bytes and reads back as its value.
pub proof fn lemma_opt_field(o: Option<Seq<u8>>, n: nat)
    requires
        o matches Some(v) ==> v.len() == n,
    ensures
        opt_field(o, n).len() == n + 1,
        opt_field_ok(opt_field(o, n)),
        opt_field_of(opt_field(o, n)) == o,
{
    match o {
        Some(v) => {
            assert(opt_field(o, n)[0] == 1u8);
            assert(opt_field(o, n).subrange(1, n + 1 as int) =~= v);
        },
        None => {
            assert(opt_field(o, n)[0] == 0u8);
            assert(opt_field(o, n).subrange(1, n + 1 as int) =~= zeros(n));
        },
    }
}

/// Appends the little-endian bytes of `v`.
pub fn push_u16(out: &mut Vec<u8>, v: u16)
    ensures
        final(out)@ == old(out)@ + u16_le(v),
{
    out.push((v & 0xff) as u8);
    out.push(((v >> 8) & 0xff) as u8);
    assert(out@ =~= old(out)@ + u16_le(v));
}

/// Appends the little-endian bytes of `v`.
pub fn push_u32(out: &mut Vec<u8>, v: u32)
    ensures
        final(out)@ == old(out)@ + u32_le(v),
{
    out.push((v & 0xff) as u8);
    out.push(((v >> 8) & 0xff) as u8);
    out.push(((v >> 16) & 0xff) as u8);
    out.push(((v >> 24) & 0xff) as u8);
    assert(out@ =~= old(out)@ + u32_le(v));
}

/// Appends the little-endian bytes of `v`.
pub fn push_u64(out: &mut Vec<u8>, v: u64)
    ensures
        final(out)@ == old(out)@ + u64_le(v),
{
    push_u32(out, (v & 0xffff_ffff) as u32);
    push_u32(out, (v >> 32) as u32);
    assert(out@ =~= old(out)@ + u64_le(v));
}

/// Appends `src`.
pub fn push_bytes(out: &mut Vec<u8>, src: &[u8])
    ensures
        final(out)@ == old(out)@ + src@,
{
    let mut i: usize = 0;
    while i < src.len()
        invariant
            i <= src@.len(),
            out@ == old(out)@ + src@.subrange(0, i as int),
        decreases src@.len() - i,
    {
        out.push(src[i]);
        assert(src@.subrange(0, i + 1) =~= src@.subrange(0, i as int).push(src@[i as int]));
        i = i + 1;
    }
    assert(src@.subrange(0, src@.len() as int) =~= src@);
}

/// Appends `n` zero bytes.
pub fn push_zeros(out: &mut Vec<u8>, n: usize)
    ensures
        final(out)@ == old(out)@ + zeros(n as nat),
{
    let mut i: usize = 0;
    while i < n
        invariant
            i <= n,
            out@ == old(out)@ + zeros(i as nat),
        decreases n - i,
    {
        out.push(0u8);
        assert(zeros((i + 1) as nat) =~= zeros(i as nat).push(0u8));
        i = i + 1;
    }
}

/// Appends an optional field of `n` bytes.
pub fn push_opt(out: &mut Vec<u8>, o: &Option<Vec<u8>>, n: usize)
    ensures
        final(out)@ == old(out)@ + opt_field(crate::crypto::opt_bytes(*o), n as nat),
{
    match o {
        Some(v) => {
            out.push(1u8);
            push_bytes(out, v.as_slice());
            assert(out@ =~= old(out)@ + opt_field(crate::crypto::opt_bytes(*o), n as nat));
        },
        None => {
            out.push(0u8);
            push_zeros(out, n);
            assert(out@ =~= old(out)@ + opt_field(crate::crypto::opt_bytes(*o), n as nat));
        },
    }
}

/// The little-endian `u16` at `pos`.
pub fn read_u16(b: &[u8], pos: usize) -> (r: u16)
    requires
        pos + 2 <= b@.len(),
    ensures
        r == u16_of(b@.subrange(pos as int, pos + 2)),
{
    (b[pos] as u16) | ((b[pos + 1] as u16) << 8)
}

/// The little-endian `u32` at `pos`.
pub fn read_u32(b: &[u8], pos: usize) -> (r: u32)
    requires
        pos + 4 <= b@.len(),
    ensures
        r == u32_of(b@.subrange(pos as int, pos + 4)),
{
    (b[pos] as u32) | ((b[pos + 1] as u32) << 8) | ((b[pos + 2] as u32) << 16) | ((b[pos + 3] as u32)
        << 24)
}

/// The little-endian `u64` at `pos`.
pub fn read_u64(b: &[u8], pos: usize) -> (r: u64)
    requires
        pos + 8 <= b@.len(),
    ensures
        r == u64_of(b@.subrange(pos as int, pos + 8)),
{
    let len = b.len();
    assert(pos + 8 <= len);
    let lo = read_u32(b, pos);
    let hi = read_u32(b, pos + 4);
    assert(b@.subrange(pos as int, pos + 8).subrange(0, 4) =~= b@.subrange(pos as int, pos + 4));
    assert(b@.subrange(pos as int, pos + 8).subrange(4, 8) =~= b@.subrange(pos + 4, pos + 8));
    (lo as u64) | ((hi as u64) << 32)
}

/// The `n` bytes at `pos`.
pub fn read_bytes(b: &[u8], pos: usize, n: usize) -> (r: Vec<u8>)
    requires
        pos + n <= b@.len(),
    ensures
        r@ == b@.subrange(pos as int, pos + n),
{
    let mut out: Vec<u8> = Vec::new();
    let mut i: usize = 0;
    let len = b.len();
    while i < n
        invariant
            i <= n,
            pos + n <= b@.len(),
            len == b@.len(),
            out@ == b@.subrange(pos as int, pos + i),
        decreases n - i,
    {
        out.push(b[pos + i]);
        assert(b@.subrange(pos as int, pos + i + 1) =~= b@.subrange(pos as int, pos + i).push(
            b@[pos + i],
        ));
        i = i + 1;
    }
    out
}

/// The optional field of `n` bytes at `pos`, or `None` if its flag is invalid.
pub fn read_opt(b: &[u8], pos: usize, n: usize) -> (r: Option<Option<Vec<u8>>>)
    requires
        pos + n + 1 <= b@.len(),
    ensures
        r is Some <==> opt_field_ok(b@.subrange(pos as int, pos + n + 1)),
        r matches Some(o) ==> crate::crypto::opt_bytes(o) == opt_field_of(
            b@.subrange(pos as int, pos + n + 1),
        ),
{
    let flag = b[pos];
    if flag > 1 {
        None
    } else if flag == 0 {
        let ghost pad = b@.subrange(pos as int, pos + n + 1).subrange(1, n + 1 as int);
        let len = b.len();
        let mut i: usize = 0;
        while i < n
            invariant
                pos + n + 1 <= b@.len(),
                len == b@.len(),
                b@[pos as int] == 0u8,
                pad == b@.subrange(pos as int, pos + n + 1).subrange(1, n + 1 as int),
                i <= n,
                forall|k: int| 0 <= k < i ==> #[trigger] pad[k] == 0u8,
            decreases n - i,
        {
            assert(pad[i as int] == b@[pos + 1 + i]);
            if b[pos + 1 + i] != 0 {
                assert(pad[i as int] != 0u8);
                assert(zeros(n as nat)[i as int] == 0u8);
                assert(pad != zeros(n as nat));
                let ghost fb = b@.subrange(pos as int, pos + n + 1);
                assert(fb[0] == 0u8);
                assert(fb.subrange(1, fb.len() as int) == pad);
                assert(((fb.len() - 1) as nat) == n as nat);
                assert(!opt_field_ok(fb));
                return None;
            }
            assert(pad[i as int] == 0u8);
            i = i + 1;
        }
        assert(pad =~= zeros(n as nat));
        Some(None)
    } else {
        let v = read_bytes(b, pos + 1, n);
        assert(b@.subrange(pos as int, pos + n + 1).subrange(1, n + 1) =~= b@.subrange(
            pos + 1,
            pos + 1 + n,
        ));
        Some(Some(v))
    }
}

/// The concatenation of a list of byte strings.
pub open spec fn flatten(chunks: Seq<Seq<u8>>) -> Seq<u8>
    decreases chunks.len(),
{
    if chunks.len() == 0 {
        seq![]
    } else {
        flatten(chunks.drop_last()) + chunks.last()
    }
}

/// Where each of a list of `n`-byte records lies in their concatenation.
pub proof fn lemma_flatten_fixed(chunks: Seq<Seq<u8>>, n: nat)
    requires
        forall|i: int| 0 <= i < chunks.len() ==> (#[trigger] chunks[i]).len() == n,
    ensures
        flatten(chunks).len() == n * chunks.len(),
        forall|i: int|
            0 <= i < chunks.len() ==> #[trigger] flatten(chunks).subrange(n * i, n * i + n)
                == chunks[i],
    decreases chunks.len(),
{
    if chunks.len() > 0 {
        let p = chunks.drop_last();
        lemma_flatten_fixed(p, n);
        let b = flatten(chunks);
        assert(n * chunks.len() == n * p.len() + n) by (nonlinear_arith)
            requires
                chunks.len() == p.len() + 1,
        ;
        assert forall|i: int| 0 <= i < chunks.len() implies #[trigger] b.subrange(n * i, n * i + n)
            == chunks[i] by {
            if i < p.len() {
                assert(n * i + n <= n * p.len()) by (nonlinear_arith)
                    requires
                        i < p.len(),
                ;
                assert(0 <= n * i) by (nonlinear_arith)
                    requires
                        0 <= i,
                ;
                assert(b.subrange(n * i, n * i + n) =~= flatten(p).subrange(n * i, n * i + n));
            } else {
                assert(b.subrange(n * i, n * i + n) =~= chunks.last());
            }
        }
    }
}

} // verus!
