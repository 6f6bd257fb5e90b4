//! The binary STL format of tessellated shapes: an 80-byte header, a
//! little-endian `u32` count of facets, then 50 bytes per facet: a normal, three
//! vertices of three `f32` coordinates each, and a 2-byte attribute. Values are
//! handled here by their bit patterns, as `u32`.
use vstd::prelude::*;

verus! {

/// The little-endian bytes of `v`.
pub open spec fn le_bytes(v: u32) -> Seq<u8> {
    seq![(v % 256) as u8, ((v / 256) % 256) as u8, ((v / 65536) % 256) as u8, (v / 16777216) as u8]
}

/// The little-endian `u32` starting at `bytes[i]`.
pub open spec fn le_value(bytes: Seq<u8>, i: int) -> u32 {
    (bytes[i] + 256 * bytes[i + 1] + 65536 * bytes[i + 2] + 16777216 * bytes[i + 3]) as u32
}

/// `n` zero bytes.
pub open spec fn zeros(n: nat) -> Seq<u8> {
    Seq::new(n, |i: int| 0u8)
}

/// The little-endian bytes of each value of `vs`, one after the other.
pub open spec fn le_all(vs: Seq<u32>) -> Seq<u8>
    decreases vs.len(),
{
    if vs.len() == 0 {
        Seq::empty()
    } else {
        le_all(vs.drop_last()) + le_bytes(vs.last())
    }
}

/// The 50 bytes of facet `f` of the vertex coordinates `vs`: a zero normal,
/// its nine coordinates and a zero attribute.
pub open spec fn facet_bytes(vs: Seq<u32>, f: int) -> Seq<u8> {
    zeros(12) + le_all(vs.subrange(9 * f, 9 * f + 9)) + zeros(2)
}

/// The bytes of the first `n` facets of `vs`.
pub open spec fn facets_bytes(vs: Seq<u32>, n: nat) -> Seq<u8>
    decreases n,
{
    if n == 0 {
        Seq::empty()
    } else {
        facets_bytes(vs, (n - 1) as nat) + facet_bytes(vs, n - 1)
    }
}

/// The STL bytes of the vertex coordinates `vs`, nine per facet; trailing
/// coordinates that make no whole facet are left out. The count is written
/// modulo 2^32.
pub open spec fn stl_bytes(vs: Seq<u32>) -> Seq<u8> {
    let n = vs.len() / 9;
    zeros(80) + le_bytes((n % 0x1_0000_0000) as u32) + facets_bytes(vs, n)
}

/// Where the `m`-th vertex coordinate stands in STL bytes.
pub open spec fn coordinate_offset(m: int) -> int {
    96 + 50 * (m / 9) + 4 * (m % 9)
}

/// The facet count of STL bytes.
pub open spec fn stl_count(bytes: Seq<u8>) -> nat {
    le_value(bytes, 80) as nat
}

/// The vertex coordinates of STL `bytes`, nine per facet, or `None` when the
/// header is short or the facets it counts are not all there.
pub open spec fn stl_coordinates(bytes: Seq<u8>) -> Option<Seq<u32>> {
    if bytes.len() < 84 || 84 + 50 * stl_count(bytes) > bytes.len() {
        None
    } else {
        Some(Seq::new(9 * stl_count(bytes), |m: int| le_value(bytes, coordinate_offset(m))))
    }
}

/// Why STL bytes are refused.
#[derive(Clone, Copy, PartialEq, Eq, Structural, Debug)]
pub enum StlError {
    BadFormat,
}

/// The little-endian `u32` at `bytes[i..i + 4]`.
fn read_le(bytes: &[u8], i: usize) -> (r: u32)
    requires
        i + 4 <= bytes@.len(),
    ensures
        r == le_value(bytes@, i as int),
{
    let b0 = bytes[i] as u32;
    let b1 = bytes[i + 1] as u32;
    let b2 = bytes[i + 2] as u32;
    let b3 = bytes[i + 3] as u32;
    b0 + 256 * b1 + 65536 * b2 + 16777216 * b3
}

/// Reads the vertex coordinates of binary STL `bytes`, as bit patterns, nine
/// per facet.
pub fn load_stl(bytes: &[u8]) -> (r: Result<Vec<u32>, StlError>)
    ensures
        match (r, stl_coordinates(bytes@)) {
            (Ok(vs), Some(expected)) => vs@ == expected,
            (Err(e), None) => e == StlError::BadFormat,
            _ => false,
        },
{
    if bytes.len() < 84 {
        return Err(StlError::BadFormat);
    }
    let n = read_le(bytes, 80);
    let end: u64 = 84 + 50 * (n as u64);
    if end > bytes.len() as u64 {
        return Err(StlError::BadFormat);
    }
    let len = bytes.len();
    let ghost count = stl_count(bytes@);
    let mut values: Vec<u32> = Vec::new();
    let mut f: u32 = 0;
    while f < n
        invariant
            n == count,
            len == bytes@.len(),
            84 + 50 * count <= bytes@.len(),
            0 <= f <= n,
            values@ == Seq::new(9 * f as nat, |m: int| le_value(bytes@, coordinate_offset(m))),
        decreases n - f,
    {
        assert(96 + 50 * f <= 84 + 50 * count) by (nonlinear_arith)
            requires f < count;
        let base: usize = 96 + 50 * (f as usize);
        let mut r: usize = 0;
        while r < 9
            invariant
                n == count,
                len == bytes@.len(),
                84 + 50 * count <= bytes@.len(),
                0 <= f < n,
                base == 96 + 50 * f,
                0 <= r <= 9,
                values@ == Seq::new((9 * f + r) as nat, |m: int| le_value(bytes@, coordinate_offset(m))),
            decreases 9 - r,
        {
            proof {
                let m = 9 * f + r;
                assert(m / 9 == f && m % 9 == r) by (nonlinear_arith)
                    requires m == 9 * f + r, 0 <= r < 9, f >= 0;
                assert(coordinate_offset(m) == base + 4 * r);
            }
            let v = read_le(bytes, base + 4 * r);
            let ghost before = values@;
            values.push(v);
            assert(values@ =~= Seq::new((9 * f + r + 1) as nat, |m: int| le_value(bytes@, coordinate_offset(m))));
            r = r + 1;
        }
        f = f + 1;
    }
    Ok(values)
}

/// Appends the little-endian bytes of `v`.
fn push_le(out: &mut Vec<u8>, v: u32)
    ensures
        final(out)@ == old(out)@ + le_bytes(v),
{
    out.push((v % 256) as u8);
    out.push(((v / 256) % 256) as u8);
    out.push(((v / 65536) % 256) as u8);
    out.push((v / 16777216) as u8);
    assert(final(out)@ =~= old(out)@ + le_bytes(v));
}

/// Appends `n` zero bytes.
fn push_zeros(out: &mut Vec<u8>, n: usize)
    ensures
        final(out)@ == old(out)@ + zeros(n as nat),
{
    let ghost start = out@;
    let mut i: usize = 0;
    while i < n
        invariant
            0 <= i <= n,
            out@ == start + zeros(i as nat),
        decreases n - i,
    {
        out.push(0);
        assert(out@ =~= start + zeros((i + 1) as nat));
        i = i + 1;
    }
}

/// The binary STL bytes of the vertex coordinates `facets`, as bit patterns,
/// nine per facet: a zero header, the count of facets, then each facet with
/// a zero normal and a zero attribute.
pub fn dump_stl(facets: &[u32]) -> (r: Vec<u8>)
    ensures
        r@ == stl_bytes(facets@),
{
    let ghost vs = facets@;
    let len = facets.len();
    let n = len / 9;
    let count = ((n as u64) % 0x1_0000_0000) as u32;
    let mut out: Vec<u8> = Vec::new();
    push_zeros(&mut out, 80);
    push_le(&mut out, count);
    let ghost head = out@;
    assert(out@ =~= head + facets_bytes(vs, 0));
    let mut f: usize = 0;
    while f < n
        invariant
            vs == facets@,
            len == vs.len(),
            n == vs.len() / 9,
            0 <= f <= n,
            out@ == head + facets_bytes(vs, f as nat),
        decreases n - f,
    {
        let ghost start = out@;
        push_zeros(&mut out, 12);
        let mut r: usize = 0;
        assert(vs.subrange(9 * f, 9 * f + 0) =~= Seq::<u32>::empty());
        assert(out@ =~= start + zeros(12) + le_all(vs.subrange(9 * f, 9 * f + 0)));
        while r < 9
            invariant
                vs == facets@,
                len == vs.len(),
                n == vs.len() / 9,
                0 <= f < n,
                0 <= r <= 9,
                out@ == start + zeros(12) + le_all(vs.subrange(9 * f, 9 * f + r)),
            decreases 9 - r,
        {
            assert(9 * f + r < vs.len()) by (nonlinear_arith)
                requires f < n, n == vs.len() / 9, r < 9;
            let v = facets[9 * f + r];
            push_le(&mut out, v);
            let ghost s = vs.subrange(9 * f, 9 * f + r + 1);
            assert(s.drop_last() =~= vs.subrange(9 * f, 9 * f + r));
            assert(s.last() == v);
            assert(out@ =~= start + zeros(12) + le_all(s));
            r = r + 1;
        }
        push_zeros(&mut out, 2);
        assert(out@ =~= head + facets_bytes(vs, (f + 1) as nat));
        f = f + 1;
    }
    assert(count == (n as nat % 0x1_0000_0000nat) as u32);
    out
}

/// Reading back the little-endian bytes of `v` gives `v`.
pub proof fn lemma_le_roundtrip(v: u32)
    ensures
        le_value(le_bytes(v), 0) == v,
{
    let b = le_bytes(v);
    assert(b[0] == v % 256 && b[1] == (v / 256) % 256 && b[2] == (v / 65536) % 256 && b[3] == v / 16777216);
    assert((v % 256) + 256 * ((v / 256) % 256) + 65536 * ((v / 65536) % 256) + 16777216 * (v / 16777216) == v) by (bit_vector);
}

proof fn lemma_le_all(s: Seq<u32>)
    ensures
        le_all(s).len() == 4 * s.len(),
        forall|r: int, t: int| 0 <= r < s.len() && 0 <= t < 4 ==> #[trigger] le_all(s)[4 * r + t] == le_bytes(s[r])[t],
    decreases s.len(),
{
    if s.len() > 0 {
        lemma_le_all(s.drop_last());
        let p = le_all(s.drop_last());
        assert forall|r: int, t: int| 0 <= r < s.len() && 0 <= t < 4 implies #[trigger] le_all(s)[4 * r + t] == le_bytes(s[r])[t] by {
            if r < s.len() - 1 {
                assert(s.drop_last()[r] == s[r]);
                assert(le_all(s)[4 * r + t] == p[4 * r + t]);
            } else {
                assert(le_all(s)[4 * r + t] == le_bytes(s.last())[4 * r + t - p.len()]);
            }
        }
    }
}

proof fn lemma_facets_bytes(vs: Seq<u32>, n: nat)
    requires
        9 * n <= vs.len(),
    ensures
        facets_bytes(vs, n).len() == 50 * n,
        forall|f: int, r: int, t: int| 0 <= f < n && 0 <= r < 9 && 0 <= t < 4 ==>
            #[trigger] facets_bytes(vs, n)[50 * f + 12 + 4 * r + t] == le_bytes(vs[9 * f + r])[t],
    decreases n,
{
    if n > 0 {
        let m = (n - 1) as nat;
        lemma_facets_bytes(vs, m);
        let p = facets_bytes(vs, m);
        let s = vs.subrange(9 * m as int, 9 * m as int + 9);
        lemma_le_all(s);
        let fb = facet_bytes(vs, m as int);
        assert(fb.len() == 50);
        assert forall|f: int, r: int, t: int| 0 <= f < n && 0 <= r < 9 && 0 <= t < 4 implies
            #[trigger] facets_bytes(vs, n)[50 * f + 12 + 4 * r + t] == le_bytes(vs[9 * f + r])[t] by {
            if f < m {
                assert(50 * f + 12 + 4 * r + t < 50 * m) by (nonlinear_arith)
                    requires f < m, r < 9, t < 4;
                assert(facets_bytes(vs, n)[50 * f + 12 + 4 * r + t] == p[50 * f + 12 + 4 * r + t]);
            } else {
                assert(f == m);
                let i = 50 * f + 12 + 4 * r + t;
                assert(facets_bytes(vs, n)[i] == fb[i - 50 * m]);
                assert(fb[12 + 4 * r + t] == le_all(s)[4 * r + t]);
                assert(s[r] == vs[9 * f + r]);
            }
        }
    }
}

/// Reading the STL bytes of whole facets gives back their coordinates.
pub proof fn law_stl_roundtrip(vs: Seq<u32>)
    requires
        vs.len() % 9 == 0,
        vs.len() / 9 < 0x1_0000_0000,
    ensures
        stl_coordinates(stl_bytes(vs)) == Some(vs),
{
    let n = vs.len() / 9;
    let bytes = stl_bytes(vs);
    let head = zeros(80) + le_bytes((n % 0x1_0000_0000) as u32);
    lemma_facets_bytes(vs, n);
    assert(bytes.len() == 84 + 50 * n);
    assert((n % 0x1_0000_0000) as u32 == n);
    lemma_le_roundtrip(n as u32);
    assert(le_value(bytes, 80) == le_value(le_bytes(n as u32), 0)) by {
        assert(bytes[80] == le_bytes(n as u32)[0]);
        assert(bytes[81] == le_bytes(n as u32)[1]);
        assert(bytes[82] == le_bytes(n as u32)[2]);
        assert(bytes[83] == le_bytes(n as u32)[3]);
    }
    assert(stl_count(bytes) == n);
    let out = Seq::new(9 * n, |m: int| le_value(bytes, coordinate_offset(m)));
    assert forall|m: int| 0 <= m < vs.len() implies #[trigger] out[m] == vs[m] by {
        let f = m / 9;
        let r = m % 9;
        assert(m == 9 * f + r && 0 <= r < 9 && 0 <= f < n) by (nonlinear_arith)
            requires 0 <= m < vs.len(), vs.len() == 9 * n, f == m / 9, r == m % 9;
        let o = coordinate_offset(m);
        assert(o == 84 + (50 * f + 12 + 4 * r));
        assert forall|t: int| 0 <= t < 4 implies bytes[o + t] == #[trigger] le_bytes(vs[m])[t] by {
            assert(bytes[o + t] == facets_bytes(vs, n)[50 * f + 12 + 4 * r + t]);
        }
        lemma_le_roundtrip(vs[m]);
        assert(le_value(bytes, o) == le_value(le_bytes(vs[m]), 0)) by {
            assert(bytes[o] == le_bytes(vs[m])[0]);
            assert(bytes[o + 1] == le_bytes(vs[m])[1]);
            assert(bytes[o + 2] == le_bytes(vs[m])[2]);
            assert(bytes[o + 3] == le_bytes(vs[m])[3]);
        }
    }
    assert(vs.len() == 9 * n);
    assert(out =~= vs);
}

} // verus!
