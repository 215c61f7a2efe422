//! Fixed-width integer codecs and small operations on byte strings.

use vstd::prelude::*;

verus! {

/// The four bytes of `x`, least significant first.
pub open spec fn le32(x: u32) -> Seq<u8> {
    seq![
        (x % 256) as u8,
        ((x / 256) % 256) as u8,
        ((x / 65536) % 256) as u8,
        (x / 16777216) as u8,
    ]
}

/// The number whose four bytes, least significant first, are the first four of `s`.
pub open spec fn le32_value(s: Seq<u8>) -> u32 {
    (s[0] + 256 * s[1] + 65536 * s[2] + 16777216 * s[3]) as u32
}

/// The four bytes of `x`, most significant first.
pub open spec fn be32(x: u32) -> Seq<u8> {
    seq![
        (x / 16777216) as u8,
        ((x / 65536) % 256) as u8,
        ((x / 256) % 256) as u8,
        (x % 256) as u8,
    ]
}

/// The eight bytes of `x`, least significant first.
pub open spec fn le64(x: u64) -> Seq<u8> {
    le32((x % 0x1_0000_0000) as u32) + le32((x / 0x1_0000_0000) as u32)
}

/// The number whose eight bytes, least significant first, are the first eight of `s`.
pub open spec fn le64_value(s: Seq<u8>) -> u64 {
    (le32_value(s.subrange(0, 4)) + 0x1_0000_0000 * le32_value(s.subrange(4, 8))) as u64
}

/// The unsigned number with the same sixty-four bits as `x`.
pub open spec fn unsigned(x: i64) -> u64 {
    if x < 0 {
        (x + 0x1_0000_0000_0000_0000) as u64
    } else {
        x as u64
    }
}

/// The signed number with the same sixty-four bits as `x`.
pub open spec fn signed(x: u64) -> i64 {
    if x >= 0x8000_0000_0000_0000 {
        (x - 0x1_0000_0000_0000_0000) as i64
    } else {
        x as i64
    }
}

/// The number that `s` spells in base 256, most significant byte first.
pub open spec fn be_value(s: Seq<u8>) -> nat
    decreases s.len(),
{
    if s.len() == 0 {
        0
    } else {
        256 * be_value(s.drop_last()) + s.last() as nat
    }
}

/// Whether `a` comes before `b` in the order of byte strings of one length.
pub open spec fn lex_less(a: Seq<u8>, b: Seq<u8>) -> bool {
    exists|i: int|
        #![trigger a[i], b[i]]
        0 <= i < a.len() && i < b.len() && a[i] < b[i] && a.take(i) == b.take(i)
}

/// No byte string comes before itself.
pub proof fn lex_less_irreflexive(a: Seq<u8>)
    ensures
        !lex_less(a, a),
{
}

/// The order of byte strings is transitive.
pub proof fn lex_less_transitive(a: Seq<u8>, b: Seq<u8>, c: Seq<u8>)
    requires
        lex_less(a, b),
        lex_less(b, c),
    ensures
        lex_less(a, c),
{
    let i = choose|i: int|
        #![trigger a[i], b[i]]
        0 <= i < a.len() && i < b.len() && a[i] < b[i] && a.take(i) == b.take(i);
    let j = choose|j: int|
        #![trigger b[j], c[j]]
        0 <= j < b.len() && j < c.len() && b[j] < c[j] && b.take(j) == c.take(j);
    let m = if i < j {
        i
    } else {
        j
    };
    assert forall|k: int| 0 <= k < m implies a[k] == c[k] by {
        assert(a.take(i)[k] == b.take(i)[k]);
        assert(b.take(j)[k] == c.take(j)[k]);
    }
    assert(a.take(m) =~= c.take(m));
    if i < j {
        assert(b.take(j)[i] == c.take(j)[i]);
    } else if j < i {
        assert(a.take(i)[j] == b.take(i)[j]);
    }
    assert(a[m] < c[m]);
}

/// Of two byte strings of one length that differ, one comes before the other.
pub proof fn lex_less_total(a: Seq<u8>, b: Seq<u8>)
    requires
        a.len() == b.len(),
        a != b,
    ensures
        lex_less(a, b) || lex_less(b, a),
    decreases a.len(),
{
    if a.len() == 0 {
        assert(a =~= b);
    } else {
        let n = a.len() - 1;
        let (x, y) = (a.drop_last(), b.drop_last());
        if x == y {
            assert(a.take(n) =~= x && b.take(n) =~= y);
            if a[n] == b[n] {
                assert forall|i: int| 0 <= i < a.len() implies a[i] == b[i] by {
                    if i < n {
                        assert(x[i] == y[i]);
                    }
                }
                assert(a =~= b);
            }
            assert(a[n] < b[n] || b[n] < a[n]);
        } else {
            lex_less_total(x, y);
            if lex_less(x, y) {
                let i = choose|i: int|
                    #![trigger x[i], y[i]]
                    0 <= i < x.len() && i < y.len() && x[i] < y[i] && x.take(i) == y.take(i);
                assert(a.take(i) =~= x.take(i) && b.take(i) =~= y.take(i));
                assert(a[i] < b[i]);
            } else {
                let i = choose|i: int|
                    #![trigger y[i], x[i]]
                    0 <= i < y.len() && i < x.len() && y[i] < x[i] && y.take(i) == x.take(i);
                assert(a.take(i) =~= x.take(i) && b.take(i) =~= y.take(i));
                assert(b[i] < a[i]);
            }
        }
    }
}

/// Of two byte strings of one length, the one that spells the smaller number comes first.
pub proof fn lex_less_by_value(a: Seq<u8>, b: Seq<u8>)
    requires
        a.len() == b.len(),
    ensures
        lex_less(a, b) <==> be_value(a) < be_value(b),
{
    if lex_less(a, b) {
        lemma_lex_less_value(a, b);
    } else if lex_less(b, a) {
        lemma_lex_less_value(b, a);
    } else if a != b {
        lex_less_total(a, b);
    }
}

proof fn lemma_lex_less_value(a: Seq<u8>, b: Seq<u8>)
    requires
        a.len() == b.len(),
        lex_less(a, b),
    ensures
        be_value(a) < be_value(b),
    decreases a.len(),
{
    let i = choose|i: int|
        #![trigger a[i], b[i]]
        0 <= i < a.len() && i < b.len() && a[i] < b[i] && a.take(i) == b.take(i);
    let n = a.len() - 1;
    let (x, y) = (a.drop_last(), b.drop_last());
    if i == n {
        assert(x =~= a.take(n) && y =~= b.take(n));
    } else {
        assert(x.take(i) =~= a.take(i) && y.take(i) =~= b.take(i));
        assert(x[i] < y[i]);
        lemma_lex_less_value(x, y);
    }
}

/// Writing a number and reading it back gives the number.
pub broadcast proof fn le32_round_trip(x: u32)
    ensures
        #[trigger] le32(x).len() == 4,
        le32_value(le32(x)) == x,
{
}

/// Reading a number and writing it again gives the bytes.
#[verifier::spinoff_prover]
pub proof fn le32_of_value(s: Seq<u8>)
    requires
        s.len() == 4,
    ensures
        le32(le32_value(s)) == s,
{
    let x = s[0] + 256 * s[1] + 65536 * s[2] + 16777216 * s[3];
    assert(le32_value(s) == x);
    assert(x % 256 == s[0]);
    assert(x / 256 == s[1] + 256 * s[2] + 65536 * s[3]);
    assert((x / 256) % 256 == s[1]);
    assert(x / 65536 == s[2] + 256 * s[3]);
    assert((x / 65536) % 256 == s[2]);
    assert(x / 16777216 == s[3]);
    assert(le32(le32_value(s)) =~= s);
}

/// Writing a number and reading it back gives the number.
pub broadcast proof fn le64_round_trip(x: u64)
    ensures
        #[trigger] le64(x).len() == 8,
        le64_value(le64(x)) == x,
{
    let low = (x % 0x1_0000_0000) as u32;
    let high = (x / 0x1_0000_0000) as u32;
    le32_round_trip(low);
    le32_round_trip(high);
    assert(le64(x).subrange(0, 4) =~= le32(low));
    assert(le64(x).subrange(4, 8) =~= le32(high));
}

/// What four bytes spell, byte by byte.
pub proof fn be_value_of_four(s: Seq<u8>)
    requires
        s.len() == 4,
    ensures
        be_value(s) == 16777216 * s[0] + 65536 * s[1] + 256 * s[2] + s[3],
{
    reveal_with_fuel(be_value, 5);
    let three = s.drop_last();
    let two = three.drop_last();
    let one = two.drop_last();
    assert(three.last() == s[2] && two.last() == s[1] && one.last() == s[0]);
    assert(one.drop_last().len() == 0);
}

/// Four bytes are determined by the number that they spell.
pub proof fn be_value_determines_four(a: Seq<u8>, b: Seq<u8>)
    requires
        a.len() == 4,
        b.len() == 4,
        be_value(a) == be_value(b),
    ensures
        a == b,
{
    be_value_of_four(a);
    be_value_of_four(b);
    assert(a[0] == b[0] && a[1] == b[1] && a[2] == b[2] && a[3] == b[3]);
    assert(a =~= b);
}

/// The most significant byte of a number written most significant byte first comes first:
/// the bytes spell the number.
pub proof fn be32_spells(x: u32)
    ensures
        be32(x).len() == 4,
        be_value(be32(x)) == x,
{
    be_value_of_four(be32(x));
}

/// The most significant byte of a number written least significant byte first comes last:
/// the bytes spell the number backwards.
pub proof fn le32_spells(x: u32)
    ensures
        le32(x).len() == 4,
        be_value(le32(x).reverse()) == x,
{
    be_value_of_four(le32(x).reverse());
}

/// Reading four bytes, least significant first, gives what they spell backwards.
pub proof fn le32_value_spells(s: Seq<u8>)
    requires
        s.len() == 4,
    ensures
        le32_value(s) == be_value(s.reverse()),
{
    be_value_of_four(s.reverse());
}

/// Eight bytes spell the first four, shifted, and the last four.
pub proof fn be_value_of_eight(a: Seq<u8>, b: Seq<u8>)
    requires
        b.len() == 4,
    ensures
        be_value(a + b) == 0x1_0000_0000 * be_value(a) + be_value(b),
{
    reveal_with_fuel(be_value, 5);
    be_value_of_four(b);
    let s = a + b;
    let three = s.drop_last();
    let two = three.drop_last();
    let one = two.drop_last();
    assert(s.last() == b[3] && three.last() == b[2] && two.last() == b[1] && one.last() == b[0]);
    assert(one.drop_last() =~= a);
}

/// The bytes of a long number, least significant first, spell the number backwards.
pub proof fn le64_spells(x: u64)
    ensures
        le64(x).len() == 8,
        be_value(le64(x).reverse()) == x,
{
    let low = (x % 0x1_0000_0000) as u32;
    let high = (x / 0x1_0000_0000) as u32;
    le32_spells(low);
    le32_spells(high);
    assert(le64(x).reverse() =~= le32(high).reverse() + le32(low).reverse());
    be_value_of_eight(le32(high).reverse(), le32(low).reverse());
}

/// Reading eight bytes, least significant first, gives what they spell backwards.
pub proof fn le64_value_spells(s: Seq<u8>)
    requires
        s.len() == 8,
    ensures
        le64_value(s) == be_value(s.reverse()),
{
    let low = s.subrange(0, 4);
    let high = s.subrange(4, 8);
    le32_value_spells(low);
    le32_value_spells(high);
    assert(s.reverse() =~= high.reverse() + low.reverse());
    be_value_of_eight(high.reverse(), low.reverse());
}

/// A signed number and the unsigned number with its bits differ by a multiple of two to the
/// sixty-fourth.
pub proof fn signedness_keeps_bits(x: i64, y: u64)
    ensures
        (unsigned(x) - x) % 0x1_0000_0000_0000_0000 == 0,
        (signed(y) - y) % 0x1_0000_0000_0000_0000 == 0,
{
}

/// Changing the signedness and back gives the number.
pub broadcast proof fn signed_round_trip(x: i64)
    ensures
        signed(#[trigger] unsigned(x)) == x,
{
}

/// Arrays with the same elements are equal.
pub proof fn array_ext<const N: usize>(a: [u8; N], b: [u8; N])
    requires
        a@ =~= b@,
    ensures
        a == b,
{
    assert forall|i: int| 0 <= i < N implies a[i] == b[i] by {
        assert(a@[i] == b@[i]);
    }
    assert(a =~= b);
}

/// The array that holds the bytes of `s`.
pub open spec fn array_of<const N: usize>(s: Seq<u8>) -> [u8; N] {
    choose|a: [u8; N]| a@ == s
}

/// The array of an array's bytes is the array.
pub proof fn array_of_view<const N: usize>(a: [u8; N])
    ensures
        array_of::<N>(a@) == a,
{
    let b = array_of::<N>(a@);
    assert(b@ == a@);
    array_ext(a, b);
}

/// Appends the four bytes of `x`, least significant first.
pub fn put_le32(out: &mut Vec<u8>, x: u32)
    ensures
        final(out)@ == old(out)@ + le32(x),
{
    out.push((x % 256) as u8);
    out.push(((x / 256) % 256) as u8);
    out.push(((x / 65536) % 256) as u8);
    out.push((x / 16777216) as u8);
    assert(out@ =~= old(out)@ + le32(x));
}

/// Appends the four bytes of `x`, most significant first.
pub fn put_be32(out: &mut Vec<u8>, x: u32)
    ensures
        final(out)@ == old(out)@ + be32(x),
{
    out.push((x / 16777216) as u8);
    out.push(((x / 65536) % 256) as u8);
    out.push(((x / 256) % 256) as u8);
    out.push((x % 256) as u8);
    assert(out@ =~= old(out)@ + be32(x));
}

/// Appends the eight bytes of `x`, least significant first.
pub fn put_le64(out: &mut Vec<u8>, x: u64)
    ensures
        final(out)@ == old(out)@ + le64(x),
{
    put_le32(out, (x % 0x1_0000_0000) as u32);
    put_le32(out, (x / 0x1_0000_0000) as u32);
    assert(out@ =~= old(out)@ + le64(x));
}

/// Appends a byte string.
pub fn put_bytes(out: &mut Vec<u8>, s: &[u8])
    ensures
        final(out)@ == old(out)@ + s@,
{
    let mut i: usize = 0;
    while i < s.len()
        invariant
            i <= s@.len(),
            out@ == old(out)@ + s@.take(i as int),
        decreases s@.len() - i,
    {
        out.push(s[i]);
        i = i + 1;
        assert(out@ =~= old(out)@ + s@.take(i as int));
    }
    assert(s@.take(i as int) =~= s@);
}

/// Reads four bytes from `at`, least significant first.
pub fn get_le32(s: &[u8], at: usize) -> (x: u32)
    requires
        at + 4 <= s@.len(),
    ensures
        x == le32_value(s@.subrange(at as int, at + 4)),
{
    let a: u32 = s[at] as u32;
    let b: u32 = s[at + 1] as u32;
    let c: u32 = s[at + 2] as u32;
    let d: u32 = s[at + 3] as u32;
    a + 256 * b + 65536 * c + 16777216 * d
}

/// Reads eight bytes from `at`, least significant first.
pub fn get_le64(s: &[u8], at: usize) -> (x: u64)
    requires
        at + 8 <= s@.len(),
    ensures
        x == le64_value(s@.subrange(at as int, at + 8)),
{
    let len: usize = s.len();
    assert(at + 8 <= len);
    let low: u64 = get_le32(s, at) as u64;
    let high: u64 = get_le32(s, at + 4) as u64;
    proof {
        let t = s@.subrange(at as int, at + 8);
        assert(t.subrange(0, 4) =~= s@.subrange(at as int, at + 4));
        assert(t.subrange(4, 8) =~= s@.subrange(at + 4, at + 8));
    }
    low + 0x1_0000_0000 * high
}

/// Changes the signedness of a number, keeping its bits.
pub fn to_unsigned(x: i64) -> (y: u64)
    ensures
        y == unsigned(x),
{
    if x < 0 {
        ((x as i128) + 0x1_0000_0000_0000_0000) as u64
    } else {
        x as u64
    }
}

/// Changes the signedness of a number, keeping its bits.
pub fn to_signed(x: u64) -> (y: i64)
    ensures
        y == signed(x),
{
    if x >= 0x8000_0000_0000_0000 {
        ((x as i128) - 0x1_0000_0000_0000_0000) as i64
    } else {
        x as i64
    }
}

/// Copies `N` bytes from `at` into an array.
pub fn get_array<const N: usize>(s: &[u8], at: usize) -> (a: [u8; N])
    requires
        at + N <= s@.len(),
    ensures
        a@ == s@.subrange(at as int, at + N),
{
    let len: usize = s.len();
    let mut a: [u8; N] = [0u8; N];
    let mut i: usize = 0;
    while i < N
        invariant
            i <= N,
            len == s@.len(),
            at + N <= len,
            forall|j: int| 0 <= j < i ==> a@[j] == s@[at + j],
        decreases N - i,
    {
        a[i] = s[at + i];
        i = i + 1;
    }
    assert(a@ =~= s@.subrange(at as int, at + N));
    a
}

/// Whether two byte strings are equal.
pub fn bytes_equal(a: &[u8], b: &[u8]) -> (r: bool)
    ensures
        r == (a@ == b@),
{
    if a.len() != b.len() {
        return false;
    }
    let mut i: usize = 0;
    while i < a.len()
        invariant
            i <= a@.len(),
            a@.len() == b@.len(),
            forall|j: int| 0 <= j < i ==> a@[j] == b@[j],
        decreases a@.len() - i,
    {
        if a[i] != b[i] {
            assert(a@[i as int] != b@[i as int]);
            return false;
        }
        i = i + 1;
    }
    assert(a@ =~= b@);
    true
}

/// Whether `a` comes before `b`, for byte strings of one length.
pub fn bytes_less(a: &[u8], b: &[u8]) -> (r: bool)
    requires
        a@.len() == b@.len(),
    ensures
        r == lex_less(a@, b@),
{
    let mut i: usize = 0;
    while i < a.len()
        invariant
            i <= a@.len(),
            a@.len() == b@.len(),
            forall|j: int| 0 <= j < i ==> a@[j] == b@[j],
        decreases a@.len() - i,
    {
        if a[i] != b[i] {
            proof {
                assert(a@.take(i as int) =~= b@.take(i as int));
                if a@[i as int] < b@[i as int] {
                    assert(lex_less(a@, b@));
                } else {
                    assert forall|j: int|
                        #![trigger a@[j], b@[j]]
                        0 <= j < a@.len() && a@[j] < b@[j] && a@.take(j) == b@.take(j) implies false by {
                        if j > i {
                            assert(a@.take(j)[i as int] == b@.take(j)[i as int]);
                        }
                    }
                }
            }
            return a[i] < b[i];
        }
        i = i + 1;
    }
    false
}

/// The bytes of a slice as a vector.
pub fn to_vec(s: &[u8]) -> (v: Vec<u8>)
    ensures
        v@ == s@,
{
    let mut v: Vec<u8> = Vec::new();
    put_bytes(&mut v, s);
    assert(v@ =~= s@);
    v
}

} // verus!
