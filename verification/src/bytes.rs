//! Byte-string helpers: copying, lexicographic order and the compact-size
//! length prefix.

use vstd::prelude::*;
use vstd::slice::slice_to_vec;

verus! {

/// Strict lexicographic order on byte strings; a proper prefix comes first.
pub open spec fn lex_lt(a: Seq<u8>, b: Seq<u8>) -> bool
    decreases a.len(),
{
    if b.len() == 0 {
        false
    } else if a.len() == 0 {
        true
    } else if a[0] != b[0] {
        a[0] < b[0]
    } else {
        lex_lt(a.drop_first(), b.drop_first())
    }
}

/// Two byte strings of which neither comes before the other are equal.
pub proof fn lemma_lex_total(a: Seq<u8>, b: Seq<u8>)
    ensures
        !lex_lt(a, b) && !lex_lt(b, a) ==> a == b,
    decreases a.len(),
{
    if a.len() == 0 || b.len() == 0 {
        if !lex_lt(a, b) && !lex_lt(b, a) {
            assert(a =~= b);
        }
    } else if a[0] == b[0] {
        lemma_lex_total(a.drop_first(), b.drop_first());
        if a.drop_first() == b.drop_first() {
            assert(a =~= seq![a[0]] + a.drop_first());
            assert(b =~= seq![b[0]] + b.drop_first());
        }
    }
}

/// No byte string comes before itself, and no two come before each other.
pub proof fn lemma_lex_asymmetric(a: Seq<u8>, b: Seq<u8>)
    ensures
        !(lex_lt(a, b) && lex_lt(b, a)),
    decreases a.len(),
{
    if a.len() != 0 && b.len() != 0 && a[0] == b[0] {
        lemma_lex_asymmetric(a.drop_first(), b.drop_first());
    }
}

/// Decides the lexicographic order of two byte strings.
pub fn bytes_lt(a: &[u8], b: &[u8]) -> (less: bool)
    ensures
        less == lex_lt(a@, b@),
{
    let mut i: usize = 0;
    assert(a@.skip(0) =~= a@ && b@.skip(0) =~= b@);
    while i < a.len() && i < b.len()
        invariant
            i <= a@.len(),
            i <= b@.len(),
            lex_lt(a@, b@) == lex_lt(a@.skip(i as int), b@.skip(i as int)),
        decreases a@.len() - i,
    {
        if a[i] != b[i] {
            return a[i] < b[i];
        }
        assert(a@.skip(i as int).drop_first() =~= a@.skip(i as int + 1));
        assert(b@.skip(i as int).drop_first() =~= b@.skip(i as int + 1));
        i += 1;
    }
    i < b.len()
}

/// An owned copy of a byte slice.
pub fn copy_bytes(bytes: &[u8]) -> (copy: Vec<u8>)
    ensures
        copy@ == bytes@,
{
    slice_to_vec(bytes)
}

/// The `count` low bytes of `n`, least significant first.
pub open spec fn le_bytes(n: nat, count: nat) -> Seq<u8>
    decreases count,
{
    if count == 0 {
        Seq::empty()
    } else {
        seq![(n % 256) as u8] + le_bytes(n / 256, (count - 1) as nat)
    }
}

/// The compact-size encoding of a length: one byte below 0xfd, else a marker
/// byte followed by the length in 2, 4 or 8 little-endian bytes.
pub open spec fn spec_compact_size(n: nat) -> Seq<u8> {
    if n < 0xfd {
        seq![n as u8]
    } else if n <= 0xffff {
        seq![0xfdu8] + le_bytes(n, 2)
    } else if n <= 0xffff_ffff {
        seq![0xfeu8] + le_bytes(n, 4)
    } else {
        seq![0xffu8] + le_bytes(n, 8)
    }
}

/// Appends the `count` low bytes of `n` to `out`, least significant first.
fn push_le_bytes(out: &mut Vec<u8>, n: u64, count: usize)
    ensures
        final(out)@ == old(out)@ + le_bytes(n as nat, count as nat),
{
    let mut rest: u64 = n;
    let mut done: usize = 0;
    assert(out@ =~= old(out)@ + Seq::<u8>::empty());
    while done < count
        invariant
            done <= count,
            old(out)@ + le_bytes(n as nat, count as nat) == out@ + le_bytes(
                rest as nat,
                (count - done) as nat,
            ),
        decreases count - done,
    {
        let low: u8 = (rest % 256) as u8;
        assert(out@.push(low) + le_bytes((rest / 256) as nat, (count - done - 1) as nat) =~= out@
            + le_bytes(rest as nat, (count - done) as nat));
        out.push(low);
        rest = rest / 256;
        done += 1;
    }
    assert(out@ + le_bytes(rest as nat, 0) =~= out@);
}

/// Encodes a length as a compact size.
pub fn compact_size(n: u64) -> (encoded: Vec<u8>)
    ensures
        encoded@ == spec_compact_size(n as nat),
{
    let mut encoded: Vec<u8> = Vec::new();
    if n < 0xfd {
        encoded.push(n as u8);
        assert(encoded@ =~= seq![n as u8]);
    } else if n <= 0xffff {
        encoded.push(0xfd);
        assert(encoded@ =~= seq![0xfdu8]);
        push_le_bytes(&mut encoded, n, 2);
    } else if n <= 0xffff_ffff {
        encoded.push(0xfe);
        assert(encoded@ =~= seq![0xfeu8]);
        push_le_bytes(&mut encoded, n, 4);
    } else {
        encoded.push(0xff);
        assert(encoded@ =~= seq![0xffu8]);
        push_le_bytes(&mut encoded, n, 8);
    }
    encoded
}

} // verus!
