//! Canonical byte encoding used by the fingerprint protocol.
//!
//! Every entry is projected onto its content fields and serialized into a
//! fixed, unambiguous byte string: strings are length-prefixed UTF-8,
//! integers are little-endian, and lists are count-prefixed. Encoded records
//! are ordered by the total lexicographic order on byte strings, which is
//! what makes the fingerprint independent of the order in which entries
//! arrive.
use vstd::prelude::*;
use vstd::relations::{antisymmetric, reflexive, sorted_by, strongly_connected, total_ordering, transitive};
use vstd::string::StrSliceExecFns;
use vstd::multiset::Multiset;

verus! {

/// Lexicographic order on byte strings: `a` is less than or equal to `b`.
/// A proper prefix precedes every extension of itself.
pub open spec fn lex_le(a: Seq<u8>, b: Seq<u8>) -> bool
    decreases a.len(),
{
    if a.len() == 0 {
        true
    } else if b.len() == 0 {
        false
    } else if a[0] < b[0] {
        true
    } else if a[0] > b[0] {
        false
    } else {
        lex_le(a.drop_first(), b.drop_first())
    }
}

/// The byte-string order as a relation value, for use with `sorted_by`.
pub open spec fn byte_order() -> spec_fn(Seq<u8>, Seq<u8>) -> bool {
    |a: Seq<u8>, b: Seq<u8>| lex_le(a, b)
}

pub proof fn lemma_lex_le_refl(a: Seq<u8>)
    ensures
        lex_le(a, a),
    decreases a.len(),
{
    if a.len() > 0 {
        lemma_lex_le_refl(a.drop_first());
    }
}

pub proof fn lemma_lex_le_total(a: Seq<u8>, b: Seq<u8>)
    ensures
        lex_le(a, b) || lex_le(b, a),
    decreases a.len(),
{
    if a.len() > 0 && b.len() > 0 && a[0] == b[0] {
        lemma_lex_le_total(a.drop_first(), b.drop_first());
    }
}

pub proof fn lemma_lex_le_antisymmetric(a: Seq<u8>, b: Seq<u8>)
    requires
        lex_le(a, b),
        lex_le(b, a),
    ensures
        a == b,
    decreases a.len(),
{
    if a.len() > 0 {
        assert(b.len() > 0);
        assert(a[0] == b[0]);
        lemma_lex_le_antisymmetric(a.drop_first(), b.drop_first());
        assert(a.len() == b.len());
        assert forall|i: int| 0 <= i < a.len() implies a[i] == b[i] by {
            if i > 0 {
                assert(a.drop_first()[i - 1] == b.drop_first()[i - 1]);
            }
        }
        assert(a =~= b);
    } else {
        assert(a =~= b);
    }
}

pub proof fn lemma_lex_le_transitive(a: Seq<u8>, b: Seq<u8>, c: Seq<u8>)
    requires
        lex_le(a, b),
        lex_le(b, c),
    ensures
        lex_le(a, c),
    decreases a.len(),
{
    if a.len() > 0 && c.len() > 0 && a[0] == c[0] {
        lemma_lex_le_transitive(a.drop_first(), b.drop_first(), c.drop_first());
    }
}

/// The byte-string order is a total order, so sorting by it normalizes any
/// permutation of a collection of byte strings to one canonical sequence.
pub proof fn lemma_byte_order_total_ordering()
    ensures
        total_ordering(byte_order()),
{
    let r = byte_order();
    assert forall|x: Seq<u8>| #[trigger] r(x, x) by {
        lemma_lex_le_refl(x);
    }
    assert forall|x: Seq<u8>, y: Seq<u8>| #[trigger] r(x, y) && #[trigger] r(y, x) implies x == y by {
        lemma_lex_le_antisymmetric(x, y);
    }
    assert forall|x: Seq<u8>, y: Seq<u8>, z: Seq<u8>| #[trigger] r(x, y) && #[trigger] r(y, z) implies r(x, z) by {
        lemma_lex_le_transitive(x, y, z);
    }
    assert forall|x: Seq<u8>, y: Seq<u8>| #[trigger] r(x, y) || #[trigger] r(y, x) by {
        lemma_lex_le_total(x, y);
    }
    assert(reflexive(r));
    assert(antisymmetric(r));
    assert(transitive(r));
    assert(strongly_connected(r));
}

/// Decides the byte-string order on two byte vectors.
pub fn bytes_le(a: &Vec<u8>, b: &Vec<u8>) -> (r: bool)
    ensures
        r == lex_le(a@, b@),
{
    let mut i: usize = 0;
    proof {
        assert(a@.skip(0) =~= a@);
        assert(b@.skip(0) =~= b@);
    }
    loop
        invariant
            i <= a@.len(),
            i <= b@.len(),
            lex_le(a@, b@) == lex_le(a@.skip(i as int), b@.skip(i as int)),
        decreases a@.len() - i,
    {
        if i == a.len() {
            assert(a@.skip(i as int).len() == 0);
            return true;
        }
        if i == b.len() {
            assert(b@.skip(i as int).len() == 0);
            assert(a@.skip(i as int).len() > 0);
            return false;
        }
        let x = a[i];
        let y = b[i];
        assert(a@.skip(i as int)[0] == a@[i as int]);
        assert(b@.skip(i as int)[0] == b@[i as int]);
        if x < y {
            return true;
        }
        if x > y {
            return false;
        }
        proof {
            assert(a@.skip(i as int).drop_first() =~= a@.skip(i as int + 1));
            assert(b@.skip(i as int).drop_first() =~= b@.skip(i as int + 1));
        }
        i = i + 1;
    }
}

/// Byte-for-byte equality of two byte vectors.
pub fn bytes_eq(a: &Vec<u8>, b: &Vec<u8>) -> (r: bool)
    ensures
        r == (a@ == b@),
{
    if a.len() != b.len() {
        proof {
            assert(!(a@ == b@)) by {
                if a@ == b@ {
                    assert(a@.len() == b@.len());
                }
            }
        }
        return false;
    }
    let mut i: usize = 0;
    while i < a.len()
        invariant
            a@.len() == b@.len(),
            i <= a@.len(),
            forall|k: int| 0 <= k < i ==> a@[k] == b@[k],
        decreases a@.len() - i,
    {
        if a[i] != b[i] {
            proof {
                assert(!(a@ == b@)) by {
                    if a@ == b@ {
                        assert(a@[i as int] == b@[i as int]);
                    }
                }
            }
            return false;
        }
        i = i + 1;
    }
    proof {
        assert(a@ =~= b@);
    }
    true
}

/// Equality of two strings, decided on their UTF-8 bytes. Relies on no
/// outside code: equal bytes decode to equal character sequences.
pub fn str_eq(a: &str, b: &str) -> (r: bool)
    ensures
        r == (a@ == b@),
{
    let av = a.as_bytes_vec();
    let bv = b.as_bytes_vec();
    let r = bytes_eq(&av, &bv);
    proof {
        if av@ == bv@ {
            vstd::utf8::encode_utf8_decode_utf8(a@);
            vstd::utf8::encode_utf8_decode_utf8(b@);
            assert(a@ == b@);
        } else {
            assert(!(a@ == b@)) by {
                if a@ == b@ {
                    assert(av@ == bv@);
                }
            }
        }
    }
    r
}

/// Little-endian encoding of a 16-bit integer.
pub open spec fn enc_u16le(n: u16) -> Seq<u8> {
    seq![(n & 0xff) as u8, ((n >> 8) & 0xff) as u8]
}

/// Little-endian encoding of a 64-bit integer.
pub open spec fn enc_u64le(n: u64) -> Seq<u8> {
    seq![
        (n & 0xff) as u8,
        ((n >> 8) & 0xff) as u8,
        ((n >> 16) & 0xff) as u8,
        ((n >> 24) & 0xff) as u8,
        ((n >> 32) & 0xff) as u8,
        ((n >> 40) & 0xff) as u8,
        ((n >> 48) & 0xff) as u8,
        ((n >> 56) & 0xff) as u8,
    ]
}

/// Little-endian encoding of a 128-bit integer, as used for IPv6 addresses.
pub open spec fn enc_u128le(n: u128) -> Seq<u8> {
    seq![
        (n & 0xff) as u8,
        ((n >> 8) & 0xff) as u8,
        ((n >> 16) & 0xff) as u8,
        ((n >> 24) & 0xff) as u8,
        ((n >> 32) & 0xff) as u8,
        ((n >> 40) & 0xff) as u8,
        ((n >> 48) & 0xff) as u8,
        ((n >> 56) & 0xff) as u8,
        ((n >> 64) & 0xff) as u8,
        ((n >> 72) & 0xff) as u8,
        ((n >> 80) & 0xff) as u8,
        ((n >> 88) & 0xff) as u8,
        ((n >> 96) & 0xff) as u8,
        ((n >> 104) & 0xff) as u8,
        ((n >> 112) & 0xff) as u8,
        ((n >> 120) & 0xff) as u8,
    ]
}

/// One-byte encoding of a boolean.
pub open spec fn enc_bool(b: bool) -> Seq<u8> {
    if b {
        seq![1u8]
    } else {
        seq![0u8]
    }
}

/// Length-prefixed UTF-8 encoding of a string.
pub open spec fn enc_chars(s: Seq<char>) -> Seq<u8> {
    let bytes = vstd::utf8::encode_utf8(s);
    enc_u64le(bytes.len() as u64) + bytes
}

pub fn push_u16le(out: &mut Vec<u8>, n: u16)
    ensures
        final(out)@ == old(out)@ + enc_u16le(n),
{
    out.push((n & 0xff) as u8);
    out.push(((n >> 8) & 0xff) as u8);
    proof {
        assert(out@ =~= old(out)@ + enc_u16le(n));
    }
}

pub fn push_u64le(out: &mut Vec<u8>, n: u64)
    ensures
        final(out)@ == old(out)@ + enc_u64le(n),
{
    out.push((n & 0xff) as u8);
    out.push(((n >> 8) & 0xff) as u8);
    out.push(((n >> 16) & 0xff) as u8);
    out.push(((n >> 24) & 0xff) as u8);
    out.push(((n >> 32) & 0xff) as u8);
    out.push(((n >> 40) & 0xff) as u8);
    out.push(((n >> 48) & 0xff) as u8);
    out.push(((n >> 56) & 0xff) as u8);
    proof {
        assert(out@ =~= old(out)@ + enc_u64le(n));
    }
}

pub fn push_u128le(out: &mut Vec<u8>, n: u128)
    ensures
        final(out)@ == old(out)@ + enc_u128le(n),
{
    out.push((n & 0xff) as u8);
    out.push(((n >> 8) & 0xff) as u8);
    out.push(((n >> 16) & 0xff) as u8);
    out.push(((n >> 24) & 0xff) as u8);
    out.push(((n >> 32) & 0xff) as u8);
    out.push(((n >> 40) & 0xff) as u8);
    out.push(((n >> 48) & 0xff) as u8);
    out.push(((n >> 56) & 0xff) as u8);
    out.push(((n >> 64) & 0xff) as u8);
    out.push(((n >> 72) & 0xff) as u8);
    out.push(((n >> 80) & 0xff) as u8);
    out.push(((n >> 88) & 0xff) as u8);
    out.push(((n >> 96) & 0xff) as u8);
    out.push(((n >> 104) & 0xff) as u8);
    out.push(((n >> 112) & 0xff) as u8);
    out.push(((n >> 120) & 0xff) as u8);
    proof {
        assert(out@ =~= old(out)@ + enc_u128le(n));
    }
}

pub fn push_bool(out: &mut Vec<u8>, b: bool)
    ensures
        final(out)@ == old(out)@ + enc_bool(b),
{
    if b {
        out.push(1u8);
    } else {
        out.push(0u8);
    }
    proof {
        assert(out@ =~= old(out)@ + enc_bool(b));
    }
}

/// Appends the whole of `bytes` to `out`.
pub fn push_bytes(out: &mut Vec<u8>, bytes: &Vec<u8>)
    ensures
        final(out)@ == old(out)@ + bytes@,
{
    let mut i: usize = 0;
    proof {
        assert(out@ =~= old(out)@ + bytes@.take(0));
    }
    while i < bytes.len()
        invariant
            i <= bytes.len(),
            out@ == old(out)@ + bytes@.take(i as int),
        decreases bytes.len() - i,
    {
        out.push(bytes[i]);
        proof {
            assert(out@ =~= old(out)@ + bytes@.take(i as int + 1));
        }
        i = i + 1;
    }
    proof {
        assert(bytes@.take(bytes@.len() as int) =~= bytes@);
    }
}

/// The byte strings held by a vector of byte vectors.
pub open spec fn views_of(s: Seq<Vec<u8>>) -> Seq<Seq<u8>> {
    s.map_values(|v: Vec<u8>| v@)
}

/// The canonical ascending arrangement of a collection of byte strings.
pub open spec fn sort_byte_seqs_spec(s: Seq<Seq<u8>>) -> Seq<Seq<u8>> {
    s.sort_by(byte_order())
}

fn insert_sorted(out: &mut Vec<Vec<u8>>, x: Vec<u8>)
    requires
        sorted_by(views_of(old(out)@), byte_order()),
    ensures
        sorted_by(views_of(final(out)@), byte_order()),
        views_of(final(out)@).to_multiset() == views_of(old(out)@).to_multiset().insert(x@),
{
    broadcast use vstd::seq_lib::to_multiset_insert;

    let ghost vs = views_of(old(out)@);
    let mut i: usize = 0;
    let mut found: bool = false;
    while i < out.len() && !found
        invariant
            i <= out.len(),
            out == old(out),
            forall|k: int| 0 <= k < i ==> lex_le(#[trigger] views_of(out@)[k], x@),
            found ==> i < out.len() && lex_le(x@, views_of(out@)[i as int]),
            !found ==> forall|k: int| 0 <= k < i ==> !lex_le(x@, #[trigger] views_of(out@)[k]),
        decreases out.len() - i + (if found { 0int } else { 1int }),
    {
        let candidate = &out[i];
        if bytes_le(&x, candidate) {
            found = true;
        } else {
            proof {
                lemma_lex_le_total(x@, out@[i as int]@);
            }
            i = i + 1;
        }
    }
    let ghost pos = i as int;
    proof {
        assert(pos < vs.len() ==> lex_le(x@, vs[pos]));
    }
    out.insert(i, x);
    proof {
        let r = byte_order();
        assert(views_of(out@) =~= vs.insert(pos, x@)) by {
            assert(out@ == old(out)@.insert(pos, x));
            vs.insert_ensures(pos, x@);
            old(out)@.insert_ensures(pos, x);
            assert forall|k: int| 0 <= k < views_of(out@).len() implies views_of(out@)[k]
                == vs.insert(pos, x@)[k] by {
                assert(views_of(out@)[k] == out@[k]@);
                if k < pos {
                    assert(out@[k] == old(out)@[k]);
                    assert(vs.insert(pos, x@)[k] == vs[k]);
                } else if k == pos {
                    assert(out@[k] == x);
                    assert(vs.insert(pos, x@)[k] == x@);
                } else {
                    assert(out@[(k - 1) + 1] == old(out)@[k - 1]);
                    assert(vs.insert(pos, x@)[(k - 1) + 1] == vs[k - 1]);
                }
            }
        }
        vs.insert_ensures(pos, x@);
        let nv = vs.insert(pos, x@);
        assert(views_of(out@) == nv);
        assert(nv.to_multiset() =~= vs.to_multiset().insert(x@)) by {
            broadcast use vstd::seq_lib::to_multiset_insert;

        }
        assert forall|p: int, q: int| 0 <= p < q < nv.len() implies #[trigger] r(nv[p], nv[q]) by {
            if q < pos {
                assert(nv[p] == vs[p]);
                assert(nv[q] == vs[q]);
                assert(r(vs[p], vs[q]));
            } else if p < pos && q == pos {
                assert(nv[p] == vs[p]);
                assert(nv[q] == x@);
                assert(lex_le(vs[p], x@));
            } else if p < pos && q > pos {
                assert(nv[p] == vs[p]);
                assert(nv[(q - 1) + 1] == vs[q - 1]);
                assert(r(vs[p], vs[q - 1]));
            } else if p == pos {
                assert(nv[p] == x@);
                assert(nv[(q - 1) + 1] == vs[q - 1]);
                assert(lex_le(x@, vs[pos]));
                if q - 1 > pos {
                    assert(r(vs[pos], vs[q - 1]));
                    lemma_lex_le_transitive(x@, vs[pos], vs[q - 1]);
                }
            } else {
                assert(nv[(p - 1) + 1] == vs[p - 1]);
                assert(nv[(q - 1) + 1] == vs[q - 1]);
                assert(r(vs[p - 1], vs[q - 1]));
            }
        }
        assert(sorted_by(nv, byte_order()));
    }
}

/// Arranges a collection of byte strings into the canonical ascending order.
pub fn sort_byte_seqs(v: Vec<Vec<u8>>) -> (r: Vec<Vec<u8>>)
    ensures
        views_of(r@) == sort_byte_seqs_spec(views_of(v@)),
{
    broadcast use vstd::multiset::group_multiset_axioms;
    broadcast use vstd::seq_lib::group_to_multiset_ensures;

    let ghost orig = views_of(v@);
    let mut rem = v;
    let mut out: Vec<Vec<u8>> = Vec::new();
    proof {
        assert(views_of(out@) =~= Seq::<Seq<u8>>::empty());
        assert(views_of(out@).to_multiset().add(views_of(rem@).to_multiset())
            =~= orig.to_multiset());
    }
    while rem.len() > 0
        invariant
            sorted_by(views_of(out@), byte_order()),
            views_of(out@).to_multiset().add(views_of(rem@).to_multiset()) == orig.to_multiset(),
        decreases rem.len(),
    {
        let ghost rem_before = views_of(rem@);
        let x = match rem.pop() {
            Some(x) => x,
            None => {
                proof {
                    assert(false);
                }
                Vec::new()
            },
        };
        proof {
            rem_before.to_multiset_ensures();
            assert(views_of(rem@) =~= rem_before.drop_last());
            assert(rem_before.drop_last() =~= rem_before.remove(rem_before.len() - 1));
            assert(rem_before.remove(rem_before.len() - 1).to_multiset()
                =~= rem_before.to_multiset().remove(rem_before[rem_before.len() - 1]));
            assert(x@ == rem_before[rem_before.len() - 1]);
            assert(rem_before.contains(rem_before[rem_before.len() - 1]));
            assert(rem_before.to_multiset().count(rem_before[rem_before.len() - 1]) > 0);
        }
        let ghost out_before = views_of(out@);
        insert_sorted(&mut out, x);
        proof {
            assert(views_of(out@).to_multiset().add(views_of(rem@).to_multiset())
                =~= orig.to_multiset());
        }
    }
    proof {
        assert(views_of(rem@).to_multiset() =~= Multiset::<Seq<u8>>::empty());
        assert(views_of(out@).to_multiset() =~= orig.to_multiset());
        lemma_byte_order_total_ordering();
        orig.lemma_sort_by_ensures(byte_order());
        vstd::seq_lib::lemma_sorted_unique(
            views_of(out@),
            orig.sort_by(byte_order()),
            byte_order(),
        );
        assert(views_of(out@) =~= sort_byte_seqs_spec(orig));
    }
    out
}

/// Appends the length-prefixed UTF-8 encoding of `s` to `out`.
pub fn push_str_field(out: &mut Vec<u8>, s: &str)
    ensures
        final(out)@ == old(out)@ + enc_chars(s@),
{
    let bytes = s.as_bytes_vec();
    push_u64le(out, bytes.len() as u64);
    push_bytes(out, &bytes);
    proof {
        assert(out@ =~= old(out)@ + enc_chars(s@));
    }
}

} // verus!
