//! The fingerprint protocol: a deterministic digest over catalog content.
//!
//! Entries are projected onto their content fields (freshness metadata —
//! `first_seen`, `last_seen`, `ttl` — is excluded), each projection is
//! serialized to a canonical byte record, the records are sorted by the
//! total byte-string order, and the concatenation is digested with SHA-256
//! and rendered as lowercase hexadecimal. Sorting the records makes the
//! result independent of the order in which entries are supplied.
use vstd::prelude::*;
use vstd::relations::sorted_by;
use sha2::{Digest, Sha256};

use crate::encoding::{
    byte_order, enc_bool, enc_chars, enc_u128le, enc_u16le, enc_u64le, lemma_byte_order_total_ordering,
    push_bool, push_bytes, push_str_field, push_u128le, push_u16le, push_u64le, sort_byte_seqs,
    sort_byte_seqs_spec, views_of,
};
use crate::types::{entry_models, txt_models, ServiceEntry, ServiceEntryModel};

verus! {

/// Canonical encoding of one TXT pair.
pub open spec fn enc_pair(p: (Seq<char>, Seq<char>)) -> Seq<u8> {
    enc_chars(p.0) + enc_chars(p.1)
}

/// The TXT pairs of an entry, each encoded, in canonical ascending order.
/// Starting from the sorted arrangement makes the encoding independent of
/// the order in which the pairs were supplied.
pub open spec fn canon_txt(txt: Seq<(Seq<char>, Seq<char>)>) -> Seq<Seq<u8>> {
    sort_byte_seqs_spec(txt.map_values(|p: (Seq<char>, Seq<char>)| enc_pair(p)))
}

/// Count-prefixed canonical encoding of a TXT record list.
pub open spec fn enc_txt(txt: Seq<(Seq<char>, Seq<char>)>) -> Seq<u8> {
    enc_u64le(txt.len() as u64) + canon_txt(txt).flatten()
}

/// Count-prefixed encoding of an address list.
pub open spec fn enc_addresses(addrs: Seq<u128>) -> Seq<u8> {
    enc_u64le(addrs.len() as u64) + addrs.map_values(|a: u128| enc_u128le(a)).flatten()
}

/// The canonical byte record of one entry: exactly the content fields
/// {instance_name, service_type, hostname, addresses, port, txt, alive}.
/// The freshness fields `first_seen`, `last_seen` and `ttl` do not appear.
pub open spec fn enc_entry(e: ServiceEntryModel) -> Seq<u8> {
    enc_chars(e.instance_name) + enc_chars(e.service_type) + enc_chars(e.hostname)
        + enc_addresses(e.addresses) + enc_u16le(e.port) + enc_txt(e.txt) + enc_bool(e.alive)
}

/// The serialized catalog: every entry's record, in canonical ascending
/// order, concatenated. Because the records are sorted, any permutation of
/// the same entries serializes to the same bytes.
pub open spec fn fingerprint_bytes(entries: Seq<ServiceEntryModel>) -> Seq<u8> {
    sort_byte_seqs_spec(entries.map_values(|e: ServiceEntryModel| enc_entry(e))).flatten()
}

/// The SHA-256 digest of a byte string, named but not written out: the
/// digest function is supplied by an outside crate and nothing in this
/// library depends on its internals.
pub uninterp spec fn sha256_of(bytes: Seq<u8>) -> Seq<u8>;

/// Lowercase hexadecimal digit of a value below 16.
pub open spec fn hex_digit(n: u8) -> char {
    if n == 0 {
        '0'
    } else if n == 1 {
        '1'
    } else if n == 2 {
        '2'
    } else if n == 3 {
        '3'
    } else if n == 4 {
        '4'
    } else if n == 5 {
        '5'
    } else if n == 6 {
        '6'
    } else if n == 7 {
        '7'
    } else if n == 8 {
        '8'
    } else if n == 9 {
        '9'
    } else if n == 10 {
        'a'
    } else if n == 11 {
        'b'
    } else if n == 12 {
        'c'
    } else if n == 13 {
        'd'
    } else if n == 14 {
        'e'
    } else {
        'f'
    }
}

/// Lowercase hexadecimal rendering of a byte string, two digits per byte,
/// high nibble first.
pub open spec fn hex_of(bytes: Seq<u8>) -> Seq<char>
    decreases bytes.len(),
{
    if bytes.len() == 0 {
        Seq::<char>::empty()
    } else {
        seq![hex_digit(bytes[0] / 16), hex_digit(bytes[0] % 16)] + hex_of(bytes.drop_first())
    }
}

/// The fingerprint of a catalog: hexadecimal SHA-256 of the canonical
/// serialization.
pub open spec fn hash_of_catalog(entries: Seq<ServiceEntryModel>) -> Seq<char> {
    hex_of(sha256_of(fingerprint_bytes(entries)))
}

/// Relies on sha2's `Sha256::digest`: the digest depends on the input bytes
/// alone and is exactly 32 bytes long.
#[verifier::external_body]
fn sha256(bytes: &Vec<u8>) -> (r: Vec<u8>)
    ensures
        r@ == sha256_of(bytes@),
        r@.len() == 32,
{
    Sha256::digest(bytes.as_slice()).to_vec()
}

/// Relies on hex::encode: each input byte becomes two lowercase hexadecimal
/// digits, high nibble first.
#[verifier::external_body]
fn to_hex(bytes: &Vec<u8>) -> (r: String)
    ensures
        r@ == hex_of(bytes@),
{
    hex::encode(bytes.as_slice())
}

proof fn lemma_take_flatten_step(s: Seq<Seq<u8>>, i: int)
    requires
        0 <= i < s.len(),
    ensures
        s.take(i + 1).flatten() == s.take(i).flatten() + s[i],
{
    assert(s.take(i + 1) =~= s.take(i).push(s[i]));
    s.take(i).lemma_flatten_push(s[i]);
}

/// Encodes every TXT pair of a record list, in the order given.
fn encode_txt_pairs(txt: &Vec<(String, String)>) -> (r: Vec<Vec<u8>>)
    ensures
        views_of(r@) == txt_models(txt@).map_values(|p: (Seq<char>, Seq<char>)| enc_pair(p)),
{
    let ghost pair_encs = txt_models(txt@).map_values(|p: (Seq<char>, Seq<char>)| enc_pair(p));
    let mut pairs: Vec<Vec<u8>> = Vec::new();
    let mut j: usize = 0;
    proof {
        assert(views_of(pairs@) =~= pair_encs.take(0));
    }
    while j < txt.len()
        invariant
            j <= txt.len(),
            pair_encs == txt_models(txt@).map_values(|p: (Seq<char>, Seq<char>)| enc_pair(p)),
            txt_models(txt@).len() == txt.len(),
            views_of(pairs@) == pair_encs.take(j as int),
        decreases txt.len() - j,
    {
        let pair = &txt[j];
        let mut pb: Vec<u8> = Vec::new();
        push_str_field(&mut pb, pair.0.as_str());
        push_str_field(&mut pb, pair.1.as_str());
        proof {
            assert(txt_models(txt@)[j as int] == (pair.0@, pair.1@));
            assert(pb@ =~= enc_pair(txt_models(txt@)[j as int]));
        }
        let ghost pairs_before = pairs@;
        pairs.push(pb);
        proof {
            assert(views_of(pairs_before).len() == pairs_before.len());
            assert(pairs_before.len() == j as int);
            assert(pairs@ == pairs_before.push(pb));
            assert(views_of(pairs@).len() == j + 1);
            assert forall|t: int| 0 <= t < j + 1 implies views_of(pairs@)[t] == pair_encs.take(
                j as int + 1,
            )[t] by {
                assert(views_of(pairs@)[t] == pairs@[t]@);
                if t < j {
                    assert(pairs@[t] == pairs_before[t]);
                    assert(views_of(pairs_before)[t] == pair_encs.take(j as int)[t]);
                } else {
                    assert(pairs@[t] == pb);
                    assert(pair_encs[j as int] == enc_pair(txt_models(txt@)[j as int]));
                }
            }
            assert(views_of(pairs@) =~= pair_encs.take(j as int + 1));
        }
        j = j + 1;
    }
    proof {
        assert(pair_encs.take(pair_encs.len() as int) =~= pair_encs);
        assert(views_of(pairs@) == pair_encs);
    }
    pairs
}

/// Whether two TXT record lists hold the same pairs, order ignored: their
/// canonical encodings coincide.
pub fn txt_canon_eq(a: &Vec<(String, String)>, b: &Vec<(String, String)>) -> (r: bool)
    ensures
        r == (canon_txt(txt_models(a@)) == canon_txt(txt_models(b@))),
{
    let sa = sort_byte_seqs(encode_txt_pairs(a));
    let sb = sort_byte_seqs(encode_txt_pairs(b));
    let ghost ca = canon_txt(txt_models(a@));
    let ghost cb = canon_txt(txt_models(b@));
    proof {
        assert(views_of(sa@) == ca);
        assert(views_of(sb@) == cb);
    }
    if sa.len() != sb.len() {
        proof {
            assert(ca.len() == sa@.len());
            assert(cb.len() == sb@.len());
            assert(!(ca == cb)) by {
                if ca == cb {
                    assert(ca.len() == cb.len());
                }
            }
        }
        return false;
    }
    let mut i: usize = 0;
    while i < sa.len()
        invariant
            ca == canon_txt(txt_models(a@)),
            cb == canon_txt(txt_models(b@)),
            views_of(sa@) == ca,
            views_of(sb@) == cb,
            sa@.len() == sb@.len(),
            i <= sa@.len(),
            forall|k: int| 0 <= k < i ==> ca[k] == cb[k],
        decreases sa@.len() - i,
    {
        let ea: &Vec<u8> = &sa[i];
        let eb: &Vec<u8> = &sb[i];
        let same = crate::encoding::bytes_eq(ea, eb);
        if !same {
            proof {
                assert(ea@ == sa@[i as int]@);
                assert(eb@ == sb@[i as int]@);
                assert(ca[i as int] == sa@[i as int]@);
                assert(cb[i as int] == sb@[i as int]@);
                if ca == cb {
                    assert(ca[i as int] == cb[i as int]);
                    assert(ea@ == eb@);
                    assert(false);
                }
            }
            return false;
        }
        i = i + 1;
    }
    proof {
        assert(ca =~= cb);
    }
    true
}

/// The canonical byte record of one entry.
pub fn encode_entry(e: &ServiceEntry) -> (r: Vec<u8>)
    ensures
        r@ == enc_entry(e@),
{
    let mut out: Vec<u8> = Vec::new();
    push_str_field(&mut out, e.instance_name.as_str());
    push_str_field(&mut out, e.service_type.as_str());
    push_str_field(&mut out, e.hostname.as_str());

    // addresses
    push_u64le(&mut out, e.addresses.len() as u64);
    let ghost addr_encs = e.addresses@.map_values(|a: u128| enc_u128le(a));
    let ghost addr_base = out@;
    proof {
        assert(addr_encs.take(0).flatten() =~= Seq::<u8>::empty());
        assert(out@ =~= addr_base + addr_encs.take(0).flatten());
    }
    let mut i: usize = 0;
    while i < e.addresses.len()
        invariant
            i <= e.addresses.len(),
            addr_encs == e.addresses@.map_values(|a: u128| enc_u128le(a)),
            out@ == addr_base + addr_encs.take(i as int).flatten(),
        decreases e.addresses.len() - i,
    {
        push_u128le(&mut out, e.addresses[i]);
        proof {
            lemma_take_flatten_step(addr_encs, i as int);
            assert(addr_encs[i as int] == enc_u128le(e.addresses@[i as int]));
            assert(out@ =~= addr_base + addr_encs.take(i as int + 1).flatten());
        }
        i = i + 1;
    }
    proof {
        assert(addr_encs.take(addr_encs.len() as int) =~= addr_encs);
        assert(out@ == addr_base + addr_encs.flatten());
    }

    push_u16le(&mut out, e.port);

    // TXT records, in canonical order
    let pairs = encode_txt_pairs(&e.txt);
    proof {
        assert(e@.txt == txt_models(e.txt@));
    }
    let txt_count = e.txt.len();
    let sorted = sort_byte_seqs(pairs);
    push_u64le(&mut out, txt_count as u64);
    let ghost txt_base = out@;
    let ghost sorted_encs = views_of(sorted@);
    let mut k: usize = 0;
    proof {
        assert(sorted_encs.take(0).flatten() =~= Seq::<u8>::empty());
        assert(out@ =~= txt_base + sorted_encs.take(0).flatten());
    }
    while k < sorted.len()
        invariant
            k <= sorted.len(),
            sorted_encs == views_of(sorted@),
            out@ == txt_base + sorted_encs.take(k as int).flatten(),
        decreases sorted.len() - k,
    {
        push_bytes(&mut out, &sorted[k]);
        proof {
            lemma_take_flatten_step(sorted_encs, k as int);
            assert(sorted_encs[k as int] == sorted@[k as int]@);
            assert(out@ =~= txt_base + sorted_encs.take(k as int + 1).flatten());
        }
        k = k + 1;
    }
    proof {
        assert(sorted_encs.take(sorted_encs.len() as int) =~= sorted_encs);
        assert(out@ == txt_base + canon_txt(e@.txt).flatten());
    }

    push_bool(&mut out, e.alive);
    proof {
        assert(out@ =~= enc_entry(e@));
    }
    out
}

/// Computes the catalog fingerprint: sort the entries' canonical records,
/// concatenate, digest with SHA-256, render as lowercase hexadecimal.
/// The result depends only on the entries' content fields, never on the
/// order in which they are given.
#[verifier::rlimit(60)]
pub fn compute_hash(services: &Vec<ServiceEntry>) -> (r: String)
    ensures
        r@ == hash_of_catalog(entry_models(services@)),
{
    let ghost models = entry_models(services@);
    let ghost records_spec = models.map_values(|e: ServiceEntryModel| enc_entry(e));
    let mut records: Vec<Vec<u8>> = Vec::new();
    let mut i: usize = 0;
    proof {
        assert(views_of(records@) =~= records_spec.take(0));
    }
    while i < services.len()
        invariant
            i <= services.len(),
            models == entry_models(services@),
            records_spec == models.map_values(|e: ServiceEntryModel| enc_entry(e)),
            services@.len() == models.len(),
            views_of(records@) == records_spec.take(i as int),
        decreases services.len() - i,
    {
        let rec = encode_entry(&services[i]);
        proof {
            assert(models[i as int] == services@[i as int]@);
            assert(rec@ == records_spec[i as int]);
        }
        let ghost records_before = records@;
        records.push(rec);
        proof {
            assert(views_of(records_before).len() == records_before.len());
            assert(records_before.len() == i as int);
            assert(records@ == records_before.push(rec));
            assert(views_of(records@).len() == i + 1);
            assert forall|t: int| 0 <= t < i + 1 implies views_of(records@)[t] == records_spec.take(
                i as int + 1,
            )[t] by {
                assert(views_of(records@)[t] == records@[t]@);
                if t < i {
                    assert(records@[t] == records_before[t]);
                    assert(views_of(records_before)[t] == records_spec.take(i as int)[t]);
                } else {
                    assert(records@[t] == rec);
                }
            }
            assert(views_of(records@) =~= records_spec.take(i as int + 1));
        }
        i = i + 1;
    }
    proof {
        assert(records_spec.take(records_spec.len() as int) =~= records_spec);
        assert(views_of(records@) == records_spec);
    }
    let sorted = sort_byte_seqs(records);
    let ghost sorted_encs = views_of(sorted@);
    let mut bytes: Vec<u8> = Vec::new();
    let mut k: usize = 0;
    proof {
        assert(sorted_encs.take(0).flatten() =~= Seq::<u8>::empty());
        assert(bytes@ =~= sorted_encs.take(0).flatten());
    }
    while k < sorted.len()
        invariant
            k <= sorted.len(),
            sorted_encs == views_of(sorted@),
            bytes@ == sorted_encs.take(k as int).flatten(),
        decreases sorted.len() - k,
    {
        push_bytes(&mut bytes, &sorted[k]);
        proof {
            lemma_take_flatten_step(sorted_encs, k as int);
            assert(sorted_encs[k as int] == sorted@[k as int]@);
            assert(bytes@ =~= sorted_encs.take(k as int + 1).flatten());
        }
        k = k + 1;
    }
    proof {
        assert(sorted_encs.take(sorted_encs.len() as int) =~= sorted_encs);
        assert(bytes@ == fingerprint_bytes(models));
    }
    let digest = sha256(&bytes);
    to_hex(&digest)
}

proof fn lemma_map_multiset_congruence(
    a: Seq<ServiceEntryModel>,
    b: Seq<ServiceEntryModel>,
    f: spec_fn(ServiceEntryModel) -> Seq<u8>,
)
    requires
        a.to_multiset() == b.to_multiset(),
    ensures
        a.map_values(f).to_multiset() == b.map_values(f).to_multiset(),
    decreases a.len(),
{
    broadcast use vstd::multiset::group_multiset_axioms;

    a.to_multiset_ensures();
    b.to_multiset_ensures();
    if a.len() == 0 {
        assert(b.to_multiset().len() == 0);
        assert(b.len() == 0);
        assert(a.map_values(f) =~= b.map_values(f));
    } else {
        let x = a[0];
        assert(a.contains(x));
        assert(a.to_multiset().count(x) > 0);
        assert(b.to_multiset().count(x) > 0);
        assert(b.contains(x));
        let j = choose|j: int| 0 <= j < b.len() && b[j] == x;
        let a1 = a.remove(0);
        let b1 = b.remove(j);
        assert(a1.to_multiset() =~= a.to_multiset().remove(x));
        assert(b1.to_multiset() =~= b.to_multiset().remove(x));
        lemma_map_multiset_congruence(a1, b1, f);

        let ma = a.map_values(f);
        let mb = b.map_values(f);
        ma.to_multiset_ensures();
        mb.to_multiset_ensures();
        assert(ma.remove(0) =~= a1.map_values(f));
        assert(mb.remove(j) =~= b1.map_values(f));
        assert(ma.remove(0).to_multiset() =~= ma.to_multiset().remove(ma[0]));
        assert(mb.remove(j).to_multiset() =~= mb.to_multiset().remove(mb[j]));
        assert(ma[0] == f(x));
        assert(mb[j] == f(x));
        assert(ma.contains(ma[0]));
        assert(ma.to_multiset().count(f(x)) > 0);
        assert(mb.contains(mb[j]));
        assert(mb.to_multiset().count(f(x)) > 0);
        assert(ma.to_multiset().remove(f(x)) == mb.to_multiset().remove(f(x)));
        assert(ma.to_multiset() =~= mb.to_multiset()) by {
            assert forall|y: Seq<u8>| #[trigger] ma.to_multiset().count(y) == mb.to_multiset().count(
                y,
            ) by {
                if y == f(x) {
                    assert(ma.to_multiset().remove(f(x)).count(y) == ma.to_multiset().count(y) - 1);
                    assert(mb.to_multiset().remove(f(x)).count(y) == mb.to_multiset().count(y) - 1);
                } else {
                    assert(ma.to_multiset().remove(f(x)).count(y) == ma.to_multiset().count(y));
                    assert(mb.to_multiset().remove(f(x)).count(y) == mb.to_multiset().count(y));
                }
            }
        }
    }
}

/// Law: the fingerprint is independent of the order of the entries. Any two
/// entry lists holding the same entries — one a permutation of the other —
/// have the same catalog hash.
pub proof fn lemma_hash_permutation_invariant(a: Seq<ServiceEntryModel>, b: Seq<ServiceEntryModel>)
    requires
        a.to_multiset() == b.to_multiset(),
    ensures
        hash_of_catalog(a) == hash_of_catalog(b),
{
    let f = |e: ServiceEntryModel| enc_entry(e);
    lemma_map_multiset_congruence(a, b, f);
    lemma_byte_order_total_ordering();
    a.map_values(f).lemma_sort_by_ensures(byte_order());
    b.map_values(f).lemma_sort_by_ensures(byte_order());
    vstd::seq_lib::lemma_sorted_unique(
        a.map_values(f).sort_by(byte_order()),
        b.map_values(f).sort_by(byte_order()),
        byte_order(),
    );
    assert(fingerprint_bytes(a) == fingerprint_bytes(b));
}

/// Two TXT record lists hold the same pairs, order ignored.
pub open spec fn txt_equivalent(
    a: Seq<(Seq<char>, Seq<char>)>,
    b: Seq<(Seq<char>, Seq<char>)>,
) -> bool {
    canon_txt(a) == canon_txt(b)
}

/// The canonical arrangement of a TXT record list holds one encoded pair
/// per record, so equivalent lists have equal lengths.
pub proof fn lemma_canon_txt_len(t: Seq<(Seq<char>, Seq<char>)>)
    ensures
        canon_txt(t).len() == t.len(),
{
    let m = t.map_values(|p: (Seq<char>, Seq<char>)| enc_pair(p));
    lemma_byte_order_total_ordering();
    m.lemma_sort_by_ensures(byte_order());
    m.to_multiset_ensures();
    m.sort_by(byte_order()).to_multiset_ensures();
}

/// Two entries agree on every content field — the TXT lists as unordered
/// collections — though they may differ in the freshness fields
/// `first_seen`, `last_seen` and `ttl`.
pub open spec fn content_eq(x: ServiceEntryModel, y: ServiceEntryModel) -> bool {
    &&& x.service_type == y.service_type
    &&& x.instance_name == y.instance_name
    &&& x.hostname == y.hostname
    &&& x.addresses == y.addresses
    &&& x.port == y.port
    &&& txt_equivalent(x.txt, y.txt)
    &&& x.alive == y.alive
}

/// Entries with equal content have equal canonical records.
pub proof fn lemma_content_eq_enc_entry(x: ServiceEntryModel, y: ServiceEntryModel)
    requires
        content_eq(x, y),
    ensures
        enc_entry(x) == enc_entry(y),
{
    lemma_canon_txt_len(x.txt);
    lemma_canon_txt_len(y.txt);
    assert(x.txt.len() == y.txt.len());
    assert(enc_txt(x.txt) == enc_txt(y.txt));
}

/// Law: the fingerprint ignores freshness metadata. Changing only
/// `first_seen`, `last_seen` or `ttl` of any entries leaves the catalog
/// hash unchanged.
pub proof fn lemma_hash_ignores_freshness(a: Seq<ServiceEntryModel>, b: Seq<ServiceEntryModel>)
    requires
        a.len() == b.len(),
        forall|i: int| 0 <= i < a.len() ==> content_eq(#[trigger] a[i], #[trigger] b[i]),
    ensures
        hash_of_catalog(a) == hash_of_catalog(b),
{
    let f = |e: ServiceEntryModel| enc_entry(e);
    assert forall|i: int| 0 <= i < a.len() implies #[trigger] a.map_values(f)[i] == b.map_values(
        f,
    )[i] by {
        lemma_content_eq_enc_entry(a[i], b[i]);
    }
    assert(a.map_values(f) =~= b.map_values(f));
    assert(fingerprint_bytes(a) == fingerprint_bytes(b));
}

} // verus!
