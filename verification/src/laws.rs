//! The codec's laws: whatever the encoder writes, the decoder reads back as
//! the same value (round trip), and whatever the decoder accepts re-encodes
//! to exactly the bytes it consumed (byte fidelity), per sub-codec and for
//! whole sections.

use vstd::prelude::*;

use crate::index_map::keys_sorted;
use crate::section::dec_local_entries;
use crate::section::dec_local_map;
use crate::section::dec_name;
use crate::section::dec_name_entries;
use crate::section::dec_name_map;
use crate::section::dec_section;
use crate::section::enc_local_entries;
use crate::section::enc_local_map;
use crate::section::enc_name;
use crate::section::enc_name_entries;
use crate::section::enc_name_map;
use crate::section::enc_payload;
use crate::section::enc_section;
use crate::section::enc_tag;
use crate::section::key_above;
use crate::section::local_map_encodable;
use crate::section::name_encodable;
use crate::section::name_map_encodable;
use crate::section::section_encodable;
use crate::section::section_wf;
use crate::section::SectionModel;
use crate::varint::lemma_var_u32_dec_enc;
use crate::varint::lemma_var_u32_enc_dec;
use crate::varint::var_u32_dec;
use crate::varint::var_u32_enc;
use crate::DecodeError;

verus! {

use vstd::utf8::decode_utf8;
use vstd::utf8::decode_utf8_encode_utf8;
use vstd::utf8::encode_utf8;
use vstd::utf8::encode_utf8_decode_utf8;
use vstd::utf8::encode_utf8_valid_utf8;
use vstd::utf8::valid_utf8;

/// A name's encoding decodes to the name and spans exactly its encoding,
/// whatever bytes follow it.
pub proof fn lemma_name_round_trip(name: Seq<char>, rest: Seq<u8>)
    requires
        name_encodable(name),
    ensures
        dec_name(enc_name(name) + rest) == Ok::<(Seq<char>, int), DecodeError>((
            name,
            enc_name(name).len() as int,
        )),
{
    let w = encode_utf8(name);
    let v_b = var_u32_enc(w.len());
    let s = enc_name(name) + rest;
    assert(s =~= v_b + (w + rest));
    lemma_var_u32_enc_dec(w.len() as u32, w + rest);
    assert(var_u32_dec(s) == Ok::<(u32, int), DecodeError>((
        w.len() as u32,
        v_b.len() as int,
    )));
    let n1 = v_b.len() as int;
    assert(s.subrange(n1, n1 + w.len()) =~= w);
    encode_utf8_valid_utf8(name);
    encode_utf8_decode_utf8(name);
}

/// The encoding of sorted entries with keys above `lo` decodes back to
/// exactly those entries, spanning exactly their encoding.
pub proof fn lemma_name_entries_round_trip(es: Seq<(u32, Seq<char>)>, rest: Seq<u8>, lo: Option<u32>)
    requires
        keys_sorted(es),
        forall|j: int| 0 <= j < es.len() ==> name_encodable((#[trigger] es[j]).1),
        forall|j: int| 0 <= j < es.len() ==> key_above(lo, (#[trigger] es[j]).0),
    ensures
        dec_name_entries(enc_name_entries(es) + rest, es.len() as nat, lo) == Ok::<
            (Seq<(u32, Seq<char>)>, int),
            DecodeError,
        >((es, enc_name_entries(es).len() as int)),
    decreases es.len(),
{
    if es.len() == 0 {
        assert(dec_name_entries(enc_name_entries(es) + rest, 0, lo) == Ok::<
            (Seq<(u32, Seq<char>)>, int),
            DecodeError,
        >((seq![], 0)));
        assert(es =~= Seq::<(u32, Seq<char>)>::empty());
    } else {
        let idx = es[0].0;
        let nm = es[0].1;
        let tail = es.drop_first();
        assert(forall|j: int| 0 <= j < tail.len() ==> tail[j] == es[j + 1]);
        let v_b = var_u32_enc(idx as nat);
        let n_b = enc_name(nm);
        let t_b = enc_name_entries(tail);
        let s = enc_name_entries(es) + rest;
        assert(enc_name_entries(es) == v_b + n_b + t_b);
        assert(s =~= v_b + (n_b + (t_b + rest)));
        lemma_var_u32_enc_dec(idx, n_b + (t_b + rest));
        assert(var_u32_dec(s) == Ok::<(u32, int), DecodeError>((idx, v_b.len() as int)));
        let n1 = v_b.len() as int;
        assert(key_above(lo, idx));
        assert(s.skip(n1) =~= n_b + (t_b + rest));
        lemma_name_round_trip(nm, t_b + rest);
        let n2 = n_b.len() as int;
        assert(s.skip(n1 + n2) =~= t_b + rest);
        lemma_name_entries_round_trip(tail, rest, Some(idx));
        assert(dec_name_entries(s.skip(n1 + n2), tail.len() as nat, Some(idx)) == Ok::<
            (Seq<(u32, Seq<char>)>, int),
            DecodeError,
        >((tail, t_b.len() as int)));
        assert(seq![(idx, nm)] + tail =~= es);
        assert(dec_name_entries(s, es.len() as nat, lo) == Ok::<
            (Seq<(u32, Seq<char>)>, int),
            DecodeError,
        >((es, n1 + n2 + t_b.len())));
    }
}

/// A name map's encoding decodes back to exactly its entries.
pub proof fn lemma_name_map_round_trip(es: Seq<(u32, Seq<char>)>, rest: Seq<u8>)
    requires
        keys_sorted(es),
        name_map_encodable(es),
    ensures
        dec_name_map(enc_name_map(es) + rest) == Ok::<(Seq<(u32, Seq<char>)>, int), DecodeError>((
            es,
            enc_name_map(es).len() as int,
        )),
{
    let c_b = var_u32_enc(es.len());
    let e_b = enc_name_entries(es);
    let s = enc_name_map(es) + rest;
    assert(s =~= c_b + (e_b + rest));
    lemma_var_u32_enc_dec(es.len() as u32, e_b + rest);
    assert(var_u32_dec(s) == Ok::<(u32, int), DecodeError>((
        es.len() as u32,
        c_b.len() as int,
    )));
    let n1 = c_b.len() as int;
    assert(s.skip(n1) =~= e_b + rest);
    lemma_name_entries_round_trip(es, rest, None::<u32>);
}

/// The encoding of sorted local entries with keys above `lo` decodes back
/// to exactly those entries.
pub proof fn lemma_local_entries_round_trip(
    es: Seq<(u32, Seq<(u32, Seq<char>)>)>,
    rest: Seq<u8>,
    lo: Option<u32>,
)
    requires
        keys_sorted(es),
        forall|j: int|
            0 <= j < es.len() ==> name_map_encodable((#[trigger] es[j]).1) && keys_sorted(
                es[j].1,
            ),
        forall|j: int| 0 <= j < es.len() ==> key_above(lo, (#[trigger] es[j]).0),
    ensures
        dec_local_entries(enc_local_entries(es) + rest, es.len() as nat, lo) == Ok::<
            (Seq<(u32, Seq<(u32, Seq<char>)>)>, int),
            DecodeError,
        >((es, enc_local_entries(es).len() as int)),
    decreases es.len(),
{
    if es.len() == 0 {
        assert(dec_local_entries(enc_local_entries(es) + rest, 0, lo) == Ok::<
            (Seq<(u32, Seq<(u32, Seq<char>)>)>, int),
            DecodeError,
        >((seq![], 0)));
        assert(es =~= Seq::<(u32, Seq<(u32, Seq<char>)>)>::empty());
    } else {
        let idx = es[0].0;
        let inner = es[0].1;
        let tail = es.drop_first();
        assert(forall|j: int| 0 <= j < tail.len() ==> tail[j] == es[j + 1]);
        let v_b = var_u32_enc(idx as nat);
        let n_b = enc_name_map(inner);
        let t_b = enc_local_entries(tail);
        let s = enc_local_entries(es) + rest;
        assert(enc_local_entries(es) == v_b + n_b + t_b);
        assert(s =~= v_b + (n_b + (t_b + rest)));
        lemma_var_u32_enc_dec(idx, n_b + (t_b + rest));
        assert(var_u32_dec(s) == Ok::<(u32, int), DecodeError>((idx, v_b.len() as int)));
        let n1 = v_b.len() as int;
        assert(key_above(lo, idx));
        assert(s.skip(n1) =~= n_b + (t_b + rest));
        lemma_name_map_round_trip(inner, t_b + rest);
        let n2 = n_b.len() as int;
        assert(s.skip(n1 + n2) =~= t_b + rest);
        lemma_local_entries_round_trip(tail, rest, Some(idx));
        assert(dec_local_entries(s.skip(n1 + n2), tail.len() as nat, Some(idx)) == Ok::<
            (Seq<(u32, Seq<(u32, Seq<char>)>)>, int),
            DecodeError,
        >((tail, t_b.len() as int)));
        assert(seq![(idx, inner)] + tail =~= es);
        assert(dec_local_entries(s, es.len() as nat, lo) == Ok::<
            (Seq<(u32, Seq<(u32, Seq<char>)>)>, int),
            DecodeError,
        >((es, n1 + n2 + t_b.len())));
    }
}

/// A local name table's encoding decodes back to exactly its entries.
pub proof fn lemma_local_map_round_trip(es: Seq<(u32, Seq<(u32, Seq<char>)>)>, rest: Seq<u8>)
    requires
        keys_sorted(es),
        local_map_encodable(es),
        forall|j: int| 0 <= j < es.len() ==> keys_sorted((#[trigger] es[j]).1),
    ensures
        dec_local_map(enc_local_map(es) + rest) == Ok::<
            (Seq<(u32, Seq<(u32, Seq<char>)>)>, int),
            DecodeError,
        >((es, enc_local_map(es).len() as int)),
{
    let c_b = var_u32_enc(es.len());
    let e_b = enc_local_entries(es);
    let s = enc_local_map(es) + rest;
    assert(s =~= c_b + (e_b + rest));
    lemma_var_u32_enc_dec(es.len() as u32, e_b + rest);
    assert(var_u32_dec(s) == Ok::<(u32, int), DecodeError>((
        es.len() as u32,
        c_b.len() as int,
    )));
    let n1 = c_b.len() as int;
    assert(s.skip(n1) =~= e_b + rest);
    lemma_local_entries_round_trip(es, rest, None::<u32>);
}

/// Round-trip law: decoding the encoding of any well-formed section yields
/// that very section back, consuming exactly its encoding, whatever bytes
/// follow it in the stream.
pub proof fn lemma_section_round_trip(m: SectionModel, rest: Seq<u8>)
    requires
        section_wf(m),
    ensures
        dec_section(enc_section(m) + rest) == Ok::<(SectionModel, int), DecodeError>((
            m,
            enc_section(m).len() as int,
        )),
{
    let tag = enc_tag(m);
    let payload = enc_payload(m);
    let l_b = var_u32_enc(payload.len());
    let s = enc_section(m) + rest;
    assert(enc_section(m) == seq![tag] + l_b + payload);
    assert(s =~= seq![tag] + (l_b + (payload + rest)));
    assert(s[0] == tag);
    assert(s.skip(1) =~= l_b + (payload + rest));
    lemma_var_u32_enc_dec(payload.len() as u32, payload + rest);
    assert(var_u32_dec(s.skip(1)) == Ok::<(u32, int), DecodeError>((
        payload.len() as u32,
        l_b.len() as int,
    )));
    let n = l_b.len() as int;
    let plen = payload.len() as int;
    assert(s.len() >= 1 + n + plen);
    assert(s.subrange(1 + n, 1 + n + plen) =~= payload);
    assert(payload + Seq::<u8>::empty() =~= payload);
    match m {
        SectionModel::Module(name) => {
            lemma_name_round_trip(name, Seq::<u8>::empty());
            assert(dec_name(payload) == Ok::<(Seq<char>, int), DecodeError>((name, plen)));
        },
        SectionModel::Function(es) => {
            lemma_name_map_round_trip(es, Seq::<u8>::empty());
            assert(dec_name_map(payload) == Ok::<(Seq<(u32, Seq<char>)>, int), DecodeError>((
                es,
                plen,
            )));
        },
        SectionModel::Local(es) => {
            lemma_local_map_round_trip(es, Seq::<u8>::empty());
            assert(dec_local_map(payload) == Ok::<
                (Seq<(u32, Seq<(u32, Seq<char>)>)>, int),
                DecodeError,
            >((es, plen)));
        },
        SectionModel::Unparsed { tag: t, payload: p } => {
            assert(t != 0 && t != 1 && t != 2);
        },
    }
}

/// A name that decodes re-encodes to exactly the bytes it spanned.
pub proof fn lemma_name_fidelity(s: Seq<u8>)
    ensures
        match dec_name(s) {
            Ok((name, n)) => {
                &&& name_encodable(name)
                &&& enc_name(name) == s.take(n)
                &&& 1 <= n <= s.len()
            },
            Err(_) => true,
        },
{
    lemma_var_u32_dec_enc(s);
    match var_u32_dec(s) {
        Ok((len, n1)) => {
            if s.len() >= n1 + len {
                let w = s.subrange(n1, n1 + len as int);
                if valid_utf8(w) {
                    let name = decode_utf8(w);
                    decode_utf8_encode_utf8(w);
                    assert(encode_utf8(name) == w);
                    assert(enc_name(name) == var_u32_enc(w.len()) + w);
                    assert(var_u32_enc(w.len()) == s.take(n1));
                    assert(enc_name(name) =~= s.take(n1 + len as int));
                }
            }
        },
        Err(_) => {},
    }
}

/// Name map entries that decode are sorted, above `lo`, encodable, and
/// re-encode to exactly the bytes they spanned.
pub proof fn lemma_name_entries_fidelity(s: Seq<u8>, count: nat, lo: Option<u32>)
    ensures
        match dec_name_entries(s, count, lo) {
            Ok((es, n)) => {
                &&& es.len() == count
                &&& keys_sorted(es)
                &&& forall|j: int|
                    0 <= j < es.len() ==> name_encodable((#[trigger] es[j]).1) && key_above(
                        lo,
                        es[j].0,
                    )
                &&& enc_name_entries(es) == s.take(n)
                &&& 0 <= n <= s.len()
            },
            Err(_) => true,
        },
    decreases count,
{
    if count == 0 {
        match dec_name_entries(s, count, lo) {
            Ok((es, n)) => {
                assert(enc_name_entries(es) =~= s.take(0));
            },
            Err(_) => {},
        }
    } else {
        lemma_var_u32_dec_enc(s);
        match var_u32_dec(s) {
            Ok((idx, n1)) => {
                if key_above(lo, idx) {
                    lemma_name_fidelity(s.skip(n1));
                    match dec_name(s.skip(n1)) {
                        Ok((nm, n2)) => {
                            lemma_name_entries_fidelity(
                                s.skip(n1 + n2),
                                (count - 1) as nat,
                                Some(idx),
                            );
                            match dec_name_entries(s.skip(n1 + n2), (count - 1) as nat, Some(idx)) {
                                Ok((tail, n3)) => {
                                    let es = seq![(idx, nm)] + tail;
                                    assert(es[0] == (idx, nm));
                                    assert(es.drop_first() =~= tail);
                                    assert(enc_name_entries(es) == var_u32_enc(idx as nat)
                                        + enc_name(nm) + enc_name_entries(tail));
                                    assert(var_u32_enc(idx as nat) == s.take(n1));
                                    assert(enc_name(nm) == s.skip(n1).take(n2));
                                    assert(enc_name_entries(tail) == s.skip(n1 + n2).take(n3));
                                    assert(enc_name_entries(es) =~= s.take(n1 + n2 + n3));
                                    assert forall|a: int, b: int|
                                        0 <= a < b < es.len() implies (#[trigger] es[a]).0 < (
                                    #[trigger] es[b]).0 by {
                                        if a == 0 {
                                            assert(key_above(Some(idx), tail[b - 1].0));
                                        } else {
                                            assert(es[a] == tail[a - 1]);
                                            assert(es[b] == tail[b - 1]);
                                        }
                                    }
                                },
                                Err(_) => {},
                            }
                        },
                        Err(_) => {},
                    }
                }
            },
            Err(_) => {},
        }
    }
}

/// A name map that decodes is sorted and encodable, and re-encodes to
/// exactly the bytes it spanned.
pub proof fn lemma_name_map_fidelity(s: Seq<u8>)
    ensures
        match dec_name_map(s) {
            Ok((es, n)) => {
                &&& keys_sorted(es)
                &&& name_map_encodable(es)
                &&& enc_name_map(es) == s.take(n)
                &&& 0 <= n <= s.len()
            },
            Err(_) => true,
        },
{
    lemma_var_u32_dec_enc(s);
    match var_u32_dec(s) {
        Ok((count, n1)) => {
            lemma_name_entries_fidelity(s.skip(n1), count as nat, None::<u32>);
            match dec_name_entries(s.skip(n1), count as nat, None::<u32>) {
                Ok((es, m)) => {
                    assert(var_u32_enc(es.len()) == s.take(n1));
                    assert(enc_name_entries(es) == s.skip(n1).take(m));
                    assert(enc_name_map(es) =~= s.take(n1 + m));
                },
                Err(_) => {},
            }
        },
        Err(_) => {},
    }
}

/// Local entries that decode are sorted, above `lo`, encodable at every
/// level, and re-encode to exactly the bytes they spanned.
pub proof fn lemma_local_entries_fidelity(s: Seq<u8>, count: nat, lo: Option<u32>)
    ensures
        match dec_local_entries(s, count, lo) {
            Ok((es, n)) => {
                &&& es.len() == count
                &&& keys_sorted(es)
                &&& forall|j: int|
                    0 <= j < es.len() ==> name_map_encodable((#[trigger] es[j]).1) && keys_sorted(
                        es[j].1,
                    ) && key_above(lo, es[j].0)
                &&& enc_local_entries(es) == s.take(n)
                &&& 0 <= n <= s.len()
            },
            Err(_) => true,
        },
    decreases count,
{
    if count == 0 {
        match dec_local_entries(s, count, lo) {
            Ok((es, n)) => {
                assert(enc_local_entries(es) =~= s.take(0));
            },
            Err(_) => {},
        }
    } else {
        lemma_var_u32_dec_enc(s);
        match var_u32_dec(s) {
            Ok((idx, n1)) => {
                if key_above(lo, idx) {
                    lemma_name_map_fidelity(s.skip(n1));
                    match dec_name_map(s.skip(n1)) {
                        Ok((inner, n2)) => {
                            lemma_local_entries_fidelity(
                                s.skip(n1 + n2),
                                (count - 1) as nat,
                                Some(idx),
                            );
                            match dec_local_entries(
                                s.skip(n1 + n2),
                                (count - 1) as nat,
                                Some(idx),
                            ) {
                                Ok((tail, n3)) => {
                                    let es = seq![(idx, inner)] + tail;
                                    assert(es[0] == (idx, inner));
                                    assert(es.drop_first() =~= tail);
                                    assert(enc_local_entries(es) == var_u32_enc(idx as nat)
                                        + enc_name_map(inner) + enc_local_entries(tail));
                                    assert(var_u32_enc(idx as nat) == s.take(n1));
                                    assert(enc_name_map(inner) == s.skip(n1).take(n2));
                                    assert(enc_local_entries(tail) == s.skip(n1 + n2).take(n3));
                                    assert(enc_local_entries(es) =~= s.take(n1 + n2 + n3));
                                    assert forall|a: int, b: int|
                                        0 <= a < b < es.len() implies (#[trigger] es[a]).0 < (
                                    #[trigger] es[b]).0 by {
                                        if a == 0 {
                                            assert(key_above(Some(idx), tail[b - 1].0));
                                        } else {
                                            assert(es[a] == tail[a - 1]);
                                            assert(es[b] == tail[b - 1]);
                                        }
                                    }
                                },
                                Err(_) => {},
                            }
                        },
                        Err(_) => {},
                    }
                }
            },
            Err(_) => {},
        }
    }
}

/// A local name table that decodes is sorted and encodable at every level,
/// and re-encodes to exactly the bytes it spanned.
pub proof fn lemma_local_map_fidelity(s: Seq<u8>)
    ensures
        match dec_local_map(s) {
            Ok((es, n)) => {
                &&& keys_sorted(es)
                &&& local_map_encodable(es)
                &&& forall|j: int| 0 <= j < es.len() ==> keys_sorted((#[trigger] es[j]).1)
                &&& enc_local_map(es) == s.take(n)
                &&& 0 <= n <= s.len()
            },
            Err(_) => true,
        },
{
    lemma_var_u32_dec_enc(s);
    match var_u32_dec(s) {
        Ok((count, n1)) => {
            lemma_local_entries_fidelity(s.skip(n1), count as nat, None::<u32>);
            match dec_local_entries(s.skip(n1), count as nat, None::<u32>) {
                Ok((es, m)) => {
                    assert(var_u32_enc(es.len()) == s.take(n1));
                    assert(enc_local_entries(es) == s.skip(n1).take(m));
                    assert(enc_local_map(es) =~= s.take(n1 + m));
                },
                Err(_) => {},
            }
        },
        Err(_) => {},
    }
}

/// Byte fidelity law: whatever section a buffer decodes to is well-formed,
/// and re-encoding it reproduces exactly the bytes the decode consumed.
/// For an unrecognised tag this is the tag-fidelity guarantee: the tag and
/// payload are kept verbatim and write back unchanged.
#[verifier::rlimit(50)]
pub proof fn lemma_section_fidelity(s: Seq<u8>)
    ensures
        match dec_section(s) {
            Ok((m, n)) => {
                &&& section_wf(m)
                &&& enc_section(m) == s.take(n)
                &&& 1 <= n <= s.len()
            },
            Err(_) => true,
        },
{
    if s.len() != 0 && s[0] < 128 {
        lemma_var_u32_dec_enc(s.skip(1));
        match var_u32_dec(s.skip(1)) {
            Ok((plen, n)) => {
                if s.len() >= 1 + n + plen {
                    let payload = s.subrange(1 + n, 1 + n + plen as int);
                    assert(payload.len() == plen as int);
                    assert(var_u32_enc(payload.len()) == s.skip(1).take(n));
                    lemma_name_fidelity(payload);
                    lemma_name_map_fidelity(payload);
                    lemma_local_map_fidelity(payload);
                    match dec_section(s) {
                        Ok((m, total)) => {
                            assert(enc_payload(m) == payload) by {
                                if s[0] == 0 || s[0] == 1 || s[0] == 2 {
                                    assert(payload.take(plen as int) =~= payload);
                                }
                            }
                            assert(enc_section(m) == seq![enc_tag(m)] + var_u32_enc(
                                enc_payload(m).len(),
                            ) + enc_payload(m));
                            assert(enc_tag(m) == s[0]);
                            assert(enc_section(m) =~= s.take(1 + n + plen as int));
                        },
                        Err(_) => {},
                    }
                }
            },
            Err(_) => {},
        }
    }
}

/// Tag fidelity, spelled out for the unparsed case: a buffer carrying any
/// unknown tag and arbitrary payload decodes to exactly that tag and
/// payload, and re-encoding them reproduces the buffer.
pub proof fn lemma_unparsed_round_trip(tag: u8, payload: Seq<u8>)
    requires
        tag != 0 && tag != 1 && tag != 2,
        tag < 128,
        payload.len() < 0x1_0000_0000,
    ensures
        enc_section(SectionModel::Unparsed { tag, payload }) == seq![tag] + var_u32_enc(
            payload.len(),
        ) + payload,
        dec_section(seq![tag] + var_u32_enc(payload.len()) + payload) == Ok::<
            (SectionModel, int),
            DecodeError,
        >((
            SectionModel::Unparsed { tag, payload },
            (seq![tag] + var_u32_enc(payload.len()) + payload).len() as int,
        )),
{
    let m = SectionModel::Unparsed { tag, payload };
    lemma_section_round_trip(m, Seq::<u8>::empty());
    assert(enc_section(m) + Seq::<u8>::empty() =~= enc_section(m));
}

/// Empty-map law: a name map with no entries encodes to the single byte 0
/// (a zero count and nothing after it), and that byte decodes to the empty
/// map.
pub proof fn lemma_empty_name_map()
    ensures
        enc_name_map(Seq::<(u32, Seq<char>)>::empty()) == seq![0u8],
        dec_name_map(seq![0u8]) == Ok::<(Seq<(u32, Seq<char>)>, int), DecodeError>((
            Seq::<(u32, Seq<char>)>::empty(),
            1,
        )),
{
    let es = Seq::<(u32, Seq<char>)>::empty();
    assert(var_u32_enc(0) =~= seq![0u8]);
    assert(enc_name_map(es) =~= seq![0u8]);
    lemma_name_map_round_trip(es, Seq::<u8>::empty());
    assert(enc_name_map(es) + Seq::<u8>::empty() =~= seq![0u8]);
}

/// Truncation law: a buffer that declares a payload length larger than the
/// bytes it still holds fails to decode with `Truncated`, whatever its tag.
pub proof fn lemma_truncated_section(s: Seq<u8>, plen: u32, n: int)
    requires
        s.len() >= 1,
        s[0] < 128,
        var_u32_dec(s.skip(1)) == Ok::<(u32, int), DecodeError>((plen, n)),
        s.len() < 1 + n + plen,
    ensures
        dec_section(s) == Err::<(SectionModel, int), DecodeError>(DecodeError::Truncated),
{
}

} // verus!
