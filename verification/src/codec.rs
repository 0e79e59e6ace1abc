//! The wire encoding of documents and index snapshots: a stable,
//! length-prefixed binary form.  Strings are a length followed by one
//! little-endian code point per character; values are tagged by kind.

use vstd::prelude::*;

verus! {

use crate::document::{
    lemma_model_fields, lemma_model_list, model_fields, model_list, Document, FieldModel,
    FieldValue,
};
use crate::trigram::{chars_of, string_from_chars as string_from_chars_pub};

/// The four little-endian bytes of a 32-bit value.
pub open spec fn le32(n: u32) -> Seq<u8> {
    seq![
        (n & 0xff) as u8,
        ((n >> 8) & 0xff) as u8,
        ((n >> 16) & 0xff) as u8,
        ((n >> 24) & 0xff) as u8,
    ]
}

/// The eight little-endian bytes of a 64-bit value.
pub open spec fn le64(n: u64) -> Seq<u8> {
    seq![
        (n & 0xff) as u8,
        ((n >> 8) & 0xff) as u8,
        ((n >> 16) & 0xff) as u8,
        ((n >> 24) & 0xff) as u8,
        ((n >> 32) & 0xff) as u8,
        ((n >> 40) & 0xff) as u8,
        ((n >> 48) & 0xff) as u8,
        ((n >> 56) & 0xff) as u8,
    ]
}

/// One code point per character, in order.
pub open spec fn chars_bytes(s: Seq<char>) -> Seq<u8>
    decreases s.len(),
{
    if s.len() == 0 {
        Seq::empty()
    } else {
        chars_bytes(s.drop_last()) + le32(s.last() as u32)
    }
}

/// A length-prefixed character sequence.
pub open spec fn enc_chars(s: Seq<char>) -> Seq<u8> {
    le64(s.len() as u64) + chars_bytes(s)
}

/// A tagged field value.
pub open spec fn enc_value(v: FieldModel) -> Seq<u8>
    decreases v,
    via enc_value_decreases
{
    match v {
        FieldModel::Text(s) => seq![0u8] + enc_chars(s),
        FieldModel::Integer(n) => seq![1u8] + le64(n as u64),
        FieldModel::Boolean(b) => seq![
            2u8,
            if b {
                1u8
            } else {
                0u8
            },
        ],
        FieldModel::Null => seq![3u8],
        FieldModel::Array(vs) => seq![4u8] + le64(vs.len() as u64) + enc_value_list(vs),
        FieldModel::Object(fs) => seq![5u8] + le64(fs.len() as u64) + enc_named_list(fs),
    }
}

#[via_fn]
proof fn enc_value_decreases(v: FieldModel) {
    match v {
        FieldModel::Array(vs) => {
            assert(decreases_to!(v => v->Array_0));
        },
        FieldModel::Object(fs) => {
            assert(decreases_to!(v => v->Object_0));
        },
        _ => {},
    }
}

/// The concatenated encodings of a value sequence.
pub open spec fn enc_value_list(vs: Seq<FieldModel>) -> Seq<u8>
    decreases vs,
    via enc_value_list_decreases
{
    if vs.len() == 0 {
        Seq::empty()
    } else {
        enc_value_list(vs.drop_last()) + enc_value(vs[vs.len() - 1])
    }
}

#[via_fn]
proof fn enc_value_list_decreases(vs: Seq<FieldModel>) {
    if vs.len() > 0 {
        let i = vs.len() - 1;
        assert(decreases_to!(vs => vs[i]));
    }
}

/// The concatenated encodings of a named-value sequence.
pub open spec fn enc_named_list(fs: Seq<(Seq<char>, FieldModel)>) -> Seq<u8>
    decreases fs,
    via enc_named_list_decreases
{
    if fs.len() == 0 {
        Seq::empty()
    } else {
        enc_named_list(fs.drop_last()) + enc_chars(fs[fs.len() - 1].0) + enc_value(
            fs[fs.len() - 1].1,
        )
    }
}

#[via_fn]
proof fn enc_named_list_decreases(fs: Seq<(Seq<char>, FieldModel)>) {
    if fs.len() > 0 {
        let i = fs.len() - 1;
        assert(decreases_to!(fs => fs[i]));
        assert(decreases_to!(fs[i] => fs[i].1));
    }
}

/// A whole document: its id, then its length-prefixed field list.
pub open spec fn enc_document(id: Seq<char>, fields: Seq<(Seq<char>, FieldModel)>) -> Seq<u8> {
    enc_chars(id) + le64(fields.len() as u64) + enc_named_list(fields)
}

/// The storage key a document is persisted under: `doc:` and the id.
pub open spec fn doc_key_spec(id: Seq<char>) -> Seq<u8> {
    seq![100u8, 111u8, 99u8, 58u8] + enc_chars(id)
}

/// The storage key of the index snapshot: the ASCII bytes of
/// `index_metadata`.
pub open spec fn metadata_key_spec() -> Seq<u8> {
    seq![
        105u8, 110u8, 100u8, 101u8, 120u8, 95u8, 109u8, 101u8, 116u8, 97u8, 100u8, 97u8, 116u8,
        97u8,
    ]
}

// ---------------------------------------------------------------------------
// Executable encoders.
// ---------------------------------------------------------------------------

fn push_le32(out: &mut Vec<u8>, n: u32)
    ensures
        final(out)@ == old(out)@ + le32(n),
{
    out.push((n & 0xff) as u8);
    out.push(((n >> 8) & 0xff) as u8);
    out.push(((n >> 16) & 0xff) as u8);
    out.push(((n >> 24) & 0xff) as u8);
    proof {
        assert(out@ =~= old(out)@ + le32(n));
    }
}

pub(crate) fn push_le64(out: &mut Vec<u8>, n: u64)
    ensures
        final(out)@ == old(out)@ + le64(n),
{
    out.push((n & 0xff) as u8);
    out.push(((n >> 8) & 0xff) as u8);
    out.push(((n >> 16) & 0xff) as u8);
    out.push(((n >> 24) & 0xff) as u8);
    out.push(((n >> 32) & 0xff) as u8);
    out.push(((n >> 40) & 0xff) as u8);
    out.push(((n >> 48) & 0xff) as u8);
    out.push(((n >> 56) & 0xff) as u8);
    proof {
        assert(out@ =~= old(out)@ + le64(n));
    }
}

/// Append the encoding of a string.
pub(crate) fn push_chars(out: &mut Vec<u8>, s: &str)
    ensures
        final(out)@ == old(out)@ + enc_chars(s@),
{
    let cs = chars_of(s);
    push_le64(out, cs.len() as u64);
    let ghost base = out@;
    let mut i: usize = 0;
    proof {
        assert(out@ =~= base + chars_bytes(cs@.take(0)));
    }
    while i < cs.len()
        invariant
            cs@ == s@,
            i <= cs@.len(),
            out@ == base + chars_bytes(cs@.take(i as int)),
        decreases cs@.len() - i,
    {
        proof {
            assert(cs@.take(i + 1).drop_last() =~= cs@.take(i as int));
            assert(cs@.take(i + 1).last() == cs@[i as int]);
        }
        push_le32(out, cs[i] as u32);
        proof {
            assert(out@ =~= base + chars_bytes(cs@.take(i + 1)));
        }
        i = i + 1;
    }
    proof {
        assert(cs@.take(cs@.len() as int) =~= cs@);
        assert(out@ =~= old(out)@ + enc_chars(s@));
    }
}

/// Append the encoding of a field value.
fn push_value(out: &mut Vec<u8>, v: &FieldValue)
    ensures
        final(out)@ == old(out)@ + enc_value(v.model()),
    decreases *v,
{
    match v {
        FieldValue::Text(s) => {
            out.push(0u8);
            push_chars(out, s.as_str());
            proof {
                assert(out@ =~= old(out)@ + enc_value(v.model()));
            }
        },
        FieldValue::Integer(n) => {
            out.push(1u8);
            push_le64(out, *n as u64);
            proof {
                assert(out@ =~= old(out)@ + enc_value(v.model()));
            }
        },
        FieldValue::Boolean(b) => {
            out.push(2u8);
            out.push(
                if *b {
                    1u8
                } else {
                    0u8
                },
            );
            proof {
                assert(out@ =~= old(out)@ + enc_value(v.model()));
            }
        },
        FieldValue::Null => {
            out.push(3u8);
            proof {
                assert(out@ =~= old(out)@ + enc_value(v.model()));
            }
        },
        FieldValue::Array(vs) => {
            proof {
                assert(decreases_to!(*v => v->Array_0));
                assert(decreases_to!(v->Array_0 => v->Array_0@));
            }
            out.push(4u8);
            push_le64(out, vs.len() as u64);
            push_value_list(out, vs);
            proof {
                lemma_model_list(vs@);
                assert(v.model()->Array_0 == model_list(vs@));
                assert(model_list(vs@).len() == vs@.len());
                assert(out@ =~= old(out)@ + enc_value(v.model()));
            }
        },
        FieldValue::Object(fs) => {
            proof {
                assert(decreases_to!(*v => v->Object_0));
                assert(decreases_to!(v->Object_0 => v->Object_0@));
            }
            out.push(5u8);
            push_le64(out, fs.len() as u64);
            push_named_list(out, fs);
            proof {
                lemma_model_fields(fs@);
                assert(v.model()->Object_0 == model_fields(fs@));
                assert(model_fields(fs@).len() == fs@.len());
                assert(out@ =~= old(out)@ + enc_value(v.model()));
            }
        },
    }
}

/// Append the encodings of a value sequence.
fn push_value_list(out: &mut Vec<u8>, vs: &Vec<FieldValue>)
    ensures
        final(out)@ == old(out)@ + enc_value_list(model_list(vs@)),
    decreases vs@,
{
    let ghost base = out@;
    let mut i: usize = 0;
    proof {
        lemma_model_list(vs@);
        assert(model_list(vs@.take(0)) =~= Seq::<FieldModel>::empty());
        assert(out@ =~= base + enc_value_list(model_list(vs@.take(0))));
    }
    while i < vs.len()
        invariant
            i <= vs@.len(),
            out@ == base + enc_value_list(model_list(vs@.take(i as int))),
        decreases vs@.len() - i,
    {
        proof {
            assert(decreases_to!(vs@ => vs@[i as int]));
        }
        push_value(out, &vs[i]);
        proof {
            lemma_model_list(vs@.take(i + 1));
            lemma_model_list(vs@.take(i as int));
            assert forall|j: int| 0 <= j < i + 1 implies #[trigger] model_list(vs@.take(i + 1))[
                j
            ] == vs@[j].model() by {
                assert(model_list(vs@.take(i + 1))[j] == (vs@.take(i + 1)[j]).model());
                assert(vs@.take(i + 1)[j] == vs@[j]);
            }
            assert forall|j: int| 0 <= j < i implies #[trigger] model_list(vs@.take(i as int))[
                j
            ] == vs@[j].model() by {
                assert(model_list(vs@.take(i as int))[j] == (vs@.take(i as int)[j]).model());
                assert(vs@.take(i as int)[j] == vs@[j]);
            }
            assert(model_list(vs@.take(i + 1)).drop_last() =~= model_list(vs@.take(i as int)));
            assert(model_list(vs@.take(i + 1))[i as int] == vs@[i as int].model());
            assert(out@ =~= base + enc_value_list(model_list(vs@.take(i + 1))));
        }
        i = i + 1;
    }
    proof {
        assert(vs@.take(vs@.len() as int) =~= vs@);
    }
}

/// Append the encodings of a named-value sequence.
fn push_named_list(out: &mut Vec<u8>, fs: &Vec<(String, FieldValue)>)
    ensures
        final(out)@ == old(out)@ + enc_named_list(model_fields(fs@)),
    decreases fs@,
{
    let ghost base = out@;
    let mut i: usize = 0;
    proof {
        lemma_model_fields(fs@);
        assert(model_fields(fs@.take(0)) =~= Seq::<(Seq<char>, FieldModel)>::empty());
        assert(out@ =~= base + enc_named_list(model_fields(fs@.take(0))));
    }
    while i < fs.len()
        invariant
            i <= fs@.len(),
            out@ == base + enc_named_list(model_fields(fs@.take(i as int))),
        decreases fs@.len() - i,
    {
        proof {
            assert(decreases_to!(fs@ => fs@[i as int]));
            assert(decreases_to!(fs@[i as int] => fs@[i as int].1));
        }
        push_chars(out, fs[i].0.as_str());
        push_value(out, &fs[i].1);
        proof {
            lemma_model_fields(fs@.take(i + 1));
            lemma_model_fields(fs@.take(i as int));
            assert forall|j: int| 0 <= j < i + 1 implies #[trigger] model_fields(fs@.take(
                i + 1,
            ))[j] == (fs@[j].0@, fs@[j].1.model()) by {
                assert(model_fields(fs@.take(i + 1))[j] == ((fs@.take(i + 1)[j]).0@, (fs@.take(
                    i + 1,
                )[j]).1.model()));
                assert(fs@.take(i + 1)[j] == fs@[j]);
            }
            assert forall|j: int| 0 <= j < i implies #[trigger] model_fields(fs@.take(
                i as int,
            ))[j] == (fs@[j].0@, fs@[j].1.model()) by {
                assert(model_fields(fs@.take(i as int))[j] == ((fs@.take(i as int)[j]).0@, (
                fs@.take(i as int)[j]).1.model()));
                assert(fs@.take(i as int)[j] == fs@[j]);
            }
            assert(model_fields(fs@.take(i + 1)).drop_last() =~= model_fields(
                fs@.take(i as int),
            ));
            assert(model_fields(fs@.take(i + 1))[i as int] == (fs@[i as int].0@, fs@[
                i as int
            ].1.model()));
            assert(out@ =~= base + enc_named_list(model_fields(fs@.take(i + 1))));
        }
        i = i + 1;
    }
    proof {
        assert(fs@.take(fs@.len() as int) =~= fs@);
    }
}

/// The wire form of a document.
pub fn encode_document(d: &Document) -> (r: Vec<u8>)
    ensures
        r@ == enc_document(d.id@, d.fields_model()),
{
    let mut out: Vec<u8> = Vec::new();
    push_chars(&mut out, d.id.as_str());
    push_le64(&mut out, d.fields.len() as u64);
    push_named_list(&mut out, &d.fields);
    proof {
        lemma_model_fields(d.fields@);
        assert(model_fields(d.fields@) =~= d.fields_model());
        assert(out@ =~= enc_document(d.id@, d.fields_model()));
    }
    out
}

/// The storage key of a document.
pub fn doc_key_bytes(id: &str) -> (r: Vec<u8>)
    ensures
        r@ == doc_key_spec(id@),
{
    let mut out: Vec<u8> = Vec::new();
    out.push(100u8);
    out.push(111u8);
    out.push(99u8);
    out.push(58u8);
    push_chars(&mut out, id);
    proof {
        assert(out@ =~= doc_key_spec(id@));
    }
    out
}

/// The storage key of the index snapshot.
pub fn metadata_key_bytes() -> (r: Vec<u8>)
    ensures
        r@ == metadata_key_spec(),
{
    let mut out: Vec<u8> = Vec::new();
    out.push(105u8);
    out.push(110u8);
    out.push(100u8);
    out.push(101u8);
    out.push(120u8);
    out.push(95u8);
    out.push(109u8);
    out.push(101u8);
    out.push(116u8);
    out.push(97u8);
    out.push(100u8);
    out.push(97u8);
    out.push(116u8);
    out.push(97u8);
    proof {
        assert(out@ =~= metadata_key_spec());
    }
    out
}

// ---------------------------------------------------------------------------
// Decoders.  Each carries the re-encoding identity: whatever a reader
// returns encodes back to exactly the bytes it consumed, so a decoded
// snapshot is a faithful reading of what a commit wrote.
// ---------------------------------------------------------------------------

/// Relies on `char::from_u32`: `Some` exactly for valid Unicode scalar
/// values, and the returned character carries that scalar value.
#[verifier::external_body]
fn u32_to_char(x: u32) -> (r: Option<char>)
    ensures
        r matches Some(c) ==> (c as u32) == x,
{
    char::from_u32(x)
}

/// Read four little-endian bytes.
fn read_le32(bytes: &Vec<u8>, start: usize) -> (r: Option<(u32, usize)>)
    ensures
        r matches Some(p) ==> (start + 4 == p.1 && p.1 <= bytes@.len() && bytes@.subrange(
            start as int,
            p.1 as int,
        ) == le32(p.0)),
{
    if start > bytes.len() || bytes.len() - start < 4 {
        return None;
    }
    let b0 = bytes[start];
    let b1 = bytes[start + 1];
    let b2 = bytes[start + 2];
    let b3 = bytes[start + 3];
    let n = (b0 as u32) | ((b1 as u32) << 8) | ((b2 as u32) << 16) | ((b3 as u32) << 24);
    proof {
        assert((n & 0xff) as u8 == b0 && ((n >> 8) & 0xff) as u8 == b1 && ((n >> 16)
            & 0xff) as u8 == b2 && ((n >> 24) & 0xff) as u8 == b3) by (bit_vector)
            requires
                n == (b0 as u32) | ((b1 as u32) << 8) | ((b2 as u32) << 16) | ((b3 as u32)
                    << 24),
        ;
        assert(bytes@.subrange(start as int, start + 4) =~= le32(n));
    }
    Some((n, start + 4))
}

/// Read eight little-endian bytes.
fn read_le64(bytes: &Vec<u8>, start: usize) -> (r: Option<(u64, usize)>)
    ensures
        r matches Some(p) ==> (start + 8 == p.1 && p.1 <= bytes@.len() && bytes@.subrange(
            start as int,
            p.1 as int,
        ) == le64(p.0)),
{
    if start > bytes.len() || bytes.len() - start < 8 {
        return None;
    }
    let b0 = bytes[start];
    let b1 = bytes[start + 1];
    let b2 = bytes[start + 2];
    let b3 = bytes[start + 3];
    let b4 = bytes[start + 4];
    let b5 = bytes[start + 5];
    let b6 = bytes[start + 6];
    let b7 = bytes[start + 7];
    let n = (b0 as u64) | ((b1 as u64) << 8) | ((b2 as u64) << 16) | ((b3 as u64) << 24) | ((
    b4 as u64) << 32) | ((b5 as u64) << 40) | ((b6 as u64) << 48) | ((b7 as u64) << 56);
    proof {
        assert((n & 0xff) as u8 == b0 && ((n >> 8) & 0xff) as u8 == b1 && ((n >> 16)
            & 0xff) as u8 == b2 && ((n >> 24) & 0xff) as u8 == b3 && ((n >> 32) & 0xff) as u8
            == b4 && ((n >> 40) & 0xff) as u8 == b5 && ((n >> 48) & 0xff) as u8 == b6 && ((n
            >> 56) & 0xff) as u8 == b7) by (bit_vector)
            requires
                n == (b0 as u64) | ((b1 as u64) << 8) | ((b2 as u64) << 16) | ((b3 as u64)
                    << 24) | ((b4 as u64) << 32) | ((b5 as u64) << 40) | ((b6 as u64) << 48) | ((
                b7 as u64) << 56),
        ;
        assert(bytes@.subrange(start as int, start + 8) =~= le64(n));
    }
    Some((n, start + 8))
}

/// Read a length-prefixed character sequence.
fn read_chars(bytes: &Vec<u8>, start: usize) -> (r: Option<(String, usize)>)
    ensures
        r matches Some(p) ==> (start + 8 <= p.1 <= bytes@.len() && bytes@.subrange(
            start as int,
            p.1 as int,
        ) == enc_chars(p.0@)),
{
    let (n, base) = match read_le64(bytes, start) {
        Some(x) => x,
        None => {
            return None;
        },
    };
    if n > usize::MAX as u64 {
        return None;
    }
    let count = n as usize;
    let mut cs: Vec<char> = Vec::new();
    let mut pos: usize = base;
    let mut i: usize = 0;
    proof {
        assert(bytes@.subrange(base as int, base as int) =~= chars_bytes(cs@));
    }
    while i < count
        invariant
            i <= count,
            count as u64 == n,
            cs@.len() == i,
            start + 8 == base,
            base <= pos <= bytes@.len(),
            bytes@.subrange(start as int, base as int) == le64(n),
            bytes@.subrange(base as int, pos as int) == chars_bytes(cs@),
        decreases count - i,
    {
        let (cp, p2) = match read_le32(bytes, pos) {
            Some(x) => x,
            None => {
                return None;
            },
        };
        let c = match u32_to_char(cp) {
            Some(c) => c,
            None => {
                return None;
            },
        };
        let ghost cs0 = cs@;
        cs.push(c);
        proof {
            assert(cs@.drop_last() =~= cs0);
            assert(cs@.last() == c);
            assert(le32(c as u32) == le32(cp));
            assert(bytes@.subrange(base as int, p2 as int) =~= bytes@.subrange(
                base as int,
                pos as int,
            ) + bytes@.subrange(pos as int, p2 as int));
            assert(bytes@.subrange(base as int, p2 as int) =~= chars_bytes(cs@));
        }
        pos = p2;
        i = i + 1;
    }
    let s = string_from_chars_pub(&cs);
    proof {
        assert(s@.len() as u64 == n);
        assert(bytes@.subrange(start as int, pos as int) =~= bytes@.subrange(
            start as int,
            base as int,
        ) + bytes@.subrange(base as int, pos as int));
        assert(bytes@.subrange(start as int, pos as int) =~= enc_chars(s@));
    }
    Some((s, pos))
}

/// Read one tagged field value.
fn read_value(bytes: &Vec<u8>, start: usize) -> (r: Option<(FieldValue, usize)>)
    ensures
        r matches Some(p) ==> (start < p.1 <= bytes@.len() && bytes@.subrange(
            start as int,
            p.1 as int,
        ) == enc_value(p.0.model())),
    decreases bytes@.len() - start,
{
    if start >= bytes.len() {
        return None;
    }
    let tag = bytes[start];
    let p = start + 1;
    proof {
        assert(bytes@.subrange(start as int, p as int) =~= seq![tag]);
    }
    if tag == 0 {
        let (s, end) = match read_chars(bytes, p) {
            Some(x) => x,
            None => {
                return None;
            },
        };
        let v = FieldValue::Text(s);
        proof {
            assert(bytes@.subrange(start as int, end as int) =~= bytes@.subrange(
                start as int,
                p as int,
            ) + bytes@.subrange(p as int, end as int));
            assert(bytes@.subrange(start as int, end as int) =~= enc_value(v.model()));
        }
        Some((v, end))
    } else if tag == 1 {
        let (n, end) = match read_le64(bytes, p) {
            Some(x) => x,
            None => {
                return None;
            },
        };
        let v = FieldValue::Integer(n as i64);
        proof {
            assert(((n as i64) as u64) == n) by (bit_vector);
            assert(bytes@.subrange(start as int, end as int) =~= bytes@.subrange(
                start as int,
                p as int,
            ) + bytes@.subrange(p as int, end as int));
            assert(bytes@.subrange(start as int, end as int) =~= enc_value(v.model()));
        }
        Some((v, end))
    } else if tag == 2 {
        if p >= bytes.len() {
            return None;
        }
        let b = bytes[p];
        if b != 0 && b != 1 {
            return None;
        }
        let v = FieldValue::Boolean(b == 1);
        let end = p + 1;
        proof {
            assert(bytes@.subrange(start as int, end as int) =~= enc_value(v.model()));
        }
        Some((v, end))
    } else if tag == 3 {
        let v = FieldValue::Null;
        proof {
            assert(bytes@.subrange(start as int, p as int) =~= enc_value(v.model()));
        }
        Some((v, p))
    } else if tag == 4 {
        let (m, base) = match read_le64(bytes, p) {
            Some(x) => x,
            None => {
                return None;
            },
        };
        if m > usize::MAX as u64 {
            return None;
        }
        let count = m as usize;
        let mut items: Vec<FieldValue> = Vec::new();
        let mut pos: usize = base;
        let mut i: usize = 0;
        proof {
            lemma_model_list(items@);
            assert(bytes@.subrange(base as int, base as int) =~= enc_value_list(
                model_list(items@),
            ));
        }
        while i < count
            invariant
                i <= count,
                count as u64 == m,
                items@.len() == i,
                start + 1 == p,
                p + 8 == base,
                start < base <= pos <= bytes@.len(),
                bytes@.subrange(base as int, pos as int) == enc_value_list(model_list(items@)),
            decreases count - i,
        {
            let (v, p2) = match read_value(bytes, pos) {
                Some(x) => x,
                None => {
                    return None;
                },
            };
            let ghost items0 = items@;
            items.push(v);
            proof {
                lemma_model_list(items@);
                lemma_model_list(items0);
                assert(model_list(items@).drop_last() =~= model_list(items0)) by {
                    assert forall|j: int| 0 <= j < items0.len() implies #[trigger] model_list(
                        items@,
                    )[j] == model_list(items0)[j] by {
                        assert(items@[j] == items0[j]);
                    }
                }
                assert(model_list(items@)[items@.len() - 1] == items@[items@.len() - 1].model());
                assert(bytes@.subrange(base as int, p2 as int) =~= bytes@.subrange(
                    base as int,
                    pos as int,
                ) + bytes@.subrange(pos as int, p2 as int));
                assert(bytes@.subrange(base as int, p2 as int) =~= enc_value_list(
                    model_list(items@),
                ));
            }
            pos = p2;
            i = i + 1;
        }
        let v = FieldValue::Array(items);
        proof {
            lemma_model_list(items@);
            assert(model_list(items@).len() as u64 == m);
            assert(bytes@.subrange(start as int, pos as int) =~= seq![4u8] + le64(m)
                + bytes@.subrange(base as int, pos as int));
            assert(bytes@.subrange(start as int, pos as int) =~= enc_value(v.model()));
        }
        Some((v, pos))
    } else if tag == 5 {
        let (m, base) = match read_le64(bytes, p) {
            Some(x) => x,
            None => {
                return None;
            },
        };
        if m > usize::MAX as u64 {
            return None;
        }
        let count = m as usize;
        let mut items: Vec<(String, FieldValue)> = Vec::new();
        let mut pos: usize = base;
        let mut i: usize = 0;
        proof {
            lemma_model_fields(items@);
            assert(bytes@.subrange(base as int, base as int) =~= enc_named_list(
                model_fields(items@),
            ));
        }
        while i < count
            invariant
                i <= count,
                count as u64 == m,
                items@.len() == i,
                start + 1 == p,
                p + 8 == base,
                start < base <= pos <= bytes@.len(),
                bytes@.subrange(base as int, pos as int) == enc_named_list(
                    model_fields(items@),
                ),
            decreases count - i,
        {
            let (name, p1) = match read_chars(bytes, pos) {
                Some(x) => x,
                None => {
                    return None;
                },
            };
            let (v, p2) = match read_value(bytes, p1) {
                Some(x) => x,
                None => {
                    return None;
                },
            };
            let ghost items0 = items@;
            items.push((name, v));
            proof {
                lemma_model_fields(items@);
                lemma_model_fields(items0);
                assert(model_fields(items@).drop_last() =~= model_fields(items0)) by {
                    assert forall|j: int| 0 <= j < items0.len() implies #[trigger] model_fields(
                        items@,
                    )[j] == model_fields(items0)[j] by {
                        assert(items@[j] == items0[j]);
                    }
                }
                assert(model_fields(items@)[items@.len() - 1] == (items@[items@.len()
                    - 1].0@, items@[items@.len() - 1].1.model()));
                assert(bytes@.subrange(base as int, p2 as int) =~= bytes@.subrange(
                    base as int,
                    pos as int,
                ) + bytes@.subrange(pos as int, p1 as int) + bytes@.subrange(
                    p1 as int,
                    p2 as int,
                ));
                assert(bytes@.subrange(base as int, p2 as int) =~= enc_named_list(
                    model_fields(items@),
                ));
            }
            pos = p2;
            i = i + 1;
        }
        let v = FieldValue::Object(items);
        proof {
            lemma_model_fields(items@);
            assert(model_fields(items@).len() as u64 == m);
            assert(bytes@.subrange(start as int, pos as int) =~= seq![5u8] + le64(m)
                + bytes@.subrange(base as int, pos as int));
            assert(bytes@.subrange(start as int, pos as int) =~= enc_value(v.model()));
        }
        Some((v, pos))
    } else {
        None
    }
}

/// The concatenated encodings of a document list.
pub open spec fn docs_list_bytes(docs: Seq<Document>) -> Seq<u8>
    decreases docs.len(),
{
    if docs.len() == 0 {
        Seq::empty()
    } else {
        docs_list_bytes(docs.drop_last()) + enc_document(
            docs.last().id@,
            docs.last().fields_model(),
        )
    }
}

/// Read one document.
pub fn decode_document(bytes: &Vec<u8>, start: usize) -> (r: Option<(Document, usize)>)
    ensures
        r matches Some(p) ==> (start < p.1 <= bytes@.len() && bytes@.subrange(
            start as int,
            p.1 as int,
        ) == enc_document(p.0.id@, p.0.fields_model())),
{
    let (id_s, p1) = match read_chars(bytes, start) {
        Some(x) => x,
        None => {
            return None;
        },
    };
    let (nf, base) = match read_le64(bytes, p1) {
        Some(x) => x,
        None => {
            return None;
        },
    };
    if nf > usize::MAX as u64 {
        return None;
    }
    let count = nf as usize;
    let mut fields: Vec<(String, FieldValue)> = Vec::new();
    let mut pos: usize = base;
    let mut i: usize = 0;
    proof {
        lemma_model_fields(fields@);
        assert(bytes@.subrange(base as int, base as int) =~= enc_named_list(
            model_fields(fields@),
        ));
    }
    while i < count
        invariant
            i <= count,
            count as u64 == nf,
            fields@.len() == i,
            start + 8 <= p1,
            p1 + 8 == base,
            start < base <= pos <= bytes@.len(),
            bytes@.subrange(start as int, p1 as int) == enc_chars(id_s@),
            bytes@.subrange(p1 as int, base as int) == le64(nf),
            bytes@.subrange(base as int, pos as int) == enc_named_list(model_fields(fields@)),
        decreases count - i,
    {
        let (name, q1) = match read_chars(bytes, pos) {
            Some(x) => x,
            None => {
                return None;
            },
        };
        let (v, q2) = match read_value(bytes, q1) {
            Some(x) => x,
            None => {
                return None;
            },
        };
        let ghost fields0 = fields@;
        fields.push((name, v));
        proof {
            lemma_model_fields(fields@);
            lemma_model_fields(fields0);
            assert(model_fields(fields@).drop_last() =~= model_fields(fields0)) by {
                assert forall|j: int| 0 <= j < fields0.len() implies #[trigger] model_fields(
                    fields@,
                )[j] == model_fields(fields0)[j] by {
                    assert(fields@[j] == fields0[j]);
                }
            }
            assert(model_fields(fields@)[fields@.len() - 1] == (fields@[fields@.len()
                - 1].0@, fields@[fields@.len() - 1].1.model()));
            assert(bytes@.subrange(base as int, q2 as int) =~= bytes@.subrange(
                base as int,
                pos as int,
            ) + bytes@.subrange(pos as int, q1 as int) + bytes@.subrange(q1 as int, q2 as int));
            assert(bytes@.subrange(base as int, q2 as int) =~= enc_named_list(
                model_fields(fields@),
            ));
        }
        pos = q2;
        i = i + 1;
    }
    let d = Document { id: id_s, fields };
    proof {
        lemma_model_fields(d.fields@);
        assert(model_fields(d.fields@) =~= d.fields_model());
        assert(d.fields_model().len() as u64 == nf);
        assert(bytes@.subrange(start as int, pos as int) =~= bytes@.subrange(
            start as int,
            p1 as int,
        ) + bytes@.subrange(p1 as int, base as int) + bytes@.subrange(base as int, pos as int));
        assert(bytes@.subrange(start as int, pos as int) =~= enc_document(
            d.id@,
            d.fields_model(),
        ));
    }
    Some((d, pos))
}

/// Read a whole snapshot: the document count, the configured field
/// names, and that many documents, consuming every byte.  Whatever it
/// returns re-encodes to exactly the input, so a decoded snapshot is a
/// faithful reading of what a commit wrote.
pub fn decode_snapshot(bytes: &Vec<u8>) -> (r: Option<(Vec<String>, Vec<Document>)>)
    ensures
        r matches Some(p) ==> bytes@ == le64(p.1@.len() as u64) + le64(p.0@.len() as u64)
            + crate::index::Index::cfg_bytes(p.0.deep_view()) + docs_list_bytes(p.1@),
{
    let (dc, p1) = match read_le64(bytes, 0) {
        Some(x) => x,
        None => {
            return None;
        },
    };
    let (cc, p2) = match read_le64(bytes, p1) {
        Some(x) => x,
        None => {
            return None;
        },
    };
    if dc > usize::MAX as u64 || cc > usize::MAX as u64 {
        return None;
    }
    let doc_count = dc as usize;
    let cfg_count = cc as usize;
    let mut cfg: Vec<String> = Vec::new();
    let mut pos: usize = p2;
    let mut i: usize = 0;
    proof {
        assert(cfg.deep_view() =~= Seq::<Seq<char>>::empty());
        assert(bytes@.subrange(p2 as int, p2 as int) =~= crate::index::Index::cfg_bytes(
            cfg.deep_view(),
        ));
    }
    while i < cfg_count
        invariant
            i <= cfg_count,
            cfg_count as u64 == cc,
            cfg@.len() == i,
            p1 == 8,
            p2 == 16,
            p2 <= pos <= bytes@.len(),
            bytes@.subrange(0, p1 as int) == le64(dc),
            bytes@.subrange(p1 as int, p2 as int) == le64(cc),
            bytes@.subrange(p2 as int, pos as int) == crate::index::Index::cfg_bytes(
                cfg.deep_view(),
            ),
        decreases cfg_count - i,
    {
        let (name, q) = match read_chars(bytes, pos) {
            Some(x) => x,
            None => {
                return None;
            },
        };
        let ghost cfg0 = cfg.deep_view();
        cfg.push(name);
        proof {
            assert(cfg.deep_view().drop_last() =~= cfg0);
            assert(cfg.deep_view().last() == name@);
            assert(bytes@.subrange(p2 as int, q as int) =~= bytes@.subrange(
                p2 as int,
                pos as int,
            ) + bytes@.subrange(pos as int, q as int));
            assert(bytes@.subrange(p2 as int, q as int) =~= crate::index::Index::cfg_bytes(
                cfg.deep_view(),
            ));
        }
        pos = q;
        i = i + 1;
    }
    let ghost cfg_end = pos as int;
    let mut docs: Vec<Document> = Vec::new();
    let mut d: usize = 0;
    proof {
        assert(bytes@.subrange(cfg_end, cfg_end) =~= docs_list_bytes(docs@));
    }
    while d < doc_count
        invariant
            d <= doc_count,
            doc_count as u64 == dc,
            docs@.len() == d,
            p1 == 8,
            p2 == 16,
            16 <= cfg_end <= pos <= bytes@.len(),
            bytes@.subrange(0, p1 as int) == le64(dc),
            bytes@.subrange(p1 as int, p2 as int) == le64(cc),
            cfg@.len() as u64 == cc,
            bytes@.subrange(p2 as int, cfg_end) == crate::index::Index::cfg_bytes(
                cfg.deep_view(),
            ),
            bytes@.subrange(cfg_end, pos as int) == docs_list_bytes(docs@),
        decreases doc_count - d,
    {
        let (doc, q) = match decode_document(bytes, pos) {
            Some(x) => x,
            None => {
                return None;
            },
        };
        let ghost docs0 = docs@;
        docs.push(doc);
        proof {
            assert(docs@.drop_last() =~= docs0);
            assert(bytes@.subrange(cfg_end, q as int) =~= bytes@.subrange(cfg_end, pos as int)
                + bytes@.subrange(pos as int, q as int));
            assert(bytes@.subrange(cfg_end, q as int) =~= docs_list_bytes(docs@));
        }
        pos = q;
        d = d + 1;
    }
    if pos != bytes.len() {
        return None;
    }
    proof {
        assert(docs@.len() as u64 == dc);
        assert(bytes@.subrange(0, bytes@.len() as int) =~= bytes@);
        assert(bytes@ =~= bytes@.subrange(0, 8) + bytes@.subrange(8, 16) + bytes@.subrange(
            16,
            cfg_end,
        ) + bytes@.subrange(cfg_end, pos as int));
    }
    Some((cfg, docs))
}

} // verus!
