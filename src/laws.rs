//! What holds across the codec's functions: decoding inverts encoding, a
//! repeated name becomes a pointer, pointer chains resolve or fail within
//! the jump bound, and the cursor lands right after a leading pointer.
use vstd::prelude::*;
use vstd::utf8::*;

use crate::error::DnsError;
use crate::header::{
    be16, be32, header_at, header_bytes, header_fields_fit, header_from, u16_bytes, u32_bytes,
    DnsHeader,
};
use crate::message::{
    class_at, class_code, counts_match, encode_message, message_ok, parse_message, payload_wire,
    put_question, put_questions, put_record, put_records, question_at, questions_at, rdata_items,
    rdata_size, rdata_wire, record_at, record_ok, records_at, type_at, type_code, rooted_message,
    rooted_question, rooted_questions, rooted_record, rooted_records, DnsRData,
    DnsType, PacketView, QuestionView, RecordView,
};
use crate::name::{
    enc_state, find_name, join_labels, label_seq_at, labels_ok, labels_wire, name_at, name_ok,
    pointer_bytes, pointer_target, put_name, read_labels, resolve_labels, resolve_view,
    split_dots, split_fold, lemma_prefix_trans, lemma_put_name_extends, name_labels, with_root,
    EncodeState, LabelSeqView, DOT, MAX_JUMPS, POINTER_LIMIT,
};

verus! {

/// A table entry that still decodes: its offset can be pointed at, and the
/// bytes there are the name's labels in full.
pub open spec fn entry_ok(b: Seq<u8>, e: (Seq<char>, u16)) -> bool {
    &&& e.1 < POINTER_LIMIT
    &&& name_ok(e.0)
    &&& read_labels(b, e.1 as int) is Ok
    &&& read_labels(b, e.1 as int)->Ok_0.0 == name_labels(encode_utf8(e.0))
}

/// Every entry of the encoder's table decodes in the bytes written so far.
#[verifier::opaque]
pub open spec fn table_ok(st: EncodeState) -> bool {
    forall|i: int| 0 <= i < st.names.len() ==> entry_ok(st.bytes, #[trigger] st.names[i])
}

proof fn lemma_join_split(t: Seq<u8>)
    ensures
        join_labels(split_dots(t)) == t,
    decreases t.len(),
{
    let (d, c) = split_fold(t);
    if t.len() == 0 {
        assert(split_dots(t) =~= seq![Seq::<u8>::empty()]);
    } else {
        let t0 = t.drop_last();
        lemma_join_split(t0);
        let (d0, c0) = split_fold(t0);
        let ls = d.push(c);
        assert(ls.drop_last() =~= d);
        if t.last() == DOT {
            assert(d.drop_last() =~= d0);
            assert(d =~= d0.push(c0));
            assert(join_labels(ls) == join_labels(d) + seq![DOT] + c);
            assert(t =~= t0 + seq![DOT]);
        } else {
            let ls0 = d0.push(c0);
            assert(ls0.drop_last() =~= d0);
            if d0.len() == 0 {
                assert(t =~= t0.push(t.last()));
            } else {
                assert(join_labels(ls0) == join_labels(d0) + seq![DOT] + c0);
                assert(t =~= t0.push(t.last()));
                assert(join_labels(ls) =~= join_labels(d0) + seq![DOT] + c0.push(t.last()));
            }
        }
    }
}

proof fn lemma_encode_concat(a: Seq<char>, b: Seq<char>)
    ensures
        encode_utf8(a + b) == encode_utf8(a) + encode_utf8(b),
    decreases a.len(),
{
    if a.len() == 0 {
        assert(a + b =~= b);
        assert(encode_utf8(a) + encode_utf8(b) =~= encode_utf8(b));
    } else {
        assert((a + b).drop_first() =~= a.drop_first() + b);
        assert((a + b)[0] == a[0]);
        lemma_encode_concat(a.drop_first(), b);
        assert(encode_utf8(a + b) =~= encode_utf8(a) + encode_utf8(b));
    }
}

proof fn lemma_encode_one(c: char)
    ensures
        encode_utf8(seq![c]) == encode_scalar(c as u32),
{
    assert(seq![c].drop_first() =~= Seq::<char>::empty());
    assert(encode_utf8(Seq::<char>::empty()) =~= Seq::<u8>::empty());
    assert(encode_utf8(seq![c]) =~= encode_scalar(c as u32) + encode_utf8(Seq::<char>::empty()));
    assert(encode_utf8(seq![c]) =~= encode_scalar(c as u32));
}

proof fn lemma_dot_char()
    ensures
        '.' as u32 == 46,
        (46u32 as char) == '.',
        encode_utf8(seq!['.']) == seq![DOT],
{
    lemma_encode_one('.');
    char_u32_cast('.', 46);
    assert((46u32 & 0x7F) as u8 == 46u8) by (bit_vector);
    assert(encode_scalar(46) =~= seq![DOT]);
}

/// The last byte of a non-empty name's encoding is a dot exactly when its
/// last character is.
proof fn lemma_last_byte(n: Seq<char>)
    requires
        n.len() > 0,
    ensures
        encode_utf8(n).len() > 0,
        (encode_utf8(n).last() == DOT) == (n.last() == '.'),
{
    let c = n.last();
    let v = c as u32;
    assert(n =~= n.drop_last() + seq![c]);
    lemma_encode_concat(n.drop_last(), seq![c]);
    lemma_encode_one(c);
    lemma_dot_char();
    char_is_scalar(c);
    char_u32_cast(c, v);
    let e = encode_scalar(v);
    assert(encode_utf8(n).last() == e.last());
    if has_width_1_encoding(v) {
        assert(((v & 0x7F) as u8 == 46u8) == (v == 46u32)) by (bit_vector)
            requires
                v <= 0x7F,
        ;
    } else {
        assert((0x80u8 | (v & 0x3F) as u8) != 46u8) by (bit_vector);
        assert(v != 46);
    }
}

proof fn lemma_split_last(t: Seq<u8>)
    ensures
        (split_dots(t).last().len() == 0) == (t.len() == 0 || t.last() == DOT),
        split_dots(t).len() >= 1,
{
}

proof fn lemma_text(n: Seq<char>)
    ensures
        valid_utf8(join_labels(name_labels(encode_utf8(n)))),
        decode_utf8(join_labels(name_labels(encode_utf8(n)))) == with_root(n),
{
    let t = encode_utf8(n);
    lemma_join_split(t);
    lemma_split_last(t);
    encode_utf8_valid_utf8(n);
    encode_utf8_decode_utf8(n);
    if n.len() > 0 {
        lemma_last_byte(n);
    } else {
        assert(t =~= Seq::<u8>::empty());
    }
    let sp = split_dots(t);
    if sp.last().len() != 0 {
        let ls = sp.push(Seq::<u8>::empty());
        assert(ls.drop_last() =~= sp);
        assert(join_labels(ls) =~= t + seq![DOT]);
        lemma_dot_char();
        lemma_encode_concat(n, seq!['.']);
        assert(n + seq!['.'] =~= n.push('.'));
        encode_utf8_valid_utf8(n.push('.'));
        encode_utf8_decode_utf8(n.push('.'));
    }
}

proof fn lemma_wire_front(ls: Seq<Seq<u8>>)
    requires
        ls.len() >= 1,
    ensures
        labels_wire(ls) == seq![ls[0].len() as u8] + ls[0] + labels_wire(ls.drop_first()),
    decreases ls.len(),
{
    if ls.len() == 1 {
        assert(ls.drop_last() =~= Seq::<Seq<u8>>::empty());
        assert(ls.drop_first() =~= Seq::<Seq<u8>>::empty());
        assert(labels_wire(Seq::<Seq<u8>>::empty()) =~= Seq::<u8>::empty());
        assert(labels_wire(ls) == labels_wire(ls.drop_last()) + seq![ls.last().len() as u8]
            + ls.last());
        assert(ls.last() == ls[0]);
        assert(labels_wire(ls) =~= seq![ls[0].len() as u8] + ls[0]);
    } else {
        lemma_wire_front(ls.drop_last());
        assert(ls.drop_last().drop_first() =~= ls.drop_first().drop_last());
        assert(ls.drop_first().last() == ls.last());
        assert(labels_wire(ls) =~= seq![ls[0].len() as u8] + ls[0] + labels_wire(ls.drop_first()));
    }
}

proof fn lemma_read_wire(b: Seq<u8>, s: int, ls: Seq<Seq<u8>>)
    requires
        labels_ok(ls),
        0 <= s,
        s + labels_wire(ls).len() <= b.len(),
        b.subrange(s, s + labels_wire(ls).len()) == labels_wire(ls),
    ensures
        read_labels(b, s) == Ok::<(Seq<Seq<u8>>, int), DnsError>((ls, s + labels_wire(ls).len())),
    decreases ls.len(),
{
    lemma_wire_front(ls);
    let w = labels_wire(ls);
    let k = ls[0].len();
    assert(b[s] == w[0]);
    if ls.len() == 1 {
        assert(ls.drop_first() =~= Seq::<Seq<u8>>::empty());
        assert(ls.last() == ls[0]);
        assert(ls[0] =~= Seq::<u8>::empty());
        assert(ls =~= seq![Seq::<u8>::empty()]);
    } else {
        assert(0 < ls[0].len() < 192);
        let rest = ls.drop_first();
        assert(labels_ok(rest)) by {
            assert forall|i: int| 0 <= i < rest.len() - 1 implies 0 < #[trigger] rest[i].len()
                < 192 by {
                assert(rest[i] == ls[i + 1]);
            }
        }
        assert(b.subrange(s + 1, s + 1 + k) =~= ls[0]) by {
            assert forall|i: int| 0 <= i < k implies b.subrange(s + 1, s + 1 + k)[i] == ls[0][i] by {
                assert(b[s + 1 + i] == w[1 + i]);
            }
        }
        let wr = labels_wire(rest);
        assert(b.subrange(s + 1 + k, s + 1 + k + wr.len()) =~= wr) by {
            assert forall|i: int| 0 <= i < wr.len() implies b.subrange(
                s + 1 + k,
                s + 1 + k + wr.len(),
            )[i] == wr[i] by {
                assert(b[s + 1 + k + i] == w[1 + k + i]);
            }
        }
        lemma_read_wire(b, s + 1 + k, rest);
        assert(seq![ls[0]] + rest =~= ls);
    }
}

proof fn lemma_read_labels_extend(b1: Seq<u8>, b2: Seq<u8>, p: int)
    requires
        b1.is_prefix_of(b2),
        read_labels(b1, p) is Ok,
    ensures
        read_labels(b2, p) == read_labels(b1, p),
    decreases b1.len() - p,
{
    assert(b1[p] == b2[p]);
    if b1[p] != 0 {
        let k = b1[p] as int;
        lemma_read_labels_extend(b1, b2, p + 1 + k);
        assert(b1.subrange(p + 1, p + 1 + k) =~= b2.subrange(p + 1, p + 1 + k)) by {
            assert forall|i: int| 0 <= i < k implies #[trigger] b1.subrange(p + 1, p + 1 + k)[i]
                == b2.subrange(p + 1, p + 1 + k)[i] by {
                assert(b1[p + 1 + i] == b2.subrange(0, b1.len() as int)[p + 1 + i]);
            }
        }
    }
}

proof fn lemma_find_index(names: Seq<(Seq<char>, u16)>, n: Seq<char>) -> (i: int)
    requires
        find_name(names, n) is Some,
    ensures
        0 <= i < names.len(),
        names[i].0 == n,
        names[i].1 == find_name(names, n)->Some_0,
    decreases names.len(),
{
    if names.last().0 == n {
        names.len() - 1
    } else {
        let i = lemma_find_index(names.drop_last(), n);
        assert(names.drop_last()[i] == names[i]);
        i
    }
}

/// Where `a + w` starts `b`, `w` stands in `b` right after `a`.
proof fn lemma_appended(a: Seq<u8>, w: Seq<u8>, b: Seq<u8>)
    requires
        (a + w).is_prefix_of(b),
    ensures
        a.is_prefix_of(b),
        b.subrange(a.len() as int, (a.len() + w.len()) as int) == w,
        forall|i: int| 0 <= i < w.len() ==> b[a.len() + i] == w[i],
{
    assert forall|i: int| 0 <= i < w.len() implies b[a.len() + i] == w[i] by {
        assert((a + w)[a.len() + i] == w[i]);
        assert(b.subrange(0, (a + w).len() as int)[a.len() + i] == b[a.len() + i]);
    }
    assert forall|i: int| 0 <= i < a.len() implies a[i] == b.subrange(0, a.len() as int)[i] by {
        assert((a + w)[i] == a[i]);
        assert(b.subrange(0, (a + w).len() as int)[i] == b[i]);
    }
    assert(a =~= b.subrange(0, a.len() as int));
    assert(b.subrange(a.len() as int, (a.len() + w.len()) as int) =~= w);
}

proof fn lemma_pointer_round(off: u16)
    requires
        off < POINTER_LIMIT,
    ensures
        pointer_bytes(off)[0] >= 192,
        pointer_target(pointer_bytes(off)[0], pointer_bytes(off)[1]) == off,
{
}

/// Decoding at the start of a name that `put_name` wrote gives the name back,
/// and the position after what was written.
proof fn lemma_put_name_decodes(st: EncodeState, n: Seq<char>, b: Seq<u8>)
    requires
        table_ok(st),
        put_name(st, n) is Ok,
        put_name(st, n)->Ok_0.bytes.is_prefix_of(b),
    ensures
        name_at(b, st.bytes.len() as int) == Ok::<(Seq<char>, int), DnsError>(
            (with_root(n), put_name(st, n)->Ok_0.bytes.len() as int),
        ),
{
    reveal(table_ok);
    let st1 = put_name(st, n)->Ok_0;
    let s = st.bytes.len() as int;
    lemma_text(n);
    let ls = name_labels(encode_utf8(n));
    match find_name(st.names, n) {
        Some(off) => {
            let i = lemma_find_index(st.names, n);
            assert(entry_ok(st.bytes, st.names[i]));
            lemma_appended(st.bytes, pointer_bytes(off), b);
            lemma_pointer_round(off);
            lemma_read_labels_extend(st.bytes, b, off as int);
            assert(label_seq_at(b, s) == Ok::<(LabelSeqView, int), DnsError>(
                (LabelSeqView::Jump(off), s + 2),
            ));
            assert(label_seq_at(b, off as int) == Ok::<(LabelSeqView, int), DnsError>(
                (LabelSeqView::Labels(ls), read_labels(b, off as int)->Ok_0.1),
            ));
            assert(resolve_labels(b, off as int, (MAX_JUMPS - 1) as nat) == Ok::<
                Seq<Seq<u8>>,
                DnsError,
            >(ls));
        },
        None => {
            let w = labels_wire(ls);
            lemma_appended(st.bytes, w, b);
            lemma_read_wire(b, s, ls);
            lemma_wire_front(ls);
            assert(b[s] == w[0]);
        },
    }
}

/// `put_name` only appends, keeps its table's entries decodable, and only
/// adds to the table.
proof fn lemma_put_name_table(st: EncodeState, n: Seq<char>)
    requires
        table_ok(st),
        put_name(st, n) is Ok,
    ensures
        table_ok(put_name(st, n)->Ok_0),
        st.bytes.is_prefix_of(put_name(st, n)->Ok_0.bytes),
        st.names.is_prefix_of(put_name(st, n)->Ok_0.names),
{
    reveal(table_ok);
    let st1 = put_name(st, n)->Ok_0;
    let w = st1.bytes.subrange(st.bytes.len() as int, st1.bytes.len() as int);
    assert(st1.bytes =~= st.bytes + w);
    assert(st.bytes.is_prefix_of(st1.bytes)) by {
        assert(st.bytes =~= st1.bytes.subrange(0, st.bytes.len() as int));
    }
    assert(st.names.is_prefix_of(st1.names)) by {
        assert(st.names =~= st1.names.subrange(0, st.names.len() as int));
    }
    assert forall|i: int| 0 <= i < st1.names.len() implies entry_ok(
        st1.bytes,
        #[trigger] st1.names[i],
    ) by {
        if i < st.names.len() {
            assert(st1.names[i] == st.names[i]);
            assert(entry_ok(st.bytes, st.names[i]));
            lemma_read_labels_extend(st.bytes, st1.bytes, st.names[i].1 as int);
        } else {
            let ls = name_labels(encode_utf8(n));
            assert(st1.bytes =~= st.bytes + labels_wire(ls));
            lemma_appended(st.bytes, labels_wire(ls), st1.bytes);
            lemma_read_wire(st1.bytes, st.bytes.len() as int, ls);
        }
    }
}


proof fn lemma_u16(b: Seq<u8>, p: int, v: u16)
    requires
        0 <= p,
        p + 2 <= b.len(),
        b.subrange(p, p + 2) == u16_bytes(v),
    ensures
        be16(b, p) == v,
{
    assert(b[p] == b.subrange(p, p + 2)[0]);
    assert(b[p + 1] == b.subrange(p, p + 2)[1]);
}

proof fn lemma_u32(b: Seq<u8>, p: int, v: u32)
    requires
        0 <= p,
        p + 4 <= b.len(),
        b.subrange(p, p + 4) == u32_bytes(v),
    ensures
        be32(b, p) == v,
{
    assert(b[p] == b.subrange(p, p + 4)[0]);
    assert(b[p + 1] == b.subrange(p, p + 4)[1]);
    assert(b[p + 2] == b.subrange(p, p + 4)[2]);
    assert(b[p + 3] == b.subrange(p, p + 4)[3]);
}

proof fn lemma_header(b: Seq<u8>, h: DnsHeader)
    requires
        header_fields_fit(h),
        header_bytes(h).is_prefix_of(b),
    ensures
        header_at(b, 0) == Ok::<(DnsHeader, int), DnsError>((h, 12)),
{
    let w = header_bytes(h);
    assert(w.len() == 12);
    assert forall|i: int| 0 <= i < 12 implies b[i] == w[i] by {
        assert(b.subrange(0, 12)[i] == b[i]);
    }
    assert(b.subrange(4, 6) =~= u16_bytes(h.qdcount));
    assert(b.subrange(6, 8) =~= u16_bytes(h.ancount));
    assert(b.subrange(8, 10) =~= u16_bytes(h.nscount));
    assert(b.subrange(10, 12) =~= u16_bytes(h.arcount));
    assert(b.subrange(0, 2) =~= u16_bytes(h.id));
    lemma_u16(b, 0, h.id);
    lemma_u16(b, 4, h.qdcount);
    lemma_u16(b, 6, h.ancount);
    lemma_u16(b, 8, h.nscount);
    lemma_u16(b, 10, h.arcount);
    assert(header_from(b, 0) == h);
}

/// The payload items that `payload_wire` wrote read back in order.
proof fn lemma_payload(b: Seq<u8>, p: int, ds: Seq<DnsRData>)
    requires
        0 <= p,
        p + payload_wire(ds).len() <= b.len(),
        b.subrange(p, p + payload_wire(ds).len()) == payload_wire(ds),
    ensures
        payload_wire(ds).len() == 4 * ds.len(),
        rdata_items(b, p, ds.len(), DnsType::A) == ds,
    decreases ds.len(),
{
    if ds.len() > 0 {
        let d0 = ds.drop_last();
        let w0 = payload_wire(d0);
        let w = payload_wire(ds);
        assert(w =~= w0 + rdata_wire(ds.last()));
        assert(b.subrange(p, p + w0.len()) =~= w0) by {
            assert forall|i: int| 0 <= i < w0.len() implies #[trigger] b.subrange(p, p + w0.len())[i]
                == w0[i] by {
                assert(b.subrange(p, p + w.len())[i] == w[i]);
            }
        }
        lemma_payload(b, p, d0);
        let k = 4 * d0.len() as int;
        let q = p + k;
        assert(b[q] == w[k]);
        assert(b[q + 1] == w[k + 1]);
        assert(b[q + 2] == w[k + 2]);
        assert(b[q + 3] == w[k + 3]);
        assert(rdata_items(b, p, ds.len(), DnsType::A) =~= ds);
    }
}

/// A part `f` that follows `a` at the start of `x` stands at the same place
/// in every `b` that starts with `x`.
proof fn lemma_part(b: Seq<u8>, x: Seq<u8>, a: Seq<u8>, f: Seq<u8>)
    requires
        x.is_prefix_of(b),
        (a + f).is_prefix_of(x),
    ensures
        b.subrange(a.len() as int, (a.len() + f.len()) as int) == f,
{
    lemma_prefix_trans(a + f, x, b);
    lemma_appended(a, f, b);
}

proof fn lemma_table_extend(st: EncodeState, b: Seq<u8>)
    requires
        table_ok(st),
        st.bytes.is_prefix_of(b),
    ensures
        table_ok(enc_state(b, st.names)),
{
    reveal(table_ok);
    assert forall|i: int| 0 <= i < st.names.len() implies entry_ok(b, #[trigger] st.names[i]) by {
        assert(entry_ok(st.bytes, st.names[i]));
        lemma_read_labels_extend(st.bytes, b, st.names[i].1 as int);
    }
}

proof fn lemma_put_question(st: EncodeState, q: QuestionView, b: Seq<u8>)
    requires
        table_ok(st),
        put_question(st, q) is Ok,
        put_question(st, q)->Ok_0.bytes.is_prefix_of(b),
    ensures
        question_at(b, st.bytes.len() as int) == Ok::<(QuestionView, int), DnsError>(
            (rooted_question(q), put_question(st, q)->Ok_0.bytes.len() as int),
        ),
        table_ok(put_question(st, q)->Ok_0),
        st.bytes.is_prefix_of(put_question(st, q)->Ok_0.bytes),
        st.names.is_prefix_of(put_question(st, q)->Ok_0.names),
{
    let s1 = put_name(st, q.name)->Ok_0;
    let st1 = put_question(st, q)->Ok_0;
    let tb = u16_bytes(type_code(q.typ));
    let cb = u16_bytes(class_code(q.class));
    let tail = tb + cb;
    assert(st1.bytes =~= s1.bytes + tail);
    lemma_put_name_table(st, q.name);
    lemma_appended(s1.bytes, tail, st1.bytes);
    lemma_prefix_trans(s1.bytes, st1.bytes, b);
    lemma_put_name_decodes(st, q.name, b);
    lemma_prefix_trans(st.bytes, s1.bytes, st1.bytes);
    lemma_table_extend(s1, st1.bytes);
    let at1 = s1.bytes.len() as int;
    assert((s1.bytes + tb).is_prefix_of(st1.bytes)) by {
        assert(s1.bytes + tb =~= st1.bytes.subrange(0, at1 + 2));
    }
    assert((s1.bytes + tb + cb).is_prefix_of(st1.bytes)) by {
        assert(s1.bytes + tb + cb =~= st1.bytes.subrange(0, at1 + 4));
    }
    lemma_part(b, st1.bytes, s1.bytes, tb);
    lemma_part(b, st1.bytes, s1.bytes + tb, cb);
    lemma_u16(b, at1, type_code(q.typ));
    lemma_u16(b, at1 + 2, class_code(q.class));
    assert(type_at(b, at1) == Ok::<(DnsType, int), DnsError>((q.typ, at1 + 2)));
}

proof fn lemma_put_record(st: EncodeState, r: RecordView, b: Seq<u8>)
    requires
        table_ok(st),
        put_record(st, r) is Ok,
        r.len == r.data.len() * rdata_size(r.typ),
        put_record(st, r)->Ok_0.bytes.is_prefix_of(b),
    ensures
        record_at(b, st.bytes.len() as int) == Ok::<(RecordView, int), DnsError>(
            (rooted_record(r), put_record(st, r)->Ok_0.bytes.len() as int),
        ),
        table_ok(put_record(st, r)->Ok_0),
        st.bytes.is_prefix_of(put_record(st, r)->Ok_0.bytes),
        st.names.is_prefix_of(put_record(st, r)->Ok_0.names),
{
    let s1 = put_name(st, r.name)->Ok_0;
    let st1 = put_record(st, r)->Ok_0;
    let pw = payload_wire(r.data);
    let tb = u16_bytes(type_code(r.typ));
    let cb = u16_bytes(class_code(r.class));
    let ttl = u32_bytes(r.ttl);
    let lb = u16_bytes(r.len);
    let tail = tb + cb + ttl + lb + pw;
    assert(st1.bytes =~= s1.bytes + tail);
    lemma_put_name_table(st, r.name);
    lemma_appended(s1.bytes, tail, st1.bytes);
    lemma_prefix_trans(s1.bytes, st1.bytes, b);
    lemma_put_name_decodes(st, r.name, b);
    lemma_prefix_trans(st.bytes, s1.bytes, st1.bytes);
    lemma_table_extend(s1, st1.bytes);
    let at1 = s1.bytes.len() as int;
    let a1 = s1.bytes + tb;
    let a2 = a1 + cb;
    let a3 = a2 + ttl;
    let a4 = a3 + lb;
    assert(a1.is_prefix_of(st1.bytes)) by {
        assert(a1 =~= st1.bytes.subrange(0, at1 + 2));
    }
    assert(a2.is_prefix_of(st1.bytes)) by {
        assert(a2 =~= st1.bytes.subrange(0, at1 + 4));
    }
    assert(a3.is_prefix_of(st1.bytes)) by {
        assert(a3 =~= st1.bytes.subrange(0, at1 + 8));
    }
    assert(a4.is_prefix_of(st1.bytes)) by {
        assert(a4 =~= st1.bytes.subrange(0, at1 + 10));
    }
    assert((a4 + pw).is_prefix_of(st1.bytes)) by {
        assert(a4 + pw =~= st1.bytes.subrange(0, st1.bytes.len() as int));
    }
    lemma_part(b, st1.bytes, s1.bytes, tb);
    lemma_part(b, st1.bytes, a1, cb);
    lemma_part(b, st1.bytes, a2, ttl);
    lemma_part(b, st1.bytes, a3, lb);
    lemma_part(b, st1.bytes, a4, pw);
    lemma_u16(b, at1, type_code(r.typ));
    lemma_u16(b, at1 + 2, class_code(r.class));
    lemma_u32(b, at1 + 4, r.ttl);
    lemma_u16(b, at1 + 8, r.len);
    lemma_payload(b, at1 + 10, r.data);
    assert(type_at(b, at1) == Ok::<(DnsType, int), DnsError>((r.typ, at1 + 2)));
    assert(r.len as nat / rdata_size(r.typ) == r.data.len());
}

proof fn lemma_put_questions(st: EncodeState, qs: Seq<QuestionView>, b: Seq<u8>)
    requires
        table_ok(st),
        put_questions(st, qs) is Ok,
        put_questions(st, qs)->Ok_0.bytes.is_prefix_of(b),
    ensures
        questions_at(b, st.bytes.len() as int, qs.len()) == Ok::<(Seq<QuestionView>, int), DnsError>(
            (rooted_questions(qs), put_questions(st, qs)->Ok_0.bytes.len() as int),
        ),
        table_ok(put_questions(st, qs)->Ok_0),
        st.bytes.is_prefix_of(put_questions(st, qs)->Ok_0.bytes),
        st.names.is_prefix_of(put_questions(st, qs)->Ok_0.names),
    decreases qs.len(),
{
    if qs.len() == 0 {
        assert(rooted_questions(qs) =~= Seq::<QuestionView>::empty());
        assert(st.bytes =~= st.bytes.subrange(0, st.bytes.len() as int));
        assert(st.names =~= st.names.subrange(0, st.names.len() as int));
    } else {
        let mid = put_questions(st, qs.drop_last())->Ok_0;
        let st1 = put_questions(st, qs)->Ok_0;
        assert(mid.bytes.is_prefix_of(mid.bytes)) by {
            assert(mid.bytes =~= mid.bytes.subrange(0, mid.bytes.len() as int));
        }
        lemma_put_questions(st, qs.drop_last(), mid.bytes);
        lemma_put_question(mid, qs.last(), b);
        lemma_prefix_trans(mid.bytes, st1.bytes, b);
        lemma_put_questions(st, qs.drop_last(), b);
        lemma_prefix_trans(st.bytes, mid.bytes, st1.bytes);
        assert(st.names.is_prefix_of(st1.names)) by {
            assert forall|i: int| 0 <= i < st.names.len() implies st.names[i]
                == #[trigger] st1.names.subrange(0, st.names.len() as int)[i] by {
                assert(st.names[i] == mid.names[i]);
                assert(mid.names[i] == st1.names[i]);
            }
            assert(st.names =~= st1.names.subrange(0, st.names.len() as int));
        }
        assert(rooted_questions(qs.drop_last()).push(rooted_question(qs.last())) =~= rooted_questions(qs));
    }
}

#[verifier::rlimit(40)]
proof fn lemma_put_records(st: EncodeState, rs: Seq<RecordView>, b: Seq<u8>)
    requires
        table_ok(st),
        put_records(st, rs) is Ok,
        forall|i: int| 0 <= i < rs.len() ==> record_ok(#[trigger] rs[i]),
        put_records(st, rs)->Ok_0.bytes.is_prefix_of(b),
    ensures
        records_at(b, st.bytes.len() as int, rs.len()) == Ok::<(Seq<RecordView>, int), DnsError>(
            (rooted_records(rs), put_records(st, rs)->Ok_0.bytes.len() as int),
        ),
        table_ok(put_records(st, rs)->Ok_0),
        st.bytes.is_prefix_of(put_records(st, rs)->Ok_0.bytes),
        st.names.is_prefix_of(put_records(st, rs)->Ok_0.names),
    decreases rs.len(),
{
    if rs.len() == 0 {
        assert(rooted_records(rs) =~= Seq::<RecordView>::empty());
        assert(st.bytes =~= st.bytes.subrange(0, st.bytes.len() as int));
        assert(st.names =~= st.names.subrange(0, st.names.len() as int));
    } else {
        let mid = put_records(st, rs.drop_last())->Ok_0;
        let st1 = put_records(st, rs)->Ok_0;
        assert(record_ok(rs[rs.len() - 1]));
        assert forall|i: int| 0 <= i < rs.drop_last().len() implies record_ok(
            #[trigger] rs.drop_last()[i],
        ) by {
            assert(record_ok(rs[i]));
        }
        assert(mid.bytes.is_prefix_of(mid.bytes)) by {
            assert(mid.bytes =~= mid.bytes.subrange(0, mid.bytes.len() as int));
        }
        lemma_put_records(st, rs.drop_last(), mid.bytes);
        lemma_put_record(mid, rs.last(), b);
        lemma_prefix_trans(mid.bytes, st1.bytes, b);
        lemma_put_records(st, rs.drop_last(), b);
        lemma_prefix_trans(st.bytes, mid.bytes, st1.bytes);
        assert(st.names.is_prefix_of(st1.names)) by {
            assert forall|i: int| 0 <= i < st.names.len() implies st.names[i]
                == #[trigger] st1.names.subrange(0, st.names.len() as int)[i] by {
                assert(st.names[i] == mid.names[i]);
                assert(mid.names[i] == st1.names[i]);
            }
            assert(st.names =~= st1.names.subrange(0, st.names.len() as int));
        }
        assert(rooted_records(rs.drop_last()).push(rooted_record(rs.last())) =~= rooted_records(rs));
    }
}


proof fn lemma_put_questions_ok(st: EncodeState, qs: Seq<QuestionView>)
    requires
        forall|i: int| 0 <= i < qs.len() ==> name_ok(#[trigger] qs[i].name),
    ensures
        put_questions(st, qs) is Ok,
    decreases qs.len(),
{
    if qs.len() > 0 {
        assert(name_ok(qs[qs.len() - 1].name));
        assert forall|i: int| 0 <= i < qs.drop_last().len() implies name_ok(
            #[trigger] qs.drop_last()[i].name,
        ) by {
            assert(name_ok(qs[i].name));
        }
        lemma_put_questions_ok(st, qs.drop_last());
    }
}

proof fn lemma_put_records_ok(st: EncodeState, rs: Seq<RecordView>)
    requires
        forall|i: int| 0 <= i < rs.len() ==> record_ok(#[trigger] rs[i]),
    ensures
        put_records(st, rs) is Ok,
    decreases rs.len(),
{
    if rs.len() > 0 {
        assert(record_ok(rs[rs.len() - 1]));
        assert forall|i: int| 0 <= i < rs.drop_last().len() implies record_ok(
            #[trigger] rs.drop_last()[i],
        ) by {
            assert(record_ok(rs[i]));
        }
        lemma_put_records_ok(st, rs.drop_last());
    }
}

proof fn lemma_prefix_refl(a: Seq<u8>)
    ensures
        a.is_prefix_of(a),
{
    assert(a =~= a.subrange(0, a.len() as int));
}

/// Decoding inverts encoding: a validly constructed message encodes, and
/// decoding its bytes gives the same message back, each name with its
/// trailing dot (a name that has one comes back unchanged).
pub proof fn lemma_round_trip(m: PacketView)
    requires
        message_ok(m),
    ensures
        encode_message(m) is Ok,
        parse_message(encode_message(m)->Ok_0) == Ok::<PacketView, DnsError>(rooted_message(m)),
{
    let st0 = enc_state(header_bytes(m.header), seq![]);
    lemma_put_questions_ok(st0, m.questions);
    let s1 = put_questions(st0, m.questions)->Ok_0;
    lemma_put_records_ok(s1, m.answers);
    let s2 = put_records(s1, m.answers)->Ok_0;
    lemma_put_records_ok(s2, m.authorities);
    let s3 = put_records(s2, m.authorities)->Ok_0;
    lemma_put_records_ok(s3, m.additional);
    let s4 = put_records(s3, m.additional)->Ok_0;
    let b = s4.bytes;
    assert(encode_message(m) == Ok::<Seq<u8>, DnsError>(b));
    lemma_sections_decode(m, st0, s1, s2, s3, s4);
    let at0 = 12int;
    let at1 = s1.bytes.len() as int;
    let at2 = s2.bytes.len() as int;
    let at3 = s3.bytes.len() as int;
    assert(header_at(b, 0) == Ok::<(DnsHeader, int), DnsError>((m.header, at0)));
    assert(questions_at(b, at0, m.header.qdcount as nat) == Ok::<
        (Seq<QuestionView>, int),
        DnsError,
    >((rooted_questions(m.questions), at1)));
    assert(records_at(b, at1, m.header.ancount as nat) == Ok::<(Seq<RecordView>, int), DnsError>(
        (rooted_records(m.answers), at2),
    ));
    assert(records_at(b, at2, m.header.nscount as nat) == Ok::<(Seq<RecordView>, int), DnsError>(
        (rooted_records(m.authorities), at3),
    ));
    assert(records_at(b, at3, m.header.arcount as nat) == Ok::<(Seq<RecordView>, int), DnsError>(
        (rooted_records(m.additional), b.len() as int),
    ));
}

#[verifier::rlimit(100)]
proof fn lemma_sections_decode(
    m: PacketView,
    st0: EncodeState,
    s1: EncodeState,
    s2: EncodeState,
    s3: EncodeState,
    s4: EncodeState,
)
    requires
        message_ok(m),
        st0 == enc_state(header_bytes(m.header), seq![]),
        put_questions(st0, m.questions) == Ok::<EncodeState, DnsError>(s1),
        put_records(s1, m.answers) == Ok::<EncodeState, DnsError>(s2),
        put_records(s2, m.authorities) == Ok::<EncodeState, DnsError>(s3),
        put_records(s3, m.additional) == Ok::<EncodeState, DnsError>(s4),
    ensures
        header_at(s4.bytes, 0) == Ok::<(DnsHeader, int), DnsError>((m.header, 12)),
        questions_at(s4.bytes, 12, m.header.qdcount as nat) == Ok::<
            (Seq<QuestionView>, int),
            DnsError,
        >((rooted_questions(m.questions), s1.bytes.len() as int)),
        records_at(s4.bytes, s1.bytes.len() as int, m.header.ancount as nat) == Ok::<
            (Seq<RecordView>, int),
            DnsError,
        >((rooted_records(m.answers), s2.bytes.len() as int)),
        records_at(s4.bytes, s2.bytes.len() as int, m.header.nscount as nat) == Ok::<
            (Seq<RecordView>, int),
            DnsError,
        >((rooted_records(m.authorities), s3.bytes.len() as int)),
        records_at(s4.bytes, s3.bytes.len() as int, m.header.arcount as nat) == Ok::<
            (Seq<RecordView>, int),
            DnsError,
        >((rooted_records(m.additional), s4.bytes.len() as int)),
{
    lemma_stages(m, st0, s1, s2, s3, s4);
    let b = s4.bytes;
    lemma_decode_q(st0, m.questions, b);
    lemma_decode_r(s1, m.answers, b);
    lemma_decode_r(s2, m.authorities, b);
    lemma_decode_r(s3, m.additional, b);
    lemma_header(b, m.header);
    assert(header_bytes(m.header).len() == 12);
}

proof fn lemma_stages(
    m: PacketView,
    st0: EncodeState,
    s1: EncodeState,
    s2: EncodeState,
    s3: EncodeState,
    s4: EncodeState,
)
    requires
        message_ok(m),
        st0 == enc_state(header_bytes(m.header), seq![]),
        put_questions(st0, m.questions) == Ok::<EncodeState, DnsError>(s1),
        put_records(s1, m.answers) == Ok::<EncodeState, DnsError>(s2),
        put_records(s2, m.authorities) == Ok::<EncodeState, DnsError>(s3),
        put_records(s3, m.additional) == Ok::<EncodeState, DnsError>(s4),
    ensures
        table_ok(st0),
        table_ok(s1),
        table_ok(s2),
        table_ok(s3),
        st0.bytes.is_prefix_of(s4.bytes),
        s1.bytes.is_prefix_of(s4.bytes),
        s2.bytes.is_prefix_of(s4.bytes),
        s3.bytes.is_prefix_of(s4.bytes),
{
    let b = s4.bytes;
    lemma_empty_table_ok(st0);
    lemma_stage_q(st0, m.questions, s1);
    lemma_stage_r(s1, m.answers, s2);
    lemma_stage_r(s2, m.authorities, s3);
    lemma_stage_r(s3, m.additional, s4);
    lemma_prefix_refl(b);
    lemma_prefix_trans(s2.bytes, s3.bytes, b);
    lemma_prefix_trans(s1.bytes, s2.bytes, b);
    lemma_prefix_trans(st0.bytes, s1.bytes, b);
}

proof fn lemma_empty_table_ok(st: EncodeState)
    requires
        st.names.len() == 0,
    ensures
        table_ok(st),
{
    reveal(table_ok);
}

proof fn lemma_stage_q(st: EncodeState, qs: Seq<QuestionView>, st1: EncodeState)
    requires
        table_ok(st),
        put_questions(st, qs) == Ok::<EncodeState, DnsError>(st1),
    ensures
        table_ok(st1),
        st.bytes.is_prefix_of(st1.bytes),
{
    lemma_prefix_refl(st1.bytes);
    lemma_put_questions(st, qs, st1.bytes);
}

proof fn lemma_stage_r(st: EncodeState, rs: Seq<RecordView>, st1: EncodeState)
    requires
        table_ok(st),
        put_records(st, rs) == Ok::<EncodeState, DnsError>(st1),
        forall|i: int| 0 <= i < rs.len() ==> record_ok(#[trigger] rs[i]),
    ensures
        table_ok(st1),
        st.bytes.is_prefix_of(st1.bytes),
{
    lemma_prefix_refl(st1.bytes);
    lemma_put_records(st, rs, st1.bytes);
}

proof fn lemma_decode_q(st: EncodeState, qs: Seq<QuestionView>, b: Seq<u8>)
    requires
        table_ok(st),
        put_questions(st, qs) is Ok,
        put_questions(st, qs)->Ok_0.bytes.is_prefix_of(b),
    ensures
        questions_at(b, st.bytes.len() as int, qs.len()) == Ok::<(Seq<QuestionView>, int), DnsError>(
            (rooted_questions(qs), put_questions(st, qs)->Ok_0.bytes.len() as int),
        ),
{
    lemma_put_questions(st, qs, b);
}

proof fn lemma_decode_r(st: EncodeState, rs: Seq<RecordView>, b: Seq<u8>)
    requires
        table_ok(st),
        put_records(st, rs) is Ok,
        forall|i: int| 0 <= i < rs.len() ==> record_ok(#[trigger] rs[i]),
        put_records(st, rs)->Ok_0.bytes.is_prefix_of(b),
    ensures
        records_at(b, st.bytes.len() as int, rs.len()) == Ok::<(Seq<RecordView>, int), DnsError>(
            (rooted_records(rs), put_records(st, rs)->Ok_0.bytes.len() as int),
        ),
{
    lemma_put_records(st, rs, b);
}

proof fn lemma_find_some(names: Seq<(Seq<char>, u16)>, n: Seq<char>, i: int)
    requires
        0 <= i < names.len(),
        names[i].0 == n,
    ensures
        find_name(names, n) is Some,
    decreases names.len(),
{
    if names.last().0 != n {
        assert(names.drop_last()[i] == names[i]);
        lemma_find_some(names.drop_last(), n, i);
    }
}

proof fn lemma_wire_len(ls: Seq<Seq<u8>>)
    requires
        ls.len() >= 1,
    ensures
        labels_wire(ls).len() >= 1,
{
}

/// Compression: once a non-root name has been written in full where a
/// pointer can reach it, writing it again anywhere later in the same
/// message takes a two-byte pointer, strictly shorter than its full form.
pub proof fn lemma_repeat_name_shorter(st: EncodeState, n: Seq<char>, later: EncodeState)
    requires
        put_name(st, n) is Ok,
        find_name(st.names, n) is None,
        n.len() > 0,
        st.bytes.len() < POINTER_LIMIT,
        put_name(st, n)->Ok_0.names.is_prefix_of(later.names),
    ensures
        put_name(later, n) is Ok,
        put_name(later, n)->Ok_0.bytes.len() == later.bytes.len() + 2,
        put_name(st, n)->Ok_0.bytes.len() > st.bytes.len() + 2,
{
    let st1 = put_name(st, n)->Ok_0;
    let k = st.names.len() as int;
    assert(st1.names[k] == (n, st.bytes.len() as u16));
    assert(later.names[k] == st1.names.subrange(0, st1.names.len() as int)[k]);
    lemma_find_some(later.names, n, k);
    let t = encode_utf8(n);
    lemma_last_byte(n);
    let ls = name_labels(t);
    lemma_join_split(t);
    lemma_split_last(t);
    if ls.len() == 1 {
        assert(ls.last() == ls[0]);
        assert(split_dots(t) == ls);
        assert(false);
    }
    lemma_wire_front(ls);
    lemma_wire_len(ls.drop_first());
}

/// `k` compression pointers lead from `p` to literal labels at `q`.
pub open spec fn pointer_chain(b: Seq<u8>, p: int, k: nat, q: int) -> bool
    decreases k,
{
    if k == 0 {
        p == q && label_seq_at(b, q) is Ok && label_seq_at(b, q)->Ok_0.0 is Labels
    } else {
        &&& label_seq_at(b, p) is Ok
        &&& label_seq_at(b, p)->Ok_0.0 is Jump
        &&& pointer_chain(b, label_seq_at(b, p)->Ok_0.0->Jump_0 as int, (k - 1) as nat, q)
    }
}

proof fn lemma_chain_resolves(b: Seq<u8>, p: int, k: nat, q: int, f: nat)
    requires
        pointer_chain(b, p, k, q),
    ensures
        k <= f ==> resolve_labels(b, p, f) == Ok::<Seq<Seq<u8>>, DnsError>(
            label_seq_at(b, q)->Ok_0.0->Labels_0,
        ),
        k > f ==> resolve_labels(b, p, f) == Err::<Seq<Seq<u8>>, DnsError>(
            DnsError::MalformedName,
        ),
    decreases k,
{
    if k > 0 {
        let t = label_seq_at(b, p)->Ok_0.0->Jump_0 as int;
        if f > 0 {
            lemma_chain_resolves(b, t, (k - 1) as nat, q, (f - 1) as nat);
        }
    }
}

proof fn lemma_chain_end(b: Seq<u8>, p: int, k: nat, q: int)
    requires
        pointer_chain(b, p, k, q),
    ensures
        pointer_chain(b, q, 0, q),
    decreases k,
{
    if k > 0 {
        lemma_chain_end(b, label_seq_at(b, p)->Ok_0.0->Jump_0 as int, (k - 1) as nat, q);
    }
}

/// Pointer chasing terminates: a chain of `k >= 1` pointers ending at
/// literal labels decodes, within the jump bound, to the name written
/// there, with the cursor right after the first pointer; a longer chain is
/// a malformed name.
pub proof fn lemma_pointer_chain(b: Seq<u8>, p: int, k: nat, q: int)
    requires
        pointer_chain(b, p, k, q),
        k >= 1,
    ensures
        k <= MAX_JUMPS ==> name_at(b, p) == match name_at(b, q) {
            Ok((n, _)) => Ok::<(Seq<char>, int), DnsError>((n, p + 2)),
            Err(e) => Err(e),
        },
        k > MAX_JUMPS ==> name_at(b, p) == Err::<(Seq<char>, int), DnsError>(
            DnsError::MalformedName,
        ),
{
    let t = label_seq_at(b, p)->Ok_0.0->Jump_0 as int;
    lemma_chain_resolves(b, t, (k - 1) as nat, q, (MAX_JUMPS - 1) as nat);
    lemma_chain_end(b, p, k, q);
    lemma_chain_resolves(b, q, 0, q, MAX_JUMPS as nat);
    let ls = label_seq_at(b, q)->Ok_0.0->Labels_0;
    assert(resolve_view(b, label_seq_at(b, q)->Ok_0.0, MAX_JUMPS as nat) == Ok::<
        Seq<Seq<u8>>,
        DnsError,
    >(ls));
    assert(resolve_view(b, label_seq_at(b, p)->Ok_0.0, MAX_JUMPS as nat) == resolve_labels(
        b,
        t,
        (MAX_JUMPS - 1) as nat,
    ));
    assert(label_seq_at(b, p)->Ok_0.1 == p + 2);
}

/// Cursor restoration: after a name that starts with a pointer, the cursor
/// stands two bytes past the name's start, however deep the chase went.
pub proof fn lemma_cursor_after_pointer(b: Seq<u8>, p: int)
    requires
        0 <= p < b.len(),
        b[p] >= 192,
        name_at(b, p) is Ok,
    ensures
        name_at(b, p)->Ok_0.1 == p + 2,
{
}


/// The compression table only grows while questions are written, so a name
/// recorded before them is still recorded after them.
pub proof fn lemma_questions_keep_table(st: EncodeState, qs: Seq<QuestionView>)
    requires
        put_questions(st, qs) is Ok,
    ensures
        st.names.is_prefix_of(put_questions(st, qs)->Ok_0.names),
    decreases qs.len(),
{
    if qs.len() == 0 {
        assert(st.names =~= st.names.subrange(0, st.names.len() as int));
    } else {
        let mid = put_questions(st, qs.drop_last())->Ok_0;
        lemma_questions_keep_table(st, qs.drop_last());
        lemma_put_name_extends(mid, qs.last().name);
        lemma_prefix_trans(st.names, mid.names, put_name(mid, qs.last().name)->Ok_0.names);
    }
}

/// The compression table only grows while records are written, so a name
/// recorded before them is still recorded after them.
pub proof fn lemma_records_keep_table(st: EncodeState, rs: Seq<RecordView>)
    requires
        put_records(st, rs) is Ok,
    ensures
        st.names.is_prefix_of(put_records(st, rs)->Ok_0.names),
    decreases rs.len(),
{
    if rs.len() == 0 {
        assert(st.names =~= st.names.subrange(0, st.names.len() as int));
    } else {
        let mid = put_records(st, rs.drop_last())->Ok_0;
        lemma_records_keep_table(st, rs.drop_last());
        lemma_put_name_extends(mid, rs.last().name);
        lemma_prefix_trans(st.names, mid.names, put_name(mid, rs.last().name)->Ok_0.names);
    }
}


/// Questions written with a fresh table after any bytes `prefix` decode
/// back, each name with its trailing dot, and decoding ends right after the
/// last of them.
pub proof fn lemma_questions_round_trip(prefix: Seq<u8>, qs: Seq<QuestionView>)
    requires
        forall|i: int| 0 <= i < qs.len() ==> name_ok(#[trigger] qs[i].name),
    ensures
        put_questions(enc_state(prefix, seq![]), qs) is Ok,
        questions_at(
            put_questions(enc_state(prefix, seq![]), qs)->Ok_0.bytes,
            prefix.len() as int,
            qs.len(),
        ) == Ok::<(Seq<QuestionView>, int), DnsError>(
            (
                rooted_questions(qs),
                put_questions(enc_state(prefix, seq![]), qs)->Ok_0.bytes.len() as int,
            ),
        ),
{
    let st0 = enc_state(prefix, seq![]);
    lemma_empty_table_ok(st0);
    lemma_put_questions_ok(st0, qs);
    lemma_prefix_refl(put_questions(st0, qs)->Ok_0.bytes);
    lemma_put_questions(st0, qs, put_questions(st0, qs)->Ok_0.bytes);
}

/// Records written with a fresh table after any bytes `prefix` decode back,
/// each name with its trailing dot, and decoding ends right after the last
/// of them.
pub proof fn lemma_records_round_trip(prefix: Seq<u8>, rs: Seq<RecordView>)
    requires
        forall|i: int| 0 <= i < rs.len() ==> record_ok(#[trigger] rs[i]),
    ensures
        put_records(enc_state(prefix, seq![]), rs) is Ok,
        records_at(
            put_records(enc_state(prefix, seq![]), rs)->Ok_0.bytes,
            prefix.len() as int,
            rs.len(),
        ) == Ok::<(Seq<RecordView>, int), DnsError>(
            (
                rooted_records(rs),
                put_records(enc_state(prefix, seq![]), rs)->Ok_0.bytes.len() as int,
            ),
        ),
{
    let st0 = enc_state(prefix, seq![]);
    lemma_empty_table_ok(st0);
    lemma_put_records_ok(st0, rs);
    lemma_prefix_refl(put_records(st0, rs)->Ok_0.bytes);
    lemma_put_records(st0, rs, put_records(st0, rs)->Ok_0.bytes);
}

/// A record whose name the table already holds is written with its name as
/// the two pointer bytes to the recorded offset, and adds nothing to the
/// table.
pub proof fn lemma_repeat_record_name(st: EncodeState, r: RecordView)
    requires
        find_name(st.names, r.name) is Some,
        r.data.len() >= 1,
        r.data.len() * rdata_size(r.typ) <= 0xffff,
    ensures
        put_record(st, r) is Ok,
        put_record(st, r)->Ok_0.names == st.names,
        put_record(st, r)->Ok_0.bytes.subrange(st.bytes.len() as int, st.bytes.len() + 2int)
            == pointer_bytes(find_name(st.names, r.name)->Some_0),
{
    let off = find_name(st.names, r.name)->Some_0;
    let b = put_record(st, r)->Ok_0.bytes;
    assert(b.subrange(st.bytes.len() as int, st.bytes.len() + 2int) =~= pointer_bytes(off)) by {
        assert(b[st.bytes.len() as int] == pointer_bytes(off)[0]);
        assert(b[st.bytes.len() + 1int] == pointer_bytes(off)[1]);
    }
}

} // verus!
