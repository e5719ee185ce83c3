//! Questions, resource records and whole messages: the header, then the
//! question, answer, authority and additional sections, with one
//! compression table shared by every name of the message.
use vstd::prelude::*;

use crate::error::DnsError;
use crate::header::{
    be16, be32, header_at, header_bytes, header_fields_fit, read_u16, read_u32, u16_bytes,
    u32_bytes, write_u16, write_u32, DnsHeader,
};
use crate::name::{
    enc_state, lemma_prefix_trans, lemma_put_name_extends, name_at, name_ok, put_name, qname_read,
    qname_write, with_root, EncodeState, NameTable,
};

verus! {

/// The record type code of an IPv4 address.
pub const TYPE_A: u16 = 1;

/// The class code of the Internet class.
pub const CLASS_IN: u16 = 1;

/// Record types that have a payload variant.
#[derive(Clone, Copy, Debug, PartialEq, Eq, Structural)]
pub enum DnsType {
    A,
}

/// Record classes.
#[derive(Clone, Copy, Debug, PartialEq, Eq, Structural)]
pub enum DnsClass {
    In,
}

/// An IPv4 address as its four octets, most significant first.
#[derive(Clone, Copy, Debug, PartialEq, Eq, Structural)]
pub struct Ipv4Addr {
    pub a: u8,
    pub b: u8,
    pub c: u8,
    pub d: u8,
}

/// A record's type-specific payload.
#[derive(Clone, Copy, Debug, PartialEq, Eq, Structural)]
pub enum DnsRData {
    IP(Ipv4Addr),
}

/// A question: a name, a type and a class.
#[derive(Debug)]
pub struct DnsQuestion {
    pub name: String,
    pub typ: DnsType,
    pub class: DnsClass,
}

/// A resource record.
#[derive(Debug)]
pub struct DnsRecord {
    pub name: String,
    pub typ: DnsType,
    pub class: DnsClass,
    pub ttl: u32,
    /// The declared payload length; encoding writes the payload's actual
    /// length instead.
    pub len: u16,
    pub data: Vec<DnsRData>,
}

/// A whole message: the header and four sections.
#[derive(Debug)]
pub struct DnsPacket {
    pub header: DnsHeader,
    pub questions: Vec<DnsQuestion>,
    pub answers: Vec<DnsRecord>,
    pub authorities: Vec<DnsRecord>,
    pub additional: Vec<DnsRecord>,
}

pub struct QuestionView {
    pub name: Seq<char>,
    pub typ: DnsType,
    pub class: DnsClass,
}

pub struct RecordView {
    pub name: Seq<char>,
    pub typ: DnsType,
    pub class: DnsClass,
    pub ttl: u32,
    pub len: u16,
    pub data: Seq<DnsRData>,
}

pub struct PacketView {
    pub header: DnsHeader,
    pub questions: Seq<QuestionView>,
    pub answers: Seq<RecordView>,
    pub authorities: Seq<RecordView>,
    pub additional: Seq<RecordView>,
}

impl View for DnsQuestion {
    type V = QuestionView;

    open spec fn view(&self) -> QuestionView {
        QuestionView { name: self.name@, typ: self.typ, class: self.class }
    }
}

impl View for DnsRecord {
    type V = RecordView;

    open spec fn view(&self) -> RecordView {
        RecordView {
            name: self.name@,
            typ: self.typ,
            class: self.class,
            ttl: self.ttl,
            len: self.len,
            data: self.data@,
        }
    }
}

pub open spec fn questions_view(qs: Seq<DnsQuestion>) -> Seq<QuestionView> {
    qs.map_values(|q: DnsQuestion| q@)
}

pub open spec fn records_view(rs: Seq<DnsRecord>) -> Seq<RecordView> {
    rs.map_values(|r: DnsRecord| r@)
}

impl View for DnsPacket {
    type V = PacketView;

    open spec fn view(&self) -> PacketView {
        PacketView {
            header: self.header,
            questions: questions_view(self.questions@),
            answers: records_view(self.answers@),
            authorities: records_view(self.authorities@),
            additional: records_view(self.additional@),
        }
    }
}

pub open spec fn type_code(t: DnsType) -> u16 {
    match t {
        DnsType::A => TYPE_A,
    }
}

pub open spec fn type_of(c: u16) -> Option<DnsType> {
    if c == TYPE_A {
        Some(DnsType::A)
    } else {
        None
    }
}

pub open spec fn class_code(c: DnsClass) -> u16 {
    match c {
        DnsClass::In => CLASS_IN,
    }
}

pub open spec fn class_of(c: u16) -> Option<DnsClass> {
    if c == CLASS_IN {
        Some(DnsClass::In)
    } else {
        None
    }
}

/// Decoding a type code at `p`.
pub open spec fn type_at(b: Seq<u8>, p: int) -> Result<(DnsType, int), DnsError> {
    if p < 0 || p + 2 > b.len() {
        Err(DnsError::TruncatedInput)
    } else {
        match type_of(be16(b, p)) {
            Some(t) => Ok((t, p + 2)),
            None => Err(DnsError::UnsupportedRecordType),
        }
    }
}

/// Decoding a class code at `p`.
pub open spec fn class_at(b: Seq<u8>, p: int) -> Result<(DnsClass, int), DnsError> {
    if p < 0 || p + 2 > b.len() {
        Err(DnsError::TruncatedInput)
    } else {
        match class_of(be16(b, p)) {
            Some(c) => Ok((c, p + 2)),
            None => Err(DnsError::UnsupportedClass),
        }
    }
}

/// Bytes of one payload item of type `t`.
pub open spec fn rdata_size(t: DnsType) -> nat {
    match t {
        DnsType::A => 4,
    }
}

/// The payload item of type `t` at `q`.
pub open spec fn rdata_from(b: Seq<u8>, q: int, t: DnsType) -> DnsRData {
    match t {
        DnsType::A => DnsRData::IP(Ipv4Addr { a: b[q], b: b[q + 1], c: b[q + 2], d: b[q + 3] }),
    }
}

/// The first `n` payload items of type `t` from `q` on.
pub open spec fn rdata_items(b: Seq<u8>, q: int, n: nat, t: DnsType) -> Seq<DnsRData>
    decreases n,
{
    if n == 0 {
        seq![]
    } else {
        rdata_items(b, q, (n - 1) as nat, t).push(
            rdata_from(b, q + (n - 1) * rdata_size(t), t),
        )
    }
}

/// The wire bytes of one payload item.
pub open spec fn rdata_wire(d: DnsRData) -> Seq<u8> {
    match d {
        DnsRData::IP(ip) => seq![ip.a, ip.b, ip.c, ip.d],
    }
}

/// The wire bytes of a payload.
pub open spec fn payload_wire(ds: Seq<DnsRData>) -> Seq<u8>
    decreases ds.len(),
{
    if ds.len() == 0 {
        seq![]
    } else {
        payload_wire(ds.drop_last()) + rdata_wire(ds.last())
    }
}

/// Decoding the question at `p`.
pub open spec fn question_at(b: Seq<u8>, p: int) -> Result<(QuestionView, int), DnsError> {
    match name_at(b, p) {
        Err(e) => Err(e),
        Ok((n, at1)) => match type_at(b, at1) {
            Err(e) => Err(e),
            Ok((t, at2)) => match class_at(b, at2) {
                Err(e) => Err(e),
                Ok((c, at3)) => Ok((QuestionView { name: n, typ: t, class: c }, at3)),
            },
        },
    }
}

/// Decoding the record at `p`: a payload must fill its declared length with
/// at least one item.
pub open spec fn record_at(b: Seq<u8>, p: int) -> Result<(RecordView, int), DnsError> {
    match name_at(b, p) {
        Err(e) => Err(e),
        Ok((n, at1)) => match type_at(b, at1) {
            Err(e) => Err(e),
            Ok((t, at2)) => match class_at(b, at2) {
                Err(e) => Err(e),
                Ok((c, at3)) => if at3 + 6 > b.len() {
                    Err(DnsError::TruncatedInput)
                } else {
                    let len = be16(b, at3 + 4);
                    let at4 = at3 + 6;
                    if at4 + len > b.len() {
                        Err(DnsError::TruncatedInput)
                    } else if len == 0 || len as nat % rdata_size(t) != 0 {
                        Err(DnsError::InconsistentLength)
                    } else {
                        Ok(
                            (
                                RecordView {
                                    name: n,
                                    typ: t,
                                    class: c,
                                    ttl: be32(b, at3),
                                    len,
                                    data: rdata_items(b, at4, len as nat / rdata_size(t), t),
                                },
                                at4 + len,
                            ),
                        )
                    }
                },
            },
        },
    }
}

/// Decoding `n` questions from `p` on.
pub open spec fn questions_at(b: Seq<u8>, p: int, n: nat) -> Result<(Seq<QuestionView>, int), DnsError>
    decreases n,
{
    if n == 0 {
        Ok((seq![], p))
    } else {
        match questions_at(b, p, (n - 1) as nat) {
            Err(e) => Err(e),
            Ok((qs, e)) => match question_at(b, e) {
                Err(x) => Err(x),
                Ok((q, e2)) => Ok((qs.push(q), e2)),
            },
        }
    }
}

/// Decoding `n` records from `p` on.
pub open spec fn records_at(b: Seq<u8>, p: int, n: nat) -> Result<(Seq<RecordView>, int), DnsError>
    decreases n,
{
    if n == 0 {
        Ok((seq![], p))
    } else {
        match records_at(b, p, (n - 1) as nat) {
            Err(e) => Err(e),
            Ok((rs, e)) => match record_at(b, e) {
                Err(x) => Err(x),
                Ok((r, e2)) => Ok((rs.push(r), e2)),
            },
        }
    }
}

/// Decoding a whole message: the header, then as many entries of each
/// section as it declares. Bytes after the last entry are ignored.
pub open spec fn parse_message(b: Seq<u8>) -> Result<PacketView, DnsError> {
    match header_at(b, 0) {
        Err(e) => Err(e),
        Ok((h, at0)) => match questions_at(b, at0, h.qdcount as nat) {
            Err(e) => Err(e),
            Ok((qs, at1)) => match records_at(b, at1, h.ancount as nat) {
                Err(e) => Err(e),
                Ok((an, at2)) => match records_at(b, at2, h.nscount as nat) {
                    Err(e) => Err(e),
                    Ok((ns, at3)) => match records_at(b, at3, h.arcount as nat) {
                        Err(e) => Err(e),
                        Ok((ar, _)) => Ok(
                            PacketView {
                                header: h,
                                questions: qs,
                                answers: an,
                                authorities: ns,
                                additional: ar,
                            },
                        ),
                    },
                },
            },
        },
    }
}

/// Writing a question.
pub open spec fn put_question(st: EncodeState, q: QuestionView) -> Result<EncodeState, DnsError> {
    match put_name(st, q.name) {
        Err(e) => Err(e),
        Ok(s1) => Ok(
            enc_state(
                s1.bytes + u16_bytes(type_code(q.typ)) + u16_bytes(class_code(q.class)),
                s1.names,
            ),
        ),
    }
}

/// Writing a record: the payload must hold at least one item and fit the
/// length field, and the length written is that of the payload.
pub open spec fn put_record(st: EncodeState, r: RecordView) -> Result<EncodeState, DnsError> {
    if r.data.len() == 0 || r.data.len() * rdata_size(r.typ) > 0xffff {
        Err(DnsError::InconsistentLength)
    } else {
        match put_name(st, r.name) {
            Err(e) => Err(e),
            Ok(s1) => Ok(
                enc_state(
                    s1.bytes + u16_bytes(type_code(r.typ)) + u16_bytes(class_code(r.class))
                        + u32_bytes(r.ttl) + u16_bytes((r.data.len() * rdata_size(r.typ)) as u16)
                        + payload_wire(r.data),
                    s1.names,
                ),
            ),
        }
    }
}

/// A written question decodes with its name's trailing dot.
pub open spec fn rooted_question(q: QuestionView) -> QuestionView {
    QuestionView { name: with_root(q.name), typ: q.typ, class: q.class }
}

/// A written record decodes with its name's trailing dot.
pub open spec fn rooted_record(r: RecordView) -> RecordView {
    RecordView {
        name: with_root(r.name),
        typ: r.typ,
        class: r.class,
        ttl: r.ttl,
        len: r.len,
        data: r.data,
    }
}

pub open spec fn rooted_questions(qs: Seq<QuestionView>) -> Seq<QuestionView> {
    qs.map_values(|q: QuestionView| rooted_question(q))
}

pub open spec fn rooted_records(rs: Seq<RecordView>) -> Seq<RecordView> {
    rs.map_values(|r: RecordView| rooted_record(r))
}

/// What decoding gives back for a written message: every name with its
/// trailing dot, all else unchanged.
pub open spec fn rooted_message(m: PacketView) -> PacketView {
    PacketView {
        header: m.header,
        questions: rooted_questions(m.questions),
        answers: rooted_records(m.answers),
        authorities: rooted_records(m.authorities),
        additional: rooted_records(m.additional),
    }
}

pub open spec fn put_questions(st: EncodeState, qs: Seq<QuestionView>) -> Result<EncodeState, DnsError>
    decreases qs.len(),
{
    if qs.len() == 0 {
        Ok(st)
    } else {
        match put_questions(st, qs.drop_last()) {
            Err(e) => Err(e),
            Ok(s1) => put_question(s1, qs.last()),
        }
    }
}

pub open spec fn put_records(st: EncodeState, rs: Seq<RecordView>) -> Result<EncodeState, DnsError>
    decreases rs.len(),
{
    if rs.len() == 0 {
        Ok(st)
    } else {
        match put_records(st, rs.drop_last()) {
            Err(e) => Err(e),
            Ok(s1) => put_record(s1, rs.last()),
        }
    }
}

/// Whether the header's counts are those of the sections.
pub open spec fn counts_match(m: PacketView) -> bool {
    &&& m.header.qdcount == m.questions.len()
    &&& m.header.ancount == m.answers.len()
    &&& m.header.nscount == m.authorities.len()
    &&& m.header.arcount == m.additional.len()
}

/// A record that encodes and decodes back to itself: a writable name, a
/// payload of at least one item that fits the length field, and a declared
/// length equal to the payload's.
pub open spec fn record_ok(r: RecordView) -> bool {
    &&& name_ok(r.name)
    &&& r.data.len() >= 1
    &&& r.data.len() * rdata_size(r.typ) <= 0xffff
    &&& r.len == r.data.len() * rdata_size(r.typ)
}

/// A validly constructed message: counts equal to the sections' lengths,
/// header fields within their widths, writable names and consistent records.
pub open spec fn message_ok(m: PacketView) -> bool {
    &&& counts_match(m)
    &&& header_fields_fit(m.header)
    &&& forall|i: int| 0 <= i < m.questions.len() ==> name_ok(#[trigger] m.questions[i].name)
    &&& forall|i: int| 0 <= i < m.answers.len() ==> record_ok(#[trigger] m.answers[i])
    &&& forall|i: int| 0 <= i < m.authorities.len() ==> record_ok(#[trigger] m.authorities[i])
    &&& forall|i: int| 0 <= i < m.additional.len() ==> record_ok(#[trigger] m.additional[i])
}

/// Encoding a whole message with one fresh compression table.
pub open spec fn encode_message(m: PacketView) -> Result<Seq<u8>, DnsError> {
    if !counts_match(m) {
        Err(DnsError::InconsistentCount)
    } else if !header_fields_fit(m.header) {
        Err(DnsError::FieldOutOfRange)
    } else {
        match put_questions(enc_state(header_bytes(m.header), seq![]), m.questions) {
            Err(e) => Err(e),
            Ok(s1) => match put_records(s1, m.answers) {
                Err(e) => Err(e),
                Ok(s2) => match put_records(s2, m.authorities) {
                    Err(e) => Err(e),
                    Ok(s3) => match put_records(s3, m.additional) {
                        Err(e) => Err(e),
                        Ok(s4) => Ok(s4.bytes),
                    },
                },
            },
        }
    }
}

} // verus!

verus! {

/// Writing a question only appends bytes and only adds to the table.
pub proof fn lemma_put_question_extends(st: EncodeState, q: QuestionView)
    requires
        put_question(st, q) is Ok,
    ensures
        st.bytes.is_prefix_of(put_question(st, q)->Ok_0.bytes),
        st.names.is_prefix_of(put_question(st, q)->Ok_0.names),
{
    let s1 = put_name(st, q.name)->Ok_0;
    let st1 = put_question(st, q)->Ok_0;
    lemma_put_name_extends(st, q.name);
    assert(s1.bytes =~= st1.bytes.subrange(0, s1.bytes.len() as int));
    lemma_prefix_trans(st.bytes, s1.bytes, st1.bytes);
}

/// Writing a record only appends bytes and only adds to the table.
pub proof fn lemma_put_record_extends(st: EncodeState, r: RecordView)
    requires
        put_record(st, r) is Ok,
    ensures
        st.bytes.is_prefix_of(put_record(st, r)->Ok_0.bytes),
        st.names.is_prefix_of(put_record(st, r)->Ok_0.names),
{
    let s1 = put_name(st, r.name)->Ok_0;
    let st1 = put_record(st, r)->Ok_0;
    lemma_put_name_extends(st, r.name);
    assert(s1.bytes =~= st1.bytes.subrange(0, s1.bytes.len() as int));
    lemma_prefix_trans(st.bytes, s1.bytes, st1.bytes);
}

proof fn lemma_questions_at_err(b: Seq<u8>, p: int, i: nat, n: nat)
    requires
        i <= n,
        questions_at(b, p, i) is Err,
    ensures
        questions_at(b, p, n) == questions_at(b, p, i),
    decreases n - i,
{
    if i < n {
        lemma_questions_at_err(b, p, i, (n - 1) as nat);
    }
}

proof fn lemma_records_at_err(b: Seq<u8>, p: int, i: nat, n: nat)
    requires
        i <= n,
        records_at(b, p, i) is Err,
    ensures
        records_at(b, p, n) == records_at(b, p, i),
    decreases n - i,
{
    if i < n {
        lemma_records_at_err(b, p, i, (n - 1) as nat);
    }
}

proof fn lemma_put_questions_err(st: EncodeState, qs: Seq<QuestionView>, i: int)
    requires
        0 <= i <= qs.len(),
        put_questions(st, qs.subrange(0, i)) is Err,
    ensures
        put_questions(st, qs) == put_questions(st, qs.subrange(0, i)),
    decreases qs.len() - i,
{
    if i == qs.len() {
        assert(qs.subrange(0, i) =~= qs);
    } else {
        assert(qs.drop_last().subrange(0, i) =~= qs.subrange(0, i));
        lemma_put_questions_err(st, qs.drop_last(), i);
    }
}

proof fn lemma_put_records_err(st: EncodeState, rs: Seq<RecordView>, i: int)
    requires
        0 <= i <= rs.len(),
        put_records(st, rs.subrange(0, i)) is Err,
    ensures
        put_records(st, rs) == put_records(st, rs.subrange(0, i)),
    decreases rs.len() - i,
{
    if i == rs.len() {
        assert(rs.subrange(0, i) =~= rs);
    } else {
        assert(rs.drop_last().subrange(0, i) =~= rs.subrange(0, i));
        lemma_put_records_err(st, rs.drop_last(), i);
    }
}

impl DnsType {
    /// The type with code `c`, if it is modelled.
    pub fn from_code(c: u16) -> (r: Option<DnsType>)
        ensures
            r == type_of(c),
    {
        if c == TYPE_A {
            Some(DnsType::A)
        } else {
            None
        }
    }

    /// The type's code on the wire.
    pub fn code(&self) -> (r: u16)
        ensures
            r == type_code(*self),
    {
        match self {
            DnsType::A => TYPE_A,
        }
    }

    /// Decodes the type code at `pos`.
    pub fn decode(buf: &[u8], pos: usize) -> (r: Result<(DnsType, usize), DnsError>)
        ensures
            match type_at(buf@, pos as int) {
                Ok((t, e)) => r matches Ok((x, n)) && x == t && n == e,
                Err(e) => r == Err::<(DnsType, usize), DnsError>(e),
            },
    {
        if pos > buf.len() || buf.len() - pos < 2 {
            return Err(DnsError::TruncatedInput);
        }
        match DnsType::from_code(read_u16(buf, pos)) {
            Some(t) => Ok((t, pos + 2)),
            None => Err(DnsError::UnsupportedRecordType),
        }
    }
}

impl DnsClass {
    /// The class with code `c`, if it is modelled.
    pub fn from_code(c: u16) -> (r: Option<DnsClass>)
        ensures
            r == class_of(c),
    {
        if c == CLASS_IN {
            Some(DnsClass::In)
        } else {
            None
        }
    }

    /// The class's code on the wire.
    pub fn code(&self) -> (r: u16)
        ensures
            r == class_code(*self),
    {
        match self {
            DnsClass::In => CLASS_IN,
        }
    }

    /// Decodes the class code at `pos`.
    pub fn decode(buf: &[u8], pos: usize) -> (r: Result<(DnsClass, usize), DnsError>)
        ensures
            match class_at(buf@, pos as int) {
                Ok((c, e)) => r matches Ok((x, n)) && x == c && n == e,
                Err(e) => r == Err::<(DnsClass, usize), DnsError>(e),
            },
    {
        if pos > buf.len() || buf.len() - pos < 2 {
            return Err(DnsError::TruncatedInput);
        }
        match DnsClass::from_code(read_u16(buf, pos)) {
            Some(c) => Ok((c, pos + 2)),
            None => Err(DnsError::UnsupportedClass),
        }
    }

    /// Decodes the class code at the start of `data`.
    pub fn from_bytes(data: &[u8]) -> (r: Result<DnsClass, DnsError>)
        ensures
            match class_at(data@, 0) {
                Ok((c, _)) => r == Ok::<DnsClass, DnsError>(c),
                Err(e) => r == Err::<DnsClass, DnsError>(e),
            },
    {
        match DnsClass::decode(data, 0) {
            Ok((c, _)) => Ok(c),
            Err(e) => Err(e),
        }
    }
}

impl Ipv4Addr {
    /// The address `a.b.c.d`.
    pub fn new(a: u8, b: u8, c: u8, d: u8) -> (r: Ipv4Addr)
        ensures
            r == (Ipv4Addr { a, b, c, d }),
    {
        Ipv4Addr { a, b, c, d }
    }

    /// The four octets, most significant first.
    pub fn octets(&self) -> (r: [u8; 4])
        ensures
            r@ == seq![self.a, self.b, self.c, self.d],
    {
        let r = [self.a, self.b, self.c, self.d];
        assert(r@ =~= seq![self.a, self.b, self.c, self.d]);
        r
    }
}

impl DnsRData {
    /// Decodes the payload item of type `typ` at `pos`, which the caller has
    /// checked to be in bounds.
    pub fn decode(buf: &[u8], pos: usize, typ: DnsType) -> (r: DnsRData)
        requires
            pos + rdata_size(typ) <= buf@.len(),
        ensures
            r == rdata_from(buf@, pos as int, typ),
    {
        match typ {
            DnsType::A => DnsRData::IP(
                Ipv4Addr { a: buf[pos], b: buf[pos + 1], c: buf[pos + 2], d: buf[pos + 3] },
            ),
        }
    }

    /// Appends the item's wire bytes.
    pub fn encode(&self, out: &mut Vec<u8>)
        ensures
            final(out)@ == old(out)@ + rdata_wire(*self),
    {
        match self {
            DnsRData::IP(ip) => {
                out.push(ip.a);
                out.push(ip.b);
                out.push(ip.c);
                out.push(ip.d);
            },
        }
        assert(final(out)@ =~= old(out)@ + rdata_wire(*self));
    }

    /// The record type this item belongs to.
    pub fn typ(&self) -> (r: DnsType)
        ensures
            r == DnsType::A,
    {
        match self {
            DnsRData::IP(_) => DnsType::A,
        }
    }
}

impl DnsQuestion {
    /// Decodes the question at `pos`; returns it and the position after it.
    pub fn decode(buf: &[u8], pos: usize) -> (r: Result<(DnsQuestion, usize), DnsError>)
        ensures
            match question_at(buf@, pos as int) {
                Ok((q, e)) => r matches Ok((x, n)) && x@ == q && n == e,
                Err(e) => r == Err::<(DnsQuestion, usize), DnsError>(e),
            },
    {
        let (name, at1) = match qname_read(buf, pos) {
            Ok(v) => v,
            Err(e) => {
                return Err(e);
            },
        };
        let (typ, at2) = match DnsType::decode(buf, at1) {
            Ok(v) => v,
            Err(e) => {
                return Err(e);
            },
        };
        let (class, at3) = match DnsClass::decode(buf, at2) {
            Ok(v) => v,
            Err(e) => {
                return Err(e);
            },
        };
        Ok((DnsQuestion { name, typ, class }, at3))
    }

    /// Appends the question, compressing its name through `names`.
    pub fn encode(&self, out: &mut Vec<u8>, names: &mut NameTable) -> (r: Result<(), DnsError>)
        ensures
            match put_question(enc_state(old(out)@, old(names)@), self@) {
                Ok(st) => r is Ok && final(out)@ == st.bytes && final(names)@ == st.names,
                Err(e) => r == Err::<(), DnsError>(e) && final(out)@ == old(out)@ && final(names)@
                    == old(names)@,
            },
    {
        match qname_write(out, &self.name, names) {
            Ok(()) => {},
            Err(e) => {
                return Err(e);
            },
        }
        write_u16(out, self.typ.code());
        write_u16(out, self.class.code());
        Ok(())
    }
}

impl DnsRecord {
    /// Decodes the record at `pos`; returns it and the position after it.
    pub fn decode(buf: &[u8], pos: usize) -> (r: Result<(DnsRecord, usize), DnsError>)
        ensures
            match record_at(buf@, pos as int) {
                Ok((v, e)) => r matches Ok((x, n)) && x@ == v && n == e,
                Err(e) => r == Err::<(DnsRecord, usize), DnsError>(e),
            },
    {
        let (name, at1) = match qname_read(buf, pos) {
            Ok(v) => v,
            Err(e) => {
                return Err(e);
            },
        };
        let (typ, at2) = match DnsType::decode(buf, at1) {
            Ok(v) => v,
            Err(e) => {
                return Err(e);
            },
        };
        let (class, at3) = match DnsClass::decode(buf, at2) {
            Ok(v) => v,
            Err(e) => {
                return Err(e);
            },
        };
        if buf.len() - at3 < 6 {
            return Err(DnsError::TruncatedInput);
        }
        let ttl = read_u32(buf, at3);
        let len = read_u16(buf, at3 + 4);
        let at4 = at3 + 6;
        if buf.len() - at4 < len as usize {
            return Err(DnsError::TruncatedInput);
        }
        assert(rdata_size(typ) == 4);
        if len == 0 || len % 4 != 0 {
            return Err(DnsError::InconsistentLength);
        }
        let count = len as usize / 4;
        let blen: usize = buf.len();
        let mut data: Vec<DnsRData> = Vec::new();
        let mut i: usize = 0;
        let mut q: usize = at4;
        while i < count
            invariant
                rdata_size(typ) == 4,
                4 * count == len,
                blen == buf@.len(),
                at4 + len <= blen,
                0 <= i <= count,
                q == at4 + 4 * i,
                data@ == rdata_items(buf@, at4 as int, i as nat, typ),
            decreases count - i,
        {
            let item = DnsRData::decode(buf, q, typ);
            data.push(item);
            assert(q + 4 <= at4 + len);
            q = q + 4;
            i = i + 1;
        }
        Ok((DnsRecord { name, typ, class, ttl, len, data }, at4 + len as usize))
    }

    /// Appends the record, compressing its name through `names`; the length
    /// written is that of the payload.
    pub fn encode(&self, out: &mut Vec<u8>, names: &mut NameTable) -> (r: Result<(), DnsError>)
        ensures
            match put_record(enc_state(old(out)@, old(names)@), self@) {
                Ok(st) => r is Ok && final(out)@ == st.bytes && final(names)@ == st.names,
                Err(e) => r == Err::<(), DnsError>(e) && final(out)@ == old(out)@ && final(names)@
                    == old(names)@,
            },
    {
        let size: usize = match self.typ {
            DnsType::A => 4,
        };
        let n = self.data.len();
        if n == 0 || n > 0xffff / size {
            return Err(DnsError::InconsistentLength);
        }
        match qname_write(out, &self.name, names) {
            Ok(()) => {},
            Err(e) => {
                return Err(e);
            },
        }
        write_u16(out, self.typ.code());
        write_u16(out, self.class.code());
        write_u32(out, self.ttl);
        write_u16(out, (n * size) as u16);
        let ghost before = out@;
        let mut i: usize = 0;
        while i < n
            invariant
                n == self.data@.len(),
                0 <= i <= n,
                out@ == before + payload_wire(self.data@.subrange(0, i as int)),
            decreases n - i,
        {
            let ghost pre = self.data@.subrange(0, i as int + 1);
            assert(pre.drop_last() =~= self.data@.subrange(0, i as int));
            self.data[i].encode(out);
            assert(out@ =~= before + payload_wire(pre));
            i = i + 1;
        }
        assert(self.data@.subrange(0, n as int) =~= self.data@);
        Ok(())
    }
}

} // verus!

verus! {

/// Decodes `count` questions from `pos` on.
pub fn questions_read(buf: &[u8], pos: usize, count: u16) -> (r: Result<
    (Vec<DnsQuestion>, usize),
    DnsError,
>)
    ensures
        match questions_at(buf@, pos as int, count as nat) {
            Ok((qs, e)) => r matches Ok((x, n)) && questions_view(x@) == qs && n == e,
            Err(e) => r == Err::<(Vec<DnsQuestion>, usize), DnsError>(e),
        },
{
    let mut ans: Vec<DnsQuestion> = Vec::new();
    let mut p: usize = pos;
    let mut i: u16 = 0;
    assert(questions_view(ans@) =~= Seq::<QuestionView>::empty());
    while i < count
        invariant
            0 <= i <= count,
            questions_at(buf@, pos as int, i as nat) == Ok::<(Seq<QuestionView>, int), DnsError>(
                (questions_view(ans@), p as int),
            ),
        decreases count - i,
    {
        match DnsQuestion::decode(buf, p) {
            Ok((q, next)) => {
                let ghost pre = questions_view(ans@);
                let ghost qv = q@;
                ans.push(q);
                assert(questions_view(ans@) =~= pre.push(qv));
                p = next;
            },
            Err(e) => {
                proof {
                    lemma_questions_at_err(buf@, pos as int, (i + 1) as nat, count as nat);
                }
                return Err(e);
            },
        }
        i = i + 1;
    }
    Ok((ans, p))
}

/// Decodes `count` records from `pos` on.
pub fn records_read(buf: &[u8], pos: usize, count: u16) -> (r: Result<
    (Vec<DnsRecord>, usize),
    DnsError,
>)
    ensures
        match records_at(buf@, pos as int, count as nat) {
            Ok((rs, e)) => r matches Ok((x, n)) && records_view(x@) == rs && n == e,
            Err(e) => r == Err::<(Vec<DnsRecord>, usize), DnsError>(e),
        },
{
    let mut ans: Vec<DnsRecord> = Vec::new();
    let mut p: usize = pos;
    let mut i: u16 = 0;
    assert(records_view(ans@) =~= Seq::<RecordView>::empty());
    while i < count
        invariant
            0 <= i <= count,
            records_at(buf@, pos as int, i as nat) == Ok::<(Seq<RecordView>, int), DnsError>(
                (records_view(ans@), p as int),
            ),
        decreases count - i,
    {
        match DnsRecord::decode(buf, p) {
            Ok((rec, next)) => {
                let ghost pre = records_view(ans@);
                let ghost rv = rec@;
                ans.push(rec);
                assert(records_view(ans@) =~= pre.push(rv));
                p = next;
            },
            Err(e) => {
                proof {
                    lemma_records_at_err(buf@, pos as int, (i + 1) as nat, count as nat);
                }
                return Err(e);
            },
        }
        i = i + 1;
    }
    Ok((ans, p))
}

/// Appends the questions in order, sharing `names`.
pub fn questions_write(out: &mut Vec<u8>, value: &Vec<DnsQuestion>, names: &mut NameTable) -> (r:
    Result<(), DnsError>)
    ensures
        match put_questions(enc_state(old(out)@, old(names)@), questions_view(value@)) {
            Ok(st) => r is Ok && final(out)@ == st.bytes && final(names)@ == st.names,
            Err(e) => r == Err::<(), DnsError>(e) && final(out)@ == old(out)@ && final(names)@
                == old(names)@,
        },
{
    let ghost st0 = enc_state(out@, names@);
    let ghost qv = questions_view(value@);
    let start = out.len();
    let table_start = names.len();
    let mut i: usize = 0;
    assert(qv.subrange(0, 0) =~= Seq::<QuestionView>::empty());
    while i < value.len()
        invariant
            0 <= i <= value@.len(),
            qv == questions_view(value@),
            st0 == enc_state(old(out)@, old(names)@),
            start == old(out)@.len(),
            table_start == old(names)@.len(),
            old(out)@.is_prefix_of(out@),
            old(names)@.is_prefix_of(names@),
            put_questions(st0, qv.subrange(0, i as int)) == Ok::<EncodeState, DnsError>(
                enc_state(out@, names@),
            ),
        decreases value@.len() - i,
    {
        let ghost pre = qv.subrange(0, i as int + 1);
        assert(pre.drop_last() =~= qv.subrange(0, i as int));
        assert(pre.last() == value@[i as int]@);
        let ghost cur = enc_state(out@, names@);
        match value[i].encode(out, names) {
            Ok(()) => {
                proof {
                    lemma_put_question_extends(cur, value@[i as int]@);
                    lemma_prefix_trans(old(out)@, cur.bytes, out@);
                    lemma_prefix_trans(old(names)@, cur.names, names@);
                }
            },
            Err(e) => {
                proof {
                    assert(put_question(cur, pre.last()) == Err::<EncodeState, DnsError>(e));
                    assert(put_questions(st0, pre) == Err::<EncodeState, DnsError>(e));
                    lemma_put_questions_err(st0, qv, i as int + 1);
                }
                out.truncate(start);
                names.truncate(table_start);
                return Err(e);
            },
        }
        i = i + 1;
    }
    assert(qv.subrange(0, i as int) =~= qv);
    Ok(())
}

/// Appends the records in order, sharing `names`.
pub fn records_write(out: &mut Vec<u8>, value: &Vec<DnsRecord>, names: &mut NameTable) -> (r:
    Result<(), DnsError>)
    ensures
        match put_records(enc_state(old(out)@, old(names)@), records_view(value@)) {
            Ok(st) => r is Ok && final(out)@ == st.bytes && final(names)@ == st.names,
            Err(e) => r == Err::<(), DnsError>(e) && final(out)@ == old(out)@ && final(names)@
                == old(names)@,
        },
{
    let ghost st0 = enc_state(out@, names@);
    let ghost rv = records_view(value@);
    let start = out.len();
    let table_start = names.len();
    let mut i: usize = 0;
    assert(rv.subrange(0, 0) =~= Seq::<RecordView>::empty());
    while i < value.len()
        invariant
            0 <= i <= value@.len(),
            rv == records_view(value@),
            st0 == enc_state(old(out)@, old(names)@),
            start == old(out)@.len(),
            table_start == old(names)@.len(),
            old(out)@.is_prefix_of(out@),
            old(names)@.is_prefix_of(names@),
            put_records(st0, rv.subrange(0, i as int)) == Ok::<EncodeState, DnsError>(
                enc_state(out@, names@),
            ),
        decreases value@.len() - i,
    {
        let ghost pre = rv.subrange(0, i as int + 1);
        assert(pre.drop_last() =~= rv.subrange(0, i as int));
        assert(pre.last() == value@[i as int]@);
        let ghost cur = enc_state(out@, names@);
        match value[i].encode(out, names) {
            Ok(()) => {
                proof {
                    lemma_put_record_extends(cur, value@[i as int]@);
                    lemma_prefix_trans(old(out)@, cur.bytes, out@);
                    lemma_prefix_trans(old(names)@, cur.names, names@);
                }
            },
            Err(e) => {
                proof {
                    assert(put_record(cur, pre.last()) == Err::<EncodeState, DnsError>(e));
                    assert(put_records(st0, pre) == Err::<EncodeState, DnsError>(e));
                    lemma_put_records_err(st0, rv, i as int + 1);
                }
                out.truncate(start);
                names.truncate(table_start);
                return Err(e);
            },
        }
        i = i + 1;
    }
    assert(rv.subrange(0, i as int) =~= rv);
    Ok(())
}

impl DnsPacket {
    /// Decodes a whole message from the start of `buf`: the header, then as
    /// many entries of each section as the header declares. Bytes after the
    /// last entry are ignored.
    pub fn decode(buf: &[u8]) -> (r: Result<DnsPacket, DnsError>)
        ensures
            match parse_message(buf@) {
                Ok(m) => r matches Ok(x) && x@ == m,
                Err(e) => r == Err::<DnsPacket, DnsError>(e),
            },
    {
        let (header, at0) = match DnsHeader::decode(buf, 0) {
            Ok(v) => v,
            Err(e) => {
                return Err(e);
            },
        };
        let (questions, at1) = match questions_read(buf, at0, header.qdcount) {
            Ok(v) => v,
            Err(e) => {
                return Err(e);
            },
        };
        let (answers, at2) = match records_read(buf, at1, header.ancount) {
            Ok(v) => v,
            Err(e) => {
                return Err(e);
            },
        };
        let (authorities, at3) = match records_read(buf, at2, header.nscount) {
            Ok(v) => v,
            Err(e) => {
                return Err(e);
            },
        };
        let (additional, _) = match records_read(buf, at3, header.arcount) {
            Ok(v) => v,
            Err(e) => {
                return Err(e);
            },
        };
        Ok(DnsPacket { header, questions, answers, authorities, additional })
    }

    /// Encodes the whole message with a fresh compression table. Fails when
    /// a header count differs from its section's length, and otherwise as
    /// the header, a name or a record fails.
    pub fn encode(&self) -> (r: Result<Vec<u8>, DnsError>)
        ensures
            match encode_message(self@) {
                Ok(b) => r matches Ok(v) && v@ == b,
                Err(e) => r == Err::<Vec<u8>, DnsError>(e),
            },
    {
        if self.header.qdcount as usize != self.questions.len() || self.header.ancount as usize
            != self.answers.len() || self.header.nscount as usize != self.authorities.len()
            || self.header.arcount as usize != self.additional.len() {
            return Err(DnsError::InconsistentCount);
        }
        let mut out: Vec<u8> = Vec::new();
        match self.header.encode(&mut out) {
            Ok(()) => {},
            Err(e) => {
                return Err(e);
            },
        }
        assert(out@ =~= header_bytes(self.header));
        let mut names = NameTable::new();
        match questions_write(&mut out, &self.questions, &mut names) {
            Ok(()) => {},
            Err(e) => {
                return Err(e);
            },
        }
        match records_write(&mut out, &self.answers, &mut names) {
            Ok(()) => {},
            Err(e) => {
                return Err(e);
            },
        }
        match records_write(&mut out, &self.authorities, &mut names) {
            Ok(()) => {},
            Err(e) => {
                return Err(e);
            },
        }
        match records_write(&mut out, &self.additional, &mut names) {
            Ok(()) => {},
            Err(e) => {
                return Err(e);
            },
        }
        Ok(out)
    }
}

} // verus!
