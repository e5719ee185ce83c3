//! Domain names on the wire. A name is either a run of length-prefixed
//! labels ended by the empty label, or a two-byte pointer (top two bits set,
//! then a 14-bit offset) to a run written earlier in the same message.
//! Decoding follows at most `MAX_JUMPS` pointers; encoding remembers where
//! each name was first written in full and points back to it afterwards.
use vstd::prelude::*;
use vstd::utf8::*;

use crate::error::DnsError;

verus! {

/// Most pointers that decoding one name may follow.
pub const MAX_JUMPS: usize = 32;

/// Offsets from here on cannot be the target of a compression pointer.
pub const POINTER_LIMIT: usize = 0x4000;

/// The byte that separates labels in a dotted name.
pub const DOT: u8 = 46;

/// One length-prefixed segment of a domain name.
#[derive(Debug)]
pub struct Label {
    /// The length byte as read or written.
    pub len: u8,
    /// The label's bytes.
    pub data: Vec<u8>,
}

/// A run of labels, the last of which is the empty terminator.
#[derive(Debug)]
pub struct Labels(pub Vec<Label>);

/// What a name is on the wire: a compression pointer, or literal labels.
#[derive(Debug)]
pub enum LabelSeq {
    Jump(u16),
    Lables(Labels),
}

/// The mathematical value of a `LabelSeq`.
pub enum LabelSeqView {
    Jump(u16),
    Labels(Seq<Seq<u8>>),
}

impl View for Label {
    type V = Seq<u8>;

    open spec fn view(&self) -> Seq<u8> {
        self.data@
    }
}

impl View for Labels {
    type V = Seq<Seq<u8>>;

    open spec fn view(&self) -> Seq<Seq<u8>> {
        self.0@.map_values(|l: Label| l@)
    }
}

impl View for LabelSeq {
    type V = LabelSeqView;

    open spec fn view(&self) -> LabelSeqView {
        match self {
            LabelSeq::Jump(t) => LabelSeqView::Jump(*t),
            LabelSeq::Lables(ls) => LabelSeqView::Labels(ls@),
        }
    }
}

/// The label at `p`: its length byte (below 192) and its bytes, and the
/// position after it.
pub open spec fn label_at(b: Seq<u8>, p: int) -> Result<(Seq<u8>, int), DnsError> {
    if p < 0 || p >= b.len() {
        Err(DnsError::TruncatedInput)
    } else if b[p] >= 192 {
        Err(DnsError::MalformedName)
    } else if p + 1 + b[p] > b.len() {
        Err(DnsError::TruncatedInput)
    } else {
        Ok((b.subrange(p + 1, p + 1 + b[p]), p + 1 + b[p]))
    }
}

/// Labels read from `p` up to and including the empty terminator, and the
/// position after it. A pointer byte among them makes the name malformed.
pub open spec fn read_labels(b: Seq<u8>, p: int) -> Result<(Seq<Seq<u8>>, int), DnsError>
    decreases b.len() - p,
{
    if p < 0 || p >= b.len() {
        Err(DnsError::TruncatedInput)
    } else if b[p] >= 192 {
        Err(DnsError::MalformedName)
    } else if b[p] == 0 {
        Ok((seq![Seq::<u8>::empty()], p + 1))
    } else if p + 1 + b[p] > b.len() {
        Err(DnsError::TruncatedInput)
    } else {
        prepend_label(b.subrange(p + 1, p + 1 + b[p]), read_labels(b, p + 1 + b[p]))
    }
}

pub open spec fn prepend_label(
    l: Seq<u8>,
    r: Result<(Seq<Seq<u8>>, int), DnsError>,
) -> Result<(Seq<Seq<u8>>, int), DnsError> {
    match r {
        Ok((ls, e)) => Ok((seq![l] + ls, e)),
        Err(e) => Err(e),
    }
}

pub open spec fn prepend_labels(
    pre: Seq<Seq<u8>>,
    r: Result<(Seq<Seq<u8>>, int), DnsError>,
) -> Result<(Seq<Seq<u8>>, int), DnsError> {
    match r {
        Ok((ls, e)) => Ok((pre + ls, e)),
        Err(e) => Err(e),
    }
}

/// The offset that the pointer bytes `hi`, `lo` designate.
pub open spec fn pointer_target(hi: u8, lo: u8) -> u16 {
    ((hi - 192) * 256 + lo) as u16
}

/// The two bytes of a pointer to `off`.
pub open spec fn pointer_bytes(off: u16) -> Seq<u8> {
    seq![(192 + off / 256) as u8, (off % 256) as u8]
}

/// What starts at `p`, and the position after it.
pub open spec fn label_seq_at(b: Seq<u8>, p: int) -> Result<(LabelSeqView, int), DnsError> {
    if p < 0 || p >= b.len() {
        Err(DnsError::TruncatedInput)
    } else if b[p] >= 192 {
        if p + 2 > b.len() {
            Err(DnsError::TruncatedInput)
        } else {
            Ok((LabelSeqView::Jump(pointer_target(b[p], b[p + 1])), p + 2))
        }
    } else {
        match read_labels(b, p) {
            Ok((ls, e)) => Ok((LabelSeqView::Labels(ls), e)),
            Err(e) => Err(e),
        }
    }
}

/// The labels that `v` stands for, following at most `jumps` more pointers.
pub open spec fn resolve_view(b: Seq<u8>, v: LabelSeqView, jumps: nat) -> Result<
    Seq<Seq<u8>>,
    DnsError,
>
    decreases jumps, 0nat,
{
    match v {
        LabelSeqView::Labels(ls) => Ok(ls),
        LabelSeqView::Jump(t) => if jumps == 0 {
            Err(DnsError::MalformedName)
        } else {
            resolve_labels(b, t as int, (jumps - 1) as nat)
        },
    }
}

/// The labels of the name at `p`, following at most `jumps` pointers.
pub open spec fn resolve_labels(b: Seq<u8>, p: int, jumps: nat) -> Result<Seq<Seq<u8>>, DnsError>
    decreases jumps, 1nat,
{
    match label_seq_at(b, p) {
        Ok((v, _)) => resolve_view(b, v, jumps),
        Err(e) => Err(e),
    }
}

/// Labels joined by dots.
pub open spec fn join_labels(ls: Seq<Seq<u8>>) -> Seq<u8>
    decreases ls.len(),
{
    if ls.len() == 0 {
        seq![]
    } else if ls.len() == 1 {
        ls[0]
    } else {
        join_labels(ls.drop_last()) + seq![DOT] + ls.last()
    }
}

/// Decoding the name at `p`: its text, and the position right after the
/// name as it stands at `p` (after the pointer, when it starts with one).
pub open spec fn name_at(b: Seq<u8>, p: int) -> Result<(Seq<char>, int), DnsError> {
    match label_seq_at(b, p) {
        Err(e) => Err(e),
        Ok((v, e)) => match resolve_view(b, v, MAX_JUMPS as nat) {
            Err(err) => Err(err),
            Ok(ls) => if valid_utf8(join_labels(ls)) {
                Ok((decode_utf8(join_labels(ls)), e))
            } else {
                Err(DnsError::MalformedName)
            },
        },
    }
}

/// Splitting at dots, from the left: the finished pieces and the open one.
pub open spec fn split_fold(t: Seq<u8>) -> (Seq<Seq<u8>>, Seq<u8>)
    decreases t.len(),
{
    if t.len() == 0 {
        (seq![], seq![])
    } else {
        let (d, c) = split_fold(t.drop_last());
        if t.last() == DOT {
            (d.push(c), seq![])
        } else {
            (d, c.push(t.last()))
        }
    }
}

/// The pieces of `t` between dots (`"a.b."` gives `a`, `b` and an empty one).
pub open spec fn split_dots(t: Seq<u8>) -> Seq<Seq<u8>> {
    split_fold(t).0.push(split_fold(t).1)
}

/// A well-formed label run: non-empty labels below 192 bytes, then the empty
/// terminator.
pub open spec fn labels_ok(ls: Seq<Seq<u8>>) -> bool {
    &&& ls.len() >= 1
    &&& ls.last().len() == 0
    &&& forall|i: int| 0 <= i < ls.len() - 1 ==> 0 < #[trigger] ls[i].len() < 192
}

/// The labels that the dotted text `t` is written as: its pieces between
/// dots, then the empty terminator (which a trailing dot already gives).
pub open spec fn name_labels(t: Seq<u8>) -> Seq<Seq<u8>> {
    if split_dots(t).last().len() == 0 {
        split_dots(t)
    } else {
        split_dots(t).push(Seq::<u8>::empty())
    }
}

/// Whether `name` can be written: its labels between dots are non-empty and
/// below 192 bytes; a trailing dot is optional, and the root is the empty
/// name.
pub open spec fn name_ok(name: Seq<char>) -> bool {
    labels_ok(name_labels(encode_utf8(name)))
}

/// The text that decoding gives back for a written name: the name with a
/// trailing dot, which a non-root name without one gains.
pub open spec fn with_root(name: Seq<char>) -> Seq<char> {
    if name.len() == 0 || name.last() == '.' {
        name
    } else {
        name.push('.')
    }
}

/// The wire bytes of literal labels.
pub open spec fn labels_wire(ls: Seq<Seq<u8>>) -> Seq<u8>
    decreases ls.len(),
{
    if ls.len() == 0 {
        seq![]
    } else {
        labels_wire(ls.drop_last()) + seq![ls.last().len() as u8] + ls.last()
    }
}

/// The wire bytes of `v`.
pub open spec fn label_seq_wire(v: LabelSeqView) -> Seq<u8> {
    match v {
        LabelSeqView::Jump(t) => pointer_bytes(t),
        LabelSeqView::Labels(ls) => labels_wire(ls),
    }
}

/// Whether `v` can be written.
pub open spec fn label_seq_ok(v: LabelSeqView) -> bool {
    match v {
        LabelSeqView::Jump(t) => t < POINTER_LIMIT,
        LabelSeqView::Labels(ls) => labels_ok(ls),
    }
}

/// The encoder's progress through one message: the bytes written so far and
/// the compression table, each name with the offset of its first full copy.
pub struct EncodeState {
    pub bytes: Seq<u8>,
    pub names: Seq<(Seq<char>, u16)>,
}

pub open spec fn enc_state(bytes: Seq<u8>, names: Seq<(Seq<char>, u16)>) -> EncodeState {
    EncodeState { bytes, names }
}

/// The offset that the table holds for `n`.
pub open spec fn find_name(names: Seq<(Seq<char>, u16)>, n: Seq<char>) -> Option<u16>
    decreases names.len(),
{
    if names.len() == 0 {
        None
    } else if names.last().0 == n {
        Some(names.last().1)
    } else {
        find_name(names.drop_last(), n)
    }
}

/// Writing the name `n`: a pointer when the table holds it; otherwise its
/// labels in full and one terminator (with or without a trailing dot in
/// `n`), and the table learns where they start (for a non-root
/// name at an offset that a pointer can reach).
pub open spec fn put_name(st: EncodeState, n: Seq<char>) -> Result<EncodeState, DnsError> {
    match find_name(st.names, n) {
        Some(off) => Ok(enc_state(st.bytes + pointer_bytes(off), st.names)),
        None => if name_ok(n) {
            Ok(
                enc_state(
                    st.bytes + labels_wire(name_labels(encode_utf8(n))),
                    if n.len() > 0 && st.bytes.len() < POINTER_LIMIT {
                        st.names.push((n, st.bytes.len() as u16))
                    } else {
                        st.names
                    },
                ),
            )
        } else {
            Err(DnsError::MalformedName)
        },
    }
}

/// The compression table of one message: each name written in full, with
/// the offset where it starts.
pub struct NameTable {
    entries: Vec<(String, u16)>,
}

impl View for NameTable {
    type V = Seq<(Seq<char>, u16)>;

    closed spec fn view(&self) -> Seq<(Seq<char>, u16)> {
        self.entries@.map_values(|e: (String, u16)| (e.0@, e.1))
    }
}

impl NameTable {
    /// A fresh, empty table.
    pub fn new() -> (r: NameTable)
        ensures
            r@ == Seq::<(Seq<char>, u16)>::empty(),
    {
        let t = NameTable { entries: Vec::new() };
        assert(t@ =~= Seq::<(Seq<char>, u16)>::empty());
        t
    }

    /// The offset recorded for `name`.
    pub fn lookup(&self, name: &String) -> (r: Option<u16>)
        ensures
            r == find_name(self@, name@),
    {
        let mut i: usize = self.entries.len();
        assert(self@.subrange(0, i as int) =~= self@);
        while i > 0
            invariant
                0 <= i <= self.entries@.len(),
                find_name(self@, name@) == find_name(self@.subrange(0, i as int), name@),
            decreases i,
        {
            let ghost pre = self@.subrange(0, i as int);
            assert(pre.drop_last() =~= self@.subrange(0, i as int - 1));
            assert(pre.last() == (self.entries@[i - 1].0@, self.entries@[i - 1].1));
            if self.entries[i - 1].0 == *name {
                return Some(self.entries[i - 1].1);
            }
            i = i - 1;
        }
        None
    }

    /// Number of names recorded.
    pub fn len(&self) -> (r: usize)
        ensures
            r == self@.len(),
    {
        self.entries.len()
    }

    /// Forgets every name recorded after the first `n`.
    pub fn truncate(&mut self, n: usize)
        requires
            n <= old(self)@.len(),
        ensures
            final(self)@ == old(self)@.subrange(0, n as int),
    {
        self.entries.truncate(n);
        assert(final(self)@ =~= old(self)@.subrange(0, n as int));
    }

    fn record(&mut self, name: String, off: u16)
        ensures
            final(self)@ == old(self)@.push((name@, off)),
    {
        self.entries.push((name, off));
        assert(final(self)@ =~= old(self)@.push((name@, off)));
    }
}

/// Being a prefix carries over from `b` to every sequence that `b` starts.
pub proof fn lemma_prefix_trans<A>(a: Seq<A>, b: Seq<A>, c: Seq<A>)
    requires
        a.is_prefix_of(b),
        b.is_prefix_of(c),
    ensures
        a.is_prefix_of(c),
{
    assert forall|i: int| 0 <= i < a.len() implies a[i] == c.subrange(0, a.len() as int)[i] by {
        assert(a[i] == b[i]);
        assert(b[i] == c[i]);
    }
    assert(a =~= c.subrange(0, a.len() as int));
}

/// Writing a name only appends bytes and only adds to the table.
pub proof fn lemma_put_name_extends(st: EncodeState, n: Seq<char>)
    requires
        put_name(st, n) is Ok,
    ensures
        st.bytes.is_prefix_of(put_name(st, n)->Ok_0.bytes),
        st.names.is_prefix_of(put_name(st, n)->Ok_0.names),
{
    let st1 = put_name(st, n)->Ok_0;
    assert(st.bytes =~= st1.bytes.subrange(0, st.bytes.len() as int));
    assert(st.names =~= st1.names.subrange(0, st.names.len() as int));
}

/// Relies on `String::from_utf8`: a string exactly when the bytes are valid
/// UTF-8, and then the characters they encode.
#[verifier::external_body]
fn string_from_utf8(bytes: Vec<u8>) -> (r: Option<String>)
    ensures
        r is Some <==> valid_utf8(bytes@),
        r matches Some(s) ==> s@ == decode_utf8(bytes@),
{
    String::from_utf8(bytes).ok()
}

impl Label {
    /// Decodes the label at the start of `data`; returns it and the number of
    /// bytes it took.
    pub fn from_bytes(data: &[u8]) -> (r: Result<(Label, usize), DnsError>)
        ensures
            match label_at(data@, 0) {
                Ok((l, e)) => r matches Ok((x, n)) && x@ == l && x.len == l.len() && n == e,
                Err(e) => r == Err::<(Label, usize), DnsError>(e),
            },
    {
        read_label(data, 0)
    }
}

/// Reads the label at `pos`.
pub fn read_label(buf: &[u8], pos: usize) -> (r: Result<(Label, usize), DnsError>)
    ensures
        match label_at(buf@, pos as int) {
            Ok((l, e)) => r matches Ok((x, n)) && x@ == l && x.len == l.len() && n == e,
            Err(e) => r == Err::<(Label, usize), DnsError>(e),
        },
{
    if pos >= buf.len() {
        return Err(DnsError::TruncatedInput);
    }
    let n = buf[pos];
    if n >= 192 {
        return Err(DnsError::MalformedName);
    }
    if buf.len() - pos - 1 < n as usize {
        return Err(DnsError::TruncatedInput);
    }
    let end: usize = pos + 1 + n as usize;
    let mut data: Vec<u8> = Vec::new();
    let mut i: usize = pos + 1;
    while i < end
        invariant
            end == pos + 1 + n as usize,
            pos + 1 <= i <= end <= buf@.len(),
            data@ =~= buf@.subrange(pos + 1, i as int),
        decreases end - i,
    {
        data.push(buf[i]);
        i = i + 1;
    }
    Ok((Label { len: n, data }, end))
}

/// Reads literal labels at `pos`, up to and including the terminator.
pub fn read_labels_at(buf: &[u8], pos: usize) -> (r: Result<(Labels, usize), DnsError>)
    ensures
        match read_labels(buf@, pos as int) {
            Ok((ls, e)) => r matches Ok((x, n)) && x@ == ls && n == e,
            Err(e) => r == Err::<(Labels, usize), DnsError>(e),
        },
{
    if pos >= buf.len() {
        return Err(DnsError::TruncatedInput);
    }
    let mut acc: Vec<Label> = Vec::new();
    let mut p: usize = pos;
    assert(acc@.map_values(|l: Label| l@) + Seq::<Seq<u8>>::empty() =~= Seq::<Seq<u8>>::empty());
    loop
        invariant
            pos <= p <= buf@.len(),
            read_labels(buf@, pos as int) == prepend_labels(
                acc@.map_values(|l: Label| l@),
                read_labels(buf@, p as int),
            ),
        decreases buf@.len() - p,
    {
        let ghost pre = acc@.map_values(|l: Label| l@);
        match read_label(buf, p) {
            Err(e) => {
                return Err(e);
            },
            Ok((l, next)) => {
                let empty = l.data.len() == 0;
                let ghost lv = l@;
                acc.push(l);
                assert(acc@.map_values(|l: Label| l@) =~= pre.push(lv));
                if empty {
                    assert(lv =~= Seq::<u8>::empty());
                    assert(pre + seq![lv] =~= pre.push(lv));
                    return Ok((Labels(acc), next));
                }
                proof {
                    match read_labels(buf@, next as int) {
                        Ok((ls, e)) => {
                            assert(pre + (seq![lv] + ls) =~= pre.push(lv) + ls);
                        },
                        Err(e) => {},
                    }
                }
                p = next;
            },
        }
    }
}

/// The dotted text of `ls`.
pub fn join_bytes(ls: &Labels) -> (r: Vec<u8>)
    ensures
        r@ == join_labels(ls@),
{
    let mut out: Vec<u8> = Vec::new();
    let mut i: usize = 0;
    while i < ls.0.len()
        invariant
            0 <= i <= ls.0@.len(),
            out@ == join_labels(ls@.subrange(0, i as int)),
        decreases ls.0@.len() - i,
    {
        let ghost before = out@;
        if i > 0 {
            out.push(DOT);
        }
        let mut j: usize = 0;
        let ghost mid = out@;
        while j < ls.0[i].data.len()
            invariant
                0 <= i < ls.0@.len(),
                0 <= j <= ls.0[i as int].data@.len(),
                out@ =~= mid + ls.0[i as int].data@.subrange(0, j as int),
            decreases ls.0[i as int].data@.len() - j,
        {
            out.push(ls.0[i].data[j]);
            j = j + 1;
        }
        proof {
            let pre = ls@.subrange(0, i as int + 1);
            assert(pre.drop_last() =~= ls@.subrange(0, i as int));
            assert(pre.last() == ls.0@[i as int].data@);
            assert(ls.0[i as int].data@.subrange(0, j as int) =~= pre.last());
            if i == 0 {
                assert(out@ =~= join_labels(pre));
            } else {
                assert(out@ =~= before + seq![DOT] + pre.last());
            }
        }
        i = i + 1;
    }
    assert(ls@.subrange(0, ls.0@.len() as int) =~= ls@);
    out
}

/// Decodes the name at `pos`, following pointers; returns its text and the
/// position after the name as it stands at `pos`.
pub fn qname_read(buf: &[u8], pos: usize) -> (r: Result<(String, usize), DnsError>)
    ensures
        match name_at(buf@, pos as int) {
            Ok((n, e)) => r matches Ok((s, x)) && s@ == n && x == e,
            Err(e) => r == Err::<(String, usize), DnsError>(e),
        },
{
    let (first, end) = match LabelSeq::decode_at(buf, pos) {
        Ok(v) => v,
        Err(e) => {
            return Err(e);
        },
    };
    let ghost v0 = first@;
    let mut cur = first;
    let mut jumps: usize = 0;
    let mut target = cur.jump_target();
    while target.is_some()
        invariant
            jumps <= MAX_JUMPS,
            label_seq_at(buf@, pos as int) == Ok::<(LabelSeqView, int), DnsError>((v0, end as int)),
            resolve_view(buf@, v0, MAX_JUMPS as nat) == resolve_view(
                buf@,
                cur@,
                (MAX_JUMPS - jumps) as nat,
            ),
            target == match cur@ {
                LabelSeqView::Jump(t) => Some(t),
                LabelSeqView::Labels(_) => None::<u16>,
            },
        decreases MAX_JUMPS - jumps,
    {
        if jumps >= MAX_JUMPS {
            return Err(DnsError::MalformedName);
        }
        let t = target.unwrap();
        match LabelSeq::decode_at(buf, t as usize) {
            Ok((next, _)) => {
                cur = next;
            },
            Err(e) => {
                return Err(e);
            },
        }
        jumps = jumps + 1;
        target = cur.jump_target();
    }
    let ls = match cur {
        LabelSeq::Lables(ls) => ls,
        LabelSeq::Jump(_) => {
            return Err(DnsError::MalformedName);
        },
    };
    let text = join_bytes(&ls);
    match string_from_utf8(text) {
        Some(s) => Ok((s, end)),
        None => Err(DnsError::MalformedName),
    }
}

impl Labels {
    /// Whether the run is well formed: non-empty labels below 192 bytes,
    /// then the empty terminator.
    pub fn is_well_formed(&self) -> (r: bool)
        ensures
            r == labels_ok(self@),
    {
        let n = self.0.len();
        if n == 0 {
            return false;
        }
        if self.0[n - 1].data.len() != 0 {
            return false;
        }
        let mut i: usize = 0;
        while i < n - 1
            invariant
                n == self.0@.len(),
                0 <= i <= n - 1,
                forall|k: int| 0 <= k < i ==> 0 < #[trigger] self@[k].len() < 192,
            decreases n - 1 - i,
        {
            let len = self.0[i].data.len();
            if len == 0 || len >= 192 {
                assert(self@[i as int].len() == len);
                return false;
            }
            i = i + 1;
        }
        true
    }

    /// Appends the wire bytes of the labels; fails on a run that is not well
    /// formed.
    pub fn encode(&self, out: &mut Vec<u8>) -> (r: Result<(), DnsError>)
        ensures
            r is Ok <==> labels_ok(self@),
            r is Ok ==> final(out)@ == old(out)@ + labels_wire(self@),
            r is Err ==> r == Err::<(), DnsError>(DnsError::MalformedName) && final(out)@
                == old(out)@,
    {
        if !self.is_well_formed() {
            return Err(DnsError::MalformedName);
        }
        let mut i: usize = 0;
        assert(labels_wire(self@.subrange(0, 0)) =~= Seq::<u8>::empty());
        assert(old(out)@ + Seq::<u8>::empty() =~= old(out)@);
        while i < self.0.len()
            invariant
                0 <= i <= self.0@.len(),
                labels_ok(self@),
                out@ == old(out)@ + labels_wire(self@.subrange(0, i as int)),
            decreases self.0@.len() - i,
        {
            let ghost before = out@;
            let len = self.0[i].data.len();
            assert(len == self@[i as int].len());
            assert(len < 192);
            out.push(len as u8);
            let mut j: usize = 0;
            let ghost mid = out@;
            while j < len
                invariant
                    0 <= i < self.0@.len(),
                    len == self.0[i as int].data@.len(),
                    0 <= j <= len,
                    out@ =~= mid + self.0[i as int].data@.subrange(0, j as int),
                decreases len - j,
            {
                out.push(self.0[i].data[j]);
                j = j + 1;
            }
            proof {
                let pre = self@.subrange(0, i as int + 1);
                assert(pre.drop_last() =~= self@.subrange(0, i as int));
                assert(pre.last() == self.0@[i as int].data@);
                assert(self.0[i as int].data@.subrange(0, j as int) =~= pre.last());
                assert(labels_wire(pre) == labels_wire(pre.drop_last()) + seq![pre.last().len() as u8]
                    + pre.last());
                assert(out@ =~= before + seq![len as u8] + pre.last());
                assert(out@ =~= old(out)@ + labels_wire(pre));
            }
            i = i + 1;
        }
        assert(self@.subrange(0, self.0@.len() as int) =~= self@);
        Ok(())
    }
}

impl LabelSeq {
    /// Whether this is a pointer, and to where.
    pub fn jump_target(&self) -> (r: Option<u16>)
        ensures
            r == match self@ {
                LabelSeqView::Jump(t) => Some(t),
                LabelSeqView::Labels(_) => None::<u16>,
            },
    {
        match self {
            LabelSeq::Jump(t) => Some(*t),
            LabelSeq::Lables(_) => None,
        }
    }

    /// Decodes what starts at `pos`: a pointer or literal labels; returns it
    /// and the position after it.
    pub fn decode_at(buf: &[u8], pos: usize) -> (r: Result<(LabelSeq, usize), DnsError>)
        ensures
            match label_seq_at(buf@, pos as int) {
                Ok((v, e)) => r matches Ok((x, n)) && x@ == v && n == e,
                Err(e) => r == Err::<(LabelSeq, usize), DnsError>(e),
            },
    {
        if pos >= buf.len() {
            return Err(DnsError::TruncatedInput);
        }
        let b = buf[pos];
        if b >= 192 {
            if buf.len() - pos < 2 {
                return Err(DnsError::TruncatedInput);
            }
            let t: u16 = ((b - 192) as u16) * 256 + buf[pos + 1] as u16;
            return Ok((LabelSeq::Jump(t), pos + 2));
        }
        match read_labels_at(buf, pos) {
            Ok((ls, e)) => Ok((LabelSeq::Lables(ls), e)),
            Err(e) => Err(e),
        }
    }

    /// Splits dotted text into labels (`"www.google.com."` and
    /// `"www.google.com"` both give `www`, `google`, `com` and the
    /// terminator); fails on text that is not a well-formed name.
    pub fn parse(s: &str) -> (r: Result<LabelSeq, DnsError>)
        ensures
            labels_ok(name_labels(encode_utf8(s@))) ==> (r matches Ok(x) && x@
                == LabelSeqView::Labels(name_labels(encode_utf8(s@)))),
            !labels_ok(name_labels(encode_utf8(s@))) ==> r == Err::<LabelSeq, DnsError>(
                DnsError::MalformedName,
            ),
    {
        let bytes = s.as_bytes();
        let mut done: Vec<Label> = Vec::new();
        let mut cur: Vec<u8> = Vec::new();
        let mut i: usize = 0;
        assert(bytes@.subrange(0, 0) =~= Seq::<u8>::empty());
        assert(done@.map_values(|l: Label| l@) =~= Seq::<Seq<u8>>::empty());
        while i < bytes.len()
            invariant
                0 <= i <= bytes@.len(),
                bytes@ == encode_utf8(s@),
                (done@.map_values(|l: Label| l@), cur@) == split_fold(bytes@.subrange(0, i as int)),
            decreases bytes@.len() - i,
        {
            let ghost pre = done@.map_values(|l: Label| l@);
            let ghost c = cur@;
            let b = bytes[i];
            assert(bytes@.subrange(0, i as int + 1).drop_last() =~= bytes@.subrange(0, i as int));
            if b == DOT {
                let piece = cur;
                cur = Vec::new();
                let len = piece.len() as u8;
                done.push(Label { len, data: piece });
                assert(done@.map_values(|l: Label| l@) =~= pre.push(c));
                assert(cur@ =~= Seq::<u8>::empty());
            } else {
                cur.push(b);
                assert(done@.map_values(|l: Label| l@) =~= pre);
            }
            i = i + 1;
        }
        assert(bytes@.subrange(0, i as int) =~= bytes@);
        let ghost pre = done@.map_values(|l: Label| l@);
        let ghost c = cur@;
        let open = cur.len() > 0;
        let len = cur.len() as u8;
        done.push(Label { len, data: cur });
        assert(done@.map_values(|l: Label| l@) =~= pre.push(c));
        if open {
            let ghost pre2 = done@.map_values(|l: Label| l@);
            done.push(Label { len: 0, data: Vec::new() });
            assert(done@.map_values(|l: Label| l@) =~= pre2.push(Seq::<u8>::empty()));
        }
        let ls = Labels(done);
        if ls.is_well_formed() {
            Ok(LabelSeq::Lables(ls))
        } else {
            Err(DnsError::MalformedName)
        }
    }

    /// The dotted text of literal labels; a pointer has no text of its own.
    pub fn into_name(self) -> (r: Result<String, DnsError>)
        ensures
            match self@ {
                LabelSeqView::Jump(_) => r == Err::<String, DnsError>(DnsError::MalformedName),
                LabelSeqView::Labels(ls) => if valid_utf8(join_labels(ls)) {
                    r matches Ok(s) && s@ == decode_utf8(join_labels(ls))
                } else {
                    r == Err::<String, DnsError>(DnsError::MalformedName)
                },
            },
    {
        match self {
            LabelSeq::Jump(_) => Err(DnsError::MalformedName),
            LabelSeq::Lables(ls) => match string_from_utf8(join_bytes(&ls)) {
                Some(s) => Ok(s),
                None => Err(DnsError::MalformedName),
            },
        }
    }

    /// Appends the wire bytes; fails on a pointer beyond the pointer range or
    /// on labels that are not well formed.
    pub fn encode(&self, out: &mut Vec<u8>) -> (r: Result<(), DnsError>)
        ensures
            r is Ok <==> label_seq_ok(self@),
            r is Ok ==> final(out)@ == old(out)@ + label_seq_wire(self@),
            r is Err ==> r == Err::<(), DnsError>(DnsError::MalformedName) && final(out)@
                == old(out)@,
    {
        match self {
            LabelSeq::Jump(t) => {
                if *t as usize >= POINTER_LIMIT {
                    return Err(DnsError::MalformedName);
                }
                write_pointer(out, *t);
                Ok(())
            },
            LabelSeq::Lables(ls) => ls.encode(out),
        }
    }

    /// Decodes the sequence at the start of `data`.
    pub fn from_bytes(data: &[u8]) -> (r: Result<LabelSeq, DnsError>)
        ensures
            match label_seq_at(data@, 0) {
                Ok((v, _)) => r matches Ok(x) && x@ == v,
                Err(e) => r == Err::<LabelSeq, DnsError>(e),
            },
    {
        match LabelSeq::decode_at(data, 0) {
            Ok((x, _)) => Ok(x),
            Err(e) => Err(e),
        }
    }
}

} // verus!

verus! {

/// Appends a pointer to `off`.
pub fn write_pointer(out: &mut Vec<u8>, off: u16)
    ensures
        final(out)@ == old(out)@ + pointer_bytes(off),
{
    out.push((192u16 + off / 256) as u8);
    out.push((off % 256) as u8);
    assert(final(out)@ =~= old(out)@ + pointer_bytes(off));
}

/// Writes the name `name`: a pointer when the table already holds it,
/// otherwise its labels in full and the terminator, recording where they
/// start. A trailing dot in `name` is optional.
pub fn qname_write(out: &mut Vec<u8>, name: &String, names: &mut NameTable) -> (r: Result<
    (),
    DnsError,
>)
    ensures
        match put_name(enc_state(old(out)@, old(names)@), name@) {
            Ok(st) => r is Ok && final(out)@ == st.bytes && final(names)@ == st.names,
            Err(e) => r == Err::<(), DnsError>(e) && final(out)@ == old(out)@ && final(names)@
                == old(names)@,
        },
{
    match names.lookup(name) {
        Some(off) => {
            write_pointer(out, off);
            Ok(())
        },
        None => {
            let seq = match LabelSeq::parse(name.as_str()) {
                Ok(x) => x,
                Err(e) => {
                    return Err(e);
                },
            };
            let offset = out.len();
            if !name.as_str().is_empty() && offset < POINTER_LIMIT {
                names.record(name.clone(), offset as u16);
            }
            match seq.encode(out) {
                Ok(()) => Ok(()),
                Err(e) => Err(e),
            }
        },
    }
}

} // verus!
