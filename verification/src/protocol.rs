//! Wire codec for DNS messages (RFC 1035): a bit-exact parser and
//! serializer, including name decompression on decode, EDNS(0) OPT-record
//! promotion, and payload-aware truncation on encode.

use vstd::prelude::*;
use vstd::utf8::{encode_utf8, decode_utf8, valid_utf8};

verus! {

/// Error returned when incoming wire bytes cannot be decoded: short
/// reads, invalid UTF-8 in a label, or invalid compression pointers.
#[derive(Debug, Clone, Copy, PartialEq, Eq, Structural)]
pub struct MalformedMessage;

#[derive(Debug, Default, Clone, Copy, PartialEq, Eq, Structural)]
pub struct Header {
    pub id: u16,
    pub qr: bool,
    /// 4 bits
    pub opcode: u8,
    pub aa: bool,
    pub tc: bool,
    pub rd: bool,
    pub ra: bool,
    /// 3 bits
    pub z: u8,
    /// 4 bits
    pub rcode: u8,
}

#[derive(Debug, Default, Clone, PartialEq, Eq)]
pub struct Question {
    pub qname: Vec<String>,
    pub qtype: u16,
    pub qclass: u16,
}

#[derive(Debug, Default, Clone, PartialEq)]
pub struct Resource {
    pub rname: Vec<String>,
    pub rtype: u16,
    pub rclass: u16,
    pub ttl: u32,
    pub rdata: Vec<u8>,
}

#[derive(Debug, Default, Clone, PartialEq)]
pub struct EdnsOption {
    pub code: u16,
    pub data: Vec<u8>,
}

#[derive(Debug, Default, Clone, PartialEq)]
pub struct Edns {
    pub udp_payload_size: u16,
    pub extended_rcode_and_flags: u32,
    pub options: Vec<EdnsOption>,
}

#[derive(Debug, Default, Clone, PartialEq)]
pub struct Message {
    pub header: Header,
    pub question: Vec<Question>,
    pub answer: Vec<Resource>,
    pub authority: Vec<Resource>,
    pub additional: Vec<Resource>,
    pub edns: Option<Edns>,
}

// ---------------------------------------------------------------------
// Mathematical models of the message types.
// ---------------------------------------------------------------------

#[verifier::ext_equal]
pub ghost struct QuestionV {
    pub qname: Seq<Seq<char>>,
    pub qtype: u16,
    pub qclass: u16,
}

#[verifier::ext_equal]
pub ghost struct ResourceV {
    pub rname: Seq<Seq<char>>,
    pub rtype: u16,
    pub rclass: u16,
    pub ttl: u32,
    pub rdata: Seq<u8>,
}

#[verifier::ext_equal]
pub ghost struct EdnsOptionV {
    pub code: u16,
    pub data: Seq<u8>,
}

#[verifier::ext_equal]
pub ghost struct EdnsV {
    pub udp_payload_size: u16,
    pub extended_rcode_and_flags: u32,
    pub options: Seq<EdnsOptionV>,
}

#[verifier::ext_equal]
pub ghost struct MessageV {
    pub header: Header,
    pub question: Seq<QuestionV>,
    pub answer: Seq<ResourceV>,
    pub authority: Seq<ResourceV>,
    pub additional: Seq<ResourceV>,
    pub edns: Option<EdnsV>,
}

impl DeepView for Question {
    type V = QuestionV;

    open spec fn deep_view(&self) -> QuestionV {
        QuestionV { qname: self.qname.deep_view(), qtype: self.qtype, qclass: self.qclass }
    }
}

impl DeepView for Resource {
    type V = ResourceV;

    open spec fn deep_view(&self) -> ResourceV {
        ResourceV {
            rname: self.rname.deep_view(),
            rtype: self.rtype,
            rclass: self.rclass,
            ttl: self.ttl,
            rdata: self.rdata.deep_view(),
        }
    }
}

impl DeepView for EdnsOption {
    type V = EdnsOptionV;

    open spec fn deep_view(&self) -> EdnsOptionV {
        EdnsOptionV { code: self.code, data: self.data.deep_view() }
    }
}

impl DeepView for Edns {
    type V = EdnsV;

    open spec fn deep_view(&self) -> EdnsV {
        EdnsV {
            udp_payload_size: self.udp_payload_size,
            extended_rcode_and_flags: self.extended_rcode_and_flags,
            options: self.options.deep_view(),
        }
    }
}

impl DeepView for Message {
    type V = MessageV;

    open spec fn deep_view(&self) -> MessageV {
        MessageV {
            header: self.header,
            question: self.question.deep_view(),
            answer: self.answer.deep_view(),
            authority: self.authority.deep_view(),
            additional: self.additional.deep_view(),
            edns: self.edns.deep_view(),
        }
    }
}

// ---------------------------------------------------------------------
// Big-endian integers on the wire.
// ---------------------------------------------------------------------

pub open spec fn spec_u16_be(x: u16) -> Seq<u8> {
    seq![(x / 256) as u8, (x % 256) as u8]
}

pub open spec fn spec_u32_be(x: u32) -> Seq<u8> {
    seq![
        (x / 0x1000000) as u8,
        ((x / 0x10000) % 256) as u8,
        ((x / 256) % 256) as u8,
        (x % 256) as u8,
    ]
}

/// The 16-bit big-endian integer stored at `pos`.
pub open spec fn spec_ru16(b: Seq<u8>, pos: int) -> u16 {
    (b[pos] * 256 + b[pos + 1]) as u16
}

/// The 32-bit big-endian integer stored at `pos`.
pub open spec fn spec_ru32(b: Seq<u8>, pos: int) -> u32 {
    (b[pos] * 0x1000000 + b[pos + 1] * 0x10000 + b[pos + 2] * 256 + b[pos + 3]) as u32
}

fn push_u16_be(out: &mut Vec<u8>, x: u16)
    ensures
        final(out)@ == old(out)@ + spec_u16_be(x),
{
    out.push((x / 256) as u8);
    out.push((x % 256) as u8);
    proof {
        assert(out@ =~= old(out)@ + spec_u16_be(x));
    }
}

fn push_u32_be(out: &mut Vec<u8>, x: u32)
    ensures
        final(out)@ == old(out)@ + spec_u32_be(x),
{
    out.push((x / 0x1000000) as u8);
    out.push(((x / 0x10000) % 256) as u8);
    out.push(((x / 256) % 256) as u8);
    out.push((x % 256) as u8);
    proof {
        assert(out@ =~= old(out)@ + spec_u32_be(x));
    }
}

fn read_u16_at(buf: &[u8], pos: usize) -> (x: u16)
    requires
        pos + 1 < buf@.len(),
    ensures
        x == spec_ru16(buf@, pos as int),
{
    (buf[pos] as u16) * 256 + (buf[pos + 1] as u16)
}

fn read_u32_at(buf: &[u8], pos: usize) -> (x: u32)
    requires
        pos + 3 < buf@.len(),
    ensures
        x == spec_ru32(buf@, pos as int),
{
    (buf[pos] as u32) * 0x1000000 + (buf[pos + 1] as u32) * 0x10000 + (buf[pos + 2] as u32) * 256
        + (buf[pos + 3] as u32)
}

pub(crate) fn extend_bytes(out: &mut Vec<u8>, src: &[u8])
    ensures
        final(out)@ == old(out)@ + src@,
{
    let mut i: usize = 0;
    while i < src.len()
        invariant
            i <= src@.len(),
            out@ == old(out)@ + src@.take(i as int),
        decreases src@.len() - i,
    {
        out.push(src[i]);
        i += 1;
        proof {
            assert(out@ =~= old(out)@ + src@.take(i as int));
        }
    }
    proof {
        assert(out@ =~= old(out)@ + src@);
    }
}

// ---------------------------------------------------------------------
// Verified deep copies (the contracts pin the copy to the original).
// ---------------------------------------------------------------------

pub fn clone_bytes(v: &Vec<u8>) -> (r: Vec<u8>)
    ensures
        r@ == v@,
{
    let mut r: Vec<u8> = Vec::new();
    let mut i: usize = 0;
    while i < v.len()
        invariant
            i <= v@.len(),
            r@ == v@.take(i as int),
        decreases v@.len() - i,
    {
        r.push(v[i]);
        i += 1;
        proof {
            assert(r@ =~= v@.take(i as int));
        }
    }
    proof {
        assert(r@ =~= v@);
    }
    r
}

pub fn clone_name(v: &Vec<String>) -> (r: Vec<String>)
    ensures
        r.deep_view() == v.deep_view(),
        r@.len() == v@.len(),
{
    let mut r: Vec<String> = Vec::new();
    let mut i: usize = 0;
    while i < v.len()
        invariant
            i <= v@.len(),
            r.deep_view() == v.deep_view().take(i as int),
        decreases v@.len() - i,
    {
        proof {
            assert(v.deep_view().len() == v@.len());
            assert(r.deep_view().len() == r@.len());
            assert(v.deep_view().take(i as int).len() == i as int);
        }
        r.push(v[i].clone());
        i += 1;
        proof {
            assert(r.deep_view() =~~= v.deep_view().take(i as int));
        }
    }
    proof {
        assert(r.deep_view() =~~= v.deep_view());
    }
    r
}

pub fn clone_resource(r: &Resource) -> (out: Resource)
    ensures
        out.deep_view() == r.deep_view(),
{
    Resource {
        rname: clone_name(&r.rname),
        rtype: r.rtype,
        rclass: r.rclass,
        ttl: r.ttl,
        rdata: clone_bytes(&r.rdata),
    }
}

pub fn clone_resources(v: &Vec<Resource>) -> (r: Vec<Resource>)
    ensures
        r.deep_view() == v.deep_view(),
        r@.len() == v@.len(),
{
    let mut r: Vec<Resource> = Vec::new();
    let mut i: usize = 0;
    while i < v.len()
        invariant
            i <= v@.len(),
            r.deep_view() == v.deep_view().take(i as int),
        decreases v@.len() - i,
    {
        proof {
            assert(v.deep_view().len() == v@.len());
            assert(r.deep_view().len() == r@.len());
            assert(v.deep_view().take(i as int).len() == i as int);
        }
        r.push(clone_resource(&v[i]));
        i += 1;
        proof {
            assert(r.deep_view() =~~= v.deep_view().take(i as int));
        }
    }
    proof {
        assert(r.deep_view() =~~= v.deep_view());
    }
    r
}

pub fn clone_question(q: &Question) -> (out: Question)
    ensures
        out.deep_view() == q.deep_view(),
{
    Question { qname: clone_name(&q.qname), qtype: q.qtype, qclass: q.qclass }
}

// ---------------------------------------------------------------------
// Wire form of names, questions and resources.
// ---------------------------------------------------------------------

/// One label on the wire: a length byte followed by the label's UTF-8
/// bytes (the length byte wraps at 256, as a byte must).
pub open spec fn spec_label_wire(l: Seq<char>) -> Seq<u8> {
    seq![(encode_utf8(l).len() % 256) as u8] + encode_utf8(l)
}

pub open spec fn spec_labels_bytes(name: Seq<Seq<char>>) -> Seq<u8>
    decreases name.len(),
{
    if name.len() == 0 {
        Seq::empty()
    } else {
        spec_label_wire(name[0]) + spec_labels_bytes(name.drop_first())
    }
}

/// A whole name on the wire: its labels, then the terminating zero byte.
pub open spec fn spec_name_bytes(name: Seq<Seq<char>>) -> Seq<u8> {
    spec_labels_bytes(name) + seq![0u8]
}

pub open spec fn spec_question_wire(q: QuestionV) -> Seq<u8> {
    spec_name_bytes(q.qname) + spec_u16_be(q.qtype) + spec_u16_be(q.qclass)
}

pub open spec fn spec_resource_wire(r: ResourceV) -> Seq<u8> {
    spec_name_bytes(r.rname) + spec_u16_be(r.rtype) + spec_u16_be(r.rclass) + spec_u32_be(r.ttl)
        + spec_u16_be((r.rdata.len() % 0x10000) as u16) + r.rdata
}

pub proof fn lemma_labels_bytes_snoc(name: Seq<Seq<char>>, i: int)
    requires
        0 <= i < name.len(),
    ensures
        spec_labels_bytes(name.take(i + 1)) == spec_labels_bytes(name.take(i)) + spec_label_wire(
            name[i],
        ),
    decreases i,
{
    if i == 0 {
        assert(name.take(1).drop_first() =~= Seq::<Seq<char>>::empty());
        assert(name.take(0) =~= Seq::<Seq<char>>::empty());
        assert(spec_labels_bytes(name.take(1)) =~= spec_labels_bytes(name.take(0))
            + spec_label_wire(name[0]));
    } else {
        lemma_labels_bytes_snoc(name.drop_first(), i - 1);
        assert(name.take(i + 1).drop_first() =~= name.drop_first().take(i));
        assert(name.take(i).drop_first() =~= name.drop_first().take(i - 1));
        assert(name.take(i + 1)[0] == name[0]);
        assert(name.take(i)[0] == name[0]);
        assert(spec_labels_bytes(name.take(i + 1)) =~= spec_labels_bytes(name.take(i))
            + spec_label_wire(name[i]));
    }
}

/// Converts a list of labels (e.g. `["google", "com"]`) into the binary
/// format used for names in rdata: length-prefixed labels, then a zero.
pub fn serialize_name(name: &Vec<String>) -> (bytes: Vec<u8>)
    ensures
        bytes@ == spec_name_bytes(name.deep_view()),
{
    let mut bytes: Vec<u8> = Vec::new();
    let mut i: usize = 0;
    while i < name.len()
        invariant
            i <= name@.len(),
            bytes@ == spec_labels_bytes(name.deep_view().take(i as int)),
        decreases name@.len() - i,
    {
        proof {
            assert(name.deep_view().len() == name@.len());
            assert(name.deep_view()[i as int] == name@[i as int].deep_view());
            lemma_labels_bytes_snoc(name.deep_view(), i as int);
        }
        let label: &String = &name[i];
        let lb: &[u8] = label.as_str().as_bytes();
        proof {
            assert(label@ == name.deep_view()[i as int]);
            assert(lb@ == encode_utf8(name.deep_view()[i as int]));
        }
        let blen: usize = lb.len();
        let lenb: u8 = (blen % 256) as u8;
        proof {
            assert(blen == lb@.len());
            assert(lb@.len() == encode_utf8(name.deep_view()[i as int]).len());
            assert(lenb as int == lb@.len() % 256);
            assert(lenb == (encode_utf8(name.deep_view()[i as int]).len() % 256) as u8);
            assert(spec_label_wire(name.deep_view()[i as int]) =~= seq![lenb] + lb@);
        }
        bytes.push(lenb);
        extend_bytes(&mut bytes, lb);
        proof {
            assert(bytes@ =~= spec_labels_bytes(name.deep_view().take(i as int))
                + spec_label_wire(name.deep_view()[i as int]));
        }
        i += 1;
        proof {
            assert(bytes@ =~= spec_labels_bytes(name.deep_view().take(i as int)));
        }
    }
    bytes.push(0);
    proof {
        assert(name.deep_view().take(name@.len() as int) =~= name.deep_view());
        assert(bytes@ =~= spec_name_bytes(name.deep_view()));
    }
    bytes
}

// ---------------------------------------------------------------------
// Size accounting and truncation.
// ---------------------------------------------------------------------

/// How many leading questions fit when the running size is `size` and
/// `avail` bytes are available, and the size after taking them.
pub open spec fn spec_take_q(items: Seq<QuestionV>, size: int, avail: int) -> (int, int)
    decreases items.len(),
{
    if items.len() == 0 {
        (0, size)
    } else {
        let inc = spec_question_wire(items[0]).len() as int;
        if size + inc > avail {
            (0, size)
        } else {
            let (n, s) = spec_take_q(items.drop_first(), size + inc, avail);
            (n + 1, s)
        }
    }
}

pub open spec fn spec_take_r(items: Seq<ResourceV>, size: int, avail: int) -> (int, int)
    decreases items.len(),
{
    if items.len() == 0 {
        (0, size)
    } else {
        let inc = spec_resource_wire(items[0]).len() as int;
        if size + inc > avail {
            (0, size)
        } else {
            let (n, s) = spec_take_r(items.drop_first(), size + inc, avail);
            (n + 1, s)
        }
    }
}

pub open spec fn spec_concat_q(qs: Seq<QuestionV>) -> Seq<u8>
    decreases qs.len(),
{
    if qs.len() == 0 {
        Seq::empty()
    } else {
        spec_question_wire(qs[0]) + spec_concat_q(qs.drop_first())
    }
}

pub open spec fn spec_concat_r(rs: Seq<ResourceV>) -> Seq<u8>
    decreases rs.len(),
{
    if rs.len() == 0 {
        Seq::empty()
    } else {
        spec_resource_wire(rs[0]) + spec_concat_r(rs.drop_first())
    }
}

pub proof fn lemma_concat_q_snoc(qs: Seq<QuestionV>, i: int)
    requires
        0 <= i < qs.len(),
    ensures
        spec_concat_q(qs.take(i + 1)) == spec_concat_q(qs.take(i)) + spec_question_wire(qs[i]),
    decreases i,
{
    if i == 0 {
        assert(qs.take(1).drop_first() =~= Seq::<QuestionV>::empty());
        assert(qs.take(0) =~= Seq::<QuestionV>::empty());
        assert(spec_concat_q(qs.take(1)) =~= spec_concat_q(qs.take(0)) + spec_question_wire(
            qs[0],
        ));
    } else {
        lemma_concat_q_snoc(qs.drop_first(), i - 1);
        assert(qs.take(i + 1).drop_first() =~= qs.drop_first().take(i));
        assert(qs.take(i).drop_first() =~= qs.drop_first().take(i - 1));
        assert(spec_concat_q(qs.take(i + 1)) =~= spec_concat_q(qs.take(i)) + spec_question_wire(
            qs[i],
        ));
    }
}

pub proof fn lemma_concat_r_snoc(rs: Seq<ResourceV>, i: int)
    requires
        0 <= i < rs.len(),
    ensures
        spec_concat_r(rs.take(i + 1)) == spec_concat_r(rs.take(i)) + spec_resource_wire(rs[i]),
    decreases i,
{
    if i == 0 {
        assert(rs.take(1).drop_first() =~= Seq::<ResourceV>::empty());
        assert(rs.take(0) =~= Seq::<ResourceV>::empty());
        assert(spec_concat_r(rs.take(1)) =~= spec_concat_r(rs.take(0)) + spec_resource_wire(
            rs[0],
        ));
    } else {
        lemma_concat_r_snoc(rs.drop_first(), i - 1);
        assert(rs.take(i + 1).drop_first() =~= rs.drop_first().take(i));
        assert(rs.take(i).drop_first() =~= rs.drop_first().take(i - 1));
        assert(spec_concat_r(rs.take(i + 1)) =~= spec_concat_r(rs.take(i)) + spec_resource_wire(
            rs[i],
        ));
    }
}

/// Every question on the wire takes at least 5 bytes, so the count of
/// taken questions is bounded by the bytes they occupy.
pub proof fn lemma_take_q_props(items: Seq<QuestionV>, size: int, avail: int)
    ensures
        ({
            let (n, s) = spec_take_q(items, size, avail);
            &&& 0 <= n <= items.len()
            &&& size <= s
            &&& s - size >= 5 * n
            &&& n > 0 ==> s <= avail
            &&& forall|j: int|
                0 <= j < n ==> spec_question_wire(items[j]).len() <= avail - size
        }),
    decreases items.len(),
{
    if items.len() > 0 {
        let inc = spec_question_wire(items[0]).len() as int;
        assert(spec_name_bytes(items[0].qname).len() >= 1);
        if size + inc <= avail {
            lemma_take_q_props(items.drop_first(), size + inc, avail);
            let (n1, s1) = spec_take_q(items.drop_first(), size + inc, avail);
            if items.drop_first().len() == 0 {
                assert(s1 == size + inc);
            } else if size + inc + spec_question_wire(items.drop_first()[0]).len() > avail {
                assert(s1 == size + inc);
            } else {
                lemma_take_q_props(
                    items.drop_first().drop_first(),
                    size + inc + spec_question_wire(items.drop_first()[0]).len(),
                    avail,
                );
                assert(n1 >= 1);
            }
            assert forall|j: int| 0 <= j < n1 + 1 implies spec_question_wire(items[j]).len()
                <= avail - size by {
                if j > 0 {
                    assert(items[j] == items.drop_first()[j - 1]);
                    assert(spec_question_wire(items.drop_first()[j - 1]).len() <= avail - (size
                        + inc));
                }
            }
        }
    }
}

/// Every resource on the wire takes at least 11 bytes.
pub proof fn lemma_take_r_props(items: Seq<ResourceV>, size: int, avail: int)
    ensures
        ({
            let (n, s) = spec_take_r(items, size, avail);
            &&& 0 <= n <= items.len()
            &&& size <= s
            &&& s - size >= 11 * n
            &&& n > 0 ==> s <= avail
            &&& forall|j: int|
                0 <= j < n ==> spec_resource_wire(items[j]).len() <= avail - size
        }),
    decreases items.len(),
{
    if items.len() > 0 {
        let inc = spec_resource_wire(items[0]).len() as int;
        assert(spec_name_bytes(items[0].rname).len() >= 1);
        if size + inc <= avail {
            lemma_take_r_props(items.drop_first(), size + inc, avail);
            let (n1, s1) = spec_take_r(items.drop_first(), size + inc, avail);
            if items.drop_first().len() == 0 {
                assert(s1 == size + inc);
            } else if size + inc + spec_resource_wire(items.drop_first()[0]).len() > avail {
                assert(s1 == size + inc);
            } else {
                lemma_take_r_props(
                    items.drop_first().drop_first(),
                    size + inc + spec_resource_wire(items.drop_first()[0]).len(),
                    avail,
                );
                assert(n1 >= 1);
            }
            assert forall|j: int| 0 <= j < n1 + 1 implies spec_resource_wire(items[j]).len()
                <= avail - size by {
                if j > 0 {
                    assert(items[j] == items.drop_first()[j - 1]);
                    assert(spec_resource_wire(items.drop_first()[j - 1]).len() <= avail - (size
                        + inc));
                }
            }
        }
    }
}

fn name_wire_len(name: &Vec<String>) -> (n: u128)
    ensures
        n as int == spec_name_bytes(name.deep_view()).len(),
        n as int <= 0xFFFFFFFFFFFFFFFF * 0x10000000000000000 + 1,
{
    let mut total: u128 = 0;
    let mut i: usize = 0;
    while i < name.len()
        invariant
            i <= name@.len(),
            name.deep_view().len() == name@.len(),
            total as int == spec_labels_bytes(name.deep_view().take(i as int)).len(),
            total as int <= i as int * 0x10000000000000000,
        decreases name@.len() - i,
    {
        proof {
            assert(name.deep_view().len() == name@.len());
            assert(name.deep_view()[i as int] == name@[i as int].deep_view());
            lemma_labels_bytes_snoc(name.deep_view(), i as int);
        }
        let l: u128 = name[i].as_str().as_bytes().len() as u128;
        total = total + 1 + l;
        i += 1;
    }
    proof {
        assert(name.deep_view().take(name@.len() as int) =~= name.deep_view());
    }
    total + 1
}

fn question_size(q: &Question) -> (n: u128)
    ensures
        n as int == spec_question_wire(q.deep_view()).len(),
{
    name_wire_len(&q.qname) + 4
}

fn resource_size(r: &Resource) -> (n: u128)
    ensures
        n as int == spec_resource_wire(r.deep_view()).len() || (n > 0xFFFF
            && spec_resource_wire(r.deep_view()).len() > 0xFFFF),
{
    let nm = name_wire_len(&r.rname);
    let rd = r.rdata.len() as u128;
    if nm > 0x10000 || rd > 0x10000 {
        // far beyond any payload size: the exact value no longer matters
        0x30000
    } else {
        nm + 10 + rd
    }
}

fn take_questions(items: &Vec<Question>, size0: u128, avail: u128) -> (r: (usize, u128))
    requires
        size0 <= 0x10000,
        avail <= 0xFFFF,
    ensures
        (r.0 as int, r.1 as int) == spec_take_q(items.deep_view(), size0 as int, avail as int),
        r.0 <= items@.len(),
        r.1 <= 0x10000,
{
    let ghost dv = items.deep_view();
    let mut size: u128 = size0;
    let mut i: usize = 0;
    proof {
        assert(dv.skip(0) =~= dv);
    }
    while i < items.len()
        invariant
            i <= items@.len(),
            dv == items.deep_view(),
            dv.len() == items@.len(),
            size <= 0x10000,
            avail <= 0xFFFF,
            spec_take_q(dv, size0 as int, avail as int) == {
                let (n, s) = spec_take_q(dv.skip(i as int), size as int, avail as int);
                (i + n, s)
            },
        decreases items@.len() - i,
    {
        let inc = question_size(&items[i]);
        proof {
            assert(dv.skip(i as int)[0] == dv[i as int]);
            assert(dv.skip(i as int).drop_first() =~= dv.skip(i as int + 1));
        }
        let stop = if size > avail {
            true
        } else {
            inc > avail - size
        };
        if stop {
            return (i, size);
        }
        size = size + inc;
        i += 1;
    }
    proof {
        assert(dv.skip(dv.len() as int) =~= Seq::<QuestionV>::empty());
    }
    (i, size)
}

fn take_resources(items: &Vec<Resource>, size0: u128, avail: u128) -> (r: (usize, u128))
    requires
        size0 <= 0x10000,
        avail <= 0xFFFF,
    ensures
        (r.0 as int, r.1 as int) == spec_take_r(items.deep_view(), size0 as int, avail as int),
        r.0 <= items@.len(),
        r.1 <= 0x10000,
{
    let ghost dv = items.deep_view();
    let mut size: u128 = size0;
    let mut i: usize = 0;
    proof {
        assert(dv.skip(0) =~= dv);
    }
    while i < items.len()
        invariant
            i <= items@.len(),
            dv == items.deep_view(),
            dv.len() == items@.len(),
            size <= 0x10000,
            avail <= 0xFFFF,
            spec_take_r(dv, size0 as int, avail as int) == {
                let (n, s) = spec_take_r(dv.skip(i as int), size as int, avail as int);
                (i + n, s)
            },
        decreases items@.len() - i,
    {
        let inc = resource_size(&items[i]);
        proof {
            assert(dv.skip(i as int)[0] == dv[i as int]);
            assert(dv.skip(i as int).drop_first() =~= dv.skip(i as int + 1));
        }
        let stop = if size > avail {
            true
        } else {
            inc > avail - size
        };
        if stop {
            return (i, size);
        }
        size = size + inc;
        i += 1;
    }
    proof {
        assert(dv.skip(dv.len() as int) =~= Seq::<ResourceV>::empty());
    }
    (i, size)
}

// ---------------------------------------------------------------------
// Serialization.
// ---------------------------------------------------------------------

pub open spec fn wf_header(h: Header) -> bool {
    h.z < 8 && h.opcode < 16 && h.rcode < 16
}

pub open spec fn spec_flags_word(h: Header, truncated: bool) -> u16 {
    ((h.rcode as int) + (h.z as int) * 16 + (if h.ra {
        128int
    } else {
        0int
    }) + (if h.rd {
        256int
    } else {
        0int
    }) + (if h.tc || truncated {
        512int
    } else {
        0int
    }) + (if h.aa {
        1024int
    } else {
        0int
    }) + (h.opcode as int) * 2048 + (if h.qr {
        32768int
    } else {
        0int
    })) as u16
}

/// The pseudo resource appended to the additional section on encode when
/// the request carried EDNS.
pub open spec fn spec_opt_pseudo() -> ResourceV {
    ResourceV {
        rname: Seq::empty(),
        rtype: 41,
        rclass: 0xFFFF,
        ttl: 0,
        rdata: Seq::empty(),
    }
}

pub open spec fn spec_add_section(m: MessageV) -> Seq<ResourceV> {
    if m.edns is Some {
        m.additional.push(spec_opt_pseudo())
    } else {
        m.additional
    }
}

/// Bytes available for the encoded message: unbounded (64 KiB) for TCP,
/// the negotiated EDNS payload size or 512 for UDP.
pub open spec fn spec_avail(m: MessageV, tcp: bool) -> int {
    if tcp {
        0xFFFF
    } else if m.edns is Some {
        m.edns->0.udp_payload_size as int
    } else {
        512
    }
}

/// The truncation plan: whether the TC flag is set, and how many items
/// of each section are kept, walking question, answer, authority,
/// additional in order and stopping at the first item that overflows.
pub open spec fn spec_plan(m: MessageV, tcp: bool) -> (bool, int, int, int, int) {
    let avail = spec_avail(m, tcp);
    let add = spec_add_section(m);
    let (nq, s1) = spec_take_q(m.question, 12, avail);
    if nq < m.question.len() {
        (true, nq, 0, 0, 0)
    } else {
        let (na, s2) = spec_take_r(m.answer, s1, avail);
        if na < m.answer.len() {
            (true, nq, na, 0, 0)
        } else {
            let (nh, s3) = spec_take_r(m.authority, s2, avail);
            if nh < m.authority.len() {
                (true, nq, na, nh, 0)
            } else {
                let (nd, s4) = spec_take_r(add, s3, avail);
                (nd < add.len(), nq, na, nh, nd)
            }
        }
    }
}

pub open spec fn spec_serialize(m: MessageV, tcp: bool) -> Seq<u8> {
    let avail = spec_avail(m, tcp);
    let add = spec_add_section(m);
    let (truncated, nq, na, nh, nd) = spec_plan(m, tcp);
    if nq == 0 && m.question.len() > 0 {
        // not even the first question fits whole: it is still present,
        // cut to the bytes the budget leaves after the header
        let room: int = if avail >= 12 {
            avail - 12
        } else {
            0
        };
        spec_u16_be(m.header.id) + spec_u16_be(spec_flags_word(m.header, truncated))
            + spec_u16_be(1) + spec_u16_be(0) + spec_u16_be(0) + spec_u16_be(0)
            + spec_question_wire(m.question[0]).take(room)
    } else {
        spec_u16_be(m.header.id) + spec_u16_be(spec_flags_word(m.header, truncated))
            + spec_u16_be(nq as u16) + spec_u16_be(na as u16) + spec_u16_be(nh as u16)
            + spec_u16_be(nd as u16) + spec_concat_q(m.question.take(nq)) + spec_concat_r(
            m.answer.take(na),
        ) + spec_concat_r(m.authority.take(nh)) + spec_concat_r(add.take(nd))
    }
}

fn flags_word(h: &Header, truncated: bool) -> (w: u16)
    requires
        wf_header(*h),
    ensures
        w == spec_flags_word(*h, truncated),
{
    let mut w: u16 = h.rcode as u16;
    w = w + (h.z as u16) * 16;
    if h.ra {
        w = w + 128;
    }
    if h.rd {
        w = w + 256;
    }
    if h.tc || truncated {
        w = w + 512;
    }
    if h.aa {
        w = w + 1024;
    }
    w = w + (h.opcode as u16) * 2048;
    if h.qr {
        w = w + 32768;
    }
    w
}

fn write_question(out: &mut Vec<u8>, q: &Question)
    ensures
        final(out)@ == old(out)@ + spec_question_wire(q.deep_view()),
{
    let mut nb = serialize_name(&q.qname);
    out.append(&mut nb);
    push_u16_be(out, q.qtype);
    push_u16_be(out, q.qclass);
    proof {
        assert(out@ =~= old(out)@ + spec_question_wire(q.deep_view()));
    }
}

fn write_resource(out: &mut Vec<u8>, r: &Resource)
    requires
        r.rdata@.len() < 0x10000,
    ensures
        final(out)@ == old(out)@ + spec_resource_wire(r.deep_view()),
{
    let mut nb = serialize_name(&r.rname);
    out.append(&mut nb);
    push_u16_be(out, r.rtype);
    push_u16_be(out, r.rclass);
    push_u32_be(out, r.ttl);
    push_u16_be(out, r.rdata.len() as u16);
    extend_bytes(out, r.rdata.as_slice());
    proof {
        assert(out@ =~= old(out)@ + spec_resource_wire(r.deep_view()));
    }
}

fn write_questions(out: &mut Vec<u8>, items: &Vec<Question>, n: usize)
    requires
        n <= items@.len(),
    ensures
        final(out)@ == old(out)@ + spec_concat_q(items.deep_view().take(n as int)),
{
    let mut i: usize = 0;
    while i < n
        invariant
            i <= n <= items@.len(),
            items.deep_view().len() == items@.len(),
            out@ == old(out)@ + spec_concat_q(items.deep_view().take(i as int)),
        decreases n - i,
    {
        proof {
            lemma_concat_q_snoc(items.deep_view(), i as int);
        }
        write_question(out, &items[i]);
        i += 1;
        proof {
            assert(out@ =~= old(out)@ + spec_concat_q(items.deep_view().take(i as int)));
        }
    }
}

fn write_resources(out: &mut Vec<u8>, items: &Vec<Resource>, n: usize)
    requires
        n <= items@.len(),
        forall|j: int| 0 <= j < n ==> #[trigger] items.deep_view()[j].rdata.len() < 0x10000,
    ensures
        final(out)@ == old(out)@ + spec_concat_r(items.deep_view().take(n as int)),
{
    let mut i: usize = 0;
    while i < n
        invariant
            i <= n <= items@.len(),
            items.deep_view().len() == items@.len(),
            forall|j: int| 0 <= j < n ==> #[trigger] items.deep_view()[j].rdata.len() < 0x10000,
            out@ == old(out)@ + spec_concat_r(items.deep_view().take(i as int)),
        decreases n - i,
    {
        proof {
            lemma_concat_r_snoc(items.deep_view(), i as int);
            assert(items.deep_view()[i as int].rdata.len() < 0x10000);
        }
        write_resource(out, &items[i]);
        i += 1;
        proof {
            assert(out@ =~= old(out)@ + spec_concat_r(items.deep_view().take(i as int)));
        }
    }
}

/// Encodes a message for the wire. For TCP the available size is 65535
/// bytes; for UDP it is the negotiated EDNS payload size, or 512 when no
/// EDNS is present. Whole trailing items that would not fit are dropped
/// and the TC flag is set. The encoder never emits name compression.
#[verifier::rlimit(60)]
pub fn serialize(message: &Message, tcp: bool) -> (out: Vec<u8>)
    requires
        wf_header(message.header),
    ensures
        out@ == spec_serialize(message.deep_view(), tcp),
{
    let ghost mv = message.deep_view();
    let avail: u128 = if tcp {
        0xFFFF
    } else {
        match &message.edns {
            Some(e) => e.udp_payload_size as u128,
            None => 512,
        }
    };
    proof {
        assert(avail as int == spec_avail(mv, tcp));
    }
    // the additional section, with the OPT pseudo record appended when
    // EDNS is present
    let mut add: Vec<Resource> = clone_resources(&message.additional);
    if message.edns.is_some() {
        add.push(Resource { rname: Vec::new(), rtype: 41, rclass: 0xFFFF, ttl: 0, rdata: Vec::new() });
    }
    proof {
        assert(add.deep_view() =~~= spec_add_section(mv));
    }

    let (nq, s1) = take_questions(&message.question, 12, avail);
    let mut truncated: bool;
    let mut na: usize = 0;
    let mut nh: usize = 0;
    let mut nd: usize = 0;
    if nq < message.question.len() {
        truncated = true;
    } else {
        let (na_, s2) = take_resources(&message.answer, s1, avail);
        na = na_;
        if na < message.answer.len() {
            truncated = true;
        } else {
            let (nh_, s3) = take_resources(&message.authority, s2, avail);
            nh = nh_;
            if nh < message.authority.len() {
                truncated = true;
            } else {
                let (nd_, s4) = take_resources(&add, s3, avail);
                nd = nd_;
                truncated = nd < add.len();
            }
        }
    }
    proof {
        assert(spec_plan(mv, tcp) == (truncated, nq as int, na as int, nh as int, nd as int));
        lemma_take_q_props(mv.question, 12, avail as int);
        lemma_take_r_props(mv.answer, spec_take_q(mv.question, 12, avail as int).1, avail as int);
        lemma_take_r_props(
            mv.authority,
            spec_take_r(mv.answer, spec_take_q(mv.question, 12, avail as int).1, avail as int).1,
            avail as int,
        );
        lemma_take_r_props(
            spec_add_section(mv),
            spec_take_r(
                mv.authority,
                spec_take_r(
                    mv.answer,
                    spec_take_q(mv.question, 12, avail as int).1,
                    avail as int,
                ).1,
                avail as int,
            ).1,
            avail as int,
        );
    }

    let mut out: Vec<u8> = Vec::new();
    push_u16_be(&mut out, message.header.id);
    let flags = flags_word(&message.header, truncated);
    push_u16_be(&mut out, flags);
    if nq == 0 && message.question.len() > 0 {
        // the first question alone does not fit: emit it cut short,
        // with the TC flag already set above
        push_u16_be(&mut out, 1);
        push_u16_be(&mut out, 0);
        push_u16_be(&mut out, 0);
        push_u16_be(&mut out, 0);
        let room: usize = if avail >= 12 {
            (avail - 12) as usize
        } else {
            0
        };
        let mut qbytes: Vec<u8> = Vec::new();
        write_question(&mut qbytes, &message.question[0]);
        proof {
            assert(mv.question[0] == message.question@[0].deep_view());
            assert(spec_take_q(mv.question, 12, avail as int).0 == 0);
            if 12 + spec_question_wire(mv.question[0]).len() <= avail as int {
                lemma_take_q_props(
                    mv.question.drop_first(),
                    12 + spec_question_wire(mv.question[0]).len() as int,
                    avail as int,
                );
                assert(false);
            }
            assert(12 + spec_question_wire(mv.question[0]).len() > avail as int);
        }
        qbytes.truncate(room);
        out.append(&mut qbytes);
        proof {
            assert(out@ =~= spec_serialize(mv, tcp));
        }
        return out;
    }
    push_u16_be(&mut out, nq as u16);
    push_u16_be(&mut out, na as u16);
    push_u16_be(&mut out, nh as u16);
    push_u16_be(&mut out, nd as u16);
    write_questions(&mut out, &message.question, nq);
    write_resources(&mut out, &message.answer, na);
    write_resources(&mut out, &message.authority, nh);
    write_resources(&mut out, &add, nd);
    proof {
        assert(out@ =~= spec_serialize(mv, tcp));
    }
    out
}

/// Builds the skeleton of an outgoing query: a fresh header with only
/// the RD (recursion desired) flag set, carrying the given questions.
pub fn make_message_from_question(question: Vec<Question>) -> (m: Message)
    ensures
        m.header == (Header {
            id: 0,
            qr: false,
            opcode: 0,
            aa: false,
            tc: false,
            rd: true,
            ra: false,
            z: 0,
            rcode: 0,
        }),
        m.question == question,
        m.answer@.len() == 0,
        m.authority@.len() == 0,
        m.additional@.len() == 0,
        m.edns is None,
{
    Message {
        header: Header {
            id: 0,
            qr: false,
            opcode: 0,
            aa: false,
            tc: false,
            rd: true,
            ra: false,
            z: 0,
            rcode: 0,
        },
        question,
        answer: Vec::new(),
        authority: Vec::new(),
        additional: Vec::new(),
        edns: None,
    }
}

// ---------------------------------------------------------------------
// Parsing.
// ---------------------------------------------------------------------

pub open spec fn spec_opt_pos(o: Option<usize>) -> Option<int> {
    match o {
        Some(r) => Some(r as int),
        None => None,
    }
}

/// Reads a name starting at `pos`, following compression pointers.
/// Returns the labels as raw byte strings and the position at which the
/// outer cursor resumes: after the terminator, or after the first
/// pointer once one was followed. `jumps` bounds the pointer chain.
pub open spec fn spec_parse_name(b: Seq<u8>, pos: int, ret: Option<int>, jumps: nat) -> Option<
    (Seq<Seq<u8>>, int),
>
    decreases jumps, b.len() - pos,
{
    if pos < 0 || pos >= b.len() {
        None
    } else {
        let size = b[pos];
        if size == 0 {
            Some(
                (
                    Seq::empty(),
                    match ret {
                        Some(r) => r,
                        None => pos + 1,
                    },
                ),
            )
        } else if size >= 192 {
            // a compression pointer: the low 14 bits are a byte offset
            if pos + 1 >= b.len() {
                None
            } else if jumps == 0 {
                None
            } else {
                let off = (size - 192) * 256 + b[pos + 1];
                let nret = match ret {
                    Some(r) => Some(r),
                    None => Some(pos + 2),
                };
                spec_parse_name(b, off as int, nret, (jumps - 1) as nat)
            }
        } else {
            if pos + 1 + size > b.len() {
                None
            } else {
                match spec_parse_name(b, pos + 1 + size, ret, jumps) {
                    None => None,
                    Some((rest, rp)) => Some(
                        (seq![b.subrange(pos + 1, pos + 1 + size)] + rest, rp),
                    ),
                }
            }
        }
    }
}

/// A parsed name as character labels: every raw label must be valid
/// UTF-8, and each is decoded.
pub open spec fn spec_decode_name(b: Seq<u8>, pos: int) -> Option<(Seq<Seq<char>>, int)> {
    match spec_parse_name(b, pos, None, b.len() as nat) {
        None => None,
        Some((ls, rp)) => {
            if forall|k: int| 0 <= k < ls.len() ==> valid_utf8(#[trigger] ls[k]) {
                Some((ls.map_values(|l: Seq<u8>| decode_utf8(l)), rp))
            } else {
                None
            }
        },
    }
}

pub open spec fn spec_parse_questions(b: Seq<u8>, pos: int, count: int) -> Option<
    (Seq<QuestionV>, int),
>
    decreases count,
{
    if count <= 0 {
        Some((Seq::empty(), pos))
    } else {
        match spec_decode_name(b, pos) {
            None => None,
            Some((nm, p)) => {
                if p + 4 > b.len() {
                    None
                } else {
                    let q = QuestionV { qname: nm, qtype: spec_ru16(b, p), qclass: spec_ru16(b, p + 2) };
                    match spec_parse_questions(b, p + 4, count - 1) {
                        None => None,
                        Some((rest, pe)) => Some((seq![q] + rest, pe)),
                    }
                }
            },
        }
    }
}

pub open spec fn spec_parse_resources(b: Seq<u8>, pos: int, count: int) -> Option<
    (Seq<ResourceV>, int),
>
    decreases count,
{
    if count <= 0 {
        Some((Seq::empty(), pos))
    } else {
        match spec_decode_name(b, pos) {
            None => None,
            Some((nm, p)) => {
                if p + 10 > b.len() {
                    None
                } else {
                    let rtype = spec_ru16(b, p);
                    let rclass = spec_ru16(b, p + 2);
                    let ttl = spec_ru32(b, p + 4);
                    let rdlen = spec_ru16(b, p + 8);
                    let body = p + 10;
                    let parsed: Option<(Seq<u8>, int)> = if rtype == 5 || rtype == 2 {
                        // CNAME and NS rdata are re-encoded as a canonical
                        // (uncompressed) wire name
                        match spec_decode_name(b, body) {
                            None => None,
                            Some((nm2, p2)) => Some((spec_name_bytes(nm2), p2)),
                        }
                    } else if rtype == 15 {
                        // MX: the two preference bytes, then the exchange
                        // name, canonicalized the same way
                        if body + 2 > b.len() {
                            None
                        } else {
                            match spec_decode_name(b, body + 2) {
                                None => None,
                                Some((nm2, p2)) => Some(
                                    (seq![b[body], b[body + 1]] + spec_name_bytes(nm2), p2),
                                ),
                            }
                        }
                    } else {
                        if body + rdlen > b.len() {
                            None
                        } else {
                            Some((b.subrange(body, body + rdlen), body + rdlen))
                        }
                    };
                    match parsed {
                        None => None,
                        Some((rdata, next)) => {
                            let r = ResourceV { rname: nm, rtype, rclass, ttl, rdata };
                            match spec_parse_resources(b, next, count - 1) {
                                None => None,
                                Some((rest, pe)) => Some((seq![r] + rest, pe)),
                            }
                        },
                    }
                }
            },
        }
    }
}

/// The rdata of an OPT record: a run of (code, length, data) triples.
pub open spec fn spec_parse_edns_options(d: Seq<u8>, pos: int) -> Option<Seq<EdnsOptionV>>
    decreases d.len() - pos,
{
    if pos >= d.len() {
        Some(Seq::empty())
    } else if pos + 4 > d.len() {
        None
    } else {
        let code = spec_ru16(d, pos);
        let olen = spec_ru16(d, pos + 2);
        if pos + 4 + olen > d.len() {
            None
        } else {
            match spec_parse_edns_options(d, pos + 4 + olen) {
                None => None,
                Some(rest) => Some(
                    seq![EdnsOptionV { code, data: d.subrange(pos + 4, pos + 4 + olen) }] + rest,
                ),
            }
        }
    }
}

/// Extracts EDNS state out of the additional section: every OPT record
/// (rtype 41) is removed, its rclass, ttl and rdata become the EDNS
/// field; when several are present the last one wins.
pub open spec fn spec_promote_edns(add: Seq<ResourceV>) -> Option<
    (Seq<ResourceV>, Option<EdnsV>),
>
    decreases add.len(),
{
    if add.len() == 0 {
        Some((Seq::empty(), None))
    } else {
        let r0 = add[0];
        match spec_promote_edns(add.drop_first()) {
            None => None,
            Some((restf, reste)) => {
                if r0.rtype == 41 {
                    match spec_parse_edns_options(r0.rdata, 0) {
                        None => None,
                        Some(opts) => Some(
                            (
                                restf,
                                if reste is Some {
                                    reste
                                } else {
                                    Some(
                                        EdnsV {
                                            udp_payload_size: r0.rclass,
                                            extended_rcode_and_flags: r0.ttl,
                                            options: opts,
                                        },
                                    )
                                },
                            ),
                        ),
                    }
                } else {
                    Some((seq![r0] + restf, reste))
                }
            },
        }
    }
}

pub open spec fn spec_parse(b: Seq<u8>) -> Option<MessageV> {
    if b.len() < 12 {
        None
    } else {
        let flags = spec_ru16(b, 2);
        let header = Header {
            id: spec_ru16(b, 0),
            qr: (flags as int) / 32768 % 2 == 1,
            opcode: ((flags as int) / 2048 % 16) as u8,
            aa: (flags as int) / 1024 % 2 == 1,
            tc: (flags as int) / 512 % 2 == 1,
            rd: (flags as int) / 256 % 2 == 1,
            ra: (flags as int) / 128 % 2 == 1,
            z: ((flags as int) / 16 % 8) as u8,
            rcode: ((flags as int) % 16) as u8,
        };
        match spec_parse_questions(b, 12, spec_ru16(b, 4) as int) {
            None => None,
            Some((qs, p1)) => match spec_parse_resources(b, p1, spec_ru16(b, 6) as int) {
                None => None,
                Some((ans, p2)) => match spec_parse_resources(b, p2, spec_ru16(b, 8) as int) {
                    None => None,
                    Some((auth, p3)) => match spec_parse_resources(
                        b,
                        p3,
                        spec_ru16(b, 10) as int,
                    ) {
                        None => None,
                        Some((adds, _p4)) => match spec_promote_edns(adds) {
                            None => None,
                            Some((add2, edns)) => Some(
                                MessageV {
                                    header,
                                    question: qs,
                                    answer: ans,
                                    authority: auth,
                                    additional: add2,
                                    edns,
                                },
                            ),
                        },
                    },
                },
            },
        }
    }
}

/// Relies on String::from_utf8: it returns Ok exactly on valid UTF-8
/// input, and the returned string's UTF-8 encoding is the input bytes.
#[verifier::external_body]
pub(crate) fn string_from_utf8(bytes: Vec<u8>) -> (r: Option<String>)
    ensures
        r is Some <==> valid_utf8(bytes@),
        r is Some ==> encode_utf8(r->0@) == bytes@,
{
    String::from_utf8(bytes).ok()
}

fn parse_name(buf: &[u8], pos: usize) -> (r: Result<(Vec<String>, usize), MalformedMessage>)
    ensures
        match r {
            Ok(v) => spec_decode_name(buf@, pos as int) == Some((v.0.deep_view(), v.1 as int))
                && v.1 <= buf@.len(),
            Err(_) => spec_decode_name(buf@, pos as int) is None,
        },
{
    let ghost bv = buf@;
    let ghost pos0 = pos as int;
    let mut labels: Vec<String> = Vec::new();
    let ghost mut accb: Seq<Seq<u8>> = Seq::empty();
    let mut cur: usize = pos;
    let mut back: Option<usize> = None;
    let mut jleft: usize = buf.len();
    proof {
        assert(accb + (spec_parse_name(bv, cur as int, spec_opt_pos(back), jleft as nat)->0).0
            =~= (spec_parse_name(bv, cur as int, spec_opt_pos(back), jleft as nat)->0).0);
    }
    loop
        invariant
            bv == buf@,
            pos0 == pos as int,
            jleft <= bv.len(),
            back is Some ==> back->0 <= bv.len(),
            spec_parse_name(bv, pos0, None, bv.len() as nat) == (match spec_parse_name(
                bv,
                cur as int,
                spec_opt_pos(back),
                jleft as nat,
            ) {
                None => None::<(Seq<Seq<u8>>, int)>,
                Some((ls, rp)) => Some((accb + ls, rp)),
            }),
            labels.deep_view().len() == accb.len(),
            forall|k: int| 0 <= k < accb.len() ==> valid_utf8(#[trigger] accb[k]),
            forall|k: int|
                0 <= k < accb.len() ==> labels.deep_view()[k] == decode_utf8(#[trigger] accb[k]),
        decreases jleft, bv.len() - cur,
    {
        let ghost inner0 = spec_parse_name(bv, cur as int, spec_opt_pos(back), jleft as nat);
        if cur >= buf.len() {
            return Err(MalformedMessage);
        }
        let size = buf[cur];
        if size == 0 {
            let resume = match back {
                Some(r) => r,
                None => cur + 1,
            };
            proof {
                assert(inner0 == Some((Seq::<Seq<u8>>::empty(), resume as int)));
                assert(accb + Seq::<Seq<u8>>::empty() =~= accb);
                assert(spec_parse_name(bv, pos0, None, bv.len() as nat) == Some(
                    (accb, resume as int),
                ));
                assert(labels.deep_view() =~~= accb.map_values(|l: Seq<u8>| decode_utf8(l)));
            }
            return Ok((labels, resume));
        }
        if size >= 192 {
            if cur + 1 >= buf.len() {
                return Err(MalformedMessage);
            }
            if jleft == 0 {
                proof {
                    assert(inner0 is None);
                }
                return Err(MalformedMessage);
            }
            let offset: usize = ((size - 192) as usize) * 256 + (buf[cur + 1] as usize);
            if back.is_none() {
                back = Some(cur + 2);
            }
            cur = offset;
            jleft -= 1;
            continue;
        }
        // a plain label of `size` bytes
        let sz = size as usize;
        if sz > buf.len() - (cur + 1) {
            proof {
                assert(cur as int + 1 + size as int > bv.len());
                assert(inner0 is None);
            }
            return Err(MalformedMessage);
        }
        let lb = vstd::slice::slice_to_vec(vstd::slice::slice_subrange(buf, cur + 1, cur + 1 + sz));
        let ghost lbv = lb@;
        let ghost inner1 = spec_parse_name(bv, cur as int + 1 + size as int, spec_opt_pos(back), jleft as nat);
        proof {
            assert(lbv == bv.subrange(cur as int + 1, cur as int + 1 + size as int));
            assert(inner0 == (match inner1 {
                None => None::<(Seq<Seq<u8>>, int)>,
                Some((rest, rp)) => Some((seq![lbv] + rest, rp)),
            }));
        }
        match string_from_utf8(lb) {
            None => {
                proof {
                    let outer = spec_parse_name(bv, pos0, None, bv.len() as nat);
                    if outer is Some {
                        assert(inner0 is Some);
                        assert((inner0->0).0[0] == lbv);
                        assert((outer->0).0 == accb + (inner0->0).0);
                        assert((outer->0).0[accb.len() as int] == lbv);
                        assert(!valid_utf8((outer->0).0[accb.len() as int]));
                    }
                }
                return Err(MalformedMessage);
            },
            Some(lab) => {
                labels.push(lab);
                proof {
                    accb = accb + seq![lbv];
                    if inner1 is Some {
                        assert((accb.drop_last() + (seq![lbv] + (inner1->0).0)) =~= (accb
                            + (inner1->0).0));
                    }
                    assert(accb.drop_last() + seq![lbv] =~= accb);
                    assert(forall|k: int|
                        0 <= k < accb.len() - 1 ==> accb.drop_last()[k] == #[trigger] accb[k]);
                    assert(valid_utf8(lbv));
                    assert(decode_utf8(encode_utf8(lab@)) == lab@) by {
                        vstd::utf8::encode_utf8_decode_utf8(lab@);
                    }
                    assert(labels.deep_view().last() == decode_utf8(lbv));
                }
                cur = cur + 1 + sz;
            },
        }
    }
}

fn parse_questions(buf: &[u8], pos: usize, count: u16) -> (r: Result<
    (Vec<Question>, usize),
    MalformedMessage,
>)
    requires
        pos <= buf@.len(),
    ensures
        match r {
            Ok(v) => spec_parse_questions(buf@, pos as int, count as int) == Some(
                (v.0.deep_view(), v.1 as int),
            ) && v.1 <= buf@.len(),
            Err(_) => spec_parse_questions(buf@, pos as int, count as int) is None,
        },
{
    let ghost bv = buf@;
    let mut acc: Vec<Question> = Vec::new();
    let mut cur: usize = pos;
    let mut c: u16 = 0;
    while c < count
        invariant
            bv == buf@,
            c <= count,
            cur <= bv.len(),
            acc.deep_view().len() == c as int,
            spec_parse_questions(bv, pos as int, count as int) == (match spec_parse_questions(
                bv,
                cur as int,
                count as int - c as int,
            ) {
                None => None::<(Seq<QuestionV>, int)>,
                Some((rest, pe)) => Some((acc.deep_view() + rest, pe)),
            }),
        decreases count - c,
    {
        let ghost accd0 = acc.deep_view();
        let (qname, p) = match parse_name(buf, cur) {
            Ok(v) => v,
            Err(e) => {
                return Err(e);
            },
        };
        if buf.len() - p < 4 {
            return Err(MalformedMessage);
        }
        let qtype = read_u16_at(buf, p);
        let qclass = read_u16_at(buf, p + 2);
        let ghost qv = QuestionV { qname: qname.deep_view(), qtype, qclass };
        acc.push(Question { qname, qtype, qclass });
        cur = p + 4;
        c += 1;
        proof {
            assert(acc.deep_view() =~~= accd0.push(qv));
            assert forall|rest: Seq<QuestionV>| true implies accd0 + (seq![qv] + rest) =~= acc
                .deep_view() + rest by {
                assert(accd0 + (seq![qv] + rest) =~= accd0.push(qv) + rest);
            }
        }
    }
    proof {
        assert(acc.deep_view() + Seq::<QuestionV>::empty() =~= acc.deep_view());
    }
    Ok((acc, cur))
}

fn parse_resources(buf: &[u8], pos: usize, count: u16) -> (r: Result<
    (Vec<Resource>, usize),
    MalformedMessage,
>)
    requires
        pos <= buf@.len(),
    ensures
        match r {
            Ok(v) => spec_parse_resources(buf@, pos as int, count as int) == Some(
                (v.0.deep_view(), v.1 as int),
            ) && v.1 <= buf@.len(),
            Err(_) => spec_parse_resources(buf@, pos as int, count as int) is None,
        },
{
    let ghost bv = buf@;
    let mut acc: Vec<Resource> = Vec::new();
    let mut cur: usize = pos;
    let mut c: u16 = 0;
    while c < count
        invariant
            bv == buf@,
            c <= count,
            cur <= bv.len(),
            acc.deep_view().len() == c as int,
            spec_parse_resources(bv, pos as int, count as int) == (match spec_parse_resources(
                bv,
                cur as int,
                count as int - c as int,
            ) {
                None => None::<(Seq<ResourceV>, int)>,
                Some((rest, pe)) => Some((acc.deep_view() + rest, pe)),
            }),
        decreases count - c,
    {
        let ghost accd0 = acc.deep_view();
        let (rname, p) = match parse_name(buf, cur) {
            Ok(v) => v,
            Err(e) => {
                return Err(e);
            },
        };
        if buf.len() - p < 10 {
            return Err(MalformedMessage);
        }
        let rtype = read_u16_at(buf, p);
        let rclass = read_u16_at(buf, p + 2);
        let ttl = read_u32_at(buf, p + 4);
        let rdlen = read_u16_at(buf, p + 8);
        let body = p + 10;
        let rdata: Vec<u8>;
        let next: usize;
        if rtype == 5 || rtype == 2 {
            let (nm2, p2) = match parse_name(buf, body) {
                Ok(v) => v,
                Err(e) => {
                    return Err(e);
                },
            };
            rdata = serialize_name(&nm2);
            next = p2;
        } else if rtype == 15 {
            if buf.len() - body < 2 {
                return Err(MalformedMessage);
            }
            let b0 = buf[body];
            let b1 = buf[body + 1];
            let (nm2, p2) = match parse_name(buf, body + 2) {
                Ok(v) => v,
                Err(e) => {
                    return Err(e);
                },
            };
            let mut rd: Vec<u8> = Vec::new();
            rd.push(b0);
            rd.push(b1);
            let mut tail = serialize_name(&nm2);
            rd.append(&mut tail);
            proof {
                assert(rd@ =~= seq![bv[body as int], bv[body as int + 1]] + spec_name_bytes(
                    nm2.deep_view(),
                ));
            }
            rdata = rd;
            next = p2;
        } else {
            if (rdlen as usize) > buf.len() - body {
                return Err(MalformedMessage);
            }
            rdata = vstd::slice::slice_to_vec(
                vstd::slice::slice_subrange(buf, body, body + rdlen as usize),
            );
            next = body + rdlen as usize;
        }
        let ghost rv = ResourceV {
            rname: rname.deep_view(),
            rtype,
            rclass,
            ttl,
            rdata: rdata@,
        };
        acc.push(Resource { rname, rtype, rclass, ttl, rdata });
        cur = next;
        c += 1;
        proof {
            assert(acc.deep_view() =~~= accd0.push(rv));
            assert forall|rest: Seq<ResourceV>| true implies accd0 + (seq![rv] + rest) =~= acc
                .deep_view() + rest by {
                assert(accd0 + (seq![rv] + rest) =~= accd0.push(rv) + rest);
            }
        }
    }
    proof {
        assert(acc.deep_view() + Seq::<ResourceV>::empty() =~= acc.deep_view());
    }
    Ok((acc, cur))
}

fn parse_edns_options(d: &Vec<u8>) -> (r: Result<Vec<EdnsOption>, MalformedMessage>)
    ensures
        match r {
            Ok(v) => spec_parse_edns_options(d@, 0) == Some(v.deep_view()),
            Err(_) => spec_parse_edns_options(d@, 0) is None,
        },
{
    let ghost dv = d@;
    let mut acc: Vec<EdnsOption> = Vec::new();
    let mut cur: usize = 0;
    while cur < d.len()
        invariant
            dv == d@,
            cur <= dv.len(),
            spec_parse_edns_options(dv, 0) == (match spec_parse_edns_options(dv, cur as int) {
                None => None::<Seq<EdnsOptionV>>,
                Some(rest) => Some(acc.deep_view() + rest),
            }),
        decreases dv.len() - cur,
    {
        let ghost accd0 = acc.deep_view();
        if d.len() - cur < 4 {
            return Err(MalformedMessage);
        }
        let code = read_u16_at(d.as_slice(), cur);
        let olen = read_u16_at(d.as_slice(), cur + 2);
        if (olen as usize) > d.len() - (cur + 4) {
            return Err(MalformedMessage);
        }
        let data = vstd::slice::slice_to_vec(
            vstd::slice::slice_subrange(d.as_slice(), cur + 4, cur + 4 + olen as usize),
        );
        let ghost ov = EdnsOptionV { code, data: data@ };
        acc.push(EdnsOption { code, data });
        cur = cur + 4 + olen as usize;
        proof {
            assert(acc.deep_view() =~~= accd0.push(ov));
            assert forall|rest: Seq<EdnsOptionV>| true implies accd0 + (seq![ov] + rest) =~= acc
                .deep_view() + rest by {
                assert(accd0 + (seq![ov] + rest) =~= accd0.push(ov) + rest);
            }
        }
    }
    proof {
        assert(acc.deep_view() + Seq::<EdnsOptionV>::empty() =~= acc.deep_view());
    }
    Ok(acc)
}

fn promote_edns(additional: Vec<Resource>) -> (r: Result<
    (Vec<Resource>, Option<Edns>),
    MalformedMessage,
>)
    ensures
        match r {
            Ok(v) => spec_promote_edns(additional.deep_view()) == Some(
                (v.0.deep_view(), v.1.deep_view()),
            ),
            Err(_) => spec_promote_edns(additional.deep_view()) is None,
        },
{
    let ghost dv = additional.deep_view();
    let mut filtered: Vec<Resource> = Vec::new();
    let mut edns: Option<Edns> = None;
    let mut i: usize = 0;
    proof {
        assert(dv.skip(0) =~= dv);
    }
    while i < additional.len()
        invariant
            dv == additional.deep_view(),
            dv.len() == additional@.len(),
            i <= additional@.len(),
            spec_promote_edns(dv) == (match spec_promote_edns(dv.skip(i as int)) {
                None => None::<(Seq<ResourceV>, Option<EdnsV>)>,
                Some((restf, reste)) => Some(
                    (
                        filtered.deep_view() + restf,
                        if reste is Some {
                            reste
                        } else {
                            edns.deep_view()
                        },
                    ),
                ),
            }),
        decreases additional@.len() - i,
    {
        let ghost filtd0 = filtered.deep_view();
        proof {
            assert(dv.skip(i as int)[0] == dv[i as int]);
            assert(dv.skip(i as int).drop_first() =~= dv.skip(i as int + 1));
        }
        let x = &additional[i];
        proof {
            assert(x.rdata@ == dv[i as int].rdata);
            assert(x.rtype == dv[i as int].rtype);
            assert(x.rclass == dv[i as int].rclass);
            assert(x.ttl == dv[i as int].ttl);
        }
        if x.rtype == 41 {
            let options = match parse_edns_options(&x.rdata) {
                Ok(v) => v,
                Err(e) => {
                    proof {
                        assert(spec_promote_edns(dv.skip(i as int)) is None);
                    }
                    return Err(e);
                },
            };
            proof {
                assert(options.deep_view() == spec_parse_edns_options(dv[i as int].rdata, 0)->0);
            }
            edns = Some(
                Edns {
                    udp_payload_size: x.rclass,
                    extended_rcode_and_flags: x.ttl,
                    options,
                },
            );
            proof {
                let prev = spec_promote_edns(dv.skip(i as int + 1));
                if prev is Some {
                    let this_v = EdnsV {
                        udp_payload_size: dv[i as int].rclass,
                        extended_rcode_and_flags: dv[i as int].ttl,
                        options: spec_parse_edns_options(dv[i as int].rdata, 0)->0,
                    };
                    assert(edns.deep_view() == Some(this_v));
                }
            }
        } else {
            filtered.push(clone_resource(x));
            proof {
                assert(filtered.deep_view() =~~= filtd0.push(dv[i as int]));
                assert forall|restf: Seq<ResourceV>| true implies filtd0 + (seq![dv[i as int]]
                    + restf) =~= filtered.deep_view() + restf by {
                    assert(filtd0 + (seq![dv[i as int]] + restf) =~= filtd0.push(dv[i as int])
                        + restf);
                }
            }
        }
        i += 1;
    }
    proof {
        assert(dv.skip(dv.len() as int) =~= Seq::<ResourceV>::empty());
        assert(filtered.deep_view() + Seq::<ResourceV>::empty() =~= filtered.deep_view());
    }
    Ok((filtered, edns))
}

/// Decodes one DNS message from wire bytes. Fails on short reads,
/// invalid UTF-8 in a label, or invalid compression pointers.
pub fn parse(buf: &[u8]) -> (r: Result<Message, MalformedMessage>)
    ensures
        match r {
            Ok(m) => spec_parse(buf@) == Some(m.deep_view()),
            Err(_) => spec_parse(buf@) is None,
        },
{
    if buf.len() < 12 {
        return Err(MalformedMessage);
    }
    let id = read_u16_at(buf, 0);
    let flags = read_u16_at(buf, 2);
    let qd = read_u16_at(buf, 4);
    let an = read_u16_at(buf, 6);
    let ns = read_u16_at(buf, 8);
    let ar = read_u16_at(buf, 10);
    let header = Header {
        id,
        qr: flags / 32768 % 2 == 1,
        opcode: (flags / 2048 % 16) as u8,
        aa: flags / 1024 % 2 == 1,
        tc: flags / 512 % 2 == 1,
        rd: flags / 256 % 2 == 1,
        ra: flags / 128 % 2 == 1,
        z: (flags / 16 % 8) as u8,
        rcode: (flags % 16) as u8,
    };
    let (question, p1) = match parse_questions(buf, 12, qd) {
        Ok(v) => v,
        Err(e) => {
            return Err(e);
        },
    };
    let (answer, p2) = match parse_resources(buf, p1, an) {
        Ok(v) => v,
        Err(e) => {
            return Err(e);
        },
    };
    let (authority, p3) = match parse_resources(buf, p2, ns) {
        Ok(v) => v,
        Err(e) => {
            return Err(e);
        },
    };
    let (additional0, _p4) = match parse_resources(buf, p3, ar) {
        Ok(v) => v,
        Err(e) => {
            return Err(e);
        },
    };
    let (additional, edns) = match promote_edns(additional0) {
        Ok(v) => v,
        Err(e) => {
            return Err(e);
        },
    };
    Ok(Message { header, question, answer, authority, additional, edns })
}

// ---------------------------------------------------------------------
// Round trip: parsing what the encoder wrote gives the message back.
// ---------------------------------------------------------------------

/// Labels an encoder-produced name can round-trip: nonempty, and short
/// enough that the length byte is neither a terminator nor read as a
/// compression pointer.
pub open spec fn wf_name_labels(nm: Seq<Seq<char>>) -> bool {
    forall|i: int| 0 <= i < nm.len() ==> 1 <= encode_utf8(#[trigger] nm[i]).len() <= 191
}

proof fn lemma_ru16_of_be(b: Seq<u8>, p: int, x: u16)
    requires
        0 <= p,
        p + 2 <= b.len(),
        b.subrange(p, p + 2) == spec_u16_be(x),
    ensures
        spec_ru16(b, p) == x,
{
    assert(b[p] == spec_u16_be(x)[0]);
    assert(b[p + 1] == spec_u16_be(x)[1]);
}

proof fn lemma_ru32_of_be(b: Seq<u8>, p: int, x: u32)
    requires
        0 <= p,
        p + 4 <= b.len(),
        b.subrange(p, p + 4) == spec_u32_be(x),
    ensures
        spec_ru32(b, p) == x,
{
    assert(b[p] == spec_u32_be(x)[0]);
    assert(b[p + 1] == spec_u32_be(x)[1]);
    assert(b[p + 2] == spec_u32_be(x)[2]);
    assert(b[p + 3] == spec_u32_be(x)[3]);
}

/// Reading a name written without compression returns exactly its
/// labels' bytes and stops right after the terminator.
proof fn lemma_parse_name_of_bytes(b: Seq<u8>, p: int, nm: Seq<Seq<char>>, ret: Option<int>, jumps: nat)
    requires
        wf_name_labels(nm),
        0 <= p,
        p + spec_name_bytes(nm).len() <= b.len(),
        b.subrange(p, p + spec_name_bytes(nm).len() as int) == spec_name_bytes(nm),
    ensures
        spec_parse_name(b, p, ret, jumps) == Some(
            (
                nm.map_values(|l: Seq<char>| encode_utf8(l)),
                match ret {
                    None => p + spec_name_bytes(nm).len(),
                    Some(r) => r,
                },
            ),
        ),
    decreases nm.len(),
{
    let nb = spec_name_bytes(nm);
    if nm.len() == 0 {
        assert(nb =~= seq![0u8]);
        assert(b[p] == b.subrange(p, p + nb.len() as int)[0]);
        assert(b[p] == 0);
        assert(nm.map_values(|l: Seq<char>| encode_utf8(l)) =~= Seq::<Seq<u8>>::empty());
    } else {
        let l = nm[0];
        let el = encode_utf8(l);
        let rest = nm.drop_first();
        assert(spec_labels_bytes(nm) == spec_label_wire(l) + spec_labels_bytes(rest));
        assert(nb =~= spec_label_wire(l) + spec_name_bytes(rest));
        assert(spec_label_wire(l).len() == 1 + el.len());
        assert(b[p] == b.subrange(p, p + nb.len() as int)[0]);
        assert(b[p] == nb[0]);
        assert(nb[0] == (el.len() % 256) as u8);
        assert(el.len() % 256 == el.len());
        let size = b[p] as int;
        assert(size == el.len());
        assert(1 <= size <= 191);
        // the label bytes written are the label's encoding
        assert(b.subrange(p + 1, p + 1 + size) =~= el) by {
            assert(forall|k: int|
                0 <= k < size ==> b.subrange(p, p + nb.len() as int)[1 + k] == #[trigger] b[p + 1
                    + k]);
            assert(forall|k: int| 0 <= k < size ==> nb[1 + k] == #[trigger] el[k]);
        }
        // the remainder is the rest of the name
        let rl = spec_name_bytes(rest).len() as int;
        assert(b.subrange(p + 1 + size, p + 1 + size + rl) =~= spec_name_bytes(rest)) by {
            assert(forall|k: int|
                0 <= k < rl ==> b.subrange(p, p + nb.len() as int)[1 + size + k] == #[trigger] b[p
                    + 1 + size + k]);
            assert(forall|k: int|
                0 <= k < rl ==> nb[1 + size + k] == #[trigger] spec_name_bytes(rest)[k]);
        }
        lemma_parse_name_of_bytes(b, p + 1 + size, rest, ret, jumps);
        assert(nm.map_values(|ll: Seq<char>| encode_utf8(ll)) =~= seq![el]
            + rest.map_values(|ll: Seq<char>| encode_utf8(ll)));
    }
}

/// Reading and decoding a name written without compression gives the
/// labels back.
proof fn lemma_decode_name_of_bytes(b: Seq<u8>, p: int, nm: Seq<Seq<char>>)
    requires
        wf_name_labels(nm),
        0 <= p,
        p + spec_name_bytes(nm).len() <= b.len(),
        b.subrange(p, p + spec_name_bytes(nm).len() as int) == spec_name_bytes(nm),
    ensures
        spec_decode_name(b, p) == Some((nm, p + spec_name_bytes(nm).len())),
{
    lemma_parse_name_of_bytes(b, p, nm, None, b.len() as nat);
    let ls = nm.map_values(|l: Seq<char>| encode_utf8(l));
    assert forall|k: int| 0 <= k < ls.len() implies valid_utf8(#[trigger] ls[k]) by {
        vstd::utf8::encode_utf8_valid_utf8(nm[k]);
    }
    assert(ls.map_values(|l: Seq<u8>| decode_utf8(l)) =~= nm) by {
        assert forall|k: int|
            0 <= k < nm.len() implies ls.map_values(|l: Seq<u8>| decode_utf8(l))[k] == #[trigger] nm[k] by {
            vstd::utf8::encode_utf8_decode_utf8(nm[k]);
        }
    }
}

/// An additional section without OPT records promotes to itself with
/// no EDNS state.
proof fn lemma_promote_no_opt(adds: Seq<ResourceV>)
    requires
        forall|i: int| 0 <= i < adds.len() ==> (#[trigger] adds[i]).rtype != 41,
    ensures
        spec_promote_edns(adds) == Some((adds, None::<EdnsV>)),
    decreases adds.len(),
{
    if adds.len() > 0 {
        assert(forall|i: int|
            0 <= i < adds.drop_first().len() ==> #[trigger] adds.drop_first()[i] == adds[i + 1]);
        lemma_promote_no_opt(adds.drop_first());
        assert(seq![adds[0]] + adds.drop_first() =~= adds);
    }
}

/// Extracting the header fields from an encoder-built flags word gives
/// the fields back.
proof fn lemma_flags_roundtrip(h: Header, truncated: bool)
    requires
        wf_header(h),
    ensures
        ({
            let w = spec_flags_word(h, truncated) as int;
            &&& w / 32768 % 2 == (if h.qr { 1int } else { 0int })
            &&& w / 2048 % 16 == h.opcode as int
            &&& w / 1024 % 2 == (if h.aa { 1int } else { 0int })
            &&& w / 512 % 2 == (if h.tc || truncated { 1int } else { 0int })
            &&& w / 256 % 2 == (if h.rd { 1int } else { 0int })
            &&& w / 128 % 2 == (if h.ra { 1int } else { 0int })
            &&& w / 16 % 8 == h.z as int
            &&& w % 16 == h.rcode as int
        }),
{
    let rcode = h.rcode as int;
    let z = h.z as int;
    let ra: int = if h.ra { 1 } else { 0 };
    let rd: int = if h.rd { 1 } else { 0 };
    let tc: int = if h.tc || truncated {
        1
    } else {
        0
    };
    let aa: int = if h.aa { 1 } else { 0 };
    let opcode = h.opcode as int;
    let qr: int = if h.qr { 1 } else { 0 };
    let w0 = rcode + z * 16 + ra * 128 + rd * 256 + tc * 512 + aa * 1024 + opcode * 2048 + qr
        * 32768;
    assert(0 <= w0 < 65536);
    assert(spec_flags_word(h, truncated) as int == w0);
    assert(w0 % 16 == rcode) by (nonlinear_arith)
        requires
            w0 == rcode + 16 * (z + ra * 8 + rd * 16 + tc * 32 + aa * 64 + opcode * 128 + qr
                * 2048),
            0 <= rcode < 16,
    ;
    assert(w0 / 16 % 8 == z) by (nonlinear_arith)
        requires
            w0 == (rcode + z * 16) + 128 * (ra + rd * 2 + tc * 4 + aa * 8 + opcode * 16 + qr
                * 256),
            0 <= rcode < 16,
            0 <= z < 8,
    ;
    assert(w0 / 128 % 2 == ra) by (nonlinear_arith)
        requires
            w0 == (rcode + z * 16 + ra * 128) + 256 * (rd + tc * 2 + aa * 4 + opcode * 8 + qr
                * 128),
            0 <= rcode + z * 16 < 128,
            0 <= ra < 2,
    ;
    assert(w0 / 256 % 2 == rd) by (nonlinear_arith)
        requires
            w0 == (rcode + z * 16 + ra * 128 + rd * 256) + 512 * (tc + aa * 2 + opcode * 4 + qr
                * 64),
            0 <= rcode + z * 16 + ra * 128 < 256,
            0 <= rd < 2,
    ;
    assert(w0 / 512 % 2 == tc) by (nonlinear_arith)
        requires
            w0 == (rcode + z * 16 + ra * 128 + rd * 256 + tc * 512) + 1024 * (aa + opcode * 2 + qr
                * 32),
            0 <= rcode + z * 16 + ra * 128 + rd * 256 < 512,
            0 <= tc < 2,
    ;
    assert(w0 / 1024 % 2 == aa) by (nonlinear_arith)
        requires
            w0 == (rcode + z * 16 + ra * 128 + rd * 256 + tc * 512 + aa * 1024) + 2048 * (opcode
                + qr * 16),
            0 <= rcode + z * 16 + ra * 128 + rd * 256 + tc * 512 < 1024,
            0 <= aa < 2,
    ;
    assert(w0 / 2048 % 16 == opcode) by (nonlinear_arith)
        requires
            w0 == (rcode + z * 16 + ra * 128 + rd * 256 + tc * 512 + aa * 1024 + opcode * 2048)
                + 32768 * qr,
            0 <= rcode + z * 16 + ra * 128 + rd * 256 + tc * 512 + aa * 1024 < 2048,
            0 <= opcode < 16,
    ;
    assert(w0 / 32768 % 2 == qr) by (nonlinear_arith)
        requires
            w0 == (rcode + z * 16 + ra * 128 + rd * 256 + tc * 512 + aa * 1024 + opcode * 2048)
                + 32768 * qr,
            0 <= rcode + z * 16 + ra * 128 + rd * 256 + tc * 512 + aa * 1024 + opcode * 2048
                < 32768,
            0 <= qr < 2,
    ;
}

/// Carves one piece out of a byte run known to sit at `p`.
proof fn lemma_extract(b: Seq<u8>, p: int, pre: int, piece: Seq<u8>, whole: Seq<u8>)
    requires
        0 <= p,
        0 <= pre,
        pre + piece.len() <= whole.len(),
        p + whole.len() <= b.len(),
        b.subrange(p, p + whole.len() as int) == whole,
        forall|k: int| 0 <= k < piece.len() ==> whole[pre + k] == #[trigger] piece[k],
    ensures
        b.subrange(p + pre, p + pre + piece.len() as int) == piece,
{
    assert(b.subrange(p + pre, p + pre + piece.len() as int) =~= piece) by {
        assert(forall|k: int|
            0 <= k < whole.len() ==> #[trigger] b[p + k] == whole[k]);
    }
}

#[verifier::rlimit(100)]
proof fn lemma_parse_questions_of_bytes(b: Seq<u8>, p: int, qs: Seq<QuestionV>)
    requires
        forall|i: int| 0 <= i < qs.len() ==> wf_name_labels((#[trigger] qs[i]).qname),
        0 <= p,
        p + spec_concat_q(qs).len() <= b.len(),
        b.subrange(p, p + spec_concat_q(qs).len() as int) == spec_concat_q(qs),
    ensures
        spec_parse_questions(b, p, qs.len() as int) == Some(
            (qs, p + spec_concat_q(qs).len()),
        ),
    decreases qs.len(),
{
    if qs.len() > 0 {
        let q = qs[0];
        let qw = spec_question_wire(q);
        let cb = spec_concat_q(qs);
        let nb = spec_name_bytes(q.qname);
        let nl = nb.len() as int;
        let rest = qs.drop_first();
        let rb = spec_concat_q(rest);
        assert(cb =~= qw + rb);
        assert(qw.len() == nl + 4);
        lemma_extract(b, p, 0, nb, cb);
        lemma_decode_name_of_bytes(b, p, q.qname);
        lemma_extract(b, p, nl, spec_u16_be(q.qtype), cb);
        lemma_ru16_of_be(b, p + nl, q.qtype);
        lemma_extract(b, p, nl + 2, spec_u16_be(q.qclass), cb);
        lemma_ru16_of_be(b, p + nl + 2, q.qclass);
        lemma_extract(b, p, qw.len() as int, rb, cb);
        lemma_parse_questions_of_bytes(b, p + qw.len() as int, rest);
        assert(QuestionV {
            qname: q.qname,
            qtype: spec_ru16(b, p + nl),
            qclass: spec_ru16(b, p + nl + 2),
        } =~~= q);
        assert(seq![q] + rest =~= qs);
    }
}

/// Encoder-written rdata of a CNAME, NS or MX record carries a
/// canonical (uncompressed) wire name, as the decoder leaves it.
pub open spec fn canonical_rdata(r: ResourceV) -> bool {
    if r.rtype == 5 || r.rtype == 2 {
        exists|nm: Seq<Seq<char>>|
            wf_name_labels(nm) && r.rdata == spec_name_bytes(nm)
    } else if r.rtype == 15 {
        r.rdata.len() >= 2 && exists|nm: Seq<Seq<char>>|
            wf_name_labels(nm) && r.rdata.skip(2) == spec_name_bytes(nm)
    } else {
        true
    }
}

#[verifier::rlimit(100)]
proof fn lemma_parse_resources_of_bytes(b: Seq<u8>, p: int, rs: Seq<ResourceV>)
    requires
        forall|i: int| 0 <= i < rs.len() ==> wf_name_labels((#[trigger] rs[i]).rname),
        forall|i: int| 0 <= i < rs.len() ==> canonical_rdata(#[trigger] rs[i]),
        forall|i: int| 0 <= i < rs.len() ==> (#[trigger] rs[i]).rdata.len() <= 0xFFFF,
        0 <= p,
        p + spec_concat_r(rs).len() <= b.len(),
        b.subrange(p, p + spec_concat_r(rs).len() as int) == spec_concat_r(rs),
    ensures
        spec_parse_resources(b, p, rs.len() as int) == Some(
            (rs, p + spec_concat_r(rs).len()),
        ),
    decreases rs.len(),
{
    if rs.len() > 0 {
        let r = rs[0];
        let rw = spec_resource_wire(r);
        let cb = spec_concat_r(rs);
        let nb = spec_name_bytes(r.rname);
        let nl = nb.len() as int;
        let rest = rs.drop_first();
        let rb = spec_concat_r(rest);
        assert(cb =~= rw + rb);
        assert(rw.len() == nl + 10 + r.rdata.len());
        lemma_extract(b, p, 0, nb, cb);
        lemma_decode_name_of_bytes(b, p, r.rname);
        lemma_extract(b, p, nl, spec_u16_be(r.rtype), cb);
        lemma_ru16_of_be(b, p + nl, r.rtype);
        lemma_extract(b, p, nl + 2, spec_u16_be(r.rclass), cb);
        lemma_ru16_of_be(b, p + nl + 2, r.rclass);
        lemma_extract(b, p, nl + 4, spec_u32_be(r.ttl), cb);
        lemma_ru32_of_be(b, p + nl + 4, r.ttl);
        let rdl = (r.rdata.len() % 0x10000) as u16;
        assert(rdl as int == r.rdata.len() as int);
        lemma_extract(b, p, nl + 8, spec_u16_be(rdl), cb);
        lemma_ru16_of_be(b, p + nl + 8, rdl);
        let body = p + nl + 10;
        lemma_extract(b, p, nl + 10, r.rdata, cb);
        // the cursor moves past the rdata in each rdata shape
        if r.rtype == 5 || r.rtype == 2 {
            let nm2 = choose|nm: Seq<Seq<char>>|
                wf_name_labels(nm) && r.rdata == spec_name_bytes(nm);
            assert(b.subrange(body, body + spec_name_bytes(nm2).len() as int) == spec_name_bytes(
                nm2,
            ));
            lemma_decode_name_of_bytes(b, body, nm2);
        } else if r.rtype == 15 {
            let nm2 = choose|nm: Seq<Seq<char>>|
                wf_name_labels(nm) && r.rdata.skip(2) == spec_name_bytes(nm);
            assert(b[body] == b.subrange(body, body + r.rdata.len() as int)[0]);
            assert(b[body + 1] == b.subrange(body, body + r.rdata.len() as int)[1]);
            lemma_extract(b, body, 2, spec_name_bytes(nm2), r.rdata);
            lemma_decode_name_of_bytes(b, body + 2, nm2);
            assert(seq![b[body], b[body + 1]] + spec_name_bytes(nm2) =~= r.rdata);
        }
        lemma_extract(b, p, rw.len() as int, rb, cb);
        lemma_parse_resources_of_bytes(b, p + rw.len() as int, rest);
        assert(seq![r] + rest =~= rs);
    }
}

/// A message the encoder can write losslessly: bounded header fields,
/// canonical names and rdata, 16-bit section counts, no EDNS state and
/// no OPT record.
pub open spec fn wf_wire_message(m: MessageV) -> bool {
    &&& wf_header(m.header)
    &&& m.edns is None
    &&& m.question.len() <= 0xFFFF
    &&& m.answer.len() <= 0xFFFF
    &&& m.authority.len() <= 0xFFFF
    &&& m.additional.len() <= 0xFFFF
    &&& forall|i: int| 0 <= i < m.question.len() ==> wf_name_labels((#[trigger] m.question[i]).qname)
    &&& forall|i: int| 0 <= i < m.answer.len() ==> wf_name_labels((#[trigger] m.answer[i]).rname)
    &&& forall|i: int|
        0 <= i < m.authority.len() ==> wf_name_labels((#[trigger] m.authority[i]).rname)
    &&& forall|i: int|
        0 <= i < m.additional.len() ==> wf_name_labels((#[trigger] m.additional[i]).rname)
    &&& forall|i: int| 0 <= i < m.answer.len() ==> canonical_rdata(#[trigger] m.answer[i])
    &&& forall|i: int| 0 <= i < m.authority.len() ==> canonical_rdata(#[trigger] m.authority[i])
    &&& forall|i: int| 0 <= i < m.additional.len() ==> canonical_rdata(#[trigger] m.additional[i])
    &&& forall|i: int| 0 <= i < m.answer.len() ==> (#[trigger] m.answer[i]).rdata.len() <= 0xFFFF
    &&& forall|i: int|
        0 <= i < m.authority.len() ==> (#[trigger] m.authority[i]).rdata.len() <= 0xFFFF
    &&& forall|i: int|
        0 <= i < m.additional.len() ==> (#[trigger] m.additional[i]).rdata.len() <= 0xFFFF
    &&& forall|i: int| 0 <= i < m.additional.len() ==> (#[trigger] m.additional[i]).rtype != 41
}

/// The wire layout of an encoded message: where each piece sits and
/// what the section parsers return on it.
#[verifier::rlimit(100)]
proof fn lemma_wire_layout(m: MessageV)
    requires
        wf_wire_message(m),
        !spec_plan(m, true).0,
    ensures
        ({
            let b = spec_serialize(m, true);
            let p1 = 12 + spec_concat_q(m.question).len() as int;
            let p2 = p1 + spec_concat_r(m.answer).len() as int;
            let p3 = p2 + spec_concat_r(m.authority).len() as int;
            let p4 = p3 + spec_concat_r(m.additional).len() as int;
            &&& b.len() >= 12
            &&& spec_ru16(b, 0) == m.header.id
            &&& spec_ru16(b, 2) == spec_flags_word(m.header, false)
            &&& spec_ru16(b, 4) as int == m.question.len()
            &&& spec_ru16(b, 6) as int == m.answer.len()
            &&& spec_ru16(b, 8) as int == m.authority.len()
            &&& spec_ru16(b, 10) as int == m.additional.len()
            &&& spec_parse_questions(b, 12, m.question.len() as int) == Some((m.question, p1))
            &&& spec_parse_resources(b, p1, m.answer.len() as int) == Some((m.answer, p2))
            &&& spec_parse_resources(b, p2, m.authority.len() as int) == Some((m.authority, p3))
            &&& spec_parse_resources(b, p3, m.additional.len() as int) == Some(
                (m.additional, p4),
            )
        }),
{
    let avail = spec_avail(m, true);
    lemma_take_q_props(m.question, 12, avail);
    let (nq0, s1) = spec_take_q(m.question, 12, avail);
    lemma_take_r_props(m.answer, s1, avail);
    let (na0, s2) = spec_take_r(m.answer, s1, avail);
    lemma_take_r_props(m.authority, s2, avail);
    let (nh0, s3) = spec_take_r(m.authority, s2, avail);
    assert(spec_add_section(m) == m.additional);
    lemma_take_r_props(m.additional, s3, avail);
    let (nd0, s4) = spec_take_r(m.additional, s3, avail);
    assert(nq0 == m.question.len() && na0 == m.answer.len() && nh0 == m.authority.len() && nd0
        == m.additional.len());
    assert(m.question.take(nq0) =~= m.question);
    assert(m.answer.take(na0) =~= m.answer);
    assert(m.authority.take(nh0) =~= m.authority);
    assert(m.additional.take(nd0) =~= m.additional);
    let w = spec_flags_word(m.header, false);
    let qb = spec_concat_q(m.question);
    let ab = spec_concat_r(m.answer);
    let hb = spec_concat_r(m.authority);
    let db = spec_concat_r(m.additional);
    let hdr = spec_u16_be(m.header.id) + spec_u16_be(w) + spec_u16_be(nq0 as u16) + spec_u16_be(
        na0 as u16,
    ) + spec_u16_be(nh0 as u16) + spec_u16_be(nd0 as u16);
    let b = spec_serialize(m, true);
    assert(b =~= hdr + qb + ab + hb + db);
    assert(hdr.len() == 12);
    assert(b.subrange(0, b.len() as int) =~= b);
    let p1 = 12 + qb.len() as int;
    let p2 = p1 + ab.len() as int;
    let p3 = p2 + hb.len() as int;
    assert(forall|k: int| 0 <= k < 12 ==> #[trigger] b[k] == hdr[k]);
    assert(forall|k: int| 0 <= k < qb.len() ==> #[trigger] qb[k] == b[12 + k]);
    assert(forall|k: int| 0 <= k < ab.len() ==> #[trigger] ab[k] == b[p1 + k]);
    assert(forall|k: int| 0 <= k < hb.len() ==> #[trigger] hb[k] == b[p2 + k]);
    assert(forall|k: int| 0 <= k < db.len() ==> #[trigger] db[k] == b[p3 + k]);
    assert(forall|k: int| 0 <= k < 2 ==> hdr[k] == #[trigger] spec_u16_be(m.header.id)[k]);
    assert(forall|k: int| 0 <= k < 2 ==> hdr[2 + k] == #[trigger] spec_u16_be(w)[k]);
    assert(forall|k: int| 0 <= k < 2 ==> hdr[4 + k] == #[trigger] spec_u16_be(nq0 as u16)[k]);
    assert(forall|k: int| 0 <= k < 2 ==> hdr[6 + k] == #[trigger] spec_u16_be(na0 as u16)[k]);
    assert(forall|k: int| 0 <= k < 2 ==> hdr[8 + k] == #[trigger] spec_u16_be(nh0 as u16)[k]);
    assert(forall|k: int| 0 <= k < 2 ==> hdr[10 + k] == #[trigger] spec_u16_be(nd0 as u16)[k]);
    lemma_extract(b, 0, 0, spec_u16_be(m.header.id), b);
    lemma_extract(b, 0, 2, spec_u16_be(w), b);
    lemma_extract(b, 0, 4, spec_u16_be(nq0 as u16), b);
    lemma_extract(b, 0, 6, spec_u16_be(na0 as u16), b);
    lemma_extract(b, 0, 8, spec_u16_be(nh0 as u16), b);
    lemma_extract(b, 0, 10, spec_u16_be(nd0 as u16), b);
    lemma_ru16_of_be(b, 0, m.header.id);
    lemma_ru16_of_be(b, 2, w);
    lemma_ru16_of_be(b, 4, nq0 as u16);
    lemma_ru16_of_be(b, 6, na0 as u16);
    lemma_ru16_of_be(b, 8, nh0 as u16);
    lemma_ru16_of_be(b, 10, nd0 as u16);
    lemma_flags_roundtrip(m.header, false);
    lemma_extract(b, 0, 12, qb, b);
    lemma_extract(b, 0, p1, ab, b);
    lemma_extract(b, 0, p2, hb, b);
    lemma_extract(b, 0, p3, db, b);
    lemma_parse_questions_of_bytes(b, 12, m.question);
    lemma_parse_resources_of_bytes(b, p1, m.answer);
    lemma_parse_resources_of_bytes(b, p2, m.authority);
    lemma_parse_resources_of_bytes(b, p3, m.additional);
}

/// Encoding a message and parsing the result gives the message back:
/// header flags, section counts, and every record's name, type, class,
/// TTL and rdata are preserved. Decoded names are canonical, so this
/// holds for any message a parse produced, as long as everything fits
/// without truncation.
#[verifier::rlimit(100)]
pub proof fn lemma_serialize_parse_round_trip(m: MessageV)
    requires
        wf_wire_message(m),
        !spec_plan(m, true).0,
    ensures
        spec_parse(spec_serialize(m, true)) == Some(m),
{
    lemma_wire_layout(m);
    lemma_flags_roundtrip(m.header, false);
    lemma_promote_no_opt(m.additional);
    let b = spec_serialize(m, true);
    let parsed_header = Header {
        id: spec_ru16(b, 0),
        qr: (spec_ru16(b, 2) as int) / 32768 % 2 == 1,
        opcode: ((spec_ru16(b, 2) as int) / 2048 % 16) as u8,
        aa: (spec_ru16(b, 2) as int) / 1024 % 2 == 1,
        tc: (spec_ru16(b, 2) as int) / 512 % 2 == 1,
        rd: (spec_ru16(b, 2) as int) / 256 % 2 == 1,
        ra: (spec_ru16(b, 2) as int) / 128 % 2 == 1,
        z: ((spec_ru16(b, 2) as int) / 16 % 8) as u8,
        rcode: ((spec_ru16(b, 2) as int) % 16) as u8,
    };
    assert(parsed_header == m.header);
    assert(spec_parse(b) == Some(
        MessageV {
            header: parsed_header,
            question: m.question,
            answer: m.answer,
            authority: m.authority,
            additional: m.additional,
            edns: None,
        },
    ));
    assert(MessageV {
        header: parsed_header,
        question: m.question,
        answer: m.answer,
        authority: m.authority,
        additional: m.additional,
        edns: None,
    } =~~= m);
}

proof fn lemma_parse_name_wf(b: Seq<u8>, pos: int, ret: Option<int>, jumps: nat)
    requires
        spec_parse_name(b, pos, ret, jumps) is Some,
    ensures
        ({
            let ls = (spec_parse_name(b, pos, ret, jumps)->0).0;
            forall|k: int| 0 <= k < ls.len() ==> 1 <= (#[trigger] ls[k]).len() <= 191
        }),
    decreases jumps, b.len() - pos,
{
    let size = b[pos];
    if size == 0 {
    } else if size >= 192 {
        let off = (size - 192) * 256 + b[pos + 1];
        let nret = match ret {
            Some(r) => Some(r),
            None => Some(pos + 2),
        };
        lemma_parse_name_wf(b, off as int, nret, (jumps - 1) as nat);
    } else {
        lemma_parse_name_wf(b, pos + 1 + size, ret, jumps);
        let ls = (spec_parse_name(b, pos, ret, jumps)->0).0;
        let rest = (spec_parse_name(b, pos + 1 + size, ret, jumps)->0).0;
        assert(forall|k: int| 1 <= k < ls.len() ==> ls[k] == #[trigger] rest[k - 1]);
        assert(ls[0].len() == size);
    }
}

proof fn lemma_decode_name_wf(b: Seq<u8>, pos: int)
    requires
        spec_decode_name(b, pos) is Some,
    ensures
        wf_name_labels((spec_decode_name(b, pos)->0).0),
{
    lemma_parse_name_wf(b, pos, None, b.len() as nat);
    let ls = (spec_parse_name(b, pos, None, b.len() as nat)->0).0;
    let nm = (spec_decode_name(b, pos)->0).0;
    assert forall|k: int| 0 <= k < nm.len() implies 1 <= encode_utf8(#[trigger] nm[k]).len()
        <= 191 by {
        assert(valid_utf8(ls[k]));
        vstd::utf8::decode_utf8_encode_utf8(ls[k]);
        assert(nm[k] == decode_utf8(ls[k]));
    }
}

proof fn lemma_parse_questions_wf(b: Seq<u8>, pos: int, count: int)
    requires
        spec_parse_questions(b, pos, count) is Some,
    ensures
        ({
            let qs = (spec_parse_questions(b, pos, count)->0).0;
            &&& qs.len() == (if count <= 0 { 0int } else { count })
            &&& forall|i: int| 0 <= i < qs.len() ==> wf_name_labels((#[trigger] qs[i]).qname)
        }),
    decreases count,
{
    if count > 0 {
        let (nm, p) = spec_decode_name(b, pos)->0;
        lemma_decode_name_wf(b, pos);
        lemma_parse_questions_wf(b, p + 4, count - 1);
        let qs = (spec_parse_questions(b, pos, count)->0).0;
        let rest = (spec_parse_questions(b, p + 4, count - 1)->0).0;
        assert(forall|i: int| 1 <= i < qs.len() ==> qs[i] == #[trigger] rest[i - 1]);
    }
}

proof fn lemma_parse_resources_wf(b: Seq<u8>, pos: int, count: int)
    requires
        spec_parse_resources(b, pos, count) is Some,
    ensures
        ({
            let rs = (spec_parse_resources(b, pos, count)->0).0;
            &&& rs.len() == (if count <= 0 { 0int } else { count })
            &&& forall|i: int| 0 <= i < rs.len() ==> wf_name_labels((#[trigger] rs[i]).rname)
            &&& forall|i: int| 0 <= i < rs.len() ==> canonical_rdata(#[trigger] rs[i])
        }),
    decreases count,
{
    if count > 0 {
        let (nm, p) = spec_decode_name(b, pos)->0;
        lemma_decode_name_wf(b, pos);
        let rtype = spec_ru16(b, p);
        let body = p + 10;
        let rs = (spec_parse_resources(b, pos, count)->0).0;
        if rtype == 5 || rtype == 2 {
            let (nm2, p2) = spec_decode_name(b, body)->0;
            lemma_decode_name_wf(b, body);
            assert(rs[0].rdata == spec_name_bytes(nm2));
            assert(canonical_rdata(rs[0]));
        } else if rtype == 15 {
            let (nm2, p2) = spec_decode_name(b, body + 2)->0;
            lemma_decode_name_wf(b, body + 2);
            assert(rs[0].rdata =~= seq![b[body], b[body + 1]] + spec_name_bytes(nm2));
            assert(rs[0].rdata.skip(2) =~= spec_name_bytes(nm2));
            assert(canonical_rdata(rs[0]));
        }
        let next = if rtype == 5 || rtype == 2 {
            (spec_decode_name(b, body)->0).1
        } else if rtype == 15 {
            (spec_decode_name(b, body + 2)->0).1
        } else {
            body + spec_ru16(b, p + 8)
        };
        lemma_parse_resources_wf(b, next, count - 1);
        let rest = (spec_parse_resources(b, next, count - 1)->0).0;
        assert(forall|i: int| 1 <= i < rs.len() ==> rs[i] == #[trigger] rest[i - 1]);
    }
}

/// Promotion removes every OPT record and keeps the rest in order, so
/// pointwise facts survive it.
proof fn lemma_promote_wf(adds: Seq<ResourceV>)
    requires
        spec_promote_edns(adds) is Some,
    ensures
        ({
            let (add2, _) = spec_promote_edns(adds)->0;
            &&& add2.len() <= adds.len()
            &&& forall|i: int|
                0 <= i < add2.len() ==> exists|j: int|
                    0 <= j < adds.len() && #[trigger] add2[i] == adds[j]
            &&& forall|i: int| 0 <= i < add2.len() ==> (#[trigger] add2[i]).rtype != 41
        }),
    decreases adds.len(),
{
    if adds.len() > 0 {
        lemma_promote_wf(adds.drop_first());
        let (add2, _) = spec_promote_edns(adds)->0;
        let (rest2, _) = spec_promote_edns(adds.drop_first())->0;
        assert(forall|j: int|
            0 <= j < adds.drop_first().len() ==> #[trigger] adds.drop_first()[j] == adds[j + 1]);
        if adds[0].rtype != 41 {
            assert(add2 == seq![adds[0]] + rest2);
            assert forall|i: int| 0 <= i < add2.len() implies exists|j: int|
                0 <= j < adds.len() && #[trigger] add2[i] == adds[j] by {
                if i == 0 {
                    assert(add2[0] == adds[0]);
                } else {
                    let j0 = choose|j: int|
                        0 <= j < adds.drop_first().len() && #[trigger] rest2[i - 1]
                            == adds.drop_first()[j];
                    assert(add2[i] == adds[j0 + 1]);
                }
            }
        } else {
            assert forall|i: int| 0 <= i < add2.len() implies exists|j: int|
                0 <= j < adds.len() && #[trigger] add2[i] == adds[j] by {
                let j0 = choose|j: int|
                    0 <= j < adds.drop_first().len() && #[trigger] rest2[i]
                        == adds.drop_first()[j];
                assert(add2[i] == adds[j0 + 1]);
            }
        }
    }
}

/// Encoding what the parser produced and parsing it again gives the
/// same message: the statement of the round trip for real inputs, with
/// the well-formedness facts derived from the parser itself. The side
/// conditions: the input carried no EDNS state, and the re-encoding
/// fits without truncation.
#[verifier::rlimit(100)]
pub proof fn lemma_parse_serialize_parse(b: Seq<u8>)
    requires
        spec_parse(b) is Some,
        (spec_parse(b)->0).edns is None,
        !spec_plan(spec_parse(b)->0, true).0,
    ensures
        spec_parse(spec_serialize(spec_parse(b)->0, true)) == Some(spec_parse(b)->0),
{
    let m = spec_parse(b)->0;
    let flags = spec_ru16(b, 2) as int;
    assert(m.header.z < 8 && m.header.opcode < 16 && m.header.rcode < 16);
    let qd = spec_ru16(b, 4) as int;
    let an = spec_ru16(b, 6) as int;
    let ns = spec_ru16(b, 8) as int;
    let ar = spec_ru16(b, 10) as int;
    lemma_parse_questions_wf(b, 12, qd);
    let (qs, p1) = spec_parse_questions(b, 12, qd)->0;
    lemma_parse_resources_wf(b, p1, an);
    let (ans, p2) = spec_parse_resources(b, p1, an)->0;
    lemma_parse_resources_wf(b, p2, ns);
    let (auth, p3) = spec_parse_resources(b, p2, ns)->0;
    lemma_parse_resources_wf(b, p3, ar);
    let (adds, _p4) = spec_parse_resources(b, p3, ar)->0;
    lemma_promote_wf(adds);
    let (add2, _) = spec_promote_edns(adds)->0;
    assert(m.question == qs && m.answer == ans && m.authority == auth && m.additional == add2);
    // every record the plan kept fits, so its rdata does too
    let avail = spec_avail(m, true);
    lemma_take_q_props(m.question, 12, avail);
    let (nq0, s1) = spec_take_q(m.question, 12, avail);
    lemma_take_r_props(m.answer, s1, avail);
    let (na0, s2) = spec_take_r(m.answer, s1, avail);
    lemma_take_r_props(m.authority, s2, avail);
    let (nh0, s3) = spec_take_r(m.authority, s2, avail);
    assert(spec_add_section(m) == m.additional);
    lemma_take_r_props(m.additional, s3, avail);
    assert forall|i: int| 0 <= i < m.answer.len() implies (#[trigger] m.answer[i]).rdata.len()
        <= 0xFFFF by {
        assert(spec_resource_wire(m.answer[i]).len() <= avail - s1);
        assert(spec_name_bytes(m.answer[i].rname).len() >= 1);
    }
    assert forall|i: int| 0 <= i < m.authority.len() implies (
    #[trigger] m.authority[i]).rdata.len() <= 0xFFFF by {
        assert(spec_resource_wire(m.authority[i]).len() <= avail - s2);
        assert(spec_name_bytes(m.authority[i].rname).len() >= 1);
    }
    assert forall|i: int| 0 <= i < m.additional.len() implies (
    #[trigger] m.additional[i]).rdata.len() <= 0xFFFF by {
        assert(spec_resource_wire(m.additional[i]).len() <= avail - s3);
        assert(spec_name_bytes(m.additional[i].rname).len() >= 1);
    }
    // the facts about the additional section carry over the promotion
    assert forall|i: int| 0 <= i < m.additional.len() implies wf_name_labels(
        (#[trigger] m.additional[i]).rname,
    ) && canonical_rdata(#[trigger] m.additional[i]) by {
        let j0 = choose|j: int| 0 <= j < adds.len() && #[trigger] m.additional[i] == adds[j];
        assert(wf_name_labels(adds[j0].rname));
        assert(canonical_rdata(adds[j0]));
    }
    assert(wf_wire_message(m));
    lemma_serialize_parse_round_trip(m);
}

} // verus!
