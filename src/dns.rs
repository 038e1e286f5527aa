use vstd::prelude::*;
use vstd::utf8::encode_utf8;

use crate::name::{
    lemma_name_round_trip, lemma_valid_name_emission, name_emission, name_text, scan_name,
    split_labels, valid_name,
};
use crate::packet::{
    emits, lemma_emits_nothing, lemma_emits_step, lemma_emits_stopped, lemma_emits_then, plain,
    then, u16_at, u16_bytes, u32_at, u32_bytes, BytePacketBuffer, DnsError, Emission, Result,
    LIMIT_OF_BUFFER,
};

verus! {

/// Response code of a message.
#[derive(Debug, Clone, Copy, PartialEq, Eq, Structural)]
pub enum ResponseCode {
    /// no error condition
    NOERROR,
    /// format error
    FORMERR,
    /// server failure
    SERVFAIL,
    /// name error
    NXDOMAIN,
    /// not implemented
    NOTIMP,
    /// refused
    REFUSED,
}

/// The code that a 4-bit number stands for; numbers without a code of their
/// own read as NOERROR.
pub open spec fn response_code_of(num: u8) -> ResponseCode {
    match num {
        1 => ResponseCode::FORMERR,
        2 => ResponseCode::SERVFAIL,
        3 => ResponseCode::NXDOMAIN,
        4 => ResponseCode::NOTIMP,
        5 => ResponseCode::REFUSED,
        _ => ResponseCode::NOERROR,
    }
}

impl ResponseCode {
    pub open spec fn spec_num(self) -> u8 {
        match self {
            ResponseCode::NOERROR => 0,
            ResponseCode::FORMERR => 1,
            ResponseCode::SERVFAIL => 2,
            ResponseCode::NXDOMAIN => 3,
            ResponseCode::NOTIMP => 4,
            ResponseCode::REFUSED => 5,
        }
    }

    /// The number that stands for this code on the wire.
    pub fn to_num(self) -> (r: u8)
        ensures
            r == self.spec_num(),
    {
        match self {
            ResponseCode::NOERROR => 0,
            ResponseCode::FORMERR => 1,
            ResponseCode::SERVFAIL => 2,
            ResponseCode::NXDOMAIN => 3,
            ResponseCode::NOTIMP => 4,
            ResponseCode::REFUSED => 5,
        }
    }
}

impl From<u8> for ResponseCode {
    fn from(num: u8) -> (r: Self)
        ensures
            r == response_code_of(num),
    {
        match num {
            1 => ResponseCode::FORMERR,
            2 => ResponseCode::SERVFAIL,
            3 => ResponseCode::NXDOMAIN,
            4 => ResponseCode::NOTIMP,
            5 => ResponseCode::REFUSED,
            _ => ResponseCode::NOERROR,
        }
    }
}

impl vstd::std_specs::convert::FromSpecImpl<u8> for ResponseCode {
    open spec fn obeys_from_spec() -> bool {
        true
    }

    open spec fn from_spec(num: u8) -> Self {
        response_code_of(num)
    }
}

/// Header of a message.
#[derive(Debug, Clone, Copy, PartialEq, Eq, Structural)]
pub struct Header {
    /// identifier assigned by the program that generates any kind of query
    pub id: u16,
    /// recursion desired
    pub rd: bool,
    /// truncation
    pub tc: bool,
    /// authoritative answer
    pub aa: bool,
    /// kind of query in this message (four bits)
    pub opcode: u8,
    /// response
    pub response: bool,
    /// response code
    pub rcode: ResponseCode,
    /// checking disabled
    pub cd: bool,
    /// authenticated data
    pub ad: bool,
    /// reserved for future use
    pub z: bool,
    /// recursion available
    pub ra: bool,
    /// the number of entries in the question section
    pub qdcount: u16,
    /// the number of resource records in the answer section
    pub ancount: u16,
    /// the number of name server resource records in the authority records section
    pub nscount: u16,
    /// the number of resource records in the additional records section
    pub arcount: u16,
}

pub open spec fn bit(b: bool) -> int {
    if b {
        1
    } else {
        0
    }
}

/// First flag byte: RD, TC, AA in bits 0 to 2, the opcode in bits 3 to 6, QR in bit 7.
pub open spec fn flags_a(h: Header) -> u8 {
    (bit(h.rd) + 2 * bit(h.tc) + 4 * bit(h.aa) + 8 * (h.opcode % 16) + 128 * bit(h.response)) as u8
}

/// Second flag byte: the response code in bits 0 to 3, then CD, AD, Z and RA.
pub open spec fn flags_b(h: Header) -> u8 {
    (h.rcode.spec_num() + 16 * bit(h.cd) + 32 * bit(h.ad) + 64 * bit(h.z) + 128 * bit(h.ra)) as u8
}

/// The twelve bytes of a header on the wire.
pub open spec fn header_bytes(h: Header) -> Seq<u8> {
    u16_bytes(h.id) + seq![flags_a(h), flags_b(h)] + u16_bytes(h.qdcount) + u16_bytes(h.ancount)
        + u16_bytes(h.nscount) + u16_bytes(h.arcount)
}

/// The header that the twelve bytes at `p` hold.
pub open spec fn parse_header(b: Seq<u8>, p: int) -> Header {
    let a = b[p + 2];
    let f = b[p + 3];
    Header {
        id: u16_at(b, p),
        rd: a % 2 == 1,
        tc: a / 2 % 2 == 1,
        aa: a / 4 % 2 == 1,
        opcode: (a / 8 % 16) as u8,
        response: a >= 128,
        rcode: response_code_of(f % 16),
        cd: f / 16 % 2 == 1,
        ad: f / 32 % 2 == 1,
        z: f / 64 % 2 == 1,
        ra: f >= 128,
        qdcount: u16_at(b, p + 4),
        ancount: u16_at(b, p + 6),
        nscount: u16_at(b, p + 8),
        arcount: u16_at(b, p + 10),
    }
}

proof fn lemma_flag_bits(a: u8)
    by (bit_vector)
    ensures
        ((a & 0x01u8) > 0) == (a % 2 == 1),
        ((a & 0x02u8) > 0) == (a / 2 % 2 == 1),
        ((a & 0x04u8) > 0) == (a / 4 % 2 == 1),
        ((a & 0x10u8) > 0) == (a / 16 % 2 == 1),
        ((a & 0x20u8) > 0) == (a / 32 % 2 == 1),
        ((a & 0x40u8) > 0) == (a / 64 % 2 == 1),
        ((a & 0x80u8) > 0) == (a >= 128),
        (a >> 3u8) & 0x0Fu8 == a / 8 % 16,
        a & 0x0Fu8 == a % 16,
{
}

proof fn lemma_pack_bits(r0: u8, r1: u8, r2: u8, op: u8, r7: u8)
    by (bit_vector)
    requires
        r0 <= 1,
        r1 <= 1,
        r2 <= 1,
        r7 <= 1,
    ensures
        r0 | (r1 << 1u8) | (r2 << 2u8) | ((op & 0x0Fu8) << 3u8) | (r7 << 7u8) == r0 + 2 * r1 + 4
            * r2 + 8 * (op % 16) + 128 * r7,
{
}

proof fn lemma_pack_high(low: u8, r4: u8, r5: u8, r6: u8, r7: u8)
    by (bit_vector)
    requires
        low < 16,
        r4 <= 1,
        r5 <= 1,
        r6 <= 1,
        r7 <= 1,
    ensures
        low | (r4 << 4u8) | (r5 << 5u8) | (r6 << 6u8) | (r7 << 7u8) == low + 16 * r4 + 32 * r5 + 64
            * r6 + 128 * r7,
{
}

proof fn lemma_unpack_bits(r0: u8, r1: u8, r2: u8, op: u8, r7: u8)
    by (bit_vector)
    requires
        r0 <= 1,
        r1 <= 1,
        r2 <= 1,
        r7 <= 1,
        op < 16,
    ensures
        ({
            let a = (r0 + 2 * r1 + 4 * r2 + 8 * op + 128 * r7) as u8;
            &&& a % 2 == r0
            &&& a / 2 % 2 == r1
            &&& a / 4 % 2 == r2
            &&& a / 8 % 16 == op
            &&& (a >= 128) == (r7 == 1)
        }),
{
}

proof fn lemma_unpack_high(low: u8, r4: u8, r5: u8, r6: u8, r7: u8)
    by (bit_vector)
    requires
        low < 16,
        r4 <= 1,
        r5 <= 1,
        r6 <= 1,
        r7 <= 1,
    ensures
        ({
            let f = (low + 16 * r4 + 32 * r5 + 64 * r6 + 128 * r7) as u8;
            &&& f % 16 == low
            &&& f / 16 % 2 == r4
            &&& f / 32 % 2 == r5
            &&& f / 64 % 2 == r6
            &&& (f >= 128) == (r7 == 1)
        }),
{
}

fn flag(b: bool) -> (r: u8)
    ensures
        r == bit(b),
{
    if b {
        1
    } else {
        0
    }
}

impl Header {
    pub open spec fn new_spec() -> Header {
        Header {
            id: 0,
            rd: false,
            tc: false,
            aa: false,
            opcode: 0,
            response: false,
            rcode: ResponseCode::NOERROR,
            cd: false,
            ad: false,
            z: false,
            ra: false,
            qdcount: 0,
            ancount: 0,
            nscount: 0,
            arcount: 0,
        }
    }

    /// A header with every field zero, false or NOERROR.
    pub fn new() -> (r: Self)
        ensures
            r == Header::new_spec(),
            r == (Header {
                id: 0,
                rd: false,
                tc: false,
                aa: false,
                opcode: 0,
                response: false,
                rcode: ResponseCode::NOERROR,
                cd: false,
                ad: false,
                z: false,
                ra: false,
                qdcount: 0,
                ancount: 0,
                nscount: 0,
                arcount: 0,
            }),
    {
        Self {
            id: 0,
            rd: false,
            tc: false,
            aa: false,
            opcode: 0,
            response: false,
            rcode: ResponseCode::NOERROR,
            cd: false,
            ad: false,
            z: false,
            ra: false,
            qdcount: 0,
            ancount: 0,
            nscount: 0,
            arcount: 0,
        }
    }

    /// Reads the twelve header bytes at the cursor into `self`.
    pub fn read(&mut self, buffer: &mut BytePacketBuffer) -> (r: Result<()>)
        ensures
            final(buffer).buffer == old(buffer).buffer,
            old(buffer).position + 12 <= LIMIT_OF_BUFFER ==> {
                &&& r is Ok
                &&& *final(self) == parse_header(old(buffer).bytes(), old(buffer).position as int)
                &&& final(buffer).position == old(buffer).position + 12
            },
            old(buffer).position + 12 > LIMIT_OF_BUFFER ==> r == Err::<(), DnsError>(
                DnsError::BufferOverrun,
            ),
    {
        let id = buffer.read_u16()?;
        let flags = buffer.read_u16()?;
        let a = #[verifier::truncate] ((flags >> 8) as u8);
        let b = #[verifier::truncate] ((flags & 0xFF) as u8);
        proof {
            let bytes = old(buffer).bytes();
            let p = old(buffer).position as int;
            crate::packet::lemma_u16_parts(bytes[p + 2], bytes[p + 3]);
            lemma_flag_bits(a);
            lemma_flag_bits(b);
        }
        let qdcount = buffer.read_u16()?;
        let ancount = buffer.read_u16()?;
        let nscount = buffer.read_u16()?;
        let arcount = buffer.read_u16()?;
        self.id = id;
        self.rd = (a & 0x01) > 0;
        self.tc = (a & 0x02) > 0;
        self.aa = (a & 0x04) > 0;
        self.opcode = (a >> 3) & 0x0F;
        self.response = (a & 0x80) > 0;
        self.rcode = ResponseCode::from(b & 0x0F);
        self.cd = (b & 0x10) > 0;
        self.ad = (b & 0x20) > 0;
        self.z = (b & 0x40) > 0;
        self.ra = (b & 0x80) > 0;
        self.qdcount = qdcount;
        self.ancount = ancount;
        self.nscount = nscount;
        self.arcount = arcount;
        Ok(())
    }

    /// Writes the twelve header bytes at the cursor.
    #[verifier::rlimit(30)]
    pub fn write(&self, buffer: &mut BytePacketBuffer) -> (r: Result<()>)
        ensures
            emits(*old(buffer), *final(buffer), r, plain(header_bytes(*self))),
    {
        let ghost s0 = *buffer;
        let ghost p = s0.position as int;
        let fa = flag(self.rd) | (flag(self.tc) << 1) | (flag(self.aa) << 2) | ((self.opcode & 0x0F)
            << 3) | (flag(self.response) << 7);
        let fb = self.rcode.to_num() | (flag(self.cd) << 4) | (flag(self.ad) << 5) | (flag(self.z)
            << 6) | (flag(self.ra) << 7);
        proof {
            lemma_pack_bits(
                bit(self.rd) as u8,
                bit(self.tc) as u8,
                bit(self.aa) as u8,
                self.opcode,
                bit(self.response) as u8,
            );
            lemma_pack_high(
                self.rcode.spec_num(),
                bit(self.cd) as u8,
                bit(self.ad) as u8,
                bit(self.z) as u8,
                bit(self.ra) as u8,
            );
        }
        let ghost total = header_bytes(*self);
        proof {
            lemma_emits_nothing(s0);
        }
        let ghost b1 = *buffer;
        let r = buffer.write_u16(self.id);
        proof {
            lemma_emits_step(s0, b1, seq![], *buffer, r, u16_bytes(self.id), total);
        }
        if r.is_err() {
            return r;
        }
        let ghost done = seq![] + u16_bytes(self.id);
        let ghost b1 = *buffer;
        let r = buffer.write_u8(fa);
        proof {
            lemma_emits_step(s0, b1, done, *buffer, r, seq![fa], total);
        }
        if r.is_err() {
            return r;
        }
        let ghost done = done + seq![fa];
        let ghost b1 = *buffer;
        let r = buffer.write_u8(fb);
        proof {
            lemma_emits_step(s0, b1, done, *buffer, r, seq![fb], total);
        }
        if r.is_err() {
            return r;
        }
        let ghost done = done + seq![fb];
        let ghost b1 = *buffer;
        let r = buffer.write_u16(self.qdcount);
        proof {
            lemma_emits_step(s0, b1, done, *buffer, r, u16_bytes(self.qdcount), total);
        }
        if r.is_err() {
            return r;
        }
        let ghost done = done + u16_bytes(self.qdcount);
        let ghost b1 = *buffer;
        let r = buffer.write_u16(self.ancount);
        proof {
            lemma_emits_step(s0, b1, done, *buffer, r, u16_bytes(self.ancount), total);
        }
        if r.is_err() {
            return r;
        }
        let ghost done = done + u16_bytes(self.ancount);
        let ghost b1 = *buffer;
        let r = buffer.write_u16(self.nscount);
        proof {
            lemma_emits_step(s0, b1, done, *buffer, r, u16_bytes(self.nscount), total);
        }
        if r.is_err() {
            return r;
        }
        let ghost done = done + u16_bytes(self.nscount);
        let ghost b1 = *buffer;
        let r = buffer.write_u16(self.arcount);
        proof {
            lemma_emits_step(s0, b1, done, *buffer, r, u16_bytes(self.arcount), total);
            assert(done + u16_bytes(self.arcount) =~= total);
        }
        r
    }
}

proof fn lemma_header_bytes_at(h: Header, b: Seq<u8>, p: int)
    requires
        0 <= p,
        p + 12 <= b.len(),
        b.subrange(p, p + 12) == header_bytes(h),
    ensures
        b[p] == u16_bytes(h.id)[0] && b[p + 1] == u16_bytes(h.id)[1],
        b[p + 2] == flags_a(h) && b[p + 3] == flags_b(h),
        b[p + 4] == u16_bytes(h.qdcount)[0] && b[p + 5] == u16_bytes(h.qdcount)[1],
        b[p + 6] == u16_bytes(h.ancount)[0] && b[p + 7] == u16_bytes(h.ancount)[1],
        b[p + 8] == u16_bytes(h.nscount)[0] && b[p + 9] == u16_bytes(h.nscount)[1],
        b[p + 10] == u16_bytes(h.arcount)[0] && b[p + 11] == u16_bytes(h.arcount)[1],
{
    let hb = header_bytes(h);
    assert(hb =~= seq![
        u16_bytes(h.id)[0], u16_bytes(h.id)[1], flags_a(h), flags_b(h),
        u16_bytes(h.qdcount)[0], u16_bytes(h.qdcount)[1], u16_bytes(h.ancount)[0], u16_bytes(h.ancount)[1],
        u16_bytes(h.nscount)[0], u16_bytes(h.nscount)[1], u16_bytes(h.arcount)[0], u16_bytes(h.arcount)[1],
    ]);
    assert forall|k: int| 0 <= k < 12 implies b[p + k] == hb[k] by {
        assert(b.subrange(p, p + 12)[k] == b[p + k]);
    }
}

/// Decoding what a header writes gives the header back, for every header
/// whose opcode fits its four bits.
pub proof fn lemma_header_round_trip(h: Header, b: Seq<u8>, p: int)
    requires
        h.opcode < 16,
        0 <= p,
        p + 12 <= b.len(),
        b.subrange(p, p + 12) == header_bytes(h),
    ensures
        parse_header(b, p) == h,
{
    lemma_header_bytes_at(h, b, p);
    lemma_u16_at_bytes(b, p, h.id);
    lemma_u16_at_bytes(b, p + 4, h.qdcount);
    lemma_u16_at_bytes(b, p + 6, h.ancount);
    lemma_u16_at_bytes(b, p + 8, h.nscount);
    lemma_u16_at_bytes(b, p + 10, h.arcount);
    lemma_unpack_bits(bit(h.rd) as u8, bit(h.tc) as u8, bit(h.aa) as u8, h.opcode, bit(h.response) as u8);
    lemma_unpack_high(h.rcode.spec_num(), bit(h.cd) as u8, bit(h.ad) as u8, bit(h.z) as u8, bit(h.ra) as u8);
}

proof fn lemma_u16_at_bytes(b: Seq<u8>, q: int, v: u16)
    requires
        0 <= q,
        q + 2 <= b.len(),
        b[q] == u16_bytes(v)[0],
        b[q + 1] == u16_bytes(v)[1],
    ensures
        u16_at(b, q) == v,
{
    crate::packet::lemma_u16_round_trip(v);
}


/// Type of a query or of a record.
#[derive(Debug, Clone, Copy, PartialEq, Eq, Hash, Structural)]
pub enum QueryType {
    /// 1 a host address
    A,
    /// 2 an authoritative name server
    NS,
    /// 5 the canonical name for an alias
    CNAME,
    /// 15 mail exchange
    MX,
    /// 28 a host address (IPv6 address)
    AAAA,
    /// any other type, by its number
    UNKNOWN(u16),
}

/// The type that a number stands for.
pub open spec fn query_type_of(num: u16) -> QueryType {
    match num {
        1 => QueryType::A,
        2 => QueryType::NS,
        5 => QueryType::CNAME,
        15 => QueryType::MX,
        28 => QueryType::AAAA,
        _ => QueryType::UNKNOWN(num),
    }
}

impl QueryType {
    /// The number of a type on the wire.
    pub open spec fn spec_num(self) -> u16 {
        match self {
            QueryType::A => 1,
            QueryType::NS => 2,
            QueryType::CNAME => 5,
            QueryType::MX => 15,
            QueryType::AAAA => 28,
            QueryType::UNKNOWN(num) => num,
        }
    }

    pub fn to_num(self) -> (r: u16)
        ensures
            r == self.spec_num(),
    {
        match self {
            QueryType::A => 1,
            QueryType::NS => 2,
            QueryType::CNAME => 5,
            QueryType::MX => 15,
            QueryType::AAAA => 28,
            QueryType::UNKNOWN(num) => num,
        }
    }
}

impl From<u16> for QueryType {
    fn from(num: u16) -> (r: Self)
        ensures
            r == query_type_of(num),
    {
        match num {
            1 => QueryType::A,
            2 => QueryType::NS,
            5 => QueryType::CNAME,
            15 => QueryType::MX,
            28 => QueryType::AAAA,
            _ => QueryType::UNKNOWN(num),
        }
    }
}

impl vstd::std_specs::convert::FromSpecImpl<u16> for QueryType {
    open spec fn obeys_from_spec() -> bool {
        true
    }

    open spec fn from_spec(num: u16) -> Self {
        query_type_of(num)
    }
}

impl From<QueryType> for u16 {
    fn from(qtype: QueryType) -> (r: u16)
        ensures
            r == qtype.spec_num(),
    {
        qtype.to_num()
    }
}

impl vstd::std_specs::convert::FromSpecImpl<QueryType> for u16 {
    open spec fn obeys_from_spec() -> bool {
        true
    }

    open spec fn from_spec(qtype: QueryType) -> u16 {
        qtype.spec_num()
    }
}

/// A question: a name and the type asked for.
#[derive(Debug, PartialEq, Eq)]
pub struct Question {
    pub qname: String,
    pub qtype: QueryType,
}

pub struct QuestionView {
    pub name: Seq<char>,
    pub qtype: QueryType,
}

impl View for Question {
    type V = QuestionView;

    open spec fn view(&self) -> QuestionView {
        QuestionView { name: self.qname@, qtype: self.qtype }
    }
}

impl Clone for Question {
    fn clone(&self) -> (r: Self)
        ensures
            r == *self,
    {
        Question { qname: self.qname.clone(), qtype: self.qtype }
    }
}

/// The question at `p`: a name, its type, and a class that is read and dropped.
pub open spec fn parse_question(b: Seq<u8>, p: int) -> Result<(QuestionView, int)> {
    match scan_name(b, p, 0) {
        Err(e) => Err(e),
        Ok((ls, q)) => if q + 4 > LIMIT_OF_BUFFER {
            Err(DnsError::BufferOverrun)
        } else {
            Ok((QuestionView { name: name_text(ls), qtype: query_type_of(u16_at(b, q)) }, q + 4))
        },
    }
}

/// What writing a question puts out: its name, its type, and class 1.
pub open spec fn question_emission(q: QuestionView) -> Emission {
    then(name_emission(encode_utf8(q.name)), plain(u16_bytes(q.qtype.spec_num()) + u16_bytes(1)))
}

impl Question {
    pub fn new(qname: String, qtype: QueryType) -> (r: Self)
        ensures
            r.qname == qname,
            r.qtype == qtype,
    {
        Self { qname, qtype }
    }

    /// Reads a question at the cursor; its name is appended to `self.qname`.
    pub fn read(&mut self, buffer: &mut BytePacketBuffer) -> (r: Result<()>)
        ensures
            final(buffer).buffer == old(buffer).buffer,
            match parse_question(old(buffer).bytes(), old(buffer).position as int) {
                Ok((v, end)) => {
                    &&& r is Ok
                    &&& final(self).qname@ == old(self).qname@ + v.name
                    &&& final(self).qtype == v.qtype
                    &&& final(buffer).position == end
                },
                Err(e) => r == Err::<(), DnsError>(e),
            },
    {
        buffer.read_query_name(&mut self.qname)?;
        self.qtype = QueryType::from(buffer.read_u16()?);
        let _ = buffer.read_u16()?;
        Ok(())
    }

    /// Writes the question at the cursor.
    pub fn write(&self, buffer: &mut BytePacketBuffer) -> (r: Result<()>)
        ensures
            emits(*old(buffer), *final(buffer), r, question_emission(self@)),
    {
        let ghost s0 = *buffer;
        let r = buffer.write_query_name(self.qname.as_str());
        let ghost e1 = name_emission(encode_utf8(self.qname@));
        let ghost tail = u16_bytes(self.qtype.spec_num()) + u16_bytes(1);
        if r.is_err() {
            proof {
                lemma_emits_stopped(s0, *buffer, r, e1, plain(tail));
            }
            return r;
        }
        let ghost s1 = *buffer;
        proof {
            lemma_emits_nothing(s1);
        }
        let qtype = self.qtype.into();
        let r = buffer.write_u16(qtype);
        proof {
            lemma_emits_step(s1, s1, seq![], *buffer, r, u16_bytes(qtype), tail);
        }
        if r.is_ok() {
            let ghost s2 = *buffer;
            let r2 = buffer.write_u16(1);
            proof {
                lemma_emits_step(s1, s2, seq![] + u16_bytes(qtype), *buffer, r2, u16_bytes(1), tail);
                assert(seq![] + u16_bytes(qtype) + u16_bytes(1) =~= tail);
                lemma_emits_then(s0, s1, Ok(()), e1, *buffer, r2, plain(tail));
            }
            return r2;
        }
        proof {
            lemma_emits_then(s0, s1, Ok(()), e1, *buffer, r, plain(tail));
        }
        r
    }
}


/// A resource record; the variant follows the record's type.
#[derive(Debug, PartialEq, Eq)]
#[allow(inconsistent_fields)]
pub enum Record {
    /// a host address
    A { domain: String, address: [u8; 4], ttl: u32 },
    /// an authoritative name server
    NS { domain: String, host: String, ttl: u32 },
    /// the canonical name for an alias
    CNAME { domain: String, host: String, ttl: u32 },
    /// mail exchange
    MX { domain: String, priority: u16, host: String, ttl: u32 },
    /// a host address (IPv6 address), as eight 16-bit segments
    AAAA { domain: String, address: [u16; 8], ttl: u32 },
    /// a record of another type: its data is skipped, not kept
    UNKNOWN { domain: String, qtype: u16, len: u16, ttl: u32 },
}

#[allow(inconsistent_fields)]
pub enum RecordView {
    A { domain: Seq<char>, address: Seq<u8>, ttl: u32 },
    NS { domain: Seq<char>, host: Seq<char>, ttl: u32 },
    CNAME { domain: Seq<char>, host: Seq<char>, ttl: u32 },
    MX { domain: Seq<char>, priority: u16, host: Seq<char>, ttl: u32 },
    AAAA { domain: Seq<char>, address: Seq<u16>, ttl: u32 },
    UNKNOWN { domain: Seq<char>, qtype: u16, len: u16, ttl: u32 },
}

impl View for Record {
    type V = RecordView;

    open spec fn view(&self) -> RecordView {
        match self {
            Record::A { domain, address, ttl } => RecordView::A {
                domain: domain@,
                address: address@,
                ttl: *ttl,
            },
            Record::NS { domain, host, ttl } => RecordView::NS {
                domain: domain@,
                host: host@,
                ttl: *ttl,
            },
            Record::CNAME { domain, host, ttl } => RecordView::CNAME {
                domain: domain@,
                host: host@,
                ttl: *ttl,
            },
            Record::MX { domain, priority, host, ttl } => RecordView::MX {
                domain: domain@,
                priority: *priority,
                host: host@,
                ttl: *ttl,
            },
            Record::AAAA { domain, address, ttl } => RecordView::AAAA {
                domain: domain@,
                address: address@,
                ttl: *ttl,
            },
            Record::UNKNOWN { domain, qtype, len, ttl } => RecordView::UNKNOWN {
                domain: domain@,
                qtype: *qtype,
                len: *len,
                ttl: *ttl,
            },
        }
    }
}

impl Clone for Record {
    fn clone(&self) -> (r: Self)
        ensures
            r == *self,
    {
        match self {
            Record::A { domain, address, ttl } => Record::A {
                domain: domain.clone(),
                address: *address,
                ttl: *ttl,
            },
            Record::NS { domain, host, ttl } => Record::NS {
                domain: domain.clone(),
                host: host.clone(),
                ttl: *ttl,
            },
            Record::CNAME { domain, host, ttl } => Record::CNAME {
                domain: domain.clone(),
                host: host.clone(),
                ttl: *ttl,
            },
            Record::MX { domain, priority, host, ttl } => Record::MX {
                domain: domain.clone(),
                priority: *priority,
                host: host.clone(),
                ttl: *ttl,
            },
            Record::AAAA { domain, address, ttl } => Record::AAAA {
                domain: domain.clone(),
                address: *address,
                ttl: *ttl,
            },
            Record::UNKNOWN { domain, qtype, len, ttl } => Record::UNKNOWN {
                domain: domain.clone(),
                qtype: *qtype,
                len: *len,
                ttl: *ttl,
            },
        }
    }
}

/// The record data of type `qtype` at `d`, for a record whose owner name is
/// `domain`: the record, and where its data ends.
pub open spec fn parse_rdata(
    b: Seq<u8>,
    d: int,
    domain: Seq<char>,
    qtype: u16,
    ttl: u32,
    len: u16,
) -> Result<(RecordView, int)> {
    match query_type_of(qtype) {
        QueryType::A => if d + 4 > LIMIT_OF_BUFFER {
            Err(DnsError::BufferOverrun)
        } else {
            Ok((RecordView::A { domain, address: b.subrange(d, d + 4), ttl }, d + 4))
        },
        QueryType::AAAA => if d + 16 > LIMIT_OF_BUFFER {
            Err(DnsError::BufferOverrun)
        } else {
            Ok((RecordView::AAAA {
                domain,
                address: Seq::new(8, |k: int| u16_at(b, d + 2 * k)),
                ttl,
            }, d + 16))
        },
        QueryType::NS => match scan_name(b, d, 0) {
            Ok((hs, end)) => Ok((RecordView::NS { domain, host: name_text(hs), ttl }, end)),
            Err(e) => Err(e),
        },
        QueryType::CNAME => match scan_name(b, d, 0) {
            Ok((hs, end)) => Ok((RecordView::CNAME { domain, host: name_text(hs), ttl }, end)),
            Err(e) => Err(e),
        },
        QueryType::MX => if d + 2 > LIMIT_OF_BUFFER {
            Err(DnsError::BufferOverrun)
        } else {
            match scan_name(b, d + 2, 0) {
                Ok((hs, end)) => Ok((RecordView::MX {
                    domain,
                    priority: u16_at(b, d),
                    host: name_text(hs),
                    ttl,
                }, end)),
                Err(e) => Err(e),
            }
        },
        QueryType::UNKNOWN(_) => Ok((RecordView::UNKNOWN { domain, qtype, len, ttl }, d + len)),
    }
}

/// The record at `p`: owner name, type, class (dropped), ttl, data length,
/// then the data, read as its type says; an unknown type's data is skipped.
pub open spec fn parse_record(b: Seq<u8>, p: int) -> Result<(RecordView, int)> {
    match scan_name(b, p, 0) {
        Err(e) => Err(e),
        Ok((ls, q)) => if q + 10 > LIMIT_OF_BUFFER {
            Err(DnsError::BufferOverrun)
        } else {
            parse_rdata(b, q + 10, name_text(ls), u16_at(b, q), u32_at(b, q + 4), u16_at(b, q + 8))
        },
    }
}

proof fn lemma_u32_parts(b0: u8, b1: u8, b2: u8, b3: u8)
    ensures
        ({
            let v = (b0 as int * 0x1000000 + b1 as int * 0x10000 + b2 as int * 0x100
                + b3 as int) as u32;
            &&& ((v >> 24u32) & 0xFFu32) as u8 == b0
            &&& ((v >> 16u32) & 0xFFu32) as u8 == b1
            &&& ((v >> 8u32) & 0xFFu32) as u8 == b2
            &&& (v & 0xFFu32) as u8 == b3
            &&& ((v >> 16u32) & 0xFFFFu32) as u16 == (b0 as int * 0x100 + b1 as int) as u16
            &&& (v & 0xFFFFu32) as u16 == (b2 as int * 0x100 + b3 as int) as u16
        }),
{
    assert({
        let v = ((b0 as u32) * 0x1000000u32 + (b1 as u32) * 0x10000u32 + (b2 as u32) * 0x100u32
            + b3 as u32) as u32;
        &&& ((v >> 24u32) & 0xFFu32) as u8 == b0
        &&& ((v >> 16u32) & 0xFFu32) as u8 == b1
        &&& ((v >> 8u32) & 0xFFu32) as u8 == b2
        &&& (v & 0xFFu32) as u8 == b3
        &&& ((v >> 16u32) & 0xFFFFu32) as u16 == ((b0 as u16) * 0x100u16 + b1 as u16) as u16
        &&& (v & 0xFFFFu32) as u16 == ((b2 as u16) * 0x100u16 + b3 as u16) as u16
    }) by (bit_vector);
}

/// Type, class 1 and ttl, as a record writes them after its owner name.
pub open spec fn record_head(qtype: u16, ttl: u32) -> Seq<u8> {
    u16_bytes(qtype) + u16_bytes(1) + u32_bytes(ttl)
}

/// Record data that ends in a name: its two-byte length, then `pre`, then
/// the name.
pub open spec fn name_rdata_emission(pre: Seq<u8>, host: Seq<char>) -> Emission {
    let h = name_emission(encode_utf8(host));
    then(plain(u16_bytes((pre.len() + h.bytes.len()) as u16) + pre), h)
}

/// The bytes of 16-bit segments, each big-endian.
pub open spec fn segment_bytes(a: Seq<u16>) -> Seq<u8>
    decreases a.len(),
{
    if a.len() == 0 {
        seq![]
    } else {
        segment_bytes(a.drop_last()) + u16_bytes(a.last())
    }
}

/// What writing a record puts out. Fixed-size data goes out behind its
/// length; data that ends in a name behind the length it turns out to have.
/// An unknown record writes nothing.
#[verifier::opaque]
pub open spec fn record_emission(r: RecordView) -> Emission {
    match r {
        RecordView::A { domain, address, ttl } => then(
            name_emission(encode_utf8(domain)),
            plain(record_head(1, ttl) + u16_bytes(4) + address),
        ),
        RecordView::NS { domain, host, ttl } => then(
            then(name_emission(encode_utf8(domain)), plain(record_head(2, ttl))),
            name_rdata_emission(seq![], host),
        ),
        RecordView::CNAME { domain, host, ttl } => then(
            then(name_emission(encode_utf8(domain)), plain(record_head(5, ttl))),
            name_rdata_emission(seq![], host),
        ),
        RecordView::MX { domain, priority, host, ttl } => then(
            then(name_emission(encode_utf8(domain)), plain(record_head(15, ttl))),
            name_rdata_emission(u16_bytes(priority), host),
        ),
        RecordView::AAAA { domain, address, ttl } => then(
            name_emission(encode_utf8(domain)),
            plain(record_head(28, ttl) + u16_bytes(16) + segment_bytes(address)),
        ),
        RecordView::UNKNOWN { .. } => plain(seq![]),
    }
}

/// The outcome of a write, without what it returned on success.
pub open spec fn outcome<T>(r: Result<T>) -> Result<()> {
    match r {
        Ok(_) => Ok(()),
        Err(e) => Err(e),
    }
}

/// Writes the owner name, type, class and ttl of a record.
fn write_head(buffer: &mut BytePacketBuffer, domain: &String, qtype: QueryType, ttl: u32) -> (r: Result<()>)
    ensures
        emits(*old(buffer), *final(buffer), r, then(
            name_emission(encode_utf8(domain@)),
            plain(record_head(qtype.spec_num(), ttl)),
        )),
{
    let ghost s0 = *buffer;
    let ghost e1 = name_emission(encode_utf8(domain@));
    let ghost tail = record_head(qtype.spec_num(), ttl);
    let r = buffer.write_query_name(domain.as_str());
    if r.is_err() {
        proof {
            lemma_emits_stopped(s0, *buffer, r, e1, plain(tail));
        }
        return r;
    }
    let ghost s1 = *buffer;
    proof {
        lemma_emits_nothing(s1);
    }
    let r = buffer.write_u16(qtype.into());
    proof {
        lemma_emits_step(s1, s1, seq![], *buffer, r, u16_bytes(qtype.spec_num()), tail);
    }
    if r.is_ok() {
        let ghost s2 = *buffer;
        let ghost done = seq![] + u16_bytes(qtype.spec_num());
        let r = buffer.write_u16(1);
        proof {
            lemma_emits_step(s1, s2, done, *buffer, r, u16_bytes(1), tail);
        }
        if r.is_ok() {
            let ghost s3 = *buffer;
            let ghost done = done + u16_bytes(1);
            let r = buffer.write_u32(ttl);
            proof {
                lemma_emits_step(s1, s3, done, *buffer, r, u32_bytes(ttl), tail);
                assert(done + u32_bytes(ttl) =~= tail);
                lemma_emits_then(s0, s1, Ok(()), e1, *buffer, r, plain(tail));
            }
            return r;
        }
        proof {
            lemma_emits_then(s0, s1, Ok(()), e1, *buffer, r, plain(tail));
        }
        return r;
    }
    proof {
        lemma_emits_then(s0, s1, Ok(()), e1, *buffer, r, plain(tail));
    }
    r
}

/// A failed write fails the same way under any emission of its length and stop.
proof fn lemma_emits_failed_alike(
    b0: BytePacketBuffer,
    b1: BytePacketBuffer,
    r: Result<()>,
    e1: Emission,
    e2: Emission,
)
    requires
        emits(b0, b1, r, e1),
        r is Err,
        e1.bytes.len() == e2.bytes.len(),
        e1.stop == e2.stop,
    ensures
        emits(b0, b1, r, e2),
{
}

/// Writes record data that ends in a name: a placeholder length, the
/// priority if there is one, the name, then the length patched in.
fn write_name_rdata(buffer: &mut BytePacketBuffer, priority: Option<u16>, host: &String) -> (r: Result<()>)
    ensures
        emits(*old(buffer), *final(buffer), r, name_rdata_emission(
            match priority {
                Some(p) => u16_bytes(p),
                None => seq![],
            },
            host@,
        )),
{
    let ghost s0 = *buffer;
    let ghost pre = match priority {
        Some(p) => u16_bytes(p),
        None => seq![],
    };
    let ghost h = name_emission(encode_utf8(host@));
    let ghost total = name_rdata_emission(pre, host@);
    let ghost placeholder = then(plain(u16_bytes(0) + pre), h);
    let position = buffer.position;
    proof {
        lemma_emits_nothing(s0);
    }
    let r = buffer.write_u16(0);
    proof {
        lemma_emits_step(s0, s0, seq![], *buffer, r, u16_bytes(0), u16_bytes(0) + pre);
    }
    if r.is_err() {
        proof {
            lemma_emits_stopped(s0, *buffer, r, plain(u16_bytes(0) + pre), h);
            lemma_emits_failed_alike(s0, *buffer, r, placeholder, total);
        }
        return r;
    }
    let ghost done = seq![] + u16_bytes(0);
    if let Some(p) = priority {
        let ghost s1 = *buffer;
        let r = buffer.write_u16(p);
        proof {
            lemma_emits_step(s0, s1, done, *buffer, r, u16_bytes(p), u16_bytes(0) + pre);
        }
        if r.is_err() {
            proof {
                lemma_emits_stopped(s0, *buffer, r, plain(u16_bytes(0) + pre), h);
                lemma_emits_failed_alike(s0, *buffer, r, placeholder, total);
            }
            return r;
        }
    }
    assert(emits(s0, *buffer, Ok(()), plain(u16_bytes(0) + pre))) by {
        if priority is None {
            assert(done =~= u16_bytes(0) + pre);
        } else {
            assert(done + pre =~= u16_bytes(0) + pre);
        }
    }
    let ghost s2 = *buffer;
    let r = buffer.write_query_name(host.as_str());
    proof {
        lemma_emits_then(s0, s2, Ok(()), plain(u16_bytes(0) + pre), *buffer, r, h);
    }
    if r.is_err() {
        proof {
            lemma_emits_failed_alike(s0, *buffer, r, placeholder, total);
        }
        return r;
    }
    let size = buffer.position - (position + 2);
    let r = buffer.set_u16(position, size as u16);
    proof {
        assert(size == pre.len() + h.bytes.len());
        assert(buffer.bytes() =~= crate::packet::overwrite(
            s0.bytes(),
            s0.position as int,
            total.bytes,
        ));
    }
    r
}

/// Writes a record whose data ends in a name.
fn write_name_record(
    buffer: &mut BytePacketBuffer,
    domain: &String,
    qtype: QueryType,
    ttl: u32,
    priority: Option<u16>,
    host: &String,
) -> (r: Result<()>)
    ensures
        emits(*old(buffer), *final(buffer), r, then(
            then(name_emission(encode_utf8(domain@)), plain(record_head(qtype.spec_num(), ttl))),
            name_rdata_emission(
                match priority {
                    Some(p) => u16_bytes(p),
                    None => seq![],
                },
                host@,
            ),
        )),
{
    let ghost s0 = *buffer;
    let ghost head = then(name_emission(encode_utf8(domain@)), plain(record_head(qtype.spec_num(), ttl)));
    let ghost data = name_rdata_emission(
        match priority {
            Some(p) => u16_bytes(p),
            None => seq![],
        },
        host@,
    );
    let r = write_head(buffer, domain, qtype, ttl);
    if r.is_err() {
        proof {
            lemma_emits_stopped(s0, *buffer, r, head, data);
        }
        return r;
    }
    let ghost s1 = *buffer;
    let r = write_name_rdata(buffer, priority, host);
    proof {
        lemma_emits_then(s0, s1, Ok(()), head, *buffer, r, data);
    }
    r
}

proof fn lemma_segment_bytes_len(a: Seq<u16>)
    ensures
        segment_bytes(a).len() == 2 * a.len(),
    decreases a.len(),
{
    if a.len() > 0 {
        lemma_segment_bytes_len(a.drop_last());
    }
}

/// Writes an A record: its head, then the four address bytes behind their length.
fn write_a_record(buffer: &mut BytePacketBuffer, domain: &String, address: &[u8; 4], ttl: u32) -> (r: Result<()>)
    ensures
        emits(*old(buffer), *final(buffer), r, then(
            name_emission(encode_utf8(domain@)),
            plain(record_head(1, ttl) + u16_bytes(4) + address@),
        )),
{
    let ghost s0 = *buffer;
    let ghost head = then(name_emission(encode_utf8(domain@)), plain(record_head(1, ttl)));
    let ghost tail = u16_bytes(4) + address@;
    let r = write_head(buffer, domain, QueryType::A, ttl);
    if r.is_err() {
        proof {
            lemma_emits_stopped(s0, *buffer, r, head, plain(tail));
            crate::name::lemma_then_assoc(name_emission(encode_utf8(domain@)), plain(record_head(1, ttl)), plain(tail));
        }
        return r;
    }
    let ghost s1 = *buffer;
    proof {
        lemma_emits_nothing(s1);
    }
    let r = buffer.write_u16(4);
    proof {
        lemma_emits_step(s1, s1, seq![], *buffer, r, u16_bytes(4), tail);
    }
    let mut r = r;
    let mut i: usize = 0;
    while i < 4 && r.is_ok()
        invariant
            i <= 4,
            address@.len() == 4,
            tail == u16_bytes(4) + address@,
            r is Ok ==> r == Ok::<(), DnsError>(()),
            r is Ok ==> emits(s1, *buffer, Ok(()), plain(seq![] + u16_bytes(4) + address@.subrange(0, i as int))),
            r is Err ==> emits(s1, *buffer, r, plain(tail)),
        decreases 4 - i,
    {
        let ghost s2 = *buffer;
        let ghost done = seq![] + u16_bytes(4) + address@.subrange(0, i as int);
        r = buffer.write_u8(address[i]);
        proof {
            lemma_emits_step(s1, s2, done, *buffer, r, seq![address@[i as int]], tail);
            assert(done + seq![address@[i as int]] =~= seq![] + u16_bytes(4) + address@.subrange(0, i + 1));
        }
        i += 1;
    }
    proof {
        if r is Ok {
            assert(seq![] + u16_bytes(4) + address@.subrange(0, 4) =~= tail);
        }
        lemma_emits_then(s0, s1, Ok(()), head, *buffer, r, plain(tail));
        crate::name::lemma_then_assoc(name_emission(encode_utf8(domain@)), plain(record_head(1, ttl)), plain(tail));
        assert(record_head(1, ttl) + tail =~= record_head(1, ttl) + u16_bytes(4) + address@);
    }
    r
}

/// Writes an AAAA record: its head, then the eight segments behind their length.
fn write_aaaa_record(buffer: &mut BytePacketBuffer, domain: &String, address: &[u16; 8], ttl: u32) -> (r: Result<()>)
    ensures
        emits(*old(buffer), *final(buffer), r, then(
            name_emission(encode_utf8(domain@)),
            plain(record_head(28, ttl) + u16_bytes(16) + segment_bytes(address@)),
        )),
{
    let ghost s0 = *buffer;
    let ghost head = then(name_emission(encode_utf8(domain@)), plain(record_head(28, ttl)));
    let ghost tail = u16_bytes(16) + segment_bytes(address@);
    let r = write_head(buffer, domain, QueryType::AAAA, ttl);
    if r.is_err() {
        proof {
            lemma_emits_stopped(s0, *buffer, r, head, plain(tail));
            crate::name::lemma_then_assoc(name_emission(encode_utf8(domain@)), plain(record_head(28, ttl)), plain(tail));
        }
        return r;
    }
    let ghost s1 = *buffer;
    proof {
        lemma_emits_nothing(s1);
        lemma_segment_bytes_len(address@);
    }
    let r = buffer.write_u16(16);
    proof {
        lemma_emits_step(s1, s1, seq![], *buffer, r, u16_bytes(16), tail);
    }
    let mut r = r;
    let mut i: usize = 0;
    while i < 8 && r.is_ok()
        invariant
            i <= 8,
            address@.len() == 8,
            tail == u16_bytes(16) + segment_bytes(address@),
            r is Ok ==> r == Ok::<(), DnsError>(()),
            segment_bytes(address@).len() == 16,
            r is Ok ==> emits(s1, *buffer, Ok(()), plain(seq![] + u16_bytes(16) + segment_bytes(address@.subrange(0, i as int)))),
            r is Err ==> emits(s1, *buffer, r, plain(tail)),
        decreases 8 - i,
    {
        let ghost s2 = *buffer;
        let ghost done = seq![] + u16_bytes(16) + segment_bytes(address@.subrange(0, i as int));
        proof {
            lemma_segment_bytes_len(address@.subrange(0, i + 1));
            lemma_segment_bytes_len(address@.subrange(0, i as int));
        }
        r = buffer.write_u16(address[i]);
        proof {
            lemma_emits_step(s1, s2, done, *buffer, r, u16_bytes(address@[i as int]), tail);
            assert(address@.subrange(0, i + 1).drop_last() =~= address@.subrange(0, i as int));
            assert(done + u16_bytes(address@[i as int]) =~= seq![] + u16_bytes(16) + segment_bytes(address@.subrange(0, i + 1)));
        }
        i += 1;
    }
    proof {
        if r is Ok {
            assert(address@.subrange(0, 8) =~= address@);
            assert(seq![] + u16_bytes(16) + segment_bytes(address@.subrange(0, 8)) =~= tail);
        }
        lemma_emits_then(s0, s1, Ok(()), head, *buffer, r, plain(tail));
        crate::name::lemma_then_assoc(name_emission(encode_utf8(domain@)), plain(record_head(28, ttl)), plain(tail));
        assert(record_head(28, ttl) + tail =~= record_head(28, ttl) + u16_bytes(16) + segment_bytes(address@));
    }
    r
}

impl Record {
    /// Reads a record at the cursor.
    pub fn read(buffer: &mut BytePacketBuffer) -> (r: Result<Record>)
        ensures
            final(buffer).buffer == old(buffer).buffer,
            match parse_record(old(buffer).bytes(), old(buffer).position as int) {
                Ok((v, end)) => {
                    &&& r is Ok
                    &&& r->Ok_0@ == v
                    &&& final(buffer).position == end
                },
                Err(e) => r == Err::<Record, DnsError>(e),
            },
    {
        let ghost bytes = buffer.bytes();
        let mut domain = String::new();
        buffer.read_query_name(&mut domain)?;
        let qtype = buffer.read_u16()?;
        let _ = buffer.read_u16()?;
        let ttl = buffer.read_u32()?;
        let len = buffer.read_u16()?;
        let ghost d = buffer.position as int;
        proof {
            assert(domain@ =~= seq![] + domain@);
        }
        match QueryType::from(qtype) {
            QueryType::A => {
                let raw_address = buffer.read_u32()?;
                proof {
                    lemma_u32_parts(bytes[d], bytes[d + 1], bytes[d + 2], bytes[d + 3]);
                }
                let address = [
                    ((raw_address >> 24) & 0xFF) as u8,
                    ((raw_address >> 16) & 0xFF) as u8,
                    ((raw_address >> 8) & 0xFF) as u8,
                    (raw_address & 0xFF) as u8,
                ];
                assert(address@ =~= bytes.subrange(d, d + 4));
                Ok(Record::A { domain, address, ttl })
            },
            QueryType::AAAA => {
                let raw_address1 = buffer.read_u32()?;
                let raw_address2 = buffer.read_u32()?;
                let raw_address3 = buffer.read_u32()?;
                let raw_address4 = buffer.read_u32()?;
                proof {
                    lemma_u32_parts(bytes[d], bytes[d + 1], bytes[d + 2], bytes[d + 3]);
                    lemma_u32_parts(bytes[d + 4], bytes[d + 5], bytes[d + 6], bytes[d + 7]);
                    lemma_u32_parts(bytes[d + 8], bytes[d + 9], bytes[d + 10], bytes[d + 11]);
                    lemma_u32_parts(bytes[d + 12], bytes[d + 13], bytes[d + 14], bytes[d + 15]);
                }
                let address = [
                    ((raw_address1 >> 16) & 0xFFFF) as u16,
                    (raw_address1 & 0xFFFF) as u16,
                    ((raw_address2 >> 16) & 0xFFFF) as u16,
                    (raw_address2 & 0xFFFF) as u16,
                    ((raw_address3 >> 16) & 0xFFFF) as u16,
                    (raw_address3 & 0xFFFF) as u16,
                    ((raw_address4 >> 16) & 0xFFFF) as u16,
                    (raw_address4 & 0xFFFF) as u16,
                ];
                assert(address@ =~= Seq::new(8, |k: int| u16_at(bytes, d + 2 * k)));
                Ok(Record::AAAA { domain, address, ttl })
            },
            QueryType::NS => {
                let mut host = String::new();
                buffer.read_query_name(&mut host)?;
                assert(host@ =~= seq![] + host@);
                Ok(Record::NS { domain, host, ttl })
            },
            QueryType::CNAME => {
                let mut host = String::new();
                buffer.read_query_name(&mut host)?;
                assert(host@ =~= seq![] + host@);
                Ok(Record::CNAME { domain, host, ttl })
            },
            QueryType::MX => {
                let priority = buffer.read_u16()?;
                let mut host = String::new();
                buffer.read_query_name(&mut host)?;
                assert(host@ =~= seq![] + host@);
                Ok(Record::MX { domain, priority, host, ttl })
            },
            QueryType::UNKNOWN(_) => {
                buffer.step(len as usize)?;
                Ok(Record::UNKNOWN { domain, qtype, len, ttl })
            },
        }
    }

    /// Writes the record at the cursor and returns how many bytes it took. An
    /// unknown record is not written.
    pub fn write(&self, buffer: &mut BytePacketBuffer) -> (r: Result<usize>)
        ensures
            emits(*old(buffer), *final(buffer), outcome(r), record_emission(self@)),
            r is Ok ==> r->Ok_0 == record_emission(self@).bytes.len(),
    {
        reveal(record_emission);
        let start = buffer.position;
        let ghost s0 = *buffer;
        let r = match self {
            Record::A { domain, address, ttl } => write_a_record(buffer, domain, address, *ttl),
            Record::AAAA { domain, address, ttl } => write_aaaa_record(buffer, domain, address, *ttl),
            Record::NS { domain, host, ttl } => write_name_record(buffer, domain, QueryType::NS, *ttl, None, host),
            Record::CNAME { domain, host, ttl } => write_name_record(buffer, domain, QueryType::CNAME, *ttl, None, host),
            Record::MX { domain, priority, host, ttl } => write_name_record(buffer, domain, QueryType::MX, *ttl, Some(*priority), host),
            Record::UNKNOWN { .. } => {
                proof {
                    lemma_emits_nothing(s0);
                }
                Ok(())
            },
        };
        match r {
            Ok(()) => Ok(buffer.position - start),
            Err(e) => Err(e),
        }
    }
}


/// A message: a header and four sections.
#[derive(Debug, PartialEq, Eq)]
pub struct Packet {
    /// header
    pub header: Header,
    /// the question for the name server
    pub questions: Vec<Question>,
    /// resource records answering the question
    pub answers: Vec<Record>,
    /// resource records pointing toward an authority
    pub authorities: Vec<Record>,
    /// resource records holding additional information
    pub additions: Vec<Record>,
}

pub struct PacketView {
    pub header: Header,
    pub questions: Seq<QuestionView>,
    pub answers: Seq<RecordView>,
    pub authorities: Seq<RecordView>,
    pub additions: Seq<RecordView>,
}

pub open spec fn record_views(rs: Seq<Record>) -> Seq<RecordView> {
    rs.map_values(|r: Record| r@)
}

pub open spec fn question_views(qs: Seq<Question>) -> Seq<QuestionView> {
    qs.map_values(|q: Question| q@)
}

impl View for Packet {
    type V = PacketView;

    open spec fn view(&self) -> PacketView {
        PacketView {
            header: self.header,
            questions: question_views(self.questions@),
            answers: record_views(self.answers@),
            authorities: record_views(self.authorities@),
            additions: record_views(self.additions@),
        }
    }
}

/// `n` questions one after the other from `p`, and where they end.
pub open spec fn parse_questions(b: Seq<u8>, p: int, n: nat) -> Result<(Seq<QuestionView>, int)>
    decreases n,
{
    if n == 0 {
        Ok((seq![], p))
    } else {
        match parse_questions(b, p, (n - 1) as nat) {
            Err(e) => Err(e),
            Ok((qs, q)) => match parse_question(b, q) {
                Err(e) => Err(e),
                Ok((v, end)) => Ok((qs.push(v), end)),
            },
        }
    }
}

/// `n` records one after the other from `p`, and where they end.
pub open spec fn parse_records(b: Seq<u8>, p: int, n: nat) -> Result<(Seq<RecordView>, int)>
    decreases n,
{
    if n == 0 {
        Ok((seq![], p))
    } else {
        match parse_records(b, p, (n - 1) as nat) {
            Err(e) => Err(e),
            Ok((rs, q)) => match parse_record(b, q) {
                Err(e) => Err(e),
                Ok((v, end)) => Ok((rs.push(v), end)),
            },
        }
    }
}

/// The message at `p`: the header, then as many questions, answers,
/// authorities and additions as its counts say, in that order.
pub open spec fn parse_packet(b: Seq<u8>, p: int) -> Result<PacketView> {
    if p + 12 > LIMIT_OF_BUFFER {
        Err(DnsError::BufferOverrun)
    } else {
        let h = parse_header(b, p);
        match parse_questions(b, p + 12, h.qdcount as nat) {
            Err(e) => Err(e),
            Ok((qs, p1)) => match parse_records(b, p1, h.ancount as nat) {
                Err(e) => Err(e),
                Ok((ans, p2)) => match parse_records(b, p2, h.nscount as nat) {
                    Err(e) => Err(e),
                    Ok((auth, p3)) => match parse_records(b, p3, h.arcount as nat) {
                        Err(e) => Err(e),
                        Ok((adds, _)) => Ok(
                            PacketView {
                                header: h,
                                questions: qs,
                                answers: ans,
                                authorities: auth,
                                additions: adds,
                            },
                        ),
                    },
                },
            },
        }
    }
}

/// The questions from the `i`-th on, written one after the other.
pub open spec fn questions_emission(qs: Seq<QuestionView>, i: int) -> Emission
    decreases qs.len() - i,
{
    if i >= qs.len() || i < 0 {
        plain(seq![])
    } else {
        then(question_emission(qs[i]), questions_emission(qs, i + 1))
    }
}

/// The records from the `i`-th on, written one after the other.
pub open spec fn records_emission(rs: Seq<RecordView>, i: int) -> Emission
    decreases rs.len() - i,
{
    if i >= rs.len() || i < 0 {
        plain(seq![])
    } else {
        then(record_emission(rs[i]), records_emission(rs, i + 1))
    }
}

/// The header with its four counts taken from the sections' lengths.
pub open spec fn synced_header(p: PacketView) -> Header {
    Header {
        qdcount: p.questions.len() as u16,
        ancount: p.answers.len() as u16,
        nscount: p.authorities.len() as u16,
        arcount: p.additions.len() as u16,
        ..p.header
    }
}

/// What writing a message puts out: the header, then the four sections.
pub open spec fn packet_emission(p: PacketView) -> Emission {
    then(
        plain(header_bytes(p.header)),
        then(
            questions_emission(p.questions, 0),
            then(
                records_emission(p.answers, 0),
                then(records_emission(p.authorities, 0), records_emission(p.additions, 0)),
            ),
        ),
    )
}

fn write_questions(buffer: &mut BytePacketBuffer, questions: &Vec<Question>) -> (r: Result<()>)
    ensures
        emits(*old(buffer), *final(buffer), r, questions_emission(question_views(questions@), 0)),
{
    let ghost s0 = *buffer;
    let ghost qs = question_views(questions@);
    let ghost mut acc = plain(seq![]);
    proof {
        lemma_emits_nothing(s0);
        crate::name::lemma_then_plain_empty(questions_emission(qs, 0));
    }
    let mut i: usize = 0;
    while i < questions.len()
        invariant
            s0 == *old(buffer),
            i <= questions@.len(),
            qs == question_views(questions@),
            acc.stop is None,
            emits(s0, *buffer, Ok(()), acc),
            questions_emission(qs, 0) == then(acc, questions_emission(qs, i as int)),
        decreases questions@.len() - i,
    {
        let ghost s1 = *buffer;
        let ghost e = question_emission(qs[i as int]);
        let ghost rest = questions_emission(qs, i + 1);
        assert(questions_emission(qs, i as int) == then(e, rest));
        let r = questions[i].write(buffer);
        proof {
            lemma_emits_then(s0, s1, Ok(()), acc, *buffer, r, e);
            crate::name::lemma_then_assoc(acc, e, rest);
        }
        if r.is_err() {
            proof {
                lemma_emits_stopped(s0, *buffer, r, then(acc, e), rest);
            }
            return r;
        }
        proof {
            acc = then(acc, e);
        }
        i += 1;
    }
    proof {
        crate::name::lemma_then_plain_empty(acc);
        assert(acc.bytes + seq![] =~= acc.bytes);
    }
    Ok(())
}

fn write_records(buffer: &mut BytePacketBuffer, records: &Vec<Record>) -> (r: Result<()>)
    ensures
        emits(*old(buffer), *final(buffer), r, records_emission(record_views(records@), 0)),
{
    let ghost s0 = *buffer;
    let ghost rs = record_views(records@);
    let ghost mut acc = plain(seq![]);
    proof {
        lemma_emits_nothing(s0);
        crate::name::lemma_then_plain_empty(records_emission(rs, 0));
    }
    let mut i: usize = 0;
    while i < records.len()
        invariant
            s0 == *old(buffer),
            i <= records@.len(),
            rs == record_views(records@),
            acc.stop is None,
            emits(s0, *buffer, Ok(()), acc),
            records_emission(rs, 0) == then(acc, records_emission(rs, i as int)),
        decreases records@.len() - i,
    {
        let ghost s1 = *buffer;
        let ghost e = record_emission(rs[i as int]);
        let ghost rest = records_emission(rs, i + 1);
        assert(records_emission(rs, i as int) == then(e, rest));
        let r = records[i].write(buffer);
        let r = match r {
            Ok(_) => Ok(()),
            Err(e) => Err(e),
        };
        proof {
            lemma_emits_then(s0, s1, Ok(()), acc, *buffer, r, e);
            crate::name::lemma_then_assoc(acc, e, rest);
        }
        if r.is_err() {
            proof {
                lemma_emits_stopped(s0, *buffer, r, then(acc, e), rest);
            }
            return r;
        }
        proof {
            acc = then(acc, e);
        }
        i += 1;
    }
    proof {
        assert(acc.bytes + seq![] =~= acc.bytes);
    }
    Ok(())
}


proof fn lemma_parse_questions_stays_failed(b: Seq<u8>, p: int, i: nat, n: nat)
    requires
        i <= n,
        parse_questions(b, p, i) is Err,
    ensures
        parse_questions(b, p, n) == parse_questions(b, p, i),
    decreases n,
{
    if i < n {
        lemma_parse_questions_stays_failed(b, p, i, (n - 1) as nat);
    }
}

proof fn lemma_parse_records_stays_failed(b: Seq<u8>, p: int, i: nat, n: nat)
    requires
        i <= n,
        parse_records(b, p, i) is Err,
    ensures
        parse_records(b, p, n) == parse_records(b, p, i),
    decreases n,
{
    if i < n {
        lemma_parse_records_stays_failed(b, p, i, (n - 1) as nat);
    }
}

/// Reads `count` questions at the cursor.
fn read_questions(buffer: &mut BytePacketBuffer, count: u16) -> (r: Result<Vec<Question>>)
    ensures
        final(buffer).buffer == old(buffer).buffer,
        match parse_questions(old(buffer).bytes(), old(buffer).position as int, count as nat) {
            Ok((qs, end)) => {
                &&& r is Ok
                &&& question_views(r->Ok_0@) == qs
                &&& final(buffer).position == end
            },
            Err(e) => r == Err::<Vec<Question>, DnsError>(e),
        },
{
    let ghost b = buffer.bytes();
    let ghost p = buffer.position as int;
    let mut questions: Vec<Question> = Vec::new();
    let mut i: u16 = 0;
    assert(question_views(questions@) =~= seq![]);
    while i < count
        invariant
            buffer.buffer == old(buffer).buffer,
            b == old(buffer).bytes(),
            p == old(buffer).position,
            i <= count,
            parse_questions(b, p, i as nat) == Ok::<(Seq<QuestionView>, int), DnsError>(
                (question_views(questions@), buffer.position as int),
            ),
        decreases count - i,
    {
        let mut question = Question::new(String::new(), QueryType::UNKNOWN(0));
        let r = question.read(buffer);
        if let Err(e) = r {
            proof {
                lemma_parse_questions_stays_failed(b, p, (i + 1) as nat, count as nat);
            }
            return Err(e);
        }
        proof {
            assert(question.qname@ =~= seq![] + question.qname@);
        }
        let ghost before = questions@;
        let ghost qv = question@;
        questions.push(question);
        assert(question_views(questions@) =~= question_views(before).push(qv));
        i += 1;
    }
    Ok(questions)
}


/// Reads `count` records at the cursor.
fn read_records(buffer: &mut BytePacketBuffer, count: u16) -> (r: Result<Vec<Record>>)
    ensures
        final(buffer).buffer == old(buffer).buffer,
        match parse_records(old(buffer).bytes(), old(buffer).position as int, count as nat) {
            Ok((rs, end)) => {
                &&& r is Ok
                &&& record_views(r->Ok_0@) == rs
                &&& final(buffer).position == end
            },
            Err(e) => r == Err::<Vec<Record>, DnsError>(e),
        },
{
    let ghost b = buffer.bytes();
    let ghost p = buffer.position as int;
    let mut records: Vec<Record> = Vec::new();
    let mut i: u16 = 0;
    assert(record_views(records@) =~= seq![]);
    while i < count
        invariant
            buffer.buffer == old(buffer).buffer,
            b == old(buffer).bytes(),
            p == old(buffer).position,
            i <= count,
            parse_records(b, p, i as nat) == Ok::<(Seq<RecordView>, int), DnsError>(
                (record_views(records@), buffer.position as int),
            ),
        decreases count - i,
    {
        let r = Record::read(buffer);
        match r {
            Err(e) => {
                proof {
                    lemma_parse_records_stays_failed(b, p, (i + 1) as nat, count as nat);
                }
                return Err(e);
            },
            Ok(record) => {
                let ghost before = records@;
                let ghost rv = record@;
                records.push(record);
                assert(record_views(records@) =~= record_views(before).push(rv));
            },
        }
        i += 1;
    }
    Ok(records)
}

impl Packet {
    /// An empty message with a zero header.
    pub fn new() -> (r: Self)
        ensures
            r.header == Header::new_spec(),
            r.questions@.len() == 0,
            r.answers@.len() == 0,
            r.authorities@.len() == 0,
            r.additions@.len() == 0,
    {
        Self {
            header: Header::new(),
            questions: Vec::new(),
            answers: Vec::new(),
            authorities: Vec::new(),
            additions: Vec::new(),
        }
    }

    /// Decodes the message at the cursor.
    pub fn from_buffer(buffer: &mut BytePacketBuffer) -> (r: Result<Self>)
        ensures
            final(buffer).buffer == old(buffer).buffer,
            match parse_packet(old(buffer).bytes(), old(buffer).position as int) {
                Ok(v) => r is Ok && r->Ok_0@ == v,
                Err(e) => r == Err::<Packet, DnsError>(e),
            },
    {
        let mut result = Packet::new();
        result.header.read(buffer)?;
        result.questions = read_questions(buffer, result.header.qdcount)?;
        result.answers = read_records(buffer, result.header.ancount)?;
        result.authorities = read_records(buffer, result.header.nscount)?;
        result.additions = read_records(buffer, result.header.arcount)?;
        Ok(result)
    }

    /// Encodes the message at the cursor, after setting the header's four
    /// counts to the lengths of the sections.
    pub fn write(&mut self, buffer: &mut BytePacketBuffer) -> (r: Result<()>)
        ensures
            final(self)@ == (PacketView { header: synced_header(old(self)@), ..old(self)@ }),
            emits(*old(buffer), *final(buffer), r, packet_emission(final(self)@)),
    {
        self.header.qdcount = #[verifier::truncate] (self.questions.len() as u16);
        self.header.ancount = #[verifier::truncate] (self.answers.len() as u16);
        self.header.nscount = #[verifier::truncate] (self.authorities.len() as u16);
        self.header.arcount = #[verifier::truncate] (self.additions.len() as u16);
        let ghost v = self@;
        let ghost s0 = *buffer;
        let ghost h = plain(header_bytes(v.header));
        let ghost q = questions_emission(v.questions, 0);
        let ghost an = records_emission(v.answers, 0);
        let ghost ns = records_emission(v.authorities, 0);
        let ghost ar = records_emission(v.additions, 0);
        let r = self.header.write(buffer);
        if r.is_err() {
            proof {
                lemma_emits_stopped(s0, *buffer, r, h, then(q, then(an, then(ns, ar))));
            }
            return r;
        }
        let ghost s1 = *buffer;
        let r = write_questions(buffer, &self.questions);
        proof {
            lemma_emits_then(s0, s1, Ok(()), h, *buffer, r, q);
            crate::name::lemma_then_assoc(h, q, then(an, then(ns, ar)));
        }
        if r.is_err() {
            proof {
                lemma_emits_stopped(s0, *buffer, r, then(h, q), then(an, then(ns, ar)));
            }
            return r;
        }
        let ghost acc = then(h, q);
        let ghost s2 = *buffer;
        let r = write_records(buffer, &self.answers);
        proof {
            lemma_emits_then(s0, s2, Ok(()), acc, *buffer, r, an);
            crate::name::lemma_then_assoc(acc, an, then(ns, ar));
        }
        if r.is_err() {
            proof {
                lemma_emits_stopped(s0, *buffer, r, then(acc, an), then(ns, ar));
            }
            return r;
        }
        let ghost acc = then(acc, an);
        let ghost s3 = *buffer;
        let r = write_records(buffer, &self.authorities);
        proof {
            lemma_emits_then(s0, s3, Ok(()), acc, *buffer, r, ns);
            crate::name::lemma_then_assoc(acc, ns, ar);
        }
        if r.is_err() {
            proof {
                lemma_emits_stopped(s0, *buffer, r, then(acc, ns), ar);
            }
            return r;
        }
        let ghost acc = then(acc, ns);
        let ghost s4 = *buffer;
        let r = write_records(buffer, &self.additions);
        proof {
            lemma_emits_then(s0, s4, Ok(()), acc, *buffer, r, ar);
        }
        r
    }
}


/// Whether the bytes `s` end with the bytes `suffix`.
pub open spec fn ends_with(s: Seq<u8>, suffix: Seq<u8>) -> bool {
    suffix.len() <= s.len() && s.subrange(s.len() - suffix.len(), s.len() as int) == suffix
}

/// Whether the text `name` ends with the text `suffix`, compared byte by byte.
pub fn name_ends_with(name: &str, suffix: &str) -> (r: bool)
    ensures
        r == ends_with(encode_utf8(name@), encode_utf8(suffix@)),
{
    let a = name.as_bytes();
    let b = suffix.as_bytes();
    if b.len() > a.len() {
        return false;
    }
    let n = a.len();
    let offset = n - b.len();
    let mut i: usize = 0;
    while i < b.len()
        invariant
            n == a@.len(),
            a@ == encode_utf8(name@),
            b@ == encode_utf8(suffix@),
            b@.len() <= a@.len(),
            offset == a@.len() - b@.len(),
            i <= b@.len(),
            forall|k: int| 0 <= k < i ==> a@[offset + k] == b@[k],
        decreases b@.len() - i,
    {
        if a[offset + i] != b[i] {
            assert(a@.subrange(offset as int, a@.len() as int)[i as int] != b@[i as int]);
            return false;
        }
        i += 1;
    }
    assert(a@.subrange(offset as int, a@.len() as int) =~= b@);
    true
}

/// The address of the first A record among `rs` from the `i`-th on.
pub open spec fn first_a(rs: Seq<RecordView>, i: int) -> Option<Seq<u8>>
    decreases rs.len() - i,
{
    if i < 0 || i >= rs.len() {
        None
    } else {
        match rs[i] {
            RecordView::A { address, .. } => Some(address),
            _ => first_a(rs, i + 1),
        }
    }
}

/// The (domain, host) pairs of the NS records among `rs` whose domain the
/// name `qname` ends with, in order.
pub open spec fn ns_pairs(rs: Seq<RecordView>, qname: Seq<char>) -> Seq<(Seq<char>, Seq<char>)>
    decreases rs.len(),
{
    if rs.len() == 0 {
        seq![]
    } else {
        let rest = ns_pairs(rs.drop_last(), qname);
        match rs.last() {
            RecordView::NS { domain, host, .. } => if ends_with(
                encode_utf8(qname),
                encode_utf8(domain),
            ) {
                rest.push((domain, host))
            } else {
                rest
            },
            _ => rest,
        }
    }
}

/// The address of the first A record among `rs`, from the `i`-th on, whose
/// domain is `host`: glue for that host.
pub open spec fn glue(rs: Seq<RecordView>, host: Seq<char>, i: int) -> Option<Seq<u8>>
    decreases rs.len() - i,
{
    if i < 0 || i >= rs.len() {
        None
    } else {
        match rs[i] {
            RecordView::A { domain, address, .. } => if domain == host {
                Some(address)
            } else {
                glue(rs, host, i + 1)
            },
            _ => glue(rs, host, i + 1),
        }
    }
}

/// The glue of the first pair, from the `i`-th on, whose host has some.
pub open spec fn resolved_ns(
    pairs: Seq<(Seq<char>, Seq<char>)>,
    adds: Seq<RecordView>,
    i: int,
) -> Option<Seq<u8>>
    decreases pairs.len() - i,
{
    if i < 0 || i >= pairs.len() {
        None
    } else if glue(adds, pairs[i].1, 0) is Some {
        glue(adds, pairs[i].1, 0)
    } else {
        resolved_ns(pairs, adds, i + 1)
    }
}

/// The host of the first pair, from the `i`-th on, that has no glue.
pub open spec fn unresolved_ns(
    pairs: Seq<(Seq<char>, Seq<char>)>,
    adds: Seq<RecordView>,
    i: int,
) -> Option<Seq<char>>
    decreases pairs.len() - i,
{
    if i < 0 || i >= pairs.len() {
        None
    } else if glue(adds, pairs[i].1, 0) is None {
        Some(pairs[i].1)
    } else {
        unresolved_ns(pairs, adds, i + 1)
    }
}

pub open spec fn address_view(a: Option<[u8; 4]>) -> Option<Seq<u8>> {
    match a {
        Some(x) => Some(x@),
        None => None,
    }
}

pub open spec fn pair_views(ps: Seq<(String, String)>) -> Seq<(Seq<char>, Seq<char>)> {
    ps.map_values(|p: (String, String)| (p.0@, p.1@))
}

/// The glue for `host` among `rs`.
fn find_glue(rs: &Vec<Record>, host: &String) -> (r: Option<[u8; 4]>)
    ensures
        address_view(r) == glue(record_views(rs@), host@, 0),
{
    let ghost v = record_views(rs@);
    let mut i: usize = 0;
    while i < rs.len()
        invariant
            i <= rs@.len(),
            v == record_views(rs@),
            glue(v, host@, 0) == glue(v, host@, i as int),
        decreases rs@.len() - i,
    {
        if let Record::A { domain, address, .. } = &rs[i] {
            if *domain == *host {
                return Some(*address);
            }
        }
        i += 1;
    }
    None
}

impl Packet {
    /// The address of the first A record among the answers.
    pub fn get_random_a(&self) -> (r: Option<[u8; 4]>)
        ensures
            address_view(r) == first_a(self@.answers, 0),
    {
        let ghost v = self@.answers;
        let mut i: usize = 0;
        while i < self.answers.len()
            invariant
                i <= self.answers@.len(),
                v == record_views(self.answers@),
                first_a(v, 0) == first_a(v, i as int),
            decreases self.answers@.len() - i,
        {
            if let Record::A { address, .. } = &self.answers[i] {
                return Some(*address);
            }
            i += 1;
        }
        None
    }

    /// The (domain, host) pairs of the NS records among the authorities whose
    /// domain `qname` ends with.
    pub fn get_ns(&self, qname: &str) -> (r: Vec<(String, String)>)
        ensures
            pair_views(r@) == ns_pairs(self@.authorities, qname@),
    {
        let ghost v = self@.authorities;
        let mut pairs: Vec<(String, String)> = Vec::new();
        let mut i: usize = 0;
        assert(pair_views(pairs@) =~= seq![]);
        while i < self.authorities.len()
            invariant
                i <= self.authorities@.len(),
                v == record_views(self.authorities@),
                pair_views(pairs@) == ns_pairs(v.subrange(0, i as int), qname@),
            decreases self.authorities@.len() - i,
        {
            proof {
                assert(v.subrange(0, i + 1).drop_last() =~= v.subrange(0, i as int));
                assert(v.subrange(0, i + 1).last() == v[i as int]);
            }
            if let Record::NS { domain, host, .. } = &self.authorities[i] {
                if name_ends_with(qname, domain.as_str()) {
                    let ghost before = pairs@;
                    pairs.push((domain.clone(), host.clone()));
                    assert(pair_views(pairs@) =~= pair_views(before).push((domain@, host@)));
                }
            }
            i += 1;
        }
        assert(v.subrange(0, i as int) =~= v);
        pairs
    }

    /// The glue address of the first delegation for `qname` that has one.
    pub fn get_resolved_ns(&self, qname: &str) -> (r: Option<[u8; 4]>)
        ensures
            address_view(r) == resolved_ns(ns_pairs(self@.authorities, qname@), self@.additions, 0),
    {
        let pairs = self.get_ns(qname);
        let ghost pv = pair_views(pairs@);
        let mut i: usize = 0;
        while i < pairs.len()
            invariant
                i <= pairs@.len(),
                pv == pair_views(pairs@),
                pv == ns_pairs(self@.authorities, qname@),
                resolved_ns(pv, self@.additions, 0) == resolved_ns(pv, self@.additions, i as int),
            decreases pairs@.len() - i,
        {
            assert(pv[i as int].1 == pairs@[i as int].1@);
            let found = find_glue(&self.additions, &pairs[i].1);
            if found.is_some() {
                return found;
            }
            i += 1;
        }
        None
    }

    /// The host of the first delegation for `qname` that has no glue.
    pub fn get_unresolved_ns(&self, qname: &str) -> (r: Option<String>)
        ensures
            match r {
                Some(h) => unresolved_ns(ns_pairs(self@.authorities, qname@), self@.additions, 0)
                    == Some(h@),
                None => unresolved_ns(ns_pairs(self@.authorities, qname@), self@.additions, 0)
                    is None,
            },
    {
        let pairs = self.get_ns(qname);
        let ghost pv = pair_views(pairs@);
        let mut i: usize = 0;
        while i < pairs.len()
            invariant
                i <= pairs@.len(),
                pv == pair_views(pairs@),
                pv == ns_pairs(self@.authorities, qname@),
                unresolved_ns(pv, self@.additions, 0) == unresolved_ns(pv, self@.additions, i as int),
            decreases pairs@.len() - i,
        {
            assert(pv[i as int].1 == pairs@[i as int].1@);
            if find_glue(&self.additions, &pairs[i].1).is_none() {
                return Some(pairs[i].1.clone());
            }
            i += 1;
        }
        None
    }
}


/// A record that encoding and decoding keep as it is: not of an unknown type,
/// with valid names and addresses of their full size.
pub open spec fn round_trips(r: RecordView) -> bool {
    match r {
        RecordView::A { domain, address, .. } => valid_name(domain) && address.len() == 4,
        RecordView::NS { domain, host, .. } => valid_name(domain) && valid_name(host),
        RecordView::CNAME { domain, host, .. } => valid_name(domain) && valid_name(host),
        RecordView::MX { domain, host, .. } => valid_name(domain) && valid_name(host),
        RecordView::AAAA { domain, address, .. } => valid_name(domain) && address.len() == 8,
        RecordView::UNKNOWN { .. } => false,
    }
}

proof fn lemma_subrange_split(b: Seq<u8>, p: int, x: Seq<u8>, y: Seq<u8>)
    requires
        0 <= p,
        p + x.len() + y.len() <= b.len(),
        b.subrange(p, p + x.len() + y.len()) == x + y,
    ensures
        b.subrange(p, p + x.len()) == x,
        b.subrange(p + x.len(), p + x.len() + y.len()) == y,
{
    assert forall|k: int| 0 <= k < x.len() implies b.subrange(p, p + x.len())[k] == x[k] by {
        assert(b.subrange(p, p + x.len() + y.len())[k] == (x + y)[k]);
    }
    assert forall|k: int| 0 <= k < y.len() implies b.subrange(p + x.len(), p + x.len() + y.len())[k]
        == y[k] by {
        assert(b.subrange(p, p + x.len() + y.len())[x.len() + k] == (x + y)[x.len() + k]);
        assert(b.subrange(p, p + x.len() + y.len())[x.len() + k] == b[p + x.len() + k]);
        assert(b.subrange(p + x.len(), p + x.len() + y.len())[k] == b[p + x.len() + k]);
    }
    assert(b.subrange(p, p + x.len()) =~= x);
    assert(b.subrange(p + x.len(), p + x.len() + y.len()) =~= y);
}

proof fn lemma_u16_read_back(b: Seq<u8>, q: int, v: u16)
    requires
        0 <= q,
        q + 2 <= b.len(),
        b.subrange(q, q + 2) == u16_bytes(v),
    ensures
        u16_at(b, q) == v,
{
    assert(b.subrange(q, q + 2)[0] == b[q]);
    assert(b.subrange(q, q + 2)[1] == b[q + 1]);
    crate::packet::lemma_u16_round_trip(v);
}

proof fn lemma_u32_read_back(b: Seq<u8>, q: int, v: u32)
    requires
        0 <= q,
        q + 4 <= b.len(),
        b.subrange(q, q + 4) == u32_bytes(v),
    ensures
        u32_at(b, q) == v,
{
    assert(b.subrange(q, q + 4)[0] == b[q]);
    assert(b.subrange(q, q + 4)[1] == b[q + 1]);
    assert(b.subrange(q, q + 4)[2] == b[q + 2]);
    assert(b.subrange(q, q + 4)[3] == b[q + 3]);
    assert(((v / 0x1000000u32) as u8 as u32) * 0x1000000u32 + ((v / 0x10000u32 % 0x100u32) as u8
        as u32) * 0x10000u32 + ((v / 0x100u32 % 0x100u32) as u8 as u32) * 0x100u32 + ((v
        % 0x100u32) as u8 as u32) == v) by (bit_vector);
}

/// The ten fixed bytes after a record's owner name read back as written.
proof fn lemma_fixed_fields(b: Seq<u8>, q: int, t: u16, ttl: u32, len: u16)
    requires
        0 <= q,
        q + 10 <= b.len(),
        b.subrange(q, q + 10) == record_head(t, ttl) + u16_bytes(len),
    ensures
        u16_at(b, q) == t,
        u32_at(b, q + 4) == ttl,
        u16_at(b, q + 8) == len,
{
    assert(record_head(t, ttl) + u16_bytes(len) == u16_bytes(t) + (u16_bytes(1) + (u32_bytes(ttl)
        + u16_bytes(len)))) by {
        assert(record_head(t, ttl) + u16_bytes(len) =~= u16_bytes(t) + (u16_bytes(1) + (u32_bytes(
            ttl,
        ) + u16_bytes(len))));
    }
    lemma_subrange_split(b, q, u16_bytes(t), u16_bytes(1) + (u32_bytes(ttl) + u16_bytes(len)));
    lemma_subrange_split(b, q + 2, u16_bytes(1), u32_bytes(ttl) + u16_bytes(len));
    lemma_subrange_split(b, q + 4, u32_bytes(ttl), u16_bytes(len));
    lemma_u16_read_back(b, q, t);
    lemma_u32_read_back(b, q + 4, ttl);
    lemma_u16_read_back(b, q + 8, len);
}

proof fn lemma_segment_bytes_at(a: Seq<u16>, k: int)
    requires
        0 <= k < a.len(),
    ensures
        segment_bytes(a).subrange(2 * k, 2 * k + 2) == u16_bytes(a[k]),
    decreases a.len(),
{
    lemma_segment_bytes_len(a);
    lemma_segment_bytes_len(a.drop_last());
    if k == a.len() - 1 {
        assert(segment_bytes(a).subrange(2 * k, 2 * k + 2) =~= u16_bytes(a[k]));
    } else {
        lemma_segment_bytes_at(a.drop_last(), k);
        assert(segment_bytes(a).subrange(2 * k, 2 * k + 2) =~= segment_bytes(a.drop_last()).subrange(
            2 * k,
            2 * k + 2,
        ));
    }
}

/// Record data that ends in a valid name reads back as written.
proof fn lemma_name_rdata_read_back(b: Seq<u8>, d: int, pre: Seq<u8>, host: Seq<char>)
    requires
        valid_name(host),
        0 <= d,
        b.len() == LIMIT_OF_BUFFER,
        d - 2 + name_rdata_emission(pre, host).bytes.len() <= LIMIT_OF_BUFFER,
        b.subrange(d + pre.len(), d - 2 + name_rdata_emission(pre, host).bytes.len())
            == name_emission(encode_utf8(host)).bytes,
    ensures
        name_emission(encode_utf8(host)).stop is None,
        scan_name(b, d + pre.len(), 0) == Ok::<(Seq<Seq<u8>>, int), DnsError>(
            (split_labels(encode_utf8(host)), d - 2 + name_rdata_emission(pre, host).bytes.len()),
        ),
        name_text(split_labels(encode_utf8(host))) == host,
{
    lemma_name_round_trip(host, b, d + pre.len());
}


proof fn lemma_a_round_trip(domain: Seq<char>, address: Seq<u8>, ttl: u32, b: Seq<u8>, p: int)
    requires
        valid_name(domain),
        address.len() == 4,
        0 <= p,
        b.len() == LIMIT_OF_BUFFER,
        ({
            let e = record_emission(RecordView::A { domain, address, ttl });
            &&& p + e.bytes.len() <= LIMIT_OF_BUFFER
            &&& b.subrange(p, p + e.bytes.len()) == e.bytes
        }),
    ensures
        ({
            let r = RecordView::A { domain, address, ttl };
            &&& record_emission(r).stop is None
            &&& parse_record(b, p) == Ok::<(RecordView, int), DnsError>(
                (r, p + record_emission(r).bytes.len()),
            )
        }),
{
    reveal(record_emission);
    lemma_valid_name_emission(domain);
    let wd = name_emission(encode_utf8(domain)).bytes;
    let fixed = record_head(1, ttl) + u16_bytes(4);
    lemma_subrange_split(b, p, wd, fixed + address);
    lemma_name_round_trip(domain, b, p);
    let q = p + wd.len();
    lemma_subrange_split(b, q, fixed, address);
    lemma_fixed_fields(b, q, 1, ttl, 4);
}

proof fn lemma_aaaa_round_trip(domain: Seq<char>, address: Seq<u16>, ttl: u32, b: Seq<u8>, p: int)
    requires
        valid_name(domain),
        address.len() == 8,
        0 <= p,
        b.len() == LIMIT_OF_BUFFER,
        ({
            let e = record_emission(RecordView::AAAA { domain, address, ttl });
            &&& p + e.bytes.len() <= LIMIT_OF_BUFFER
            &&& b.subrange(p, p + e.bytes.len()) == e.bytes
        }),
    ensures
        ({
            let r = RecordView::AAAA { domain, address, ttl };
            &&& record_emission(r).stop is None
            &&& parse_record(b, p) == Ok::<(RecordView, int), DnsError>(
                (r, p + record_emission(r).bytes.len()),
            )
        }),
{
    reveal(record_emission);
    lemma_valid_name_emission(domain);
    lemma_segment_bytes_len(address);
    let wd = name_emission(encode_utf8(domain)).bytes;
    let fixed = record_head(28, ttl) + u16_bytes(16);
    let segs = segment_bytes(address);
    lemma_subrange_split(b, p, wd, fixed + segs);
    lemma_name_round_trip(domain, b, p);
    let q = p + wd.len();
    lemma_subrange_split(b, q, fixed, segs);
    lemma_fixed_fields(b, q, 28, ttl, 16);
    let d = q + 10;
    assert forall|k: int| 0 <= k < 8 implies u16_at(b, d + 2 * k) == address[k] by {
        lemma_segment_bytes_at(address, k);
        assert(b.subrange(d + 2 * k, d + 2 * k + 2) =~= segs.subrange(2 * k, 2 * k + 2)) by {
            assert(b.subrange(d, d + 16)[2 * k] == segs[2 * k]);
            assert(b.subrange(d, d + 16)[2 * k + 1] == segs[2 * k + 1]);
        }
        lemma_u16_read_back(b, d + 2 * k, address[k]);
    }
    assert(Seq::new(8, |k: int| u16_at(b, d + 2 * k)) =~= address);
}

/// Records whose data ends in a name: NS, CNAME and MX (whose data starts
/// with the priority, `pre`).
proof fn lemma_name_record_round_trip(
    r: RecordView,
    t: u16,
    domain: Seq<char>,
    pre: Seq<u8>,
    host: Seq<char>,
    ttl: u32,
    b: Seq<u8>,
    p: int,
)
    requires
        valid_name(domain),
        valid_name(host),
        pre.len() <= 2,
        0 <= p,
        b.len() == LIMIT_OF_BUFFER,
        record_emission(r) == then(
            then(name_emission(encode_utf8(domain)), plain(record_head(t, ttl))),
            name_rdata_emission(pre, host),
        ),
        p + record_emission(r).bytes.len() <= LIMIT_OF_BUFFER,
        b.subrange(p, p + record_emission(r).bytes.len()) == record_emission(r).bytes,
    ensures
        record_emission(r).stop is None,
        scan_name(b, p, 0) == Ok::<(Seq<Seq<u8>>, int), DnsError>(
            (split_labels(encode_utf8(domain)), p + name_emission(encode_utf8(domain)).bytes.len()),
        ),
        name_text(split_labels(encode_utf8(domain))) == domain,
        ({
            let q = p + name_emission(encode_utf8(domain)).bytes.len();
            let d = q + 10;
            let n = (pre.len() + name_emission(encode_utf8(host)).bytes.len()) as u16;
            &&& q + 10 <= LIMIT_OF_BUFFER
            &&& u16_at(b, q) == t
            &&& u32_at(b, q + 4) == ttl
            &&& b.subrange(d, d + pre.len()) == pre
            &&& scan_name(b, d + pre.len(), 0) == Ok::<(Seq<Seq<u8>>, int), DnsError>(
                (split_labels(encode_utf8(host)), p + record_emission(r).bytes.len()),
            )
            &&& name_text(split_labels(encode_utf8(host))) == host
        }),
{
    lemma_valid_name_emission(domain);
    lemma_valid_name_emission(host);
    let wd = name_emission(encode_utf8(domain)).bytes;
    let wh = name_emission(encode_utf8(host)).bytes;
    let n = (pre.len() + wh.len()) as u16;
    let fixed = record_head(t, ttl) + u16_bytes(n);
    let e = record_emission(r);
    assert(e.bytes =~= wd + (fixed + (pre + wh)));
    lemma_subrange_split(b, p, wd, fixed + (pre + wh));
    lemma_name_round_trip(domain, b, p);
    let q = p + wd.len();
    lemma_subrange_split(b, q, fixed, pre + wh);
    lemma_fixed_fields(b, q, t, ttl, n);
    let d = q + 10;
    lemma_subrange_split(b, d, pre, wh);
    lemma_name_round_trip(host, b, d + pre.len());
}

proof fn lemma_ns_round_trip(domain: Seq<char>, host: Seq<char>, ttl: u32, b: Seq<u8>, p: int)
    requires
        valid_name(domain),
        valid_name(host),
        0 <= p,
        b.len() == LIMIT_OF_BUFFER,
        ({
            let e = record_emission(RecordView::NS { domain, host, ttl });
            &&& p + e.bytes.len() <= LIMIT_OF_BUFFER
            &&& b.subrange(p, p + e.bytes.len()) == e.bytes
        }),
    ensures
        ({
            let r = RecordView::NS { domain, host, ttl };
            &&& record_emission(r).stop is None
            &&& parse_record(b, p) == Ok::<(RecordView, int), DnsError>(
                (r, p + record_emission(r).bytes.len()),
            )
        }),
{
    reveal(record_emission);
    let r = RecordView::NS { domain, host, ttl };
    lemma_name_record_round_trip(r, 2, domain, seq![], host, ttl, b, p);
}

proof fn lemma_cname_round_trip(domain: Seq<char>, host: Seq<char>, ttl: u32, b: Seq<u8>, p: int)
    requires
        valid_name(domain),
        valid_name(host),
        0 <= p,
        b.len() == LIMIT_OF_BUFFER,
        ({
            let e = record_emission(RecordView::CNAME { domain, host, ttl });
            &&& p + e.bytes.len() <= LIMIT_OF_BUFFER
            &&& b.subrange(p, p + e.bytes.len()) == e.bytes
        }),
    ensures
        ({
            let r = RecordView::CNAME { domain, host, ttl };
            &&& record_emission(r).stop is None
            &&& parse_record(b, p) == Ok::<(RecordView, int), DnsError>(
                (r, p + record_emission(r).bytes.len()),
            )
        }),
{
    reveal(record_emission);
    let r = RecordView::CNAME { domain, host, ttl };
    lemma_name_record_round_trip(r, 5, domain, seq![], host, ttl, b, p);
}

proof fn lemma_mx_round_trip(
    domain: Seq<char>,
    priority: u16,
    host: Seq<char>,
    ttl: u32,
    b: Seq<u8>,
    p: int,
)
    requires
        valid_name(domain),
        valid_name(host),
        0 <= p,
        b.len() == LIMIT_OF_BUFFER,
        ({
            let e = record_emission(RecordView::MX { domain, priority, host, ttl });
            &&& p + e.bytes.len() <= LIMIT_OF_BUFFER
            &&& b.subrange(p, p + e.bytes.len()) == e.bytes
        }),
    ensures
        ({
            let r = RecordView::MX { domain, priority, host, ttl };
            &&& record_emission(r).stop is None
            &&& parse_record(b, p) == Ok::<(RecordView, int), DnsError>(
                (r, p + record_emission(r).bytes.len()),
            )
        }),
{
    reveal(record_emission);
    let r = RecordView::MX { domain, priority, host, ttl };
    lemma_name_record_round_trip(r, 15, domain, u16_bytes(priority), host, ttl, b, p);
    let q = p + name_emission(encode_utf8(domain)).bytes.len();
    lemma_u16_read_back(b, q + 10, priority);
}

/// Decoding what a record writes gives the record back, for every record
/// but those of an unknown type, whose data is never written.
pub proof fn lemma_record_round_trip(r: RecordView, b: Seq<u8>, p: int)
    requires
        round_trips(r),
        0 <= p,
        b.len() == LIMIT_OF_BUFFER,
        p + record_emission(r).bytes.len() <= LIMIT_OF_BUFFER,
        b.subrange(p, p + record_emission(r).bytes.len()) == record_emission(r).bytes,
    ensures
        record_emission(r).stop is None,
        parse_record(b, p) == Ok::<(RecordView, int), DnsError>(
            (r, p + record_emission(r).bytes.len()),
        ),
{
    match r {
        RecordView::A { domain, address, ttl } => lemma_a_round_trip(domain, address, ttl, b, p),
        RecordView::AAAA { domain, address, ttl } => lemma_aaaa_round_trip(domain, address, ttl, b, p),
        RecordView::NS { domain, host, ttl } => lemma_ns_round_trip(domain, host, ttl, b, p),
        RecordView::CNAME { domain, host, ttl } => lemma_cname_round_trip(domain, host, ttl, b, p),
        RecordView::MX { domain, priority, host, ttl } => lemma_mx_round_trip(
            domain,
            priority,
            host,
            ttl,
            b,
            p,
        ),
        RecordView::UNKNOWN { .. } => {},
    }
}

} // verus!
