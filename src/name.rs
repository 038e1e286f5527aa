use vstd::prelude::*;
use vstd::utf8::{decode_utf8, encode_utf8, valid_utf8};

use crate::packet::{then, plain, DnsError, Emission, Result, LIMIT_OF_BUFFER};

verus! {

/// Most compression pointers that one name may follow.
pub const MAX_JUMPS: usize = 5;

/// Longest label that a name may hold on the wire.
pub const MAX_LABEL_LEN: usize = 63;

/// The byte that separates labels in a name written as text.
pub const DOT: u8 = 0x2E;

// ---------------------------------------------------------------------------
// Text to labels
// ---------------------------------------------------------------------------

/// The labels of `b`, where `cur` is the part of the current label already seen.
pub open spec fn split_from(b: Seq<u8>, cur: Seq<u8>) -> Seq<Seq<u8>>
    decreases b.len(),
{
    if b.len() == 0 {
        seq![cur]
    } else if b[0] == DOT {
        seq![cur] + split_from(b.drop_first(), seq![])
    } else {
        split_from(b.drop_first(), cur.push(b[0]))
    }
}

/// The labels of a name: its bytes split at each dot (so "" has one empty label).
pub open spec fn split_labels(b: Seq<u8>) -> Seq<Seq<u8>> {
    split_from(b, seq![])
}

/// Labels joined by dots.
pub open spec fn join_labels(ls: Seq<Seq<u8>>) -> Seq<u8>
    decreases ls.len(),
{
    if ls.len() == 0 {
        seq![]
    } else if ls.len() == 1 {
        ls[0]
    } else {
        ls[0] + seq![DOT] + join_labels(ls.drop_first())
    }
}

// ---------------------------------------------------------------------------
// Labels on the wire
// ---------------------------------------------------------------------------

/// One label on the wire: its length, then its bytes; one too long stops the write.
pub open spec fn label_emission(l: Seq<u8>) -> Emission {
    if l.len() > MAX_LABEL_LEN {
        Emission { bytes: seq![], stop: Some(DnsError::LabelTooLong) }
    } else {
        plain(seq![l.len() as u8] + l)
    }
}

/// The labels on the wire, in order, without the closing zero.
pub open spec fn labels_emission(ls: Seq<Seq<u8>>) -> Emission
    decreases ls.len(),
{
    if ls.len() == 0 {
        plain(seq![])
    } else {
        then(label_emission(ls[0]), labels_emission(ls.drop_first()))
    }
}

/// What writing the name `s` puts out: each label, then a zero byte.
pub open spec fn name_emission(s: Seq<u8>) -> Emission {
    then(labels_emission(split_labels(s)), plain(seq![0u8]))
}

// ---------------------------------------------------------------------------
// Wire to labels
// ---------------------------------------------------------------------------

/// Whether a length octet is the first byte of a compression pointer.
pub open spec fn is_pointer(b: u8) -> bool {
    b >= 0xC0
}

/// The offset that the pointer `hi lo` designates: its low fourteen bits.
pub open spec fn pointer_target(hi: u8, lo: u8) -> int {
    (hi as int - 0xC0) * 0x100 + lo as int
}

/// Decodes the name at `pos` of the message `buf`, having followed `jumps`
/// pointers so far: the labels, and where the cursor goes afterwards (just past
/// the first pointer met, or else past the closing zero).
pub open spec fn scan_name(buf: Seq<u8>, pos: int, jumps: int) -> Result<(Seq<Seq<u8>>, int)>
    decreases MAX_JUMPS + 1 - jumps, LIMIT_OF_BUFFER - pos,
{
    if jumps > MAX_JUMPS {
        Err(DnsError::CompressionLoop)
    } else if pos < 0 || pos >= LIMIT_OF_BUFFER {
        Err(DnsError::BufferOverrun)
    } else if is_pointer(buf[pos]) {
        if pos + 1 >= LIMIT_OF_BUFFER {
            Err(DnsError::BufferOverrun)
        } else {
            match scan_name(buf, pointer_target(buf[pos], buf[pos + 1]), jumps + 1) {
                Ok((ls, _)) => Ok((ls, pos + 2)),
                Err(e) => Err(e),
            }
        }
    } else if buf[pos] == 0 {
        Ok((seq![], pos + 1))
    } else {
        let len = buf[pos] as int;
        if pos + 1 + len >= LIMIT_OF_BUFFER {
            Err(DnsError::BufferOverrun)
        } else {
            match scan_name(buf, pos + 1 + len, jumps) {
                Ok((ls, end)) => Ok((seq![buf.subrange(pos + 1, pos + 1 + len)] + ls, end)),
                Err(e) => Err(e),
            }
        }
    }
}

/// Adds to what was read before the rest of a scan: the labels after those
/// already read, and the cursor's resting place, which the first pointer met
/// (if one was) has fixed at `resume`.
pub open spec fn resumed(
    done: Seq<Seq<u8>>,
    jumped: bool,
    resume: int,
    rest: Result<(Seq<Seq<u8>>, int)>,
) -> Result<(Seq<Seq<u8>>, int)> {
    match rest {
        Ok((ls, end)) => Ok((done + ls, if jumped { resume } else { end })),
        Err(e) => Err(e),
    }
}

/// ASCII lower case of one byte.
pub open spec fn lower(b: u8) -> u8 {
    if 0x41 <= b <= 0x5A {
        (b + 0x20) as u8
    } else {
        b
    }
}

pub open spec fn lower_label(l: Seq<u8>) -> Seq<u8> {
    l.map_values(|b: u8| lower(b))
}

/// The text of a decoded name: its labels in lower case, joined by dots.
pub open spec fn name_bytes(ls: Seq<Seq<u8>>) -> Seq<u8> {
    join_labels(ls.map_values(|l: Seq<u8>| lower_label(l)))
}

/// Characters that `String::from_utf8_lossy` makes of a byte string.
pub uninterp spec fn lossy_text(b: Seq<u8>) -> Seq<char>;

/// Text of a byte string: what valid UTF-8 encodes; for other bytes, what
/// `String::from_utf8_lossy` makes of them.
pub open spec fn text_of_bytes(b: Seq<u8>) -> Seq<char> {
    if valid_utf8(b) {
        decode_utf8(b)
    } else {
        lossy_text(b)
    }
}

/// The text of a decoded name.
pub open spec fn name_text(ls: Seq<Seq<u8>>) -> Seq<char> {
    text_of_bytes(name_bytes(ls))
}

/// Relies on `String::from_utf8_lossy`: valid UTF-8 comes out as the text it
/// encodes; other bytes come out as that function's replacement text.
#[verifier::external_body]
pub(crate) fn text_from_bytes(b: &[u8]) -> (r: String)
    ensures
        r@ == text_of_bytes(b@),
        !valid_utf8(b@) ==> r@ == lossy_text(b@),
{
    String::from_utf8_lossy(b).into_owned()
}

// ---------------------------------------------------------------------------
// Lemmas
// ---------------------------------------------------------------------------

pub proof fn lemma_pointer_octet(len: u8, lo: u8)
    ensures
        ((len & 0xC0u8) == 0xC0u8) == is_pointer(len),
        is_pointer(len) ==> ((((len as u16) ^ 0xC0u16) << 8u16) | (lo as u16)) as int
            == pointer_target(len, lo),
{
    assert(((len & 0xC0u8) == 0xC0u8) == (len >= 0xC0u8)) by (bit_vector);
    assert(len >= 0xC0u8 ==> ((((len as u16) ^ 0xC0u16) << 8u16) | (lo as u16)) == (len as u16
        - 0xC0u16) * 0x100u16 + lo as u16) by (bit_vector);
}

pub proof fn lemma_then_assoc(a: Emission, b: Emission, c: Emission)
    ensures
        then(then(a, b), c) == then(a, then(b, c)),
{
    if a.stop is None && b.stop is None {
        assert(a.bytes + b.bytes + c.bytes =~= a.bytes + (b.bytes + c.bytes));
    }
}

pub proof fn lemma_then_plain_empty(a: Emission)
    ensures
        then(plain(seq![]), a) == a,
{
    assert(seq![] + a.bytes =~= a.bytes);
}

/// Scanning bytes without a dot only extends the current label.
pub proof fn lemma_split_skip(b: Seq<u8>, start: int, end: int, cur: Seq<u8>)
    requires
        0 <= start <= end <= b.len(),
        forall|i: int| start <= i < end ==> b[i] != DOT,
    ensures
        split_from(b.subrange(start, b.len() as int), cur) == split_from(
            b.subrange(end, b.len() as int),
            cur + b.subrange(start, end),
        ),
    decreases end - start,
{
    if start < end {
        let rest = b.subrange(start, b.len() as int);
        assert(rest.drop_first() =~= b.subrange(start + 1, b.len() as int));
        lemma_split_skip(b, start + 1, end, cur.push(b[start]));
        assert(cur.push(b[start]) + b.subrange(start + 1, end) =~= cur + b.subrange(start, end));
    } else {
        assert(cur + b.subrange(start, end) =~= cur);
    }
}

/// At a dot, the current label ends and a new one begins.
pub proof fn lemma_split_dot(b: Seq<u8>, at: int, cur: Seq<u8>)
    requires
        0 <= at < b.len(),
        b[at] == DOT,
    ensures
        split_from(b.subrange(at, b.len() as int), cur) == seq![cur] + split_from(
            b.subrange(at + 1, b.len() as int),
            seq![],
        ),
{
    assert(b.subrange(at, b.len() as int).drop_first() =~= b.subrange(at + 1, b.len() as int));
}

pub proof fn lemma_split_from_nonempty(b: Seq<u8>, cur: Seq<u8>)
    ensures
        split_from(b, cur).len() >= 1,
    decreases b.len(),
{
    if b.len() > 0 {
        if b[0] == DOT {
            lemma_split_from_nonempty(b.drop_first(), seq![]);
        } else {
            lemma_split_from_nonempty(b.drop_first(), cur.push(b[0]));
        }
    }
}

/// Joining the labels of a name gives the name back.
pub proof fn lemma_join_split_from(b: Seq<u8>, cur: Seq<u8>)
    ensures
        join_labels(split_from(b, cur)) == cur + b,
    decreases b.len(),
{
    if b.len() == 0 {
        assert(cur + b =~= cur);
    } else if b[0] == DOT {
        lemma_join_split_from(b.drop_first(), seq![]);
        lemma_split_from_nonempty(b.drop_first(), seq![]);
        let ls = seq![cur] + split_from(b.drop_first(), seq![]);
        assert(ls.drop_first() =~= split_from(b.drop_first(), seq![]));
        assert(cur + seq![DOT] + (seq![] + b.drop_first()) =~= cur + b);
    } else {
        lemma_join_split_from(b.drop_first(), cur.push(b[0]));
        assert(cur.push(b[0]) + b.drop_first() =~= cur + b);
    }
}

pub proof fn lemma_join_split(b: Seq<u8>)
    ensures
        join_labels(split_labels(b)) == b,
{
    lemma_join_split_from(b, seq![]);
    assert(seq![] + b =~= b);
}

/// Joining one more label appends a dot and the label.
pub proof fn lemma_join_push(ls: Seq<Seq<u8>>, l: Seq<u8>)
    ensures
        join_labels(ls.push(l)) == if ls.len() == 0 {
            l
        } else {
            join_labels(ls) + seq![DOT] + l
        },
    decreases ls.len(),
{
    if ls.len() == 0 {
        assert(ls.push(l)[0] == l);
    } else if ls.len() == 1 {
        assert(ls.push(l).drop_first() =~= seq![l]);
        assert(join_labels(seq![l]) == l);
        assert(ls.push(l)[0] == ls[0]);
    } else {
        lemma_join_push(ls.drop_first(), l);
        assert(ls.push(l).drop_first() =~= ls.drop_first().push(l));
        assert(ls[0] + seq![DOT] + (join_labels(ls.drop_first()) + seq![DOT] + l) =~= ls[0]
            + seq![DOT] + join_labels(ls.drop_first()) + seq![DOT] + l);
    }
}


/// A label that survives encoding and decoding unchanged: one to 63 bytes,
/// no upper-case ASCII letter among them.
pub open spec fn valid_label(l: Seq<u8>) -> bool {
    &&& 1 <= l.len() <= MAX_LABEL_LEN
    &&& forall|i: int| 0 <= i < l.len() ==> !(0x41 <= #[trigger] l[i] <= 0x5A)
}

pub open spec fn valid_labels(ls: Seq<Seq<u8>>) -> bool {
    forall|i: int| 0 <= i < ls.len() ==> valid_label(#[trigger] ls[i])
}

/// A name whose dot-separated labels are all valid.
pub open spec fn valid_name(s: Seq<char>) -> bool {
    valid_labels(split_labels(encode_utf8(s)))
}

/// Valid labels go out in full: no label stops the write.
pub proof fn lemma_valid_labels_emission(ls: Seq<Seq<u8>>)
    requires
        valid_labels(ls),
    ensures
        labels_emission(ls).stop is None,
    decreases ls.len(),
{
    if ls.len() > 0 {
        assert(valid_label(ls[0]));
        assert forall|i: int| 0 <= i < ls.drop_first().len() implies valid_label(
            #[trigger] ls.drop_first()[i],
        ) by {
            assert(ls.drop_first()[i] == ls[i + 1]);
        }
        lemma_valid_labels_emission(ls.drop_first());
    }
}

/// A valid name goes out in full: its labels, then the closing zero.
pub proof fn lemma_valid_name_emission(s: Seq<char>)
    requires
        valid_name(s),
    ensures
        name_emission(encode_utf8(s)).stop is None,
        name_emission(encode_utf8(s)).bytes == labels_emission(split_labels(encode_utf8(s))).bytes
            + seq![0u8],
{
    lemma_valid_labels_emission(split_labels(encode_utf8(s)));
}

/// Labels written in full at `p` decode as themselves, followed by whatever
/// the bytes after them decode as.
pub proof fn lemma_scan_labels(b: Seq<u8>, p: int, ls: Seq<Seq<u8>>, j: int)
    requires
        valid_labels(ls),
        0 <= p,
        p + labels_emission(ls).bytes.len() < LIMIT_OF_BUFFER,
        p + labels_emission(ls).bytes.len() <= b.len(),
        b.subrange(p, p + labels_emission(ls).bytes.len()) == labels_emission(ls).bytes,
    ensures
        scan_name(b, p, j) == resumed(
            ls,
            false,
            0,
            scan_name(b, p + labels_emission(ls).bytes.len(), j),
        ),
    decreases ls.len(),
{
    let w = labels_emission(ls).bytes;
    if ls.len() == 0 {
        let r = scan_name(b, p, j);
        if r is Ok {
            assert(ls + r->Ok_0.0 =~= r->Ok_0.0);
        }
    } else {
        let l = ls[0];
        let rest = ls.drop_first();
        assert(valid_label(l));
        assert forall|i: int| 0 <= i < rest.len() implies valid_label(#[trigger] rest[i]) by {
            assert(rest[i] == ls[i + 1]);
        }
        lemma_valid_labels_emission(rest);
        let w2 = labels_emission(rest).bytes;
        assert(w == seq![l.len() as u8] + l + w2);
        let q = p + 1 + l.len();
        assert(b[p] == w[0]);
        assert(b.subrange(p + 1, q) =~= l) by {
            assert forall|k: int| 0 <= k < l.len() implies b.subrange(p + 1, q)[k] == l[k] by {
                assert(b.subrange(p, p + w.len())[1 + k] == w[1 + k]);
            }
        }
        assert(b.subrange(q, q + w2.len()) =~= w2) by {
            assert forall|k: int| 0 <= k < w2.len() implies b.subrange(q, q + w2.len())[k] == w2[k] by {
                assert(b.subrange(p, p + w.len())[1 + l.len() + k] == w[1 + l.len() + k]);
            }
        }
        lemma_scan_labels(b, q, rest, j);
        let tail = scan_name(b, q + w2.len(), j);
        if tail is Ok {
            assert(seq![l] + (rest + tail->Ok_0.0) =~= ls + tail->Ok_0.0);
        }
    }
}

/// A valid name, written and then read at the same place, reads back as
/// itself, and the cursor ends just past it.
pub proof fn lemma_name_round_trip(s: Seq<char>, b: Seq<u8>, p: int)
    requires
        valid_name(s),
        0 <= p,
        b.len() == LIMIT_OF_BUFFER,
        p + name_emission(encode_utf8(s)).bytes.len() <= LIMIT_OF_BUFFER,
        b.subrange(p, p + name_emission(encode_utf8(s)).bytes.len()) == name_emission(
            encode_utf8(s),
        ).bytes,
    ensures
        name_emission(encode_utf8(s)).stop is None,
        scan_name(b, p, 0) == Ok::<(Seq<Seq<u8>>, int), DnsError>(
            (split_labels(encode_utf8(s)), p + name_emission(encode_utf8(s)).bytes.len()),
        ),
        name_text(split_labels(encode_utf8(s))) == s,
{
    let bs = encode_utf8(s);
    let ls = split_labels(bs);
    lemma_valid_labels_emission(ls);
    let w = labels_emission(ls).bytes;
    let e = name_emission(bs);
    assert(e.bytes == w + seq![0u8]);
    assert(b.subrange(p, p + w.len()) =~= w) by {
        assert forall|k: int| 0 <= k < w.len() implies b.subrange(p, p + w.len())[k] == w[k] by {
            assert(b.subrange(p, p + e.bytes.len())[k] == e.bytes[k]);
        }
    }
    assert(b[p + w.len()] == 0) by {
        assert(b.subrange(p, p + e.bytes.len())[w.len() as int] == e.bytes[w.len() as int]);
    }
    lemma_scan_labels(b, p, ls, 0);
    assert(ls + seq![] =~= ls);
    // the text
    assert forall|i: int| 0 <= i < ls.len() implies lower_label(ls[i]) == ls[i] by {
        assert(valid_label(ls[i]));
        assert(lower_label(ls[i]) =~= ls[i]);
    }
    assert(ls.map_values(|l: Seq<u8>| lower_label(l)) =~= ls);
    lemma_join_split(bs);
    vstd::utf8::encode_utf8_valid_utf8(s);
    vstd::utf8::encode_utf8_decode_utf8(s);
}

/// A pointer at the end of a run of labels reads as those labels followed by
/// the name it points to: the same text as the whole name written out in
/// full at that place.
pub proof fn lemma_pointer_reads_as_written(
    b1: Seq<u8>,
    b2: Seq<u8>,
    p: int,
    prefix: Seq<Seq<u8>>,
    target: int,
    suffix: Seq<Seq<u8>>,
)
    requires
        valid_labels(prefix),
        valid_labels(suffix),
        0 <= p,
        b1.len() == LIMIT_OF_BUFFER,
        b2.len() == LIMIT_OF_BUFFER,
        // compressed: the prefix's labels, then a pointer to a name holding the suffix
        p + labels_emission(prefix).bytes.len() + 2 <= LIMIT_OF_BUFFER,
        b1.subrange(p, p + labels_emission(prefix).bytes.len()) == labels_emission(prefix).bytes,
        is_pointer(b1[p + labels_emission(prefix).bytes.len()]),
        pointer_target(
            b1[p + labels_emission(prefix).bytes.len()],
            b1[p + labels_emission(prefix).bytes.len() + 1],
        ) == target,
        scan_name(b1, target, 1) is Ok,
        scan_name(b1, target, 1)->Ok_0.0 == suffix,
        // in full: all the labels, then the closing zero
        p + labels_emission(prefix + suffix).bytes.len() + 1 <= LIMIT_OF_BUFFER,
        b2.subrange(p, p + labels_emission(prefix + suffix).bytes.len()) == labels_emission(
            prefix + suffix,
        ).bytes,
        b2[p + labels_emission(prefix + suffix).bytes.len()] == 0,
    ensures
        scan_name(b1, p, 0) is Ok,
        scan_name(b2, p, 0) is Ok,
        scan_name(b1, p, 0)->Ok_0.0 == scan_name(b2, p, 0)->Ok_0.0,
        name_text(scan_name(b1, p, 0)->Ok_0.0) == name_text(scan_name(b2, p, 0)->Ok_0.0),
{
    let all = prefix + suffix;
    assert(valid_labels(all)) by {
        assert forall|i: int| 0 <= i < all.len() implies valid_label(#[trigger] all[i]) by {
            if i < prefix.len() {
                assert(all[i] == prefix[i]);
            } else {
                assert(all[i] == suffix[i - prefix.len()]);
            }
        }
    }
    lemma_scan_labels(b1, p, prefix, 0);
    lemma_scan_labels(b2, p, all, 0);
    let q2 = p + labels_emission(all).bytes.len();
    assert(all + seq![] =~= all);
}

} // verus!
