//! Quick query parsing: header fields, the normalized first query name,
//! query type and class, and a best-effort EDNS presence check, without a
//! full protocol decode.

use vstd::prelude::*;

use crate::name::qname_walk;
use crate::name::skip_name;
use crate::name::skip_name_spec;
use crate::name::walk_measure;
use crate::wire::be16;
use crate::wire::lower_bytes;
use crate::wire::read_be16;

verus! {

/// The fields extracted from a query message by `parse_quick`. `qname` is the
/// first query name, ASCII-lowercased and dot-joined, with non-UTF-8 octets
/// replaced rather than rejected.
pub struct QuickQuery {
    pub tx_id: u16,
    pub qname: String,
    pub qtype: u16,
    pub qclass: u16,
    pub edns_present: bool,
}

/// The characters that lossy UTF-8 decoding produces for a given byte
/// sequence; the result depends on the bytes alone.
pub uninterp spec fn lossy_utf8(b: Seq<u8>) -> Seq<char>;

/// Relies on String::from_utf8_lossy: decodes the first `n` bytes of `b` as
/// UTF-8, substituting the replacement character for invalid sequences; the
/// result is a function of the bytes alone, and no bytes give an empty result
/// but an empty input.
#[verifier::external_body]
fn lossy_string(b: &Vec<u8>, n: usize) -> (r: String)
    requires
        n <= b@.len(),
    ensures
        r@ == lossy_utf8(b@.subrange(0, n as int)),
        n == 0 ==> r@.len() == 0,
{
    String::from_utf8_lossy(&b[..n]).into_owned()
}

/// Where the fixed record header of an additional record starting at `pos`
/// begins: one byte past a root name, else past the skipped name, with a
/// failed skip standing in for the end of the packet.
pub open spec fn ar_name_end(s: Seq<u8>, pos: int) -> int {
    if s[pos] == 0 {
        pos + 1
    } else {
        match skip_name_spec(s, pos) {
            Some(p) => p,
            None => s.len() as int,
        }
    }
}

/// The best-effort scan of up to `n` additional records starting at `pos` for
/// a record of type 41 (OPT): true when one is found, false when the records
/// run out or any bounds check fails.
pub open spec fn edns_scan(s: Seq<u8>, pos: int, n: nat) -> bool
    decreases n,
{
    if n == 0 || pos < 0 || pos >= s.len() {
        false
    } else {
        let next = ar_name_end(s, pos);
        if next + 10 > s.len() {
            false
        } else if be16(s, next) == 41 {
            true
        } else {
            let rd = be16(s, next + 8) as int;
            if s.len() < 10 + rd {
                false
            } else if next > s.len() - 10 - rd {
                false
            } else {
                edns_scan(s, next + 10 + rd, (n - 1) as nat)
            }
        }
    }
}

/// The query parser's name walk over the whole packet: from offset 12, with
/// nothing accumulated, the post-name position provisionally at 12, and the
/// full jump budget of 5.
pub open spec fn query_name_walk(s: Seq<u8>, cap: int) -> Option<(Seq<u8>, int)> {
    qname_walk(s, 12, false, 12, 5, Seq::empty(), cap)
}

/// When `parse_quick` succeeds on packet `s` with a name buffer of `cap`
/// bytes: the packet holds a full header, at least one question, a readable
/// first name that fits the buffer, and four bytes of type and class after it.
pub open spec fn parse_quick_ok(s: Seq<u8>, cap: int) -> bool {
    &&& s.len() >= 12
    &&& be16(s, 4) != 0
    &&& query_name_walk(s, cap) is Some
    &&& (query_name_walk(s, cap)->0).1 + 4 <= s.len()
}

/// EDNS presence as `parse_quick` reports it: only a message with additional
/// records and empty answer and authority sections is scanned, from `after_q`,
/// the position just past the first question.
pub open spec fn edns_present_spec(s: Seq<u8>, after_q: int) -> bool {
    &&& be16(s, 10) != 0
    &&& be16(s, 6) == 0
    &&& be16(s, 8) == 0
    &&& edns_scan(s, after_q, be16(s, 10) as nat)
}

/// Parses the DNS header and the first query of `packet`, writing the
/// normalized (lowercased, dot-joined) name into `buf` and returning it
/// together with the transaction id, query type and class, and EDNS presence.
/// Fails on a packet shorter than 12 bytes, an empty question section, a
/// truncated or over-long name, an exhausted compression-jump budget, or a
/// name that does not fit `buf`.
pub fn parse_quick(packet: &[u8], buf: &mut Vec<u8>) -> (r: Option<QuickQuery>)
    ensures
        final(buf)@.len() == old(buf)@.len(),
        r is Some <==> parse_quick_ok(packet@, old(buf)@.len() as int),
        r is Some ==> ({
            let (nb, p) = query_name_walk(packet@, old(buf)@.len() as int)->0;
            let q = r->0;
            &&& q.tx_id == be16(packet@, 0)
            &&& q.qname@ == lossy_utf8(nb)
            &&& q.qtype == be16(packet@, p)
            &&& q.qclass == be16(packet@, p + 2)
            &&& q.edns_present == edns_present_spec(packet@, p + 4)
            &&& final(buf)@.subrange(0, nb.len() as int) == nb
        }),
{
    let packet_len: usize = packet.len();
    if packet_len < 12 {
        return None;
    }
    let tx_id: u16 = read_be16(packet, 0);
    let qd_count: u16 = read_be16(packet, 4);
    let an_count: u16 = read_be16(packet, 6);
    let ns_count: u16 = read_be16(packet, 8);
    let ar_count: u16 = read_be16(packet, 10);
    if qd_count == 0 {
        return None;
    }

    let cap: usize = buf.len();
    let ghost target = query_name_walk(packet@, cap as int);

    let mut pos: usize = 12;
    let mut buf_pos: usize = 0;
    let mut jumped: bool = false;
    let mut budget: usize = 5;
    let mut cur: usize = 12;

    proof {
        assert(buf@.subrange(0, 0) =~= Seq::<u8>::empty());
    }

    loop
        invariant_except_break
            packet_len == packet@.len(),
            packet_len >= 12,
            cap == old(buf)@.len(),
            buf@.len() == cap,
            buf_pos <= cap,
            1 <= budget <= 5,
            pos <= packet_len,
            target == query_name_walk(packet@, cap as int),
            qname_walk(
                packet@,
                cur as int,
                jumped,
                pos as int,
                budget as int,
                buf@.subrange(0, buf_pos as int),
                cap as int,
            ) == target,
        ensures
            packet_len == packet@.len(),
            cap == old(buf)@.len(),
            buf@.len() == cap,
            buf_pos <= cap,
            pos <= packet_len,
            target == query_name_walk(packet@, cap as int),
            target == Some((buf@.subrange(0, buf_pos as int), pos as int)),
        decreases budget, walk_measure(packet@, cur as int),
    {
        if cur >= packet_len {
            return None;
        }
        let len_byte: u8 = packet[cur];

        if len_byte == 0 {
            if !jumped {
                pos = cur + 1;
            }
            break;
        }

        if len_byte & 0xC0 == 0xC0 {
            if packet_len - cur < 2 {
                return None;
            }
            if !jumped {
                pos = cur + 2;
                jumped = true;
            }
            let offset: usize = ((len_byte & 0x3F) as usize) * 0x100 + (packet[cur + 1] as usize);
            budget = budget - 1;
            if budget == 0 {
                return None;
            }
            cur = offset;
            continue;
        }

        let label_len: usize = len_byte as usize;
        let label_start: usize = cur + 1;
        if label_len > packet_len - label_start {
            return None;
        }
        let ghost label = packet@.subrange(label_start as int, label_start as int + label_len);

        let ghost acc = buf@.subrange(0, buf_pos as int);
        if buf_pos > 0 {
            if buf_pos >= cap {
                return None;
            }
            buf[buf_pos] = 46;
            buf_pos = buf_pos + 1;
            proof {
                assert(buf@.subrange(0, buf_pos as int) =~= acc + seq![46u8]);
            }
        }
        let ghost sep = buf@.subrange(0, buf_pos as int);

        if label_len > cap - buf_pos {
            return None;
        }

        // The common case is an already-lowercase label: scan first, and only
        // fold case when an uppercase byte is present.
        let mut needs_lower: bool = false;
        let mut k: usize = 0;
        while k < label_len
            invariant
                packet_len == packet@.len(),
                label_start + label_len <= packet_len,
                k <= label_len,
                needs_lower <==> exists|j: int|
                    0 <= j < k && 0x41 <= #[trigger] packet@[label_start + j] && packet@[label_start
                        + j] <= 0x5A,
            decreases label_len - k,
        {
            let b: u8 = packet[label_start + k];
            if 0x41 <= b && b <= 0x5A {
                needs_lower = true;
            }
            k = k + 1;
        }

        if needs_lower {
            let mut k: usize = 0;
            while k < label_len
                invariant
                    packet_len == packet@.len(),
                    label_start + label_len <= packet_len,
                    label == packet@.subrange(label_start as int, label_start as int + label_len),
                    buf_pos + label_len <= cap,
                    k <= label_len,
                    buf@.len() == cap,
                    buf@.subrange(0, buf_pos as int) == sep,
                    buf@.subrange(buf_pos as int, buf_pos as int + k) == lower_bytes(
                        label.subrange(0, k as int),
                    ),
                decreases label_len - k,
            {
                let ghost buf0 = buf@;
                let b: u8 = packet[label_start + k];
                let lb: u8 = if 0x41 <= b && b <= 0x5A {
                    b + 0x20
                } else {
                    b
                };
                buf[buf_pos + k] = lb;
                k = k + 1;
                proof {
                    assert forall|j: int| 0 <= j < k implies buf@.subrange(
                        buf_pos as int,
                        buf_pos as int + k,
                    )[j] == lower_bytes(label.subrange(0, k as int))[j] by {
                        if j < k - 1 {
                            assert(buf0.subrange(buf_pos as int, buf_pos as int + (k - 1))[j]
                                == lower_bytes(label.subrange(0, k - 1))[j]);
                        }
                        assert(label[j] == packet@[label_start + j]);
                    }
                    assert(buf@.subrange(buf_pos as int, buf_pos as int + k) =~= lower_bytes(
                        label.subrange(0, k as int),
                    ));
                    assert forall|j: int| 0 <= j < buf_pos implies buf@.subrange(
                        0,
                        buf_pos as int,
                    )[j] == sep[j] by {
                        assert(buf0.subrange(0, buf_pos as int)[j] == sep[j]);
                    }
                    assert(buf@.subrange(0, buf_pos as int) =~= sep);
                }
            }
            buf_pos = buf_pos + label_len;
        } else {
            proof {
                assert forall|j: int| 0 <= j < label_len implies lower_bytes(label)[j] == label[j] by {
                    assert(label[j] == packet@[label_start + j]);
                }
                assert(lower_bytes(label) =~= label);
            }
            let mut k: usize = 0;
            while k < label_len
                invariant
                    packet_len == packet@.len(),
                    label_start + label_len <= packet_len,
                    label == packet@.subrange(label_start as int, label_start as int + label_len),
                    buf_pos + label_len <= cap,
                    k <= label_len,
                    buf@.len() == cap,
                    buf@.subrange(0, buf_pos as int) == sep,
                    buf@.subrange(buf_pos as int, buf_pos as int + k) == label.subrange(
                        0,
                        k as int,
                    ),
                decreases label_len - k,
            {
                let ghost buf0 = buf@;
                let b: u8 = packet[label_start + k];
                buf[buf_pos + k] = b;
                k = k + 1;
                proof {
                    assert forall|j: int| 0 <= j < k implies buf@.subrange(
                        buf_pos as int,
                        buf_pos as int + k,
                    )[j] == label.subrange(0, k as int)[j] by {
                        if j < k - 1 {
                            assert(buf0.subrange(buf_pos as int, buf_pos as int + (k - 1))[j]
                                == label.subrange(0, k - 1)[j]);
                        }
                        assert(label[j] == packet@[label_start + j]);
                    }
                    assert(buf@.subrange(buf_pos as int, buf_pos as int + k) =~= label.subrange(
                        0,
                        k as int,
                    ));
                    assert forall|j: int| 0 <= j < buf_pos implies buf@.subrange(
                        0,
                        buf_pos as int,
                    )[j] == sep[j] by {
                        assert(buf0.subrange(0, buf_pos as int)[j] == sep[j]);
                    }
                    assert(buf@.subrange(0, buf_pos as int) =~= sep);
                }
            }
            buf_pos = buf_pos + label_len;
        }
        proof {
            let opos: int = buf_pos - label_len;
            assert(label.subrange(0, label_len as int) =~= label);
            assert forall|j: int| 0 <= j < buf_pos implies buf@.subrange(0, buf_pos as int)[j] == (
            sep + lower_bytes(label))[j] by {
                if j < opos {
                    assert(buf@.subrange(0, opos)[j] == sep[j]);
                } else {
                    assert(buf@.subrange(opos, opos + label_len)[j - opos] == lower_bytes(label)[j
                        - opos]);
                }
            }
            assert(buf@.subrange(0, buf_pos as int) =~= sep + lower_bytes(label));
        }
        cur = label_start + label_len;
    }

    if packet_len - pos < 4 {
        return None;
    }
    let qtype: u16 = read_be16(packet, pos);
    let qclass: u16 = read_be16(packet, pos + 2);
    let after_q: usize = pos + 4;

    let mut edns_present: bool = false;
    if ar_count > 0 && an_count == 0 && ns_count == 0 {
        // Only the common query shape is scanned; a bounds failure here stops
        // the scan without failing the parse.
        let mut ar_pos: usize = after_q;
        let mut i: u16 = 0;
        loop
            invariant_except_break
                packet_len == packet@.len(),
                !edns_present,
                i <= ar_count,
                ar_pos <= packet_len,
                edns_scan(packet@, ar_pos as int, (ar_count - i) as nat) == edns_scan(
                    packet@,
                    after_q as int,
                    ar_count as nat,
                ),
            ensures
                edns_present == edns_scan(packet@, after_q as int, ar_count as nat),
            decreases ar_count - i,
        {
            if i >= ar_count {
                break;
            }
            if ar_pos >= packet_len {
                break;
            }
            let name_byte: u8 = packet[ar_pos];
            let next_pos: usize = if name_byte == 0 {
                ar_pos + 1
            } else {
                match skip_name(packet, ar_pos) {
                    Some(p) => p,
                    None => packet_len,
                }
            };
            if packet_len - next_pos < 10 {
                break;
            }
            let rr_type: u16 = read_be16(packet, next_pos);
            if rr_type == 41 {
                edns_present = true;
                break;
            }
            let rd_len: usize = read_be16(packet, next_pos + 8) as usize;
            if packet_len < 10 + rd_len {
                break;
            }
            if next_pos > packet_len - 10 - rd_len {
                break;
            }
            ar_pos = next_pos + 10 + rd_len;
            i = i + 1;
        }
    }

    let qname: String = lossy_string(buf, buf_pos);
    Some(QuickQuery { tx_id, qname, qtype, qclass, edns_present })
}

/// For any well-formed query whose name decodes within the jump budget, the
/// name bytes that `parse_quick` reports are exactly the fully expanded,
/// dot-joined name with every ASCII letter lowercased.
pub proof fn lemma_qname_is_expanded_name(s: Seq<u8>, cap: int)
    requires
        query_name_walk(s, cap) is Some,
    ensures
        crate::name::expand_name(s, 12, 5) is Some,
        (query_name_walk(s, cap)->0).0 == lower_bytes(crate::name::expand_name(s, 12, 5)->0),
{
    crate::name::lemma_walk_expands(s, 12, false, 12, 5, Seq::empty(), cap);
}

/// Case invariance: two query packets whose expanded first names agree up to
/// ASCII case — one of them may be the fully lowercased spelling of the other
/// — decode to identical normalized names, and hence identical cache keys.
pub proof fn lemma_qname_case_invariant(s1: Seq<u8>, cap1: int, s2: Seq<u8>, cap2: int)
    requires
        query_name_walk(s1, cap1) is Some,
        query_name_walk(s2, cap2) is Some,
        lower_bytes(crate::name::expand_name(s1, 12, 5)->0) == lower_bytes(
            crate::name::expand_name(s2, 12, 5)->0,
        ),
    ensures
        (query_name_walk(s1, cap1)->0).0 == (query_name_walk(s2, cap2)->0).0,
{
    lemma_qname_is_expanded_name(s1, cap1);
    lemma_qname_is_expanded_name(s2, cap2);
}

/// A first query name that opens with a compression pointer targeting itself
/// (a one-record cycle) always fails `parse_quick`: the walk terminates
/// within the fixed jump budget instead of looping.
pub proof fn lemma_self_pointer_query_fails(s: Seq<u8>, cap: int)
    requires
        s.len() >= 14,
        s[12] & 0xC0 == 0xC0,
        crate::name::ptr_target(s, 12) == 12,
    ensures
        !parse_quick_ok(s, cap),
{
    crate::name::lemma_self_pointer_fails(s, 12, false, 12, 5, Seq::empty(), cap);
}

/// A packet shorter than the fixed twelve-byte header is always rejected.
pub proof fn lemma_short_packet_rejected(s: Seq<u8>, cap: int)
    requires
        s.len() < 12,
    ensures
        !parse_quick_ok(s, cap),
{
}

/// A first query name whose opening label length runs past the end of the
/// packet always fails `parse_quick` (no out-of-bounds read).
pub proof fn lemma_label_overrun_query_fails(s: Seq<u8>, cap: int)
    requires
        s.len() > 12,
        s[12] != 0,
        s[12] & 0xC0 != 0xC0,
        12 + 1 + (s[12] as int) > s.len(),
    ensures
        !parse_quick_ok(s, cap),
{
    crate::name::lemma_label_overrun_fails(s, 12, false, 12, 5, Seq::empty(), cap);
}

/// With additional records present, empty answer and authority sections, and
/// a first additional record whose TYPE field reads 41 (OPT), the EDNS scan
/// reports presence.
pub proof fn lemma_first_additional_opt(s: Seq<u8>, after_q: int)
    requires
        be16(s, 10) >= 1,
        be16(s, 6) == 0,
        be16(s, 8) == 0,
        0 <= after_q < s.len(),
        ar_name_end(s, after_q) + 10 <= s.len(),
        be16(s, ar_name_end(s, after_q)) == 41,
    ensures
        edns_present_spec(s, after_q),
{
    assert(edns_scan(s, after_q, be16(s, 10) as nat));
}

} // verus!
