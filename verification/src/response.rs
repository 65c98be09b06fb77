//! Quick response scanning: response code, truncation flag, and the minimum
//! TTL across the answer section, without a full protocol decode.

use vstd::prelude::*;

use crate::name::skip_name;
use crate::name::skip_name_spec;
use crate::wire::be16;
use crate::wire::be32;
use crate::wire::read_be16;
use crate::wire::read_be32;

verus! {

/// The fields extracted from a response message by `parse_response_quick`.
/// `rcode` is the 4-bit base response code from the header; `min_ttl` is the
/// minimum TTL over the answer records, or zero when there are none.
#[derive(Debug, Clone)]
pub struct QuickResponse {
    pub rcode: u8,
    pub min_ttl: u32,
    pub truncated: bool,
}

/// The position just past `n` question entries starting at `pos`: each is a
/// name followed by four bytes of type and class. `None` on any truncation.
pub open spec fn skip_questions(s: Seq<u8>, pos: int, n: nat) -> Option<int>
    decreases n,
{
    if n == 0 {
        Some(pos)
    } else {
        match skip_name_spec(s, pos) {
            None => None,
            Some(p) => if p + 4 <= s.len() {
                skip_questions(s, p + 4, (n - 1) as nat)
            } else {
                None
            },
        }
    }
}

/// `m` folded with the TTLs of the `n` answer records starting at `pos`:
/// each record is a name, a ten-byte fixed header whose TTL sits four bytes
/// in, and RDLENGTH bytes of data. `None` on any truncation.
pub open spec fn scan_answers(s: Seq<u8>, pos: int, n: nat, m: u32) -> Option<u32>
    decreases n,
{
    if n == 0 {
        Some(m)
    } else {
        match skip_name_spec(s, pos) {
            None => None,
            Some(p) => if p + 10 <= s.len() {
                let t = be32(s, p + 4);
                scan_answers(
                    s,
                    p + 10 + be16(s, p + 8),
                    (n - 1) as nat,
                    if t < m {
                        t
                    } else {
                        m
                    },
                )
            } else {
                None
            },
        }
    }
}

/// The minimum answer TTL of response `s`: zero when the answer section is
/// empty (nothing to scan), and `None` when questions or answers are
/// truncated. An answer TTL of `u32::MAX` is indistinguishable from "none
/// seen" and is likewise reported as zero.
pub open spec fn response_min_ttl(s: Seq<u8>) -> Option<u32> {
    if be16(s, 6) == 0 {
        Some(0)
    } else {
        match skip_questions(s, 12, be16(s, 4) as nat) {
            None => None,
            Some(p) => match scan_answers(s, p, be16(s, 6) as nat, u32::MAX) {
                None => None,
                Some(m) => Some(
                    if m == u32::MAX {
                        0
                    } else {
                        m
                    },
                ),
            },
        }
    }
}

/// The answer section drives cache expiry, so unlike the EDNS scan a bounds
/// failure here fails the whole parse: an incomplete TTL scan must never
/// silently produce a wrong minimum.
pub fn parse_response_quick(packet: &[u8]) -> (r: Option<QuickResponse>)
    ensures
        r is Some <==> packet@.len() >= 12 && response_min_ttl(packet@) is Some,
        r is Some ==> ({
            let q = r->0;
            &&& q.rcode == packet@[3] & 0x0F
            &&& q.truncated == ((packet@[2] & 0x02) != 0)
            &&& q.min_ttl == response_min_ttl(packet@)->0
        }),
{
    let packet_len: usize = packet.len();
    if packet_len < 12 {
        return None;
    }

    let truncated: bool = (packet[2] & 0x02) != 0;
    let rcode: u8 = packet[3] & 0x0F;

    let qd_count: u16 = read_be16(packet, 4);
    let an_count: u16 = read_be16(packet, 6);

    if an_count == 0 {
        return Some(QuickResponse { rcode, min_ttl: 0, truncated });
    }

    let mut pos: usize = 12;

    let mut i: u16 = 0;
    while i < qd_count
        invariant
            packet_len == packet@.len(),
            packet_len >= 12,
            qd_count == be16(packet@, 4),
            an_count == be16(packet@, 6),
            an_count != 0,
            i <= qd_count,
            pos <= packet_len,
            skip_questions(packet@, pos as int, (qd_count - i) as nat) == skip_questions(
                packet@,
                12,
                qd_count as nat,
            ),
        decreases qd_count - i,
    {
        let next: usize = match skip_name(packet, pos) {
            Some(p) => p,
            None => {
                return None;
            },
        };
        if packet_len - next < 4 {
            return None;
        }
        pos = next + 4;
        i = i + 1;
    }

    let ghost q_end = pos as int;
    let mut min_ttl: u32 = u32::MAX;

    let mut j: u16 = 0;
    while j < an_count
        invariant
            packet_len == packet@.len(),
            packet_len >= 12,
            qd_count == be16(packet@, 4),
            an_count == be16(packet@, 6),
            an_count != 0,
            skip_questions(packet@, 12, qd_count as nat) == Some(q_end),
            j <= an_count,
            pos <= usize::MAX,
            scan_answers(packet@, pos as int, (an_count - j) as nat, min_ttl) == scan_answers(
                packet@,
                q_end,
                an_count as nat,
                u32::MAX,
            ),
        decreases an_count - j,
    {
        let next: usize = match skip_name(packet, pos) {
            Some(p) => p,
            None => {
                return None;
            },
        };
        if packet_len - next < 10 {
            return None;
        }

        let ttl: u32 = read_be32(packet, next + 4);
        if ttl < min_ttl {
            min_ttl = ttl;
        }

        let rd_len: usize = read_be16(packet, next + 8) as usize;
        let step: usize = 10 + rd_len;
        let ghost pos_exact: int = next + step;
        if next <= usize::MAX - step {
            pos = next + step;
        } else {
            pos = usize::MAX;
        }
        j = j + 1;
        proof {
            if pos != pos_exact {
                // The exact advance does not fit a usize, so it lies past the
                // end of the packet just as the saturated one does: either way
                // any further record fails its name skip, and a finished scan
                // no longer looks at the cursor.
                assert(skip_name_spec(packet@, pos as int) is None);
                assert(skip_name_spec(packet@, pos_exact) is None);
                if an_count - j > 0 {
                    assert(scan_answers(packet@, pos as int, (an_count - j) as nat, min_ttl)
                        is None);
                    assert(scan_answers(packet@, pos_exact, (an_count - j) as nat, min_ttl)
                        is None);
                }
            }
        }
    }

    if min_ttl == u32::MAX {
        min_ttl = 0;
    }

    Some(QuickResponse { rcode, min_ttl, truncated })
}

/// A response with an empty answer section always scans to a minimum TTL of
/// zero, whatever the rest of the packet holds.
pub proof fn lemma_no_answers_min_ttl_zero(s: Seq<u8>)
    requires
        be16(s, 6) == 0,
    ensures
        response_min_ttl(s) == Some(0u32),
{
}

} // verus!
