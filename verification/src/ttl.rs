//! In-place aging of a cached response: every resource record's TTL is
//! decremented by a fixed amount, floored at zero. Only the four TTL bytes of
//! each record are ever written, so names, RDATA and the count fields — and
//! with them all compression-pointer offsets — stay valid.

use vstd::prelude::*;

use crate::name::skip_name;
use crate::name::skip_name_spec;
use crate::wire::be16;
use crate::wire::be32;
use crate::wire::read_be16;
use crate::wire::read_be32;
use crate::wire::sat_sub32;
use crate::wire::write_be32;

verus! {

/// The position just past `n` question entries starting at `pos`, each a name
/// plus four bytes of type and class. The patcher, unlike the response
/// scanner, does not check that the four fixed bytes lie inside the packet:
/// a cursor past the end makes the next name skip fail instead.
pub open spec fn skip_questions_loose(s: Seq<u8>, pos: int, n: nat) -> Option<int>
    decreases n,
{
    if n == 0 {
        Some(pos)
    } else {
        match skip_name_spec(s, pos) {
            None => None,
            Some(p) => skip_questions_loose(s, p + 4, (n - 1) as nat),
        }
    }
}

/// The packet after patching up to `n` records starting at `pos` with
/// decrement `dec`. A bounds failure stops the walk and keeps what was
/// written so far: records already passed keep their new TTL, the rest keep
/// their old one. The record whose own RDATA overruns the packet still has
/// its TTL patched, since the TTL write precedes the RDATA bounds check.
pub open spec fn patch_records(s: Seq<u8>, pos: int, n: nat, dec: u32) -> Seq<u8>
    decreases n,
{
    if n == 0 {
        s
    } else {
        match skip_name_spec(s, pos) {
            None => s,
            Some(p) => if p + 10 <= s.len() {
                let s2 = write_be32(s, p + 4, sat_sub32(be32(s, p + 4), dec));
                let rd = be16(s2, p + 8) as int;
                if p + 10 + rd <= s.len() {
                    patch_records(s2, p + 10 + rd, (n - 1) as nat, dec)
                } else {
                    s2
                }
            } else {
                s
            },
        }
    }
}

/// The packet `s` after `patch_all_ttls` with decrement `dec`: unchanged when
/// the decrement is zero, the packet is shorter than a header, or a question
/// entry is truncated; otherwise every record of the answer, authority and
/// additional sections has its TTL aged until the first bounds failure.
pub open spec fn patched(s: Seq<u8>, dec: u32) -> Seq<u8> {
    if dec == 0 || s.len() < 12 {
        s
    } else {
        match skip_questions_loose(s, 12, be16(s, 4) as nat) {
            None => s,
            Some(p) => patch_records(
                s,
                p,
                (be16(s, 6) + be16(s, 8) + be16(s, 10)) as nat,
                dec,
            ),
        }
    }
}

/// Decrements every record TTL in `packet` by `decrement`, floored at zero,
/// in place. A no-op when `decrement` is zero or the packet is shorter than a
/// header; on a bounds failure mid-scan the records already processed keep
/// their new TTL and the rest are left as they were (accepted partial
/// mutation on corrupt input — the buffer is not copied).
pub fn patch_all_ttls(packet: &mut Vec<u8>, decrement: u32)
    ensures
        final(packet)@ == patched(old(packet)@, decrement),
        final(packet)@.len() == old(packet)@.len(),
{
    let packet_len: usize = packet.len();
    if decrement == 0 || packet_len < 12 {
        return ;
    }

    let qd_count: u16 = read_be16(packet.as_slice(), 4);
    let an_count: u16 = read_be16(packet.as_slice(), 6);
    let ns_count: u16 = read_be16(packet.as_slice(), 8);
    let ar_count: u16 = read_be16(packet.as_slice(), 10);

    let mut pos: usize = 12;
    let ghost full_skip = skip_questions_loose(packet@, 12, qd_count as nat);

    let mut i: u16 = 0;
    while i < qd_count
        invariant
            packet@ == old(packet)@,
            packet_len == packet@.len(),
            packet_len >= 12,
            decrement != 0,
            qd_count == be16(packet@, 4),
            an_count == be16(packet@, 6),
            ns_count == be16(packet@, 8),
            ar_count == be16(packet@, 10),
            full_skip == skip_questions_loose(packet@, 12, qd_count as nat),
            i <= qd_count,
            skip_questions_loose(packet@, pos as int, (qd_count - i) as nat) == full_skip || (
            full_skip is Some && skip_name_spec(packet@, pos as int) is None && skip_name_spec(
                packet@,
                full_skip->0,
            ) is None),
        decreases qd_count - i,
    {
        let next: usize = match skip_name(packet.as_slice(), pos) {
            Some(p) => p,
            None => {
                // A truncated question aborts the patch before any write.
                proof {
                    if skip_questions_loose(packet@, pos as int, (qd_count - i) as nat)
                        == full_skip {
                        assert(full_skip is None);
                    } else {
                        assert(patch_records(
                            packet@,
                            full_skip->0,
                            (an_count + ns_count + ar_count) as nat,
                            decrement,
                        ) == packet@);
                    }
                }
                return ;
            },
        };
        let ghost pos_exact: int = next + 4;
        if next <= usize::MAX - 4 {
            pos = next + 4;
        } else {
            pos = usize::MAX;
        }
        i = i + 1;
        proof {
            if pos != pos_exact {
                // The exact cursor does not fit a usize, so both it and the
                // saturated one lie past the packet end: every later name
                // skip fails either way, and with no questions left the
                // record walk finds a dead cursor under either value.
                assert(skip_name_spec(packet@, pos as int) is None);
                assert(skip_name_spec(packet@, pos_exact) is None);
                if qd_count - i > 0 {
                    assert(skip_questions_loose(packet@, pos as int, (qd_count - i) as nat)
                        is None);
                    assert(skip_questions_loose(packet@, pos_exact, (qd_count - i) as nat)
                        is None);
                }
            }
        }
    }

    let total_records: usize = an_count as usize + ns_count as usize + ar_count as usize;
    let ghost target = patched(old(packet)@, decrement);

    proof {
        if skip_questions_loose(packet@, pos as int, 0) != full_skip {
            lemma_patch_records_dead_cursor(
                packet@,
                pos as int,
                full_skip->0,
                total_records as nat,
                decrement,
            );
        }
    }

    let mut j: usize = 0;
    while j < total_records
        invariant
            packet@.len() == old(packet)@.len(),
            packet_len == packet@.len(),
            packet_len >= 12,
            decrement != 0,
            total_records == an_count as int + ns_count as int + ar_count as int,
            j <= total_records,
            target == patched(old(packet)@, decrement),
            patch_records(packet@, pos as int, (total_records - j) as nat, decrement) == target,
        decreases total_records - j,
    {
        let next: usize = match skip_name(packet.as_slice(), pos) {
            Some(p) => p,
            None => {
                return ;
            },
        };
        if packet_len - next < 10 {
            return ;
        }

        let ttl_offset: usize = next + 4;
        let old_ttl: u32 = read_be32(packet.as_slice(), ttl_offset);
        let new_ttl: u32 = if old_ttl >= decrement {
            old_ttl - decrement
        } else {
            0
        };
        let ghost before = packet@;
        packet[ttl_offset] = (new_ttl / 0x1000000) as u8;
        packet[ttl_offset + 1] = ((new_ttl / 0x10000) % 0x100) as u8;
        packet[ttl_offset + 2] = ((new_ttl / 0x100) % 0x100) as u8;
        packet[ttl_offset + 3] = (new_ttl % 0x100) as u8;
        proof {
            assert(packet@ == write_be32(before, ttl_offset as int, sat_sub32(
                be32(before, next + 4),
                decrement,
            )));
        }

        let rd_len: usize = read_be16(packet.as_slice(), next + 8) as usize;
        let record_total: usize = 10 + rd_len;
        if record_total > packet_len || next > packet_len - record_total {
            return ;
        }

        pos = next + record_total;
        j = j + 1;
    }
}

/// Patching with a decrement of zero leaves any packet byte-for-byte
/// unchanged.
pub proof fn lemma_patch_zero_is_identity(s: Seq<u8>)
    ensures
        patched(s, 0) == s,
{
}

/// A packet shorter than the fixed twelve-byte header is never mutated.
pub proof fn lemma_short_packet_untouched(s: Seq<u8>, dec: u32)
    requires
        s.len() < 12,
    ensures
        patched(s, dec) == s,
{
}

/// Two cursors that both lie past the end of the packet leave `patch_records`
/// with nothing to do: the first name skip fails for either.
proof fn lemma_patch_records_dead_cursor(s: Seq<u8>, pos1: int, pos2: int, n: nat, dec: u32)
    requires
        skip_name_spec(s, pos1) is None,
        skip_name_spec(s, pos2) is None,
    ensures
        patch_records(s, pos1, n, dec) == patch_records(s, pos2, n, dec),
{
}

} // verus!
