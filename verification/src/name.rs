//! Traversal of (possibly compressed) domain names in DNS wire format.
//!
//! `skip_name` advances past an encoded name without decoding it: it walks
//! length-prefixed labels, stops after the terminating zero byte, and treats a
//! compression pointer as a fixed two-byte field (it never follows the
//! pointer). The spec-level `qname_walk` models the query parser's decoding
//! walk, which does follow pointers under a fixed jump budget, lowercases the
//! labels and joins them with dots; `expand_name` is the plain top-down
//! decompression it is proved to agree with.

use vstd::prelude::*;

use crate::wire::lower_bytes;

verus! {

/// The position just past the name encoded at `pos`, without following
/// compression pointers: `None` when the name runs past the end of the packet.
pub open spec fn skip_name_spec(s: Seq<u8>, pos: int) -> Option<int>
    decreases s.len() - pos,
{
    if pos < 0 || pos >= s.len() {
        None
    } else if s[pos] == 0 {
        Some(pos + 1)
    } else if s[pos] & 0xC0 == 0xC0 {
        if pos + 2 <= s.len() {
            Some(pos + 2)
        } else {
            None
        }
    } else {
        if pos + 1 + (s[pos] as int) <= s.len() {
            skip_name_spec(s, pos + 1 + (s[pos] as int))
        } else {
            None
        }
    }
}

/// The 14-bit target offset of the compression pointer whose first byte is at `pos`.
pub open spec fn ptr_target(s: Seq<u8>, pos: int) -> int {
    ((s[pos] & 0x3F) as int) * 0x100 + (s[pos + 1] as int)
}

/// Remaining-bytes measure for walks whose cursor may leave the buffer.
pub open spec fn walk_measure(s: Seq<u8>, cur: int) -> int {
    if 0 <= cur && cur <= s.len() {
        s.len() - cur
    } else {
        0
    }
}

/// One state of the query parser's name walk: `cur` is the read cursor, `acc`
/// the normalized name bytes written so far, `cap` the room in the output
/// buffer, `end` the post-name position fixed by the first jump (`jumped`
/// says whether one happened), and `budget` the remaining jump budget.
/// Returns the normalized name and the position of the byte after the name,
/// or `None` on truncation, exhausted budget, or a full output buffer.
pub open spec fn qname_walk(
    s: Seq<u8>,
    cur: int,
    jumped: bool,
    end: int,
    budget: int,
    acc: Seq<u8>,
    cap: int,
) -> Option<(Seq<u8>, int)>
    decreases budget, walk_measure(s, cur),
{
    if budget <= 0 {
        None
    } else if cur < 0 || cur >= s.len() {
        None
    } else if s[cur] == 0 {
        Some((acc, if jumped { end } else { cur + 1 }))
    } else if s[cur] & 0xC0 == 0xC0 {
        if cur + 2 > s.len() {
            None
        } else if budget <= 1 {
            None
        } else {
            qname_walk(
                s,
                ptr_target(s, cur),
                true,
                if jumped { end } else { cur + 2 },
                budget - 1,
                acc,
                cap,
            )
        }
    } else {
        let l = s[cur] as int;
        if cur + 1 + l > s.len() {
            None
        } else if acc.len() > 0 && acc.len() >= cap {
            None
        } else {
            let sep = if acc.len() > 0 {
                acc + seq![46u8]
            } else {
                acc
            };
            if sep.len() + l > cap {
                None
            } else {
                qname_walk(
                    s,
                    cur + 1 + l,
                    jumped,
                    end,
                    budget,
                    sep + lower_bytes(s.subrange(cur + 1, cur + 1 + l)),
                    cap,
                )
            }
        }
    }
}

/// Dot-joining of two name fragments: no separator when either side is empty.
pub open spec fn join_sep(a: Seq<u8>, b: Seq<u8>) -> Seq<u8> {
    if a.len() == 0 {
        b
    } else if b.len() == 0 {
        a
    } else {
        a + seq![46u8] + b
    }
}

/// The fully expanded, dot-joined name encoded at `cur`, with compression
/// pointers followed under the same jump budget as `qname_walk`, and label
/// bytes kept exactly as they appear in the packet (no case folding).
pub open spec fn expand_name(s: Seq<u8>, cur: int, budget: int) -> Option<Seq<u8>>
    decreases budget, walk_measure(s, cur),
{
    if budget <= 0 {
        None
    } else if cur < 0 || cur >= s.len() {
        None
    } else if s[cur] == 0 {
        Some(Seq::empty())
    } else if s[cur] & 0xC0 == 0xC0 {
        if cur + 2 > s.len() {
            None
        } else if budget <= 1 {
            None
        } else {
            expand_name(s, ptr_target(s, cur), budget - 1)
        }
    } else {
        let l = s[cur] as int;
        if cur + 1 + l > s.len() {
            None
        } else {
            match expand_name(s, cur + 1 + l, budget) {
                None => None,
                Some(rest) => Some(join_sep(s.subrange(cur + 1, cur + 1 + l), rest)),
            }
        }
    }
}

proof fn lemma_lower_bytes_concat(a: Seq<u8>, b: Seq<u8>)
    ensures
        lower_bytes(a + b) == lower_bytes(a) + lower_bytes(b),
{
    assert(lower_bytes(a + b) =~= lower_bytes(a) + lower_bytes(b));
}

proof fn lemma_lower_join(a: Seq<u8>, b: Seq<u8>)
    ensures
        lower_bytes(join_sep(a, b)) == join_sep(lower_bytes(a), lower_bytes(b)),
{
    if a.len() > 0 && b.len() > 0 {
        lemma_lower_bytes_concat(a + seq![46u8], b);
        lemma_lower_bytes_concat(a, seq![46u8]);
        assert(lower_bytes(seq![46u8]) =~= seq![46u8]);
    }
}

proof fn lemma_join_assoc(a: Seq<u8>, b: Seq<u8>, c: Seq<u8>)
    requires
        b.len() > 0,
    ensures
        join_sep(join_sep(a, b), c) == join_sep(a, join_sep(b, c)),
{
    assert(join_sep(join_sep(a, b), c) =~= join_sep(a, join_sep(b, c)));
}

/// The walk appends to its accumulator exactly the lowercased form of the
/// plain top-down expansion of the name at `cur`: whenever the walk succeeds,
/// so does the expansion, and the walk's name is the accumulator dot-joined
/// with the expansion's labels, case-folded.
pub proof fn lemma_walk_expands(
    s: Seq<u8>,
    cur: int,
    jumped: bool,
    end: int,
    budget: int,
    acc: Seq<u8>,
    cap: int,
)
    requires
        qname_walk(s, cur, jumped, end, budget, acc, cap) is Some,
    ensures
        expand_name(s, cur, budget) is Some,
        (qname_walk(s, cur, jumped, end, budget, acc, cap)->0).0 == join_sep(
            acc,
            lower_bytes(expand_name(s, cur, budget)->0),
        ),
    decreases budget, walk_measure(s, cur),
{
    if s[cur] == 0 {
        assert(lower_bytes(Seq::<u8>::empty()) =~= Seq::<u8>::empty());
    } else if s[cur] & 0xC0 == 0xC0 {
        lemma_walk_expands(
            s,
            ptr_target(s, cur),
            true,
            if jumped {
                end
            } else {
                cur + 2
            },
            budget - 1,
            acc,
            cap,
        );
    } else {
        let l = s[cur] as int;
        let label = s.subrange(cur + 1, cur + 1 + l);
        let sep = if acc.len() > 0 {
            acc + seq![46u8]
        } else {
            acc
        };
        let acc2 = sep + lower_bytes(label);
        lemma_walk_expands(s, cur + 1 + l, jumped, end, budget, acc2, cap);
        let rest = expand_name(s, cur + 1 + l, budget)->0;
        lemma_lower_join(label, rest);
        if acc.len() == 0 {
            assert(acc2 =~= lower_bytes(label));
        }
        assert(acc2 == join_sep(acc, lower_bytes(label)));
        lemma_join_assoc(acc, lower_bytes(label), lower_bytes(rest));
    }
}

/// A compression pointer that targets its own position can never reach a
/// terminating byte: the walk exhausts its jump budget and fails, whatever
/// the budget was.
pub proof fn lemma_self_pointer_fails(
    s: Seq<u8>,
    cur: int,
    jumped: bool,
    end: int,
    budget: int,
    acc: Seq<u8>,
    cap: int,
)
    requires
        0 <= cur,
        cur + 2 <= s.len(),
        s[cur] & 0xC0 == 0xC0,
        ptr_target(s, cur) == cur,
    ensures
        qname_walk(s, cur, jumped, end, budget, acc, cap) is None,
    decreases budget,
{
    let b = s[cur];
    assert(b != 0) by (bit_vector)
        requires
            b & 0xC0 == 0xC0,
    ;
    if budget >= 2 {
        lemma_self_pointer_fails(
            s,
            cur,
            true,
            if jumped {
                end
            } else {
                cur + 2
            },
            budget - 1,
            acc,
            cap,
        );
    }
}

/// A label whose declared length runs past the end of the packet fails both
/// the decoding walk and the plain skip at the point of detection.
pub proof fn lemma_label_overrun_fails(
    s: Seq<u8>,
    cur: int,
    jumped: bool,
    end: int,
    budget: int,
    acc: Seq<u8>,
    cap: int,
)
    requires
        0 <= cur < s.len(),
        s[cur] != 0,
        s[cur] & 0xC0 != 0xC0,
        cur + 1 + (s[cur] as int) > s.len(),
    ensures
        qname_walk(s, cur, jumped, end, budget, acc, cap) is None,
        skip_name_spec(s, cur) is None,
{
}

/// Advances past the encoded name starting at `pos` and returns the position
/// immediately following it, or `None` if the name is truncated. A compression
/// pointer is skipped as a fixed two-byte field; it is never followed.
pub fn skip_name(packet: &[u8], pos: usize) -> (r: Option<usize>)
    ensures
        match r {
            Some(p) => skip_name_spec(packet@, pos as int) == Some(p as int) && p <= packet@.len(),
            None => skip_name_spec(packet@, pos as int) is None,
        },
{
    let packet_len: usize = packet.len();
    let mut cur: usize = pos;
    loop
        invariant
            packet_len == packet@.len(),
            skip_name_spec(packet@, cur as int) == skip_name_spec(packet@, pos as int),
        decreases packet@.len() - cur,
    {
        if cur >= packet_len {
            return None;
        }
        let len_byte: u8 = packet[cur];
        if len_byte == 0 {
            return Some(cur + 1);
        }
        if len_byte & 0xC0 == 0xC0 {
            if packet_len - cur >= 2 {
                return Some(cur + 2);
            }
            return None;
        }
        let label_len: usize = len_byte as usize;
        if label_len <= packet_len - (cur + 1) {
            cur = cur + 1 + label_len;
        } else {
            return None;
        }
    }
}

} // verus!
