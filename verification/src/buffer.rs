use vstd::prelude::*;
use vstd::string::StrSliceExecFns;
use vstd::string::StringSliceAdditionalSpecFns;

use crate::errors::DnsError;

verus! {

/// A fixed-capacity byte container with a read/write position.
///
/// `len` is the size of the datagram the buffer holds: reads are bounded
/// by it (and by the fixed 512-byte capacity), so the zeroed capacity
/// behind a short datagram never masquerades as message bytes.  Writes
/// are bounded by the capacity alone.  A fresh buffer is fully writable
/// and readable (`len` is the whole capacity).  Every operation that
/// fails with `DnsError::BufferBounds` leaves the buffer as it found it.
#[derive(Debug)]
pub struct PacketBuffer {
    pub buf: [u8; 512],
    pub pos: usize,
    pub len: usize,
}

/// The big-endian 16-bit value formed by two bytes.
pub open spec fn sp_u16(hi: u8, lo: u8) -> u16 {
    ((hi as u16) << 8 | (lo as u16)) as u16
}

/// The high byte of a 16-bit value.
pub open spec fn u16_hi(v: u16) -> u8 {
    (v >> 8) as u8
}

/// The low byte of a 16-bit value.
pub open spec fn u16_lo(v: u16) -> u8 {
    (v & 0xFF) as u8
}

/// The big-endian 32-bit value formed by four bytes.
pub open spec fn sp_u32(b0: u8, b1: u8, b2: u8, b3: u8) -> u32 {
    ((b0 as u32) << 24 | (b1 as u32) << 16 | (b2 as u32) << 8 | (b3 as u32)) as u32
}

/// Byte `i` (big-endian, 0 is the most significant) of a 32-bit value.
pub open spec fn u32_byte(v: u32, i: int) -> u8 {
    if i == 0 {
        (v >> 24) as u8
    } else if i == 1 {
        (v >> 16) as u8
    } else if i == 2 {
        (v >> 8) as u8
    } else {
        v as u8
    }
}

/// What reading a big-endian 16-bit value at `pos` yields.
pub open spec fn sp_read_u16(buf: Seq<u8>, pos: int) -> Result<(u16, int), DnsError> {
    if 0 <= pos && pos + 2 <= buf.len() {
        Ok((sp_u16(buf[pos], buf[pos + 1]), pos + 2))
    } else {
        Err(DnsError::BufferBounds)
    }
}

/// What reading a big-endian 32-bit value at `pos` yields.
pub open spec fn sp_read_u32(buf: Seq<u8>, pos: int) -> Result<(u32, int), DnsError> {
    if 0 <= pos && pos + 4 <= buf.len() {
        Ok((sp_u32(buf[pos], buf[pos + 1], buf[pos + 2], buf[pos + 3]), pos + 4))
    } else {
        Err(DnsError::BufferBounds)
    }
}

/// ASCII lowercasing of one byte, applied to every byte of a decoded name.
pub open spec fn lower_byte(b: u8) -> u8 {
    if 65 <= b && b <= 90 {
        (b + 32) as u8
    } else {
        b
    }
}

/// The characters of one label: its bytes, lowercased.
pub open spec fn label_chars(l: Seq<u8>) -> Seq<char> {
    l.map_values(|b: u8| lower_byte(b) as char)
}

/// The domain name spelt by a sequence of labels, joined with `'.'`.
pub open spec fn join_labels(ls: Seq<Seq<u8>>) -> Seq<char>
    decreases ls.len(),
{
    if ls.len() == 0 {
        Seq::empty()
    } else if ls.len() == 1 {
        label_chars(ls[0])
    } else {
        label_chars(ls[0]) + seq!['.'] + join_labels(ls.drop_first())
    }
}

/// What decoding a compressed name at `pos` yields: the labels in order and
/// the position for the outer cursor afterwards.
///
/// A byte with its top two bits set is a pointer: its remaining six bits and
/// the next byte form an absolute offset to jump to.  The outer cursor is
/// committed to just past the first pointer (`ret` carries that commitment
/// through later jumps); a zero byte ends the name; any other byte is a label
/// length.  Each jump spends one unit of `jumps_left`; a pointer met with
/// none left is a decode failure, the guard against cyclic chains.
pub open spec fn sp_name(buf: Seq<u8>, pos: int, jumps_left: int, ret: Option<int>) -> Result<
    (Seq<Seq<u8>>, int),
    DnsError,
>
    decreases jumps_left, buf.len() - pos,
{
    if !(0 <= pos && pos < buf.len()) {
        Err(DnsError::BufferBounds)
    } else {
        let len = buf[pos];
        if (len & 0xC0) == 0xC0 {
            if pos + 1 >= buf.len() {
                Err(DnsError::BufferBounds)
            } else if jumps_left <= 0 {
                Err(DnsError::NameDecodeLoop)
            } else {
                let off = sp_u16((len & 0x3F) as u8, buf[pos + 1]) as int;
                let committed = if ret is Some {
                    ret
                } else {
                    Some(pos + 2)
                };
                if off >= buf.len() {
                    Err(DnsError::BufferBounds)
                } else {
                    sp_name(buf, off, jumps_left - 1, committed)
                }
            }
        } else if len == 0 {
            Ok((
                Seq::empty(),
                match ret {
                    Some(e) => e,
                    None => pos + 1,
                },
            ))
        } else {
            if pos + 1 + len >= buf.len() {
                Err(DnsError::BufferBounds)
            } else {
                match sp_name(buf, pos + 1 + len, jumps_left, ret) {
                    Ok(p) => Ok((seq![buf.subrange(pos + 1, pos + 1 + len)] + p.0, p.1)),
                    Err(e) => Err(e),
                }
            }
        }
    }
}

/// Appending one more label extends the joined name by a dot (unless the
/// name was still empty) and the label's lowercased characters.
pub proof fn lemma_join_push(ls: Seq<Seq<u8>>, l: Seq<u8>)
    ensures
        join_labels(ls.push(l)) == join_labels(ls) + (if ls.len() == 0 {
            Seq::<char>::empty()
        } else {
            seq!['.']
        }) + label_chars(l),
    decreases ls.len(),
{
    if ls.len() == 0 {
        assert(ls.push(l) =~= seq![l]);
        assert(join_labels(seq![l]) == label_chars(l));
        assert(join_labels(ls) + Seq::<char>::empty() + label_chars(l) =~= label_chars(l));
    } else {
        lemma_join_push(ls.drop_first(), l);
        assert(ls.push(l).drop_first() =~= ls.drop_first().push(l));
        if ls.len() == 1 {
            assert(ls.drop_first().len() == 0);
            assert(join_labels(ls.push(l)) == label_chars(ls[0]) + seq!['.'] + (join_labels(
                ls.drop_first(),
            ) + Seq::<char>::empty() + label_chars(l)));
            assert(join_labels(ls.push(l)) =~= join_labels(ls) + seq!['.'] + label_chars(l));
        } else {
            assert(join_labels(ls.push(l)) == label_chars(ls[0]) + seq!['.'] + (join_labels(
                ls.drop_first(),
            ) + seq!['.'] + label_chars(l)));
            assert(join_labels(ls.push(l)) =~= join_labels(ls) + seq!['.'] + label_chars(l));
        }
    }
}

/// A pointer that points back at itself is rejected as a loop: whatever
/// jump budget the caller allows, decoding at such a pointer ends in
/// `NameDecodeLoop` after at most that many hops, never in a name.
pub proof fn lemma_self_pointer_fails(buf: Seq<u8>, pos: int, jumps_left: int, ret: Option<int>)
    requires
        0 <= pos,
        pos + 1 < buf.len(),
        (buf[pos] & 0xC0) == 0xC0,
        sp_u16((buf[pos] & 0x3F) as u8, buf[pos + 1]) == pos,
        jumps_left >= 0,
    ensures
        sp_name(buf, pos, jumps_left, ret) == Err::<(Seq<Seq<u8>>, int), DnsError>(
            DnsError::NameDecodeLoop,
        ),
    decreases jumps_left,
{
    if jumps_left > 0 {
        lemma_self_pointer_fails(buf, pos, jumps_left - 1, if ret is Some {
            ret
        } else {
            Some(pos + 2)
        });
    }
}

/// The labels of a name, split on `'.'`; empty labels are kept, and an
/// empty name holds one empty label.
pub open spec fn split_bytes(bs: Seq<u8>) -> Seq<Seq<u8>>
    decreases bs.len(),
{
    if bs.len() == 0 {
        seq![Seq::empty()]
    } else if bs[0] == 46 {
        seq![Seq::empty()] + split_bytes(bs.drop_first())
    } else {
        let rest = split_bytes(bs.drop_first());
        seq![seq![bs[0]] + rest[0]] + rest.drop_first()
    }
}

/// The wire form of a list of labels: each length-prefixed, then a zero
/// terminator; a label longer than 63 bytes cannot be carried.
pub open spec fn sp_wire_labels(ls: Seq<Seq<u8>>) -> Result<Seq<u8>, DnsError>
    decreases ls.len(),
{
    if ls.len() == 0 {
        Ok(seq![0u8])
    } else if ls[0].len() > 63 {
        Err(DnsError::LabelTooLong)
    } else {
        match sp_wire_labels(ls.drop_first()) {
            Ok(rest) => Ok(seq![ls[0].len() as u8] + ls[0] + rest),
            Err(e) => Err(e),
        }
    }
}

/// The uncompressed wire form of a name given as bytes.
pub open spec fn sp_wire_name(bs: Seq<u8>) -> Result<Seq<u8>, DnsError> {
    sp_wire_labels(split_bytes(bs))
}

/// A name always splits into at least one label.
pub proof fn lemma_split_nonempty(bs: Seq<u8>)
    ensures
        split_bytes(bs).len() >= 1,
    decreases bs.len(),
{
    if bs.len() != 0 {
        lemma_split_nonempty(bs.drop_first());
    }
}

/// A run of non-dot bytes from `s` up to a dot (or the end) at `d` is
/// exactly the first label of the name's tail at `s`.
pub proof fn lemma_split_step(bs: Seq<u8>, s: int, d: int)
    requires
        0 <= s <= d <= bs.len(),
        forall|k: int| s <= k < d ==> bs[k] != 46,
        d < bs.len() ==> bs[d] == 46,
    ensures
        d < bs.len() ==> split_bytes(bs.skip(s)) == seq![bs.subrange(s, d)] + split_bytes(
            bs.skip(d + 1),
        ),
        d == bs.len() ==> split_bytes(bs.skip(s)) == seq![bs.subrange(s, d)],
    decreases d - s,
{
    if s == d {
        if d < bs.len() {
            assert(bs.skip(s)[0] == bs[s]);
            assert(bs.skip(s).drop_first() =~= bs.skip(d + 1));
            assert(bs.subrange(s, d) =~= Seq::<u8>::empty());
            assert(split_bytes(bs.skip(s)) =~= seq![bs.subrange(s, d)] + split_bytes(
                bs.skip(d + 1),
            ));
        } else {
            assert(bs.skip(s).len() == 0);
            assert(bs.subrange(s, d) =~= Seq::<u8>::empty());
            assert(split_bytes(bs.skip(s)) =~= seq![bs.subrange(s, d)]);
        }
    } else {
        lemma_split_step(bs, s + 1, d);
        assert(bs.skip(s).len() > 0);
        assert(bs.skip(s)[0] == bs[s]);
        assert(bs.skip(s).drop_first() =~= bs.skip(s + 1));
        let rest = split_bytes(bs.skip(s + 1));
        if d < bs.len() {
            assert(rest == seq![bs.subrange(s + 1, d)] + split_bytes(bs.skip(d + 1)));
            assert(rest[0] == bs.subrange(s + 1, d));
            assert(seq![bs[s]] + rest[0] =~= bs.subrange(s, d));
            assert(rest.drop_first() =~= split_bytes(bs.skip(d + 1)));
            assert(split_bytes(bs.skip(s)) =~= seq![bs.subrange(s, d)] + split_bytes(
                bs.skip(d + 1),
            ));
        } else {
            assert(rest == seq![bs.subrange(s + 1, d)]);
            assert(rest[0] == bs.subrange(s + 1, d));
            assert(seq![bs[s]] + rest[0] =~= bs.subrange(s, d));
            assert(rest.drop_first() =~= Seq::<Seq<u8>>::empty());
            assert(split_bytes(bs.skip(s)) =~= seq![bs.subrange(s, d)]);
        }
    }
}

/// Writing labels fails only by a label being too long.
pub proof fn lemma_wire_labels_err(ls: Seq<Seq<u8>>)
    ensures
        sp_wire_labels(ls) is Ok || sp_wire_labels(ls) == Err::<Seq<u8>, DnsError>(
            DnsError::LabelTooLong,
        ),
    decreases ls.len(),
{
    if ls.len() != 0 {
        lemma_wire_labels_err(ls.drop_first());
    }
}

/// The wire form of a name takes exactly two bytes more than the name:
/// one length byte per label (standing for the leading one and each dot)
/// and the zero terminator.
pub proof fn lemma_wire_name_len(bs: Seq<u8>)
    ensures
        sp_wire_name(bs) matches Ok(w) ==> w.len() == bs.len() + 2,
    decreases bs.len(),
{
    if bs.len() == 0 {
        let s = seq![Seq::<u8>::empty()];
        assert(split_bytes(bs) == s);
        assert(s.drop_first() =~= Seq::<Seq<u8>>::empty());
        assert(sp_wire_labels(s.drop_first()) == Ok::<Seq<u8>, DnsError>(seq![0u8]));
        assert(sp_wire_labels(s) == Ok::<Seq<u8>, DnsError>(
            seq![0u8] + Seq::<u8>::empty() + seq![0u8],
        ));
        assert(sp_wire_name(bs)->Ok_0.len() == 2);
    } else {
        lemma_wire_name_len(bs.drop_first());
        let rest = split_bytes(bs.drop_first());
        lemma_split_nonempty(bs.drop_first());
        if bs[0] == 46 {
            let s = seq![Seq::<u8>::empty()] + rest;
            assert(split_bytes(bs) == s);
            assert(s.drop_first() =~= rest);
            assert(s[0] =~= Seq::<u8>::empty());
            if sp_wire_labels(rest) is Ok {
                let wr = sp_wire_labels(rest)->Ok_0;
                assert(sp_wire_labels(s) == Ok::<Seq<u8>, DnsError>(
                    seq![0u8] + Seq::<u8>::empty() + wr,
                ));
                assert(wr.len() == (bs.len() - 1) + 2);
                assert(sp_wire_name(bs)->Ok_0.len() == bs.len() + 2);
            } else {
                assert(sp_wire_labels(s) is Ok ==> sp_wire_labels(rest) is Ok);
            }
        } else {
            let s = seq![seq![bs[0]] + rest[0]] + rest.drop_first();
            assert(split_bytes(bs) == s);
            assert(s.drop_first() =~= rest.drop_first());
            assert(s[0] == seq![bs[0]] + rest[0]);
            assert(s[0].len() == 1 + rest[0].len());
            if sp_wire_labels(s) is Ok {
                let w = sp_wire_labels(s)->Ok_0;
                // the head label fits, so the tail name's head label fits too
                assert(s[0].len() <= 63);
                assert(rest[0].len() <= 62);
                let wr = sp_wire_labels(s.drop_first())->Ok_0;
                assert(w == seq![s[0].len() as u8] + s[0] + wr);
                assert(sp_wire_labels(rest) == Ok::<Seq<u8>, DnsError>(
                    seq![rest[0].len() as u8] + rest[0] + wr,
                ));
                assert(sp_wire_name(bs.drop_first())->Ok_0.len() == (bs.len() - 1) + 2);
                assert(w.len() == 1 + s[0].len() + wr.len());
                assert(w.len() == bs.len() + 2);
            }
        }
    }
}

/// The two bytes of a big-endian 16-bit value compose back to the bytes.
pub proof fn lemma_u16_bytes(hi: u8, lo: u8)
    ensures
        u16_hi(sp_u16(hi, lo)) == hi,
        u16_lo(sp_u16(hi, lo)) == lo,
{
    assert(((((hi as u16) << 8 | (lo as u16)) as u16) >> 8) as u8 == hi) by (bit_vector);
    assert(((((hi as u16) << 8 | (lo as u16)) as u16) & 0xFF) as u8 == lo) by (bit_vector);
}

/// The four bytes of a big-endian 32-bit value compose back to the bytes.
pub proof fn lemma_u32_bytes(b0: u8, b1: u8, b2: u8, b3: u8)
    ensures
        u32_byte(sp_u32(b0, b1, b2, b3), 0) == b0,
        u32_byte(sp_u32(b0, b1, b2, b3), 1) == b1,
        u32_byte(sp_u32(b0, b1, b2, b3), 2) == b2,
        u32_byte(sp_u32(b0, b1, b2, b3), 3) == b3,
{
    let v = sp_u32(b0, b1, b2, b3);
    assert((v >> 24) as u8 == b0 && (v >> 16) as u8 == b1 && (v >> 8) as u8 == b2 && v as u8 == b3)
        by (bit_vector)
        requires
            v == ((b0 as u32) << 24 | (b1 as u32) << 16 | (b2 as u32) << 8 | (b3 as u32)) as u32,
    ;
}

/// A label exactly as the uncompressed encoder emits it: nonempty, within
/// the 63-byte bound, free of dots, and already lowercase ASCII.
pub open spec fn canonical_label(l: Seq<u8>) -> bool {
    1 <= l.len() <= 63 && forall|k: int|
        0 <= k < l.len() ==> ((#[trigger] l[k]) != 46 && l[k] < 0x80 && lower_byte(l[k]) == l[k])
}

/// A nonempty run of canonical labels.
pub open spec fn canonical_labels(ls: Seq<Seq<u8>>) -> bool {
    ls.len() >= 1 && forall|i: int| 0 <= i < ls.len() ==> canonical_label(#[trigger] ls[i])
}

/// A name decode fails only by running out of bytes or by the pointer-jump
/// bound: no other error can come out of it.
pub proof fn lemma_name_err_kinds(buf: Seq<u8>, pos: int, jumps_left: int, ret: Option<int>)
    ensures
        sp_name(buf, pos, jumps_left, ret) is Ok || sp_name(buf, pos, jumps_left, ret)
            == Err::<(Seq<Seq<u8>>, int), DnsError>(DnsError::BufferBounds) || sp_name(
            buf,
            pos,
            jumps_left,
            ret,
        ) == Err::<(Seq<Seq<u8>>, int), DnsError>(DnsError::NameDecodeLoop),
    decreases jumps_left, buf.len() - pos,
{
    if 0 <= pos < buf.len() {
        let len = buf[pos];
        if (len & 0xC0) == 0xC0 {
            if pos + 1 < buf.len() && jumps_left > 0 {
                let off = sp_u16((len & 0x3F) as u8, buf[pos + 1]) as int;
                if off < buf.len() {
                    lemma_name_err_kinds(buf, off, jumps_left - 1, if ret is Some {
                        ret
                    } else {
                        Some(pos + 2)
                    });
                }
            }
        } else if len == 0 {
        } else if pos + 1 + len < buf.len() {
            lemma_name_err_kinds(buf, pos + 1 + len, jumps_left, ret);
        }
    }
}

/// A name that parses without any pointer jump parses the same under any
/// jump budget: the budget is only consulted at a pointer.
pub proof fn lemma_name_jumps_irrelevant(buf: Seq<u8>, pos: int, jumps_left: int, ret: Option<int>)
    requires
        sp_name(buf, pos, 0, ret) is Ok,
        jumps_left >= 0,
    ensures
        sp_name(buf, pos, jumps_left, ret) == sp_name(buf, pos, 0, ret),
    decreases buf.len() - pos,
{
    if 0 <= pos < buf.len() {
        let len = buf[pos];
        if (len & 0xC0) == 0xC0 {
        } else if len == 0 {
        } else if pos + 1 + len < buf.len() {
            lemma_name_jumps_irrelevant(buf, pos + 1 + len, jumps_left, ret);
        }
    }
}

/// Parsing a name that uses no pointer reads exactly the bytes of its
/// uncompressed wire form, provided every label observes the encoder's
/// 63-byte bound.
pub proof fn lemma_plain_name_bytes(buf: Seq<u8>, pos: int)
    requires
        sp_name(buf, pos, 0, None) is Ok,
        forall|i: int|
            0 <= i < sp_name(buf, pos, 0, None)->Ok_0.0.len() ==> (#[trigger] sp_name(
                buf,
                pos,
                0,
                None,
            )->Ok_0.0[i]).len() <= 63,
    ensures
        ({
            let r = sp_name(buf, pos, 0, None)->Ok_0;
            sp_wire_labels(r.0) == Ok::<Seq<u8>, DnsError>(buf.subrange(pos, r.1)) && pos < r.1
                <= buf.len()
        }),
    decreases buf.len() - pos,
{
    let r = sp_name(buf, pos, 0, None)->Ok_0;
    let len = buf[pos];
    if len == 0 {
        assert(r.0 =~= Seq::<Seq<u8>>::empty());
        assert(buf.subrange(pos, pos + 1) =~= seq![0u8]);
    } else {
        let l = buf.subrange(pos + 1, pos + 1 + len);
        let rest = sp_name(buf, pos + 1 + len, 0, None)->Ok_0;
        assert(r.0 == seq![l] + rest.0);
        assert(r.0[0] == l);
        assert forall|i: int| 0 <= i < rest.0.len() implies (#[trigger] rest.0[i]).len() <= 63 by {
            assert(rest.0[i] == r.0[i + 1]);
        }
        lemma_plain_name_bytes(buf, pos + 1 + len);
        assert((seq![l] + rest.0).drop_first() =~= rest.0);
        assert(buf.subrange(pos, r.1) =~= seq![len] + l + buf.subrange(pos + 1 + len, r.1));
        assert(sp_wire_labels(r.0) == Ok::<Seq<u8>, DnsError>(
            seq![l.len() as u8] + l + buf.subrange(pos + 1 + len, r.1),
        ));
    }
}

/// The bytes of an ASCII character sequence, one per character.
pub open spec fn ascii_bytes(s: Seq<char>) -> Seq<u8> {
    Seq::new(s.len(), |i: int| s[i] as u8)
}

/// A canonical name's characters are ASCII, and their bytes split back
/// into exactly its labels: joining and splitting are inverse on
/// canonical labels.
pub proof fn lemma_split_join(ls: Seq<Seq<u8>>)
    requires
        canonical_labels(ls),
    ensures
        vstd::utf8::is_ascii_chars(join_labels(ls)),
        split_bytes(ascii_bytes(join_labels(ls))) == ls,
    decreases ls.len(),
{
    if ls.len() == 1 {
        let l = ls[0];
        assert(canonical_label(l));
        let cs = join_labels(ls);
        assert(cs == label_chars(l));
        assert forall|i: int| 0 <= i < cs.len() implies '\0' <= #[trigger] cs[i] <= '\u{7f}' by {
            assert(cs[i] == lower_byte(l[i]) as char);
            assert(l[i] < 0x80);
        }
        assert(ascii_bytes(cs) =~= l);
        lemma_split_step(l, 0, l.len() as int);
        assert(l.skip(0) =~= l);
        assert(l.subrange(0, l.len() as int) =~= l);
        assert(split_bytes(ascii_bytes(cs)) =~= seq![l]);
        assert(seq![l] =~= ls);
    } else {
        let l = ls[0];
        let rest = ls.drop_first();
        assert(canonical_label(l));
        assert forall|i: int| 0 <= i < rest.len() implies canonical_label(#[trigger] rest[i]) by {
            assert(rest[i] == ls[i + 1]);
        }
        lemma_split_join(rest);
        let cs = join_labels(ls);
        assert(cs == label_chars(l) + seq!['.'] + join_labels(rest));
        assert forall|i: int| 0 <= i < cs.len() implies '\0' <= #[trigger] cs[i] <= '\u{7f}' by {
            if i < l.len() {
                assert(cs[i] == lower_byte(l[i]) as char);
                assert(l[i] < 0x80);
            } else if i == l.len() {
                assert(cs[i] == '.');
            } else {
                assert(cs[i] == join_labels(rest)[i - l.len() - 1]);
            }
        }
        let bs = ascii_bytes(cs);
        let d = l.len() as int;
        assert(bs =~= l + seq![46u8] + ascii_bytes(join_labels(rest)));
        assert forall|k: int| 0 <= k < d implies bs[k] != 46 by {
            assert(bs[k] == l[k]);
        }
        assert(bs[d] == 46);
        lemma_split_step(bs, 0, d);
        assert(bs.skip(0) =~= bs);
        assert(bs.subrange(0, d) =~= l);
        assert(bs.skip(d + 1) =~= ascii_bytes(join_labels(rest)));
        assert(split_bytes(bs) == seq![l] + split_bytes(ascii_bytes(join_labels(rest))));
        assert(seq![l] + rest =~= ls);
    }
}

/// A name that parses without compression re-encodes to exactly the bytes
/// it was parsed from, provided its labels are canonical: nonempty, at
/// most 63 bytes, free of dots, and already lowercase ASCII.
pub proof fn lemma_name_reencode(buf: Seq<u8>, pos: int)
    requires
        sp_name(buf, pos, 0, None) is Ok,
        canonical_labels(sp_name(buf, pos, 0, None)->Ok_0.0),
    ensures
        ({
            let r = sp_name(buf, pos, 0, None)->Ok_0;
            sp_wire_name(vstd::utf8::encode_utf8(join_labels(r.0))) == Ok::<Seq<u8>, DnsError>(
                buf.subrange(pos, r.1),
            ) && pos < r.1 <= buf.len()
        }),
{
    let r = sp_name(buf, pos, 0, None)->Ok_0;
    assert forall|i: int| 0 <= i < r.0.len() implies (#[trigger] r.0[i]).len() <= 63 by {
        assert(canonical_label(r.0[i]));
    }
    lemma_plain_name_bytes(buf, pos);
    lemma_split_join(r.0);
    vstd::utf8::is_ascii_chars_encode_utf8(join_labels(r.0));
    assert(vstd::utf8::encode_utf8(join_labels(r.0)) =~= ascii_bytes(join_labels(r.0)));
}

/// The buffer contents after writing `w` at offset `pos`.
pub open spec fn splice(buf: Seq<u8>, pos: int, w: Seq<u8>) -> Seq<u8> {
    buf.take(pos) + w + buf.skip(pos + w.len())
}

impl PacketBuffer {
    /// The number of readable bytes: the datagram size, capped by the
    /// capacity.
    pub open spec fn spec_limit(self) -> int {
        if self.len < 512 {
            self.len as int
        } else {
            512
        }
    }

    /// The readable bytes themselves: the datagram, never the capacity
    /// behind it.
    pub open spec fn data(self) -> Seq<u8> {
        self.buf@.take(self.spec_limit())
    }

    /// The number of readable bytes.
    pub fn limit(&self) -> (r: usize)
        ensures
            r == self.spec_limit(),
    {
        if self.len < 512 {
            self.len
        } else {
            512
        }
    }

    /// A zeroed buffer with the cursor at the start, fully readable and
    /// writable.
    pub fn new() -> (r: PacketBuffer)
        ensures
            r.buf@ == Seq::new(512, |i: int| 0u8),
            r.pos == 0,
            r.len == 512,
    {
        let buf = PacketBuffer { buf: [0; 512], pos: 0, len: 512 };
        proof {
            assert(buf.buf@ =~= Seq::new(512, |i: int| 0u8));
        }
        buf
    }

    /// The current cursor position.
    pub fn pos(&self) -> (r: usize)
        ensures
            r == self.pos,
    {
        self.pos
    }

    /// Advances the cursor by `steps`; the cursor never leaves `0 ..= 512`.
    pub fn step(&mut self, steps: usize) -> (r: Result<(), DnsError>)
        ensures
            final(self).buf@ == old(self).buf@,
            final(self).len == old(self).len,
            old(self).pos + steps <= 512 ==> r is Ok && final(self).pos == old(self).pos + steps,
            old(self).pos + steps > 512 ==> r == Err::<(), DnsError>(DnsError::BufferBounds)
                && *final(self) == *old(self),
    {
        if steps <= 512 && self.pos <= 512 - steps {
            self.pos = self.pos + steps;
            Ok(())
        } else {
            Err(DnsError::BufferBounds)
        }
    }

    /// Moves the cursor to `pos`; the cursor never leaves `0 ..= 512`.
    pub fn seek(&mut self, pos: usize) -> (r: Result<(), DnsError>)
        ensures
            final(self).buf@ == old(self).buf@,
            final(self).len == old(self).len,
            pos <= 512 ==> r is Ok && final(self).pos == pos,
            pos > 512 ==> r == Err::<(), DnsError>(DnsError::BufferBounds)
                && *final(self) == *old(self),
    {
        if pos <= 512 {
            self.pos = pos;
            Ok(())
        } else {
            Err(DnsError::BufferBounds)
        }
    }

    /// Reads the byte under the cursor and advances past it; the byte must
    /// lie within the datagram.
    pub fn read(&mut self) -> (r: Result<u8, DnsError>)
        ensures
            final(self).buf@ == old(self).buf@,
            final(self).len == old(self).len,
            old(self).pos < old(self).spec_limit() ==> r == Ok::<u8, DnsError>(
                old(self).data()[old(self).pos as int],
            ) && final(self).pos == old(self).pos + 1,
            old(self).pos >= old(self).spec_limit() ==> r == Err::<u8, DnsError>(
                DnsError::BufferBounds,
            ) && *final(self) == *old(self),
    {
        if self.pos >= self.len || self.pos >= 512 {
            return Err(DnsError::BufferBounds);
        }
        let res = self.buf[self.pos];
        self.pos = self.pos + 1;
        Ok(res)
    }

    /// Reads the byte at an absolute offset within the datagram, without
    /// moving the cursor.
    pub fn get(&self, pos: usize) -> (r: Result<u8, DnsError>)
        ensures
            pos < self.spec_limit() ==> r == Ok::<u8, DnsError>(self.data()[pos as int]),
            pos >= self.spec_limit() ==> r == Err::<u8, DnsError>(DnsError::BufferBounds),
    {
        if pos >= self.len || pos >= 512 {
            return Err(DnsError::BufferBounds);
        }
        Ok(self.buf[pos])
    }

    /// Copies `len` bytes starting at an absolute offset, without moving the
    /// cursor.  As on every range access, the range must end strictly below
    /// the end of the datagram.
    pub fn get_range(&self, start: usize, len: usize) -> (r: Result<Vec<u8>, DnsError>)
        ensures
            start + len < self.spec_limit() ==> (r matches Ok(v)
                && v@ == self.data().subrange(start as int, start + len)),
            start + len >= self.spec_limit() ==> r == Err::<Vec<u8>, DnsError>(
                DnsError::BufferBounds,
            ),
    {
        let lim = self.limit();
        if start >= lim || len >= lim || start + len >= lim {
            return Err(DnsError::BufferBounds);
        }
        let mut v: Vec<u8> = Vec::new();
        let mut i: usize = 0;
        while i < len
            invariant
                start + len < self.spec_limit(),
                i <= len,
                v@ == self.data().subrange(start as int, start + i),
            decreases len - i,
        {
            v.push(self.buf[start + i]);
            proof {
                assert(self.buf@[start + i] == self.data()[start + i]);
                assert(v@ =~= self.data().subrange(start as int, start + i + 1));
            }
            i = i + 1;
        }
        Ok(v)
    }

    /// Reads a big-endian 16-bit value at the cursor, within the datagram.
    pub fn read_u16(&mut self) -> (r: Result<u16, DnsError>)
        ensures
            final(self).buf@ == old(self).buf@,
            final(self).len == old(self).len,
            match sp_read_u16(old(self).data(), old(self).pos as int) {
                Ok((v, end)) => r == Ok::<u16, DnsError>(v) && final(self).pos == end,
                Err(e) => r == Err::<u16, DnsError>(e) && *final(self) == *old(self),
            },
    {
        let lim = self.limit();
        if lim < 2 || self.pos > lim - 2 {
            return Err(DnsError::BufferBounds);
        }
        let hi = self.buf[self.pos];
        let lo = self.buf[self.pos + 1];
        proof {
            assert(hi == self.data()[self.pos as int]);
            assert(lo == self.data()[self.pos + 1]);
        }
        self.pos = self.pos + 2;
        Ok((hi as u16) << 8 | (lo as u16))
    }

    /// Reads a big-endian 32-bit value at the cursor, within the datagram.
    pub fn read_u32(&mut self) -> (r: Result<u32, DnsError>)
        ensures
            final(self).buf@ == old(self).buf@,
            final(self).len == old(self).len,
            match sp_read_u32(old(self).data(), old(self).pos as int) {
                Ok((v, end)) => r == Ok::<u32, DnsError>(v) && final(self).pos == end,
                Err(e) => r == Err::<u32, DnsError>(e) && *final(self) == *old(self),
            },
    {
        let lim = self.limit();
        if lim < 4 || self.pos > lim - 4 {
            return Err(DnsError::BufferBounds);
        }
        let b0 = self.buf[self.pos];
        let b1 = self.buf[self.pos + 1];
        let b2 = self.buf[self.pos + 2];
        let b3 = self.buf[self.pos + 3];
        proof {
            assert(b0 == self.data()[self.pos as int]);
            assert(b1 == self.data()[self.pos + 1]);
            assert(b2 == self.data()[self.pos + 2]);
            assert(b3 == self.data()[self.pos + 3]);
        }
        self.pos = self.pos + 4;
        Ok((b0 as u32) << 24 | (b1 as u32) << 16 | (b2 as u32) << 8 | (b3 as u32))
    }

    /// Writes one byte at the cursor and advances past it.
    pub fn write(&mut self, val: u8) -> (r: Result<(), DnsError>)
        ensures
            final(self).len == old(self).len,
            old(self).pos < 512 ==> r is Ok
                && final(self).buf@ == old(self).buf@.update(old(self).pos as int, val)
                && final(self).pos == old(self).pos + 1,
            old(self).pos >= 512 ==> r == Err::<(), DnsError>(DnsError::BufferBounds)
                && *final(self) == *old(self),
    {
        if self.pos >= 512 {
            return Err(DnsError::BufferBounds);
        }
        self.buf[self.pos] = val;
        self.pos = self.pos + 1;
        Ok(())
    }

    /// Writes one byte at the cursor.
    pub fn write_u8(&mut self, val: u8) -> (r: Result<(), DnsError>)
        ensures
            final(self).len == old(self).len,
            old(self).pos < 512 ==> r is Ok
                && final(self).buf@ == old(self).buf@.update(old(self).pos as int, val)
                && final(self).pos == old(self).pos + 1,
            old(self).pos >= 512 ==> r == Err::<(), DnsError>(DnsError::BufferBounds)
                && *final(self) == *old(self),
    {
        self.write(val)
    }

    /// Writes a 16-bit value big-endian at the cursor.
    pub fn write_u16(&mut self, val: u16) -> (r: Result<(), DnsError>)
        ensures
            final(self).len == old(self).len,
            old(self).pos + 2 <= 512 ==> r is Ok
                && final(self).buf@ == splice(
                    old(self).buf@,
                    old(self).pos as int,
                    seq![u16_hi(val), u16_lo(val)],
                )
                && final(self).pos == old(self).pos + 2,
            old(self).pos + 2 > 512 ==> r == Err::<(), DnsError>(DnsError::BufferBounds)
                && *final(self) == *old(self),
    {
        if self.pos > 510 {
            return Err(DnsError::BufferBounds);
        }
        let ghost buf0 = self.buf@;
        let ghost p = self.pos as int;
        if let Err(e) = self.write((val >> 8) as u8) {
            return Err(e);
        }
        if let Err(e) = self.write((val & 0xFF) as u8) {
            return Err(e);
        }
        proof {
            assert(self.buf@ =~= splice(buf0, p, seq![u16_hi(val), u16_lo(val)]));
        }
        Ok(())
    }

    /// Writes a 32-bit value big-endian at the cursor.
    pub fn write_u32(&mut self, val: u32) -> (r: Result<(), DnsError>)
        ensures
            final(self).len == old(self).len,
            old(self).pos + 4 <= 512 ==> r is Ok
                && final(self).buf@ == splice(
                    old(self).buf@,
                    old(self).pos as int,
                    seq![u32_byte(val, 0), u32_byte(val, 1), u32_byte(val, 2), u32_byte(val, 3)],
                )
                && final(self).pos == old(self).pos + 4,
            old(self).pos + 4 > 512 ==> r == Err::<(), DnsError>(DnsError::BufferBounds)
                && *final(self) == *old(self),
    {
        if self.pos > 508 {
            return Err(DnsError::BufferBounds);
        }
        let ghost buf0 = self.buf@;
        let ghost p = self.pos as int;
        if let Err(e) = self.write(((val >> 24) & 0xFF) as u8) {
            return Err(e);
        }
        if let Err(e) = self.write(((val >> 16) & 0xFF) as u8) {
            return Err(e);
        }
        if let Err(e) = self.write(((val >> 8) & 0xFF) as u8) {
            return Err(e);
        }
        if let Err(e) = self.write((val & 0xFF) as u8) {
            return Err(e);
        }
        proof {
            assert(((val >> 24) & 0xFF) as u8 == (val >> 24) as u8) by (bit_vector);
            assert(((val >> 16) & 0xFF) as u8 == (val >> 16) as u8) by (bit_vector);
            assert(((val >> 8) & 0xFF) as u8 == (val >> 8) as u8) by (bit_vector);
            assert((val & 0xFF) as u8 == val as u8) by (bit_vector);
            assert(self.buf@ =~= splice(
                buf0,
                p,
                seq![u32_byte(val, 0), u32_byte(val, 1), u32_byte(val, 2), u32_byte(val, 3)],
            ));
        }
        Ok(())
    }

    /// Reads a compressed domain name at the cursor, appending it to `name`
    /// lowercased, with labels joined by `'.'`.  After a success the cursor
    /// stands past the name: past its terminating zero byte, or past the
    /// first compression pointer if one was followed.  At most `max_jumps`
    /// pointer jumps are followed; a chain needing more fails with
    /// `NameDecodeLoop`, so decoding terminates on cyclic chains.  A failure
    /// leaves buffer and name unchanged.
    #[verifier::loop_isolation(false)]
    pub fn read_name(&mut self, name: &mut String, max_jumps: u8) -> (r: Result<(), DnsError>)
        ensures
            final(self).buf@ == old(self).buf@,
            final(self).len == old(self).len,
            match sp_name(old(self).data(), old(self).pos as int, max_jumps as int, None) {
                Ok(p) => r is Ok && final(self).pos == p.1 && final(name)@ == old(name)@
                    + join_labels(p.0),
                Err(e) => r == Err::<(), DnsError>(e) && *final(self) == *old(self)
                    && final(name)@ == old(name)@,
            },
    {
        let lim = self.limit();
        let ghost buf0 = self.data();
        let ghost target = sp_name(buf0, self.pos as int, max_jumps as int, None);
        let mut pos: usize = self.pos;
        let mut jumps: u8 = 0;
        let mut jumped: bool = false;
        let mut outer: usize = 0;
        let mut first: bool = true;
        let mut acc = String::new();
        let ghost mut acc_labels: Seq<Seq<u8>> = Seq::empty();
        loop
            invariant
                *self == *old(self),
                lim == self.spec_limit(),
                jumps <= max_jumps,
                first <==> acc_labels.len() == 0,
                acc@ == join_labels(acc_labels),
                jumped ==> outer <= 512,
                ({
                    let cur = sp_name(
                        buf0,
                        pos as int,
                        max_jumps - jumps,
                        if jumped {
                            Some(outer as int)
                        } else {
                            None
                        },
                    );
                    match cur {
                        Ok(p) => target == Ok::<(Seq<Seq<u8>>, int), DnsError>(
                            (acc_labels + p.0, p.1),
                        ),
                        Err(e) => target == Err::<(Seq<Seq<u8>>, int), DnsError>(e),
                    }
                }),
            decreases (max_jumps - jumps) as int, 512 - pos as int,
        {
            if pos >= lim {
                return Err(DnsError::BufferBounds);
            }
            let len = self.buf[pos];
            proof {
                assert(len == buf0[pos as int]);
            }
            if (len & 0xC0) == 0xC0 {
                if pos + 1 >= lim {
                    return Err(DnsError::BufferBounds);
                }
                if jumps >= max_jumps {
                    return Err(DnsError::NameDecodeLoop);
                }
                let b2 = self.buf[pos + 1];
                proof {
                    assert(b2 == buf0[pos + 1]);
                }
                let off = (((len & 0x3F) as u16) << 8 | (b2 as u16)) as usize;
                if !jumped {
                    jumped = true;
                    outer = pos + 2;
                }
                jumps = jumps + 1;
                if off >= lim {
                    return Err(DnsError::BufferBounds);
                }
                pos = off;
            } else if len == 0 {
                pos = pos + 1;
                break ;
            } else {
                if pos + 1 + (len as usize) >= lim {
                    return Err(DnsError::BufferBounds);
                }
                if first {
                    first = false;
                } else {
                    push_char(&mut acc, '.');
                }
                let ghost lbl = buf0.subrange(pos + 1, pos + 1 + len as int);
                let ghost acc_pre = acc@;
                let mut i: usize = 0;
                while i < len as usize
                    invariant
                        i <= len as usize,
                        acc@ == acc_pre + label_chars(lbl.take(i as int)),
                    decreases len as usize - i,
                {
                    let b = self.buf[pos + 1 + i];
                    proof {
                        assert(b == buf0[pos + 1 + i]);
                    }
                    let c = lower_ascii(b);
                    push_char(&mut acc, c as char);
                    proof {
                        assert(lbl.take(i + 1) =~= lbl.take(i as int).push(lbl[i as int]));
                        assert(label_chars(lbl.take(i + 1)) =~= label_chars(
                            lbl.take(i as int),
                        ).push(lower_byte(lbl[i as int]) as char));
                        assert(acc@ =~= acc_pre + label_chars(lbl.take(i + 1)));
                    }
                    i = i + 1;
                }
                proof {
                    assert(lbl.take(len as int) =~= lbl);
                    lemma_join_push(acc_labels, lbl);
                    assert(acc@ =~= join_labels(acc_labels.push(lbl)));
                    let cur = sp_name(
                        buf0,
                        pos as int,
                        max_jumps - jumps,
                        if jumped {
                            Some(outer as int)
                        } else {
                            None
                        },
                    );
                    let nxt = sp_name(
                        buf0,
                        pos + 1 + len as int,
                        max_jumps - jumps,
                        if jumped {
                            Some(outer as int)
                        } else {
                            None
                        },
                    );
                    if nxt is Ok {
                        assert((acc_labels + (seq![lbl] + nxt->Ok_0.0)) =~= (acc_labels.push(lbl)
                            + nxt->Ok_0.0));
                    }
                    acc_labels = acc_labels.push(lbl);
                }
                pos = pos + 1 + (len as usize);
            }
        }
        let end = if jumped {
            outer
        } else {
            pos
        };
        proof {
            assert(acc_labels + Seq::<Seq<u8>>::empty() =~= acc_labels);
        }
        self.pos = end;
        name.append(acc.as_str());
        Ok(())
    }

    /// Writes a name as a run of length-prefixed labels ending in a zero
    /// byte.  No compression pointer is ever emitted, so the output need not
    /// be maximally compact, but is always valid to decode.  A label longer
    /// than 63 bytes is rejected before anything is written, as is a name
    /// the buffer cannot hold, so a failure writes nothing.
    #[verifier::loop_isolation(false)]
    #[verifier::rlimit(60)]
    pub fn write_name(&mut self, name: &str) -> (r: Result<(), DnsError>)
        ensures
            final(self).len == old(self).len,
            match sp_wire_name(name.spec_bytes()) {
                Ok(w) => (if old(self).pos + w.len() <= 512 {
                    r is Ok && final(self).buf@ == splice(old(self).buf@, old(self).pos as int, w)
                        && final(self).pos == old(self).pos + w.len()
                } else {
                    r == Err::<(), DnsError>(DnsError::BufferBounds) && *final(self) == *old(self)
                }),
                Err(e) => r == Err::<(), DnsError>(e) && *final(self) == *old(self),
            },
    {
        let bytes = name.as_bytes_vec();
        let ghost bs = bytes@;
        if !labels_fit(&bytes) {
            proof {
                lemma_wire_labels_err(split_bytes(bs));
            }
            return Err(DnsError::LabelTooLong);
        }
        proof {
            lemma_wire_name_len(bs);
        }
        let ghost w = sp_wire_name(bs)->Ok_0;
        if bytes.len() > 510 || self.pos > 510 - bytes.len() {
            return Err(DnsError::BufferBounds);
        }
        let ghost p0 = self.pos as int;
        let ghost buf0 = self.buf@;
        proof {
            assert(self.buf@ =~= splice(buf0, p0, w.take(0)));
            assert(bs.skip(0) =~= bs);
            assert(w.take(0) + w =~= w);
        }
        let mut start: usize = 0;
        loop
            invariant
                self.len == old(self).len,
                start <= bytes.len(),
                p0 + w.len() <= 512,
                p0 <= self.pos,
                sp_wire_labels(split_bytes(bs.skip(start as int))) is Ok,
                ({
                    let rem = sp_wire_labels(split_bytes(bs.skip(start as int)))->Ok_0;
                    w == w.take(self.pos - p0) + rem && self.pos - p0 + rem.len() == w.len()
                }),
                self.buf@ == splice(buf0, p0, w.take(self.pos - p0)),
            decreases bytes.len() - start + 1,
        {
            let mut j: usize = start;
            while j < bytes.len() && bytes[j] != 46
                invariant
                    start <= j <= bytes.len(),
                    forall|k: int| start <= k < j ==> bs[k] != 46,
                decreases bytes.len() - j,
            {
                j = j + 1;
            }
            let ghost sp = split_bytes(bs.skip(start as int));
            let ghost lbl = bs.subrange(start as int, j as int);
            let ghost rem = sp_wire_labels(sp)->Ok_0;
            let ghost written0 = self.pos - p0;
            let ghost rem2 = sp_wire_labels(sp.drop_first())->Ok_0;
            proof {
                lemma_split_step(bs, start as int, j as int);
                if j == bytes.len() {
                    assert(sp == seq![lbl]);
                    assert(sp.drop_first() =~= Seq::<Seq<u8>>::empty());
                } else {
                    assert(sp == seq![lbl] + split_bytes(bs.skip(j + 1)));
                    assert(sp.drop_first() =~= split_bytes(bs.skip(j + 1)));
                }
                assert(sp[0] == lbl);
                assert(lbl.len() <= 63);
                assert(rem == seq![lbl.len() as u8] + lbl + rem2);
            }
            let d = j - start;
            // the length byte of this label
            proof {
                assert(written0 < w.len());
                assert(w[written0 as int] == rem[0]);
            }
            if let Err(e) = self.write(d as u8) {
                proof {
                    assert(false);
                }
                return Err(e);
            }
            proof {
                assert(w.take(written0 + 1) =~= w.take(written0 as int).push(w[written0 as int]));
                assert(self.buf@ =~= splice(buf0, p0, w.take(written0 + 1)));
            }
            let mut i: usize = 0;
            while i < d
                invariant
                    self.len == old(self).len,
                    i <= d,
                    self.pos == p0 + written0 + 1 + i,
                    self.buf@ == splice(buf0, p0, w.take(written0 + 1 + i)),
                decreases d - i,
            {
                proof {
                    assert(written0 + 1 + i < w.len());
                    assert(w[written0 + 1 + i] == rem[1 + i]);
                    assert(rem[1 + i] == lbl[i as int]);
                    assert(lbl[i as int] == bs[start + i]);
                }
                let b = bytes[start + i];
                if let Err(e) = self.write(b) {
                    proof {
                        assert(false);
                    }
                    return Err(e);
                }
                proof {
                    assert(w.take(written0 + 1 + i + 1) =~= w.take(written0 + 1 + i).push(
                        w[written0 + 1 + i],
                    ));
                    assert(self.buf@ =~= splice(buf0, p0, w.take(written0 + 1 + i + 1)));
                }
                i = i + 1;
            }
            if j == bytes.len() {
                // the terminating zero byte
                proof {
                    assert(rem2 == seq![0u8]);
                    assert(rem.len() == 1 + lbl.len() + 1);
                    assert(written0 + 1 + d < w.len());
                    assert(w[written0 + 1 + d] == rem[1 + d]);
                    assert(rem[1 + d] == 0u8);
                }
                if let Err(e) = self.write(0) {
                    proof {
                        assert(false);
                    }
                    return Err(e);
                }
                proof {
                    assert(w.take(written0 + 1 + d + 1) =~= w.take(written0 + 1 + d).push(
                        w[written0 + 1 + d],
                    ));
                    assert(w.take(written0 + 1 + d + 1) =~= w);
                    assert(self.buf@ =~= splice(buf0, p0, w));
                }
                return Ok(());
            }
            proof {
                assert(w.take(written0 + 1 + d) =~= w.take(written0 as int) + seq![
                    lbl.len() as u8,
                ] + lbl);
                assert(w == w.take(written0 + 1 + d) + rem2);
            }
            start = j + 1;
        }
    }
}

/// Whether every label of the name fits the wire format's 63-byte bound.
#[verifier::loop_isolation(false)]
fn labels_fit(bytes: &Vec<u8>) -> (ok: bool)
    ensures
        ok <==> sp_wire_name(bytes@) is Ok,
{
    let ghost bs = bytes@;
    proof {
        assert(bs.skip(0) =~= bs);
    }
    let mut start: usize = 0;
    loop
        invariant
            start <= bytes.len(),
            sp_wire_name(bs) is Ok <==> sp_wire_labels(split_bytes(bs.skip(start as int))) is Ok,
        decreases bytes.len() - start + 1,
    {
        let mut j: usize = start;
        while j < bytes.len() && bytes[j] != 46
            invariant
                start <= j <= bytes.len(),
                forall|k: int| start <= k < j ==> bs[k] != 46,
            decreases bytes.len() - j,
        {
            j = j + 1;
        }
        proof {
            lemma_split_step(bs, start as int, j as int);
        }
        if j - start > 63 {
            return false;
        }
        if j == bytes.len() {
            proof {
                let lbl = bs.subrange(start as int, j as int);
                assert(seq![lbl].drop_first() =~= Seq::<Seq<u8>>::empty());
                assert(lbl.len() == j - start <= 63);
                assert(sp_wire_labels(seq![lbl].drop_first()) is Ok);
                assert(sp_wire_labels(seq![lbl]) is Ok);
            }
            return true;
        }
        proof {
            assert((seq![bs.subrange(start as int, j as int)] + split_bytes(
                bs.skip(j + 1),
            )).drop_first() =~= split_bytes(bs.skip(j + 1)));
        }
        start = j + 1;
    }
}

/// Whether a name can be written at all: every label at most 63 bytes.
pub fn name_fits(name: &str) -> (b: bool)
    ensures
        b <==> sp_wire_name(name.spec_bytes()) is Ok,
{
    let v = name.as_bytes_vec();
    labels_fit(&v)
}

/// Relies on `String::push` from std, for which vstd offers no
/// specification: it appends exactly the given character.
#[verifier::external_body]
fn push_char(s: &mut String, c: char)
    ensures
        final(s)@ == old(s)@ + seq![c],
{
    s.push(c);
}

/// ASCII lowercasing of one byte.
fn lower_ascii(b: u8) -> (r: u8)
    ensures
        r == lower_byte(b),
{
    if 65 <= b && b <= 90 {
        b + 32
    } else {
        b
    }
}

} // verus!
