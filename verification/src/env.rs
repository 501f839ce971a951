use vstd::prelude::*;
use vstd::slice::{slice_subrange, slice_to_vec};

use crate::error::FwError;

verus! {

/// The CRC-32/ISO-HDLC checksum (the zlib/Ethernet CRC-32 variant) of a
/// byte sequence. Its value is a function of the bytes alone; it is pinned
/// down only by the `crc` crate's implementation.
pub uninterp spec fn crc32_of(data: Seq<u8>) -> u32;

/// Relies on the `crc` crate: `Crc::<u32>::new(&CRC_32_ISO_HDLC)` computes
/// the CRC-32/ISO-HDLC checksum of the bytes fed to its digest, a function
/// of those bytes alone.
#[verifier::external_body]
fn crc32_iso_hdlc(data: &[u8]) -> (r: u32)
    ensures
        r == crc32_of(data@),
{
    let crc = crc::Crc::<u32>::new(&crc::CRC_32_ISO_HDLC);
    let mut digest = crc.digest();
    digest.update(data);
    digest.finalize()
}

/// Bytes of the block header that precede the payload: the 32-bit checksum,
/// and one flag byte more when the layout is redundant. The flag's meaning
/// (which copy is active) is not interpreted here.
pub open spec fn spec_header_len(redundant: bool) -> int {
    if redundant {
        5
    } else {
        4
    }
}

/// The 32-bit value stored little-endian in the first four bytes.
pub open spec fn spec_le32(b: Seq<u8>) -> u32
    recommends
        b.len() == 4,
{
    (b[0] as u32) | ((b[1] as u32) << 8) | ((b[2] as u32) << 16) | ((b[3] as u32) << 24)
}

/// The four little-endian bytes of a 32-bit value.
pub open spec fn spec_le_bytes(c: u32) -> Seq<u8> {
    seq![
        (c & 0xff) as u8,
        ((c >> 8) & 0xff) as u8,
        ((c >> 16) & 0xff) as u8,
        ((c >> 24) & 0xff) as u8,
    ]
}

/// Storing a 32-bit value little-endian and reading it back is the identity.
pub proof fn lemma_le_round_trip(c: u32)
    ensures
        spec_le_bytes(c).len() == 4,
        spec_le32(spec_le_bytes(c)) == c,
{
    assert(((c & 0xff) as u8 as u32) | (((c >> 8) & 0xff) as u8 as u32) << 8 | (((c >> 16)
        & 0xff) as u8 as u32) << 16 | (((c >> 24) & 0xff) as u8 as u32) << 24 == c)
        by (bit_vector);
}

/// Index of the first occurrence of `b` at or after `from`, or the length of
/// `p` when there is none.
pub open spec fn spec_find_byte(p: Seq<u8>, from: int, b: u8) -> int
    decreases p.len() - from,
{
    if from < 0 || from >= p.len() {
        p.len() as int
    } else if p[from] == b {
        from
    } else {
        spec_find_byte(p, from + 1, b)
    }
}

pub proof fn lemma_find_byte_props(p: Seq<u8>, from: int, b: u8)
    requires
        0 <= from <= p.len(),
    ensures
        from <= spec_find_byte(p, from, b) <= p.len(),
        spec_find_byte(p, from, b) < p.len() ==> p[spec_find_byte(p, from, b)] == b,
        forall|k: int| from <= k < spec_find_byte(p, from, b) ==> p[k] != b,
    decreases p.len() - from,
{
    if from < p.len() && p[from] != b {
        lemma_find_byte_props(p, from + 1, b);
    }
}

/// The records encoded in a payload, starting at `from`: records are
/// separated by null bytes, data ends at the first empty record (or at the
/// end of the payload), and each record is split at its first `=` into a
/// non-empty key and a value. A record without `=`, or with nothing before
/// its first `=`, is malformed and is returned as the error.
pub open spec fn spec_decode_payload(p: Seq<u8>, from: int) -> Result<
    Seq<(Seq<u8>, Seq<u8>)>,
    Seq<u8>,
>
    decreases p.len() - from,
    via spec_decode_payload_decreases
{
    if from < 0 || from >= p.len() {
        Ok(Seq::empty())
    } else {
        let e = spec_find_byte(p, from, 0);
        if e == from {
            Ok(Seq::empty())
        } else {
            let seg = p.subrange(from, e);
            let q = spec_find_byte(seg, 0, 61);  // 61 is '='
            if q == 0 || q >= seg.len() {
                Err(seg)
            } else {
                let rec = (seg.subrange(0, q), seg.subrange(q + 1, seg.len() as int));
                if e >= p.len() {
                    Ok(seq![rec])
                } else {
                    match spec_decode_payload(p, e + 1) {
                        Ok(rest) => Ok(seq![rec].add(rest)),
                        Err(s) => Err(s),
                    }
                }
            }
        }
    }
}

#[via_fn]
proof fn spec_decode_payload_decreases(p: Seq<u8>, from: int) {
    if 0 <= from < p.len() {
        lemma_find_byte_props(p, from, 0);
    }
}

/// The records as mathematical values: each pair of byte vectors viewed as
/// a pair of byte sequences.
pub open spec fn spec_entries_of(vars: Seq<(Vec<u8>, Vec<u8>)>) -> Seq<(Seq<u8>, Seq<u8>)> {
    vars.map_values(|pr: (Vec<u8>, Vec<u8>)| (pr.0@, pr.1@))
}

/// Well-formed records: every key is non-empty and holds neither a null
/// byte nor `=`, and no value holds a null byte.
pub open spec fn spec_entries_wf(entries: Seq<(Seq<u8>, Seq<u8>)>) -> bool {
    forall|k: int|
        0 <= k < entries.len() ==> (#[trigger] entries[k]).0.len() > 0
            && !entries[k].0.contains(0u8) && !entries[k].0.contains(61u8)
            && !entries[k].1.contains(0u8)
}

/// Every decoded record is well formed: keys are non-empty and hold
/// neither null bytes nor `=`, values hold no null bytes.
pub proof fn lemma_decoded_entries_wf(p: Seq<u8>, from: int)
    requires
        0 <= from,
    ensures
        spec_decode_payload(p, from) matches Ok(entries) ==> spec_entries_wf(entries),
    decreases p.len() - from,
{
    if from >= p.len() {
    } else {
        let e = spec_find_byte(p, from, 0);
        lemma_find_byte_props(p, from, 0);
        if e == from {
        } else {
            let seg = p.subrange(from, e);
            let q = spec_find_byte(seg, 0, 61);
            lemma_find_byte_props(seg, 0, 61);
            if q == 0 || q >= seg.len() {
            } else {
                let rec = (seg.subrange(0, q), seg.subrange(q + 1, seg.len() as int));
                assert(rec.0.len() > 0 && !rec.0.contains(0u8) && !rec.0.contains(61u8)
                    && !rec.1.contains(0u8)) by {
                    assert(forall|k: int| 0 <= k < seg.len() ==> seg[k] != 0u8);
                    assert(forall|k: int| 0 <= k < rec.0.len() ==> rec.0[k] != 0u8 && rec.0[k] != 61u8);
                    assert(forall|k: int| 0 <= k < rec.1.len() ==> rec.1[k] != 0u8);
                }
                if e >= p.len() {
                    assert(spec_decode_payload(p, from) == Ok::<_, Seq<u8>>(seq![rec]));
                } else {
                    lemma_decoded_entries_wf(p, e + 1);
                    if spec_decode_payload(p, e + 1) is Ok {
                        let rest = spec_decode_payload(p, e + 1)->Ok_0;
                        assert(spec_entries_wf(rest));
                        assert forall|k: int|
                            0 <= k < seq![rec].add(rest).len() implies !(#[trigger] seq![rec].add(
                            rest,
                        )[k]).0.contains(0u8) && !seq![rec].add(rest)[k].0.contains(61u8) && !seq![
                            rec,
                        ].add(rest)[k].1.contains(0u8) by {
                            if k == 0 {
                            } else {
                                assert(seq![rec].add(rest)[k] == rest[k - 1]);
                            }
                        }
                    }
                }
            }
        }
    }
}

/// The value of the first record whose key equals `name`, in storage order.
pub open spec fn spec_find(entries: Seq<(Seq<u8>, Seq<u8>)>, name: Seq<u8>) -> Option<Seq<u8>>
    decreases entries.len(),
{
    if entries.len() == 0 {
        None
    } else if entries[0].0 == name {
        Some(entries[0].1)
    } else {
        spec_find(entries.drop_first(), name)
    }
}

/// First match wins: when an entry's key equals the name and no earlier
/// entry's key does, lookup yields that entry's value — later duplicates
/// of the key do not take part.
pub proof fn lemma_find_first_match(entries: Seq<(Seq<u8>, Seq<u8>)>, name: Seq<u8>, i: int)
    requires
        0 <= i < entries.len(),
        entries[i].0 == name,
        forall|j: int| 0 <= j < i ==> (#[trigger] entries[j]).0 != name,
    ensures
        spec_find(entries, name) == Some(entries[i].1),
    decreases i,
{
    if i == 0 {
    } else {
        assert(entries[0].0 != name);
        let rest = entries.drop_first();
        assert forall|j: int| 0 <= j < i - 1 implies (#[trigger] rest[j]).0 != name by {
            assert(rest[j] == entries[j + 1]);
        }
        assert(rest[i - 1] == entries[i]);
        lemma_find_first_match(rest, name, i - 1);
    }
}

/// Decoding is determined by the payload bytes alone: any two decodes of
/// the same payload yield the same records, in the same order.
pub proof fn lemma_decode_deterministic(
    p: Seq<u8>,
    e1: Seq<(Seq<u8>, Seq<u8>)>,
    e2: Seq<(Seq<u8>, Seq<u8>)>,
)
    requires
        spec_decode_payload(p, 0) == Ok::<_, Seq<u8>>(e1),
        spec_decode_payload(p, 0) == Ok::<_, Seq<u8>>(e2),
    ensures
        e1 == e2,
{
}

/// A block assembled as the little-endian CRC-32 of a payload followed by
/// that payload passes the checksum gate: the stored word equals the CRC of
/// the bytes after the plain (non-redundant) header, so a payload whose
/// records decode yields exactly those records.
pub proof fn lemma_checksum_gate(payload: Seq<u8>, entries: Seq<(Seq<u8>, Seq<u8>)>)
    requires
        spec_decode_payload(payload, 0) == Ok::<_, Seq<u8>>(entries),
    ensures
        ({
            let block = spec_le_bytes(crc32_of(payload)) + payload;
            &&& block.len() == payload.len() + 4
            &&& spec_le32(block.subrange(0, 4)) == crc32_of(block.skip(
                spec_header_len(false),
            ))
            &&& spec_decode_payload(block.skip(spec_header_len(false)), 0) == Ok::<
                _,
                Seq<u8>,
            >(entries)
        }),
{
    let c = crc32_of(payload);
    let block = spec_le_bytes(c) + payload;
    lemma_le_round_trip(c);
    assert(block.skip(4) =~= payload);
    assert(block.subrange(0, 4) =~= spec_le_bytes(c));
}

/// The decoded environment store: `key=value` records in the order they
/// stand in the block's payload.
#[derive(Debug)]
pub struct FwEnv {
    pub vars: Vec<(Vec<u8>, Vec<u8>)>,
}

/// Whether two byte slices hold the same bytes.
fn bytes_eq(a: &[u8], b: &[u8]) -> (r: bool)
    ensures
        r == (a@ == b@),
{
    if a.len() != b.len() {
        return false;
    }
    let n = a.len();
    let mut i: usize = 0;
    while i < n
        invariant
            i <= n,
            n == a@.len() == b@.len(),
            forall|k: int| 0 <= k < i ==> a@[k] == b@[k],
        decreases n - i,
    {
        if a[i] != b[i] {
            return false;
        }
        i = i + 1;
    }
    proof {
        assert(a@ =~= b@);
    }
    true
}

/// Index of the first occurrence of `b` in `p` at or after `from`, or the
/// length of `p` when there is none.
fn find_byte(p: &[u8], from: usize, b: u8) -> (r: usize)
    requires
        from <= p@.len(),
    ensures
        r == spec_find_byte(p@, from as int, b),
        from <= r <= p@.len(),
{
    let len = p.len();
    let mut j = from;
    while j < len
        invariant
            from <= j <= len,
            len == p@.len(),
            spec_find_byte(p@, from as int, b) == spec_find_byte(p@, j as int, b),
        decreases len - j,
    {
        if p[j] == b {
            return j;
        }
        j = j + 1;
    }
    j
}

/// Decode a payload into records, in order; fail on the first record that
/// lacks an `=` or has an empty key, handing back its raw bytes.
fn decode_payload(payload: &[u8]) -> (r: Result<Vec<(Vec<u8>, Vec<u8>)>, FwError>)
    ensures
        match (r, spec_decode_payload(payload@, 0)) {
            (Ok(vars), Ok(entries)) => spec_entries_of(vars@) == entries,
            (Err(e), Err(seg)) => e matches FwError::EnvVarSyntax(s) && s@ == seg,
            _ => false,
        },
{
    let ghost p = payload@;
    let plen = payload.len();
    let mut vars: Vec<(Vec<u8>, Vec<u8>)> = Vec::new();
    let mut i: usize = 0;
    proof {
        assert(spec_entries_of(vars@) =~= Seq::<(Seq<u8>, Seq<u8>)>::empty());
    }
    while i < plen
        invariant
            i <= plen,
            plen == p.len(),
            payload@ == p,
            match spec_decode_payload(p, i as int) {
                Ok(rest) => spec_decode_payload(p, 0) == Ok::<_, Seq<u8>>(
                    spec_entries_of(vars@) + rest,
                ),
                Err(s) => spec_decode_payload(p, 0) == Err::<Seq<(Seq<u8>, Seq<u8>)>, _>(s),
            },
        decreases plen - i,
    {
        let e = find_byte(payload, i, 0);
        if e == i {
            proof {
                assert(spec_decode_payload(p, i as int) == Ok::<_, Seq<u8>>(
                    Seq::<(Seq<u8>, Seq<u8>)>::empty(),
                ));
                assert(spec_entries_of(vars@) + Seq::<(Seq<u8>, Seq<u8>)>::empty()
                    =~= spec_entries_of(vars@));
            }
            return Ok(vars);
        }
        let seg = slice_subrange(payload, i, e);
        let ghost segv = p.subrange(i as int, e as int);
        let q = find_byte(seg, 0, 61);  // 61 is '='
        let seglen = seg.len();
        if q == 0 || q >= seglen {
            let raw = slice_to_vec(seg);
            proof {
                assert(spec_decode_payload(p, i as int) == Err::<Seq<(Seq<u8>, Seq<u8>)>, _>(
                    segv,
                ));
            }
            return Err(FwError::EnvVarSyntax(raw));
        }
        let key = slice_to_vec(slice_subrange(seg, 0, q));
        let value = slice_to_vec(slice_subrange(seg, q + 1, seglen));
        let ghost rec = (segv.subrange(0, q as int), segv.subrange(q + 1, segv.len() as int));
        let ghost prev = spec_entries_of(vars@);
        vars.push((key, value));
        proof {
            assert(spec_entries_of(vars@) =~= prev + seq![rec]);
        }
        if e >= plen {
            proof {
                assert(spec_decode_payload(p, i as int) == Ok::<_, Seq<u8>>(seq![rec]));
                assert(prev + seq![rec] =~= spec_entries_of(vars@));
            }
            return Ok(vars);
        }
        proof {
            match spec_decode_payload(p, e + 1) {
                Ok(rest) => {
                    assert(spec_decode_payload(p, i as int) == Ok::<_, Seq<u8>>(
                        seq![rec].add(rest),
                    ));
                    assert(prev + seq![rec].add(rest) =~= spec_entries_of(vars@) + rest);
                },
                Err(s) => {
                    assert(spec_decode_payload(p, i as int) == Err::<
                        Seq<(Seq<u8>, Seq<u8>)>,
                        _,
                    >(s));
                },
            }
        }
        i = e + 1;
    }
    proof {
        assert(spec_decode_payload(p, i as int) == Ok::<_, Seq<u8>>(
            Seq::<(Seq<u8>, Seq<u8>)>::empty(),
        ));
        assert(spec_entries_of(vars@) + Seq::<(Seq<u8>, Seq<u8>)>::empty() =~= spec_entries_of(
            vars@,
        ));
    }
    Ok(vars)
}

impl FwEnv {
    /// The records as mathematical values, in storage order.
    pub open spec fn entries(self) -> Seq<(Seq<u8>, Seq<u8>)> {
        spec_entries_of(self.vars@)
    }

    /// Decode an environment block that the caller has read from the
    /// primary region: check the stored checksum against the CRC-32 of the
    /// payload — the bytes after the header — and, only when they agree,
    /// decode the payload's records. The block must be at least as long as
    /// its header; a shorter region is the caller's read failure.
    pub fn read(block: &[u8], redundant: bool) -> (r: Result<FwEnv, FwError>)
        requires
            block@.len() >= spec_header_len(redundant),
        ensures
            ({
                let payload = block@.skip(spec_header_len(redundant));
                let stored = spec_le32(block@.subrange(0, 4));
                &&& (stored != crc32_of(payload) ==> r matches Err(FwError::BadCrc))
                &&& (stored == crc32_of(payload) ==> match spec_decode_payload(payload, 0) {
                    Ok(entries) => r matches Ok(env) && env.entries() == entries
                        && spec_entries_wf(entries),
                    Err(seg) => r matches Err(FwError::EnvVarSyntax(s)) && s@ == seg,
                })
            }),
    {
        let header: usize = if redundant {
            5
        } else {
            4
        };
        let stored: u32 = (block[0] as u32) | ((block[1] as u32) << 8u32) | ((block[2] as u32)
            << 16u32) | ((block[3] as u32) << 24u32);
        proof {
            assert(block@.subrange(0, 4)[0] == block@[0]);
            assert(block@.subrange(0, 4)[1] == block@[1]);
            assert(block@.subrange(0, 4)[2] == block@[2]);
            assert(block@.subrange(0, 4)[3] == block@[3]);
        }
        let payload = slice_subrange(block, header, block.len());
        proof {
            assert(payload@ =~= block@.skip(spec_header_len(redundant)));
        }
        let computed = crc32_iso_hdlc(payload);
        if computed != stored {
            return Err(FwError::BadCrc);
        }
        proof {
            lemma_decoded_entries_wf(payload@, 0);
        }
        match decode_payload(payload) {
            Ok(vars) => Ok(FwEnv { vars }),
            Err(e) => Err(e),
        }
    }

    /// Look up a variable by exact key bytes: the value of the first record
    /// whose key equals `name`, or nothing when no record's key does.
    pub fn find_var<'a>(&'a self, name: &[u8]) -> (r: Option<&'a [u8]>)
        ensures
            match (r, spec_find(self.entries(), name@)) {
                (Some(v), Some(m)) => v@ == m,
                (None, None) => true,
                _ => false,
            },
    {
        let n = self.vars.len();
        let mut i: usize = 0;
        proof {
            assert(self.entries().skip(0) =~= self.entries());
        }
        while i < n
            invariant
                i <= n,
                n == self.vars@.len(),
                spec_find(self.entries(), name@) == spec_find(
                    self.entries().skip(i as int),
                    name@,
                ),
            decreases n - i,
        {
            proof {
                assert(self.entries().skip(i as int)[0] == self.entries()[i as int]);
            }
            if bytes_eq(self.vars[i].0.as_slice(), name) {
                return Some(self.vars[i].1.as_slice());
            }
            proof {
                assert(self.entries().skip(i as int).drop_first() =~= self.entries().skip(
                    i as int + 1,
                ));
            }
            i = i + 1;
        }
        proof {
            assert(self.entries().skip(i as int) =~= Seq::<(Seq<u8>, Seq<u8>)>::empty());
        }
        None
    }
}

} // verus!
