//! The canonical snapshot codec: one contiguous little-endian encoding of
//! the whole table. Layout: record count (8 bytes), then per record a token
//! length (8 bytes), the token bytes, occurrences (4 bytes), books (4 bytes).

use vstd::prelude::*;
use crate::record::{Freq, Rec, recs};
use vstd::arithmetic::div_mod::lemma_fundamental_div_mod;

verus! {

/// Why a snapshot's bytes do not decode.
#[derive(Clone, Copy, Debug, PartialEq, Eq, Structural)]
pub enum SnapshotFault {
    /// The bytes end before the announced content does.
    Truncated,
    /// Bytes remain after the announced content.
    TrailingData,
}

/// The eight little-endian bytes of `x`.
#[verifier::opaque]
pub open spec fn le_bytes64(x: u64) -> Seq<u8> {
    seq![
        (x % 256) as u8,
        ((x / 256) % 256) as u8,
        ((x / 65536) % 256) as u8,
        ((x / 16777216) % 256) as u8,
        ((x / 4294967296) % 256) as u8,
        ((x / 1099511627776) % 256) as u8,
        ((x / 281474976710656) % 256) as u8,
        ((x / 72057594037927936) % 256) as u8,
    ]
}

/// The four little-endian bytes of `x`.
#[verifier::opaque]
pub open spec fn le_bytes32(x: u32) -> Seq<u8> {
    seq![
        (x % 256) as u8,
        ((x / 256) % 256) as u8,
        ((x / 65536) % 256) as u8,
        ((x / 16777216) % 256) as u8,
    ]
}

/// The value of eight little-endian bytes.
#[verifier::opaque]
pub open spec fn dec_u64(s: Seq<u8>) -> int {
    s[0] + 256 * (s[1] + 256 * (s[2] + 256 * (s[3] + 256 * (s[4] + 256 * (s[5] + 256 * (s[6]
        + 256 * s[7]))))))
}

/// The value of four little-endian bytes.
#[verifier::opaque]
pub open spec fn dec_u32(s: Seq<u8>) -> int {
    s[0] + 256 * (s[1] + 256 * (s[2] + 256 * s[3]))
}

/// The encoding of one record.
pub open spec fn enc_rec(r: Rec) -> Seq<u8> {
    le_bytes64(r.token.len() as u64) + r.token + le_bytes32(r.occurrences) + le_bytes32(r.books)
}

/// The concatenated encodings of a table's records, in order.
pub open spec fn enc_recs(s: Seq<Rec>) -> Seq<u8>
    decreases s.len(),
{
    if s.len() == 0 {
        Seq::empty()
    } else {
        enc_rec(s[0]) + enc_recs(s.drop_first())
    }
}

/// The full snapshot encoding of a table.
pub open spec fn encode_model(s: Seq<Rec>) -> Seq<u8> {
    le_bytes64(s.len() as u64) + enc_recs(s)
}

/// Decode `cnt` records from `s`; the bytes must be exactly consumed.
pub open spec fn dec_recs(s: Seq<u8>, cnt: int) -> Result<Seq<Rec>, SnapshotFault>
    decreases cnt,
{
    if cnt <= 0 {
        if s.len() == 0 {
            Ok(Seq::empty())
        } else {
            Err(SnapshotFault::TrailingData)
        }
    } else if s.len() < 8 {
        Err(SnapshotFault::Truncated)
    } else {
        let l = dec_u64(s.take(8));
        let rest = s.skip(8);
        if rest.len() < l + 8 {
            Err(SnapshotFault::Truncated)
        } else {
            let r = Rec {
                token: rest.take(l),
                occurrences: dec_u32(rest.subrange(l, l + 4)) as u32,
                books: dec_u32(rest.subrange(l + 4, l + 8)) as u32,
            };
            match dec_recs(rest.skip(l + 8), cnt - 1) {
                Ok(tail) => Ok(seq![r] + tail),
                Err(e) => Err(e),
            }
        }
    }
}

/// What a snapshot's bytes decode to, if anything.
pub open spec fn decode_model(s: Seq<u8>) -> Result<Seq<Rec>, SnapshotFault> {
    if s.len() < 8 {
        Err(SnapshotFault::Truncated)
    } else {
        dec_recs(s.skip(8), dec_u64(s.take(8)))
    }
}

/// Little-endian byte splitting inverts to the original `u64`.
pub proof fn lemma_le64_roundtrip(x: u64)
    ensures
        dec_u64(le_bytes64(x)) == x,
        le_bytes64(x).len() == 8,
{
    reveal(le_bytes64);
    reveal(dec_u64);
    lemma_fundamental_div_mod(x as int, 256);
    lemma_fundamental_div_mod(x as int / 256, 256);
    lemma_fundamental_div_mod(x as int / 65536, 256);
    lemma_fundamental_div_mod(x as int / 16777216, 256);
    lemma_fundamental_div_mod(x as int / 4294967296, 256);
    lemma_fundamental_div_mod(x as int / 1099511627776, 256);
    lemma_fundamental_div_mod(x as int / 281474976710656, 256);
    assert((x as int / 256) / 256 == x as int / 65536) by (nonlinear_arith);
    assert((x as int / 65536) / 256 == x as int / 16777216) by (nonlinear_arith);
    assert((x as int / 16777216) / 256 == x as int / 4294967296) by (nonlinear_arith);
    assert((x as int / 4294967296) / 256 == x as int / 1099511627776) by (nonlinear_arith);
    assert((x as int / 1099511627776) / 256 == x as int / 281474976710656) by (nonlinear_arith);
    assert((x as int / 281474976710656) / 256 == x as int / 72057594037927936)
        by (nonlinear_arith);
    assert(x as int / 72057594037927936 < 256);
    assert(x as int / 72057594037927936 >= 0);
}

/// Little-endian byte splitting inverts to the original `u32`.
pub proof fn lemma_le32_roundtrip(x: u32)
    ensures
        dec_u32(le_bytes32(x)) == x,
        le_bytes32(x).len() == 4,
{
    reveal(le_bytes32);
    reveal(dec_u32);
    lemma_fundamental_div_mod(x as int, 256);
    lemma_fundamental_div_mod(x as int / 256, 256);
    lemma_fundamental_div_mod(x as int / 65536, 256);
    assert((x as int / 256) / 256 == x as int / 65536) by (nonlinear_arith);
    assert((x as int / 65536) / 256 == x as int / 16777216) by (nonlinear_arith);
    assert(x as int / 16777216 < 256);
    assert(x as int / 16777216 >= 0);
}

/// Appending one record to a table appends its encoding.
pub proof fn lemma_enc_recs_snoc(s: Seq<Rec>, r: Rec)
    ensures
        enc_recs(s.push(r)) == enc_recs(s) + enc_rec(r),
    decreases s.len(),
{
    if s.len() == 0 {
        assert(s =~= Seq::<Rec>::empty());
        assert(s.push(r)[0] == r);
        assert(s.push(r).drop_first() =~= Seq::<Rec>::empty());
        assert(enc_recs(Seq::<Rec>::empty()) == Seq::<u8>::empty());
        assert(enc_recs(s.push(r)) == enc_rec(r) + Seq::<u8>::empty());
        assert(enc_rec(r) + Seq::<u8>::empty() =~= enc_rec(r));
        assert(Seq::<u8>::empty() + enc_rec(r) =~= enc_rec(r));
    } else {
        assert(s.push(r).drop_first() =~= s.drop_first().push(r));
        assert(s.push(r)[0] == s[0]);
        lemma_enc_recs_snoc(s.drop_first(), r);
        assert(enc_rec(s[0]) + (enc_recs(s.drop_first()) + enc_rec(r)) =~= (enc_rec(s[0])
            + enc_recs(s.drop_first())) + enc_rec(r));
    }
}

fn push_le8(out: &mut Vec<u8>, x: u64)
    ensures
        final(out)@ == old(out)@ + le_bytes64(x),
{
    let ghost before = out@;
    out.push((x % 256) as u8);
    out.push(((x / 256) % 256) as u8);
    out.push(((x / 65536) % 256) as u8);
    out.push(((x / 16777216) % 256) as u8);
    out.push(((x / 4294967296) % 256) as u8);
    out.push(((x / 1099511627776) % 256) as u8);
    out.push(((x / 281474976710656) % 256) as u8);
    out.push(((x / 72057594037927936) % 256) as u8);
    proof {
        reveal(le_bytes64);
        assert(out@ =~= before + le_bytes64(x));
    }
}

fn push_le4(out: &mut Vec<u8>, x: u32)
    ensures
        final(out)@ == old(out)@ + le_bytes32(x),
{
    let ghost before = out@;
    out.push((x % 256) as u8);
    out.push(((x / 256) % 256) as u8);
    out.push(((x / 65536) % 256) as u8);
    out.push(((x / 16777216) % 256) as u8);
    proof {
        reveal(le_bytes32);
        assert(out@ =~= before + le_bytes32(x));
    }
}

fn read_u64(s: &Vec<u8>, pos: usize) -> (r: u64)
    requires
        pos + 8 <= s@.len(),
    ensures
        r as int == dec_u64(s@.subrange(pos as int, pos as int + 8)),
{
    let n = s.len();
    let b0 = s[pos] as u64;
    let b1 = s[pos + 1] as u64;
    let b2 = s[pos + 2] as u64;
    let b3 = s[pos + 3] as u64;
    let b4 = s[pos + 4] as u64;
    let b5 = s[pos + 5] as u64;
    let b6 = s[pos + 6] as u64;
    let b7 = s[pos + 7] as u64;
    let t6: u64 = b6 + 256 * b7;
    let t5: u64 = b5 + 256 * t6;
    let t4: u64 = b4 + 256 * t5;
    let t3: u64 = b3 + 256 * t4;
    let t2: u64 = b2 + 256 * t3;
    let t1: u64 = b1 + 256 * t2;
    let r: u64 = b0 + 256 * t1;
    proof {
        reveal(dec_u64);
        let w = s@.subrange(pos as int, pos as int + 8);
        assert(w[0] == s@[pos as int]);
        assert(w[1] == s@[pos as int + 1]);
        assert(w[2] == s@[pos as int + 2]);
        assert(w[3] == s@[pos as int + 3]);
        assert(w[4] == s@[pos as int + 4]);
        assert(w[5] == s@[pos as int + 5]);
        assert(w[6] == s@[pos as int + 6]);
        assert(w[7] == s@[pos as int + 7]);
    }
    r
}

fn read_u32(s: &Vec<u8>, pos: usize) -> (r: u32)
    requires
        pos + 4 <= s@.len(),
    ensures
        r as int == dec_u32(s@.subrange(pos as int, pos as int + 4)),
{
    let n = s.len();
    let b0 = s[pos] as u32;
    let b1 = s[pos + 1] as u32;
    let b2 = s[pos + 2] as u32;
    let b3 = s[pos + 3] as u32;
    let t2: u32 = b2 + 256 * b3;
    let t1: u32 = b1 + 256 * t2;
    let r: u32 = b0 + 256 * t1;
    proof {
        reveal(dec_u32);
        let w = s@.subrange(pos as int, pos as int + 4);
        assert(w[0] == s@[pos as int]);
        assert(w[1] == s@[pos as int + 1]);
        assert(w[2] == s@[pos as int + 2]);
        assert(w[3] == s@[pos as int + 3]);
    }
    r
}

/// Serialize a table to the snapshot byte format.
pub fn encode(table: &Vec<Freq>) -> (r: Vec<u8>)
    ensures
        r@ == encode_model(recs(table@)),
{
    let mut out: Vec<u8> = Vec::new();
    push_le8(&mut out, table.len() as u64);
    proof {
        assert(recs(table@).take(0) =~= Seq::<Rec>::empty());
        assert(out@ =~= le_bytes64(table@.len() as u64) + enc_recs(recs(table@).take(0)));
    }
    for i in 0..table.len()
        invariant
            out@ == le_bytes64(table@.len() as u64) + enc_recs(recs(table@).take(i as int)),
    {
        let ghost tv = recs(table@);
        let ghost mid0 = out@;
        push_le8(&mut out, table[i].token.len() as u64);
        out.extend_from_slice(table[i].token.as_slice());
        proof {
            assert(out@ =~= mid0 + le_bytes64(table@[i as int].token@.len() as u64)
                + table@[i as int].token@);
        }
        push_le4(&mut out, table[i].occurrences);
        push_le4(&mut out, table[i].books);
        proof {
            assert(tv[i as int] == table@[i as int]@);
            assert(out@ =~= mid0 + enc_rec(tv[i as int]));
            assert(tv.take(i + 1) =~= tv.take(i as int).push(tv[i as int]));
            lemma_enc_recs_snoc(tv.take(i as int), tv[i as int]);
            assert(out@ =~= le_bytes64(table@.len() as u64) + enc_recs(tv.take(i + 1)));
        }
    }
    proof {
        assert(recs(table@).take(table@.len() as int) =~= recs(table@));
    }
    out
}

/// Deserialize a snapshot, failing on bytes that do not carry exactly one
/// wellformed table.
pub fn decode(bytes: &Vec<u8>) -> (r: Result<Vec<Freq>, SnapshotFault>)
    ensures
        match r {
            Ok(v) => decode_model(bytes@) == Ok::<Seq<Rec>, SnapshotFault>(recs(v@)),
            Err(e) => decode_model(bytes@) == Err::<Seq<Rec>, SnapshotFault>(e),
        },
{
    if bytes.len() < 8 {
        return Err(SnapshotFault::Truncated);
    }
    let cnt = read_u64(bytes, 0);
    proof {
        assert(bytes@.take(8) =~= bytes@.subrange(0, 8));
    }
    let mut out: Vec<Freq> = Vec::new();
    let mut pos: usize = 8;
    let mut k: u64 = 0;
    proof {
        assert(recs(out@) =~= Seq::<Rec>::empty());
        match dec_recs(bytes@.skip(8), cnt as int) {
            Ok(tail) => {
                assert(recs(out@) + tail =~= tail);
            },
            Err(_) => {},
        }
    }
    while k < cnt
        invariant
            k <= cnt,
            8 <= pos <= bytes@.len(),
            bytes@.len() <= usize::MAX,
            cnt as int == dec_u64(bytes@.take(8)),
            match dec_recs(bytes@.skip(pos as int), cnt - k) {
                Ok(tail) => dec_recs(bytes@.skip(8), cnt as int) == Ok::<Seq<Rec>, SnapshotFault>(
                    recs(out@) + tail,
                ),
                Err(e) => dec_recs(bytes@.skip(8), cnt as int) == Err::<Seq<Rec>, SnapshotFault>(
                    e,
                ),
            },
        decreases cnt - k,
    {
        let ghost here = bytes@.skip(pos as int);
        if bytes.len() - pos < 8 {
            proof {
                assert(here.len() < 8);
                assert(dec_recs(here, cnt - k) == Err::<Seq<Rec>, SnapshotFault>(
                    SnapshotFault::Truncated,
                ));
            }
            return Err(SnapshotFault::Truncated);
        }
        let l = read_u64(bytes, pos);
        proof {
            assert(here.take(8) =~= bytes@.subrange(pos as int, pos as int + 8));
            assert(here.len() >= 8);
        }
        let rem: usize = bytes.len() - pos - 8;
        if l > rem as u64 || rem as u64 - l < 8 {
            proof {
                assert(here.skip(8).len() < l + 8);
                assert(dec_recs(here, cnt - k) == Err::<Seq<Rec>, SnapshotFault>(
                    SnapshotFault::Truncated,
                ));
            }
            return Err(SnapshotFault::Truncated);
        }
        proof {
            assert(here.skip(8).len() == rem);
            assert(here.skip(8).len() >= l + 8);
        }
        let tok_len: usize = l as usize;
        let tok_start: usize = pos + 8;
        let mut token: Vec<u8> = Vec::new();
        for j in 0..tok_len
            invariant
                tok_start + tok_len + 8 <= bytes@.len(),
                bytes@.len() <= usize::MAX,
                token@ == bytes@.subrange(tok_start as int, tok_start as int + j),
        {
            token.push(bytes[tok_start + j]);
            proof {
                assert(token@ =~= bytes@.subrange(tok_start as int, tok_start as int + j + 1));
            }
        }
        let occurrences = read_u32(bytes, tok_start + tok_len);
        let books = read_u32(bytes, tok_start + tok_len + 4);
        let ghost out0 = recs(out@);
        let ghost fv = Rec { token: token@, occurrences: occurrences, books: books };
        out.push(Freq { token: token, occurrences: occurrences, books: books });
        proof {
            let rest = here.skip(8);
            assert(rest =~= bytes@.skip(pos as int + 8));
            assert(rest.len() >= l + 8);
            assert(rest.take(l as int) =~= bytes@.subrange(tok_start as int, tok_start as int
                + tok_len));
            assert(rest.subrange(l as int, l as int + 4) =~= bytes@.subrange(
                tok_start as int + tok_len,
                tok_start as int + tok_len + 4,
            ));
            assert(rest.subrange(l as int + 4, l as int + 8) =~= bytes@.subrange(
                tok_start as int + tok_len + 4,
                tok_start as int + tok_len + 8,
            ));
            assert(rest.skip(l as int + 8) =~= bytes@.skip(pos as int + 8 + tok_len + 8));
            let dr = dec_recs(here, cnt - k);
            match dec_recs(rest.skip(l as int + 8), cnt - k - 1) {
                Ok(tail) => {
                    assert(dr == Ok::<Seq<Rec>, SnapshotFault>(seq![fv] + tail));
                    assert(recs(out@) =~= out0.push(fv));
                    assert(out0 + (seq![fv] + tail) =~= recs(out@) + tail);
                },
                Err(_) => {},
            }
        }
        pos = pos + 8 + tok_len + 8;
        k = k + 1;
    }
    proof {
        assert(dec_recs(bytes@.skip(pos as int), 0) == (if bytes@.skip(pos as int).len() == 0 {
            Ok::<Seq<Rec>, SnapshotFault>(Seq::empty())
        } else {
            Err::<Seq<Rec>, SnapshotFault>(SnapshotFault::TrailingData)
        }));
    }
    if pos != bytes.len() {
        return Err(SnapshotFault::TrailingData);
    }
    proof {
        assert(bytes@.skip(pos as int).len() == 0);
        match dec_recs(bytes@.skip(pos as int), 0) {
            Ok(tail) => {
                assert(recs(out@) + tail =~= recs(out@));
            },
            Err(_) => {
                assert(false);
            },
        }
    }
    Ok(out)
}

/// Round-trip: decoding an encoded table yields the table unchanged.
pub proof fn lemma_snapshot_roundtrip(t: Seq<Rec>)
    requires
        t.len() <= u64::MAX,
        forall|i: int| 0 <= i < t.len() ==> (#[trigger] t[i]).token.len() <= u64::MAX,
    ensures
        decode_model(encode_model(t)) == Ok::<Seq<Rec>, SnapshotFault>(t),
{
    lemma_le64_roundtrip(t.len() as u64);
    assert(encode_model(t).take(8) =~= le_bytes64(t.len() as u64));
    assert(encode_model(t).skip(8) =~= enc_recs(t));
    lemma_dec_enc_recs(t);
}

proof fn lemma_dec_enc_recs(t: Seq<Rec>)
    requires
        forall|i: int| 0 <= i < t.len() ==> (#[trigger] t[i]).token.len() <= u64::MAX,
    ensures
        dec_recs(enc_recs(t), t.len() as int) == Ok::<Seq<Rec>, SnapshotFault>(t),
    decreases t.len(),
{
    if t.len() == 0 {
        assert(t =~= Seq::<Rec>::empty());
        assert(enc_recs(t).len() == 0);
    } else {
        let r = t[0];
        let e = enc_recs(t);
        let l = r.token.len() as int;
        lemma_le64_roundtrip(r.token.len() as u64);
        lemma_le32_roundtrip(r.occurrences);
        lemma_le32_roundtrip(r.books);
        assert(e == enc_rec(r) + enc_recs(t.drop_first()));
        assert(enc_rec(r).len() == 8 + l + 8);
        assert(e.take(8) =~= le_bytes64(r.token.len() as u64));
        assert(dec_u64(e.take(8)) == dec_u64(le_bytes64(r.token.len() as u64)));
        assert(dec_u64(e.take(8)) == l);
        assert(e.len() >= 8);
        assert(t.len() as int > 0);
        let rest = e.skip(8);
        assert(rest.len() == l + 8 + enc_recs(t.drop_first()).len());
        assert(rest.take(l) =~= r.token);
        assert(rest.subrange(l, l + 4) =~= le_bytes32(r.occurrences));
        assert(rest.subrange(l + 4, l + 8) =~= le_bytes32(r.books));
        assert(rest.skip(l + 8) =~= enc_recs(t.drop_first()));
        assert(forall|i: int|
            0 <= i < t.drop_first().len() ==> (#[trigger] t.drop_first()[i]).token.len()
                <= u64::MAX && t.drop_first()[i] == t[i + 1]);
        lemma_dec_enc_recs(t.drop_first());
        assert(dec_recs(rest.skip(l + 8), t.len() as int - 1) == Ok::<Seq<Rec>, SnapshotFault>(
            t.drop_first(),
        ));
        let dec0 = Rec {
            token: rest.take(l),
            occurrences: dec_u32(rest.subrange(l, l + 4)) as u32,
            books: dec_u32(rest.subrange(l + 4, l + 8)) as u32,
        };
        assert(dec_u32(rest.subrange(l, l + 4)) == dec_u32(le_bytes32(r.occurrences)));
        assert(dec_u32(rest.subrange(l + 4, l + 8)) == dec_u32(le_bytes32(r.books)));
        assert(dec0 =~= r);
        assert(rest.len() >= l + 8);
        assert(dec_recs(e, t.len() as int) == Ok::<Seq<Rec>, SnapshotFault>(
            seq![dec0] + t.drop_first(),
        ));
        assert(seq![r] + t.drop_first() =~= t);
    }
}

} // verus!
