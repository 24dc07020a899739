//! Persistence: the index as one self-contained byte artifact.
//!
//! Every number is eight little-endian bytes; every byte string is its
//! length followed by its bytes; every table is its entry count followed by
//! its entries in order. Loading validates the invariant and refuses corrupt
//! input; whatever loads successfully saves back to exactly the bytes it came
//! from.

use vstd::prelude::*;

verus! {

use crate::bm25::BM25;
use crate::bm25::Posting;
use crate::bm25::TermRow;
use crate::bm25::DocLen;
use crate::bm25::ScoreEntry;
use crate::bm25::ScoreRow;
use crate::bm25::bytes_eq;
use crate::bm25::find_doc_len;
use crate::bm25::index_view;
use crate::bm25::lens_view;
use crate::bm25::frozen_view;
use crate::bm25::postings_view;
use crate::bm25::entries_view;
use crate::bm25::keys_distinct;
use crate::bm25::row_keys_distinct;
use crate::bm25::prow_ok;
use crate::bm25::srow_ok;
use crate::bm25::has_key;

/// A value in `n` little-endian base-256 digits.
pub open spec fn le_bytes(v: int, n: nat) -> Seq<u8>
    decreases n,
{
    if n == 0 {
        Seq::empty()
    } else {
        seq![(v % 256) as u8] + le_bytes(v / 256, (n - 1) as nat)
    }
}

/// The value of a little-endian digit string.
pub open spec fn dec_le(s: Seq<u8>) -> int
    decreases s.len(),
{
    if s.len() == 0 {
        0
    } else {
        s[0] + 256 * dec_le(s.skip(1))
    }
}

pub open spec fn p256(n: nat) -> int
    decreases n,
{
    if n == 0 {
        1
    } else {
        256 * p256((n - 1) as nat)
    }
}

pub proof fn lemma_dec_le_bound(s: Seq<u8>)
    ensures
        0 <= dec_le(s) < p256(s.len() as nat),
    decreases s.len(),
{
    if s.len() == 0 {
    } else {
        lemma_dec_le_bound(s.skip(1));
        assert(s[0] < 256);
        assert(dec_le(s) == s[0] + 256 * dec_le(s.skip(1)));
        assert(256 * dec_le(s.skip(1)) <= 256 * (p256(s.skip(1).len() as nat) - 1))
            by (nonlinear_arith)
            requires
                dec_le(s.skip(1)) <= p256(s.skip(1).len() as nat) - 1,
        ;
        assert(256 * dec_le(s.skip(1)) >= 0) by (nonlinear_arith)
            requires
                dec_le(s.skip(1)) >= 0,
        ;
    }
}

pub proof fn lemma_p256_8()
    ensures
        p256(8) == 0x1_0000_0000_0000_0000,
{
    assert(p256(0) == 1);
    assert(p256(1) == 0x100);
    assert(p256(2) == 0x1_0000);
    assert(p256(3) == 0x100_0000);
    assert(p256(4) == 0x1_0000_0000);
    assert(p256(5) == 0x100_0000_0000);
    assert(p256(6) == 0x1_0000_0000_0000);
    assert(p256(7) == 0x100_0000_0000_0000);
    assert(p256(8) == 0x1_0000_0000_0000_0000);
}

/// Re-encoding a decoded digit string gives the digits back.
pub proof fn lemma_le_of_dec(s: Seq<u8>)
    ensures
        le_bytes(dec_le(s), s.len() as nat) == s,
    decreases s.len(),
{
    if s.len() == 0 {
        assert(le_bytes(dec_le(s), 0) =~= s);
    } else {
        lemma_dec_le_bound(s.skip(1));
        let rest = dec_le(s.skip(1));
        assert(dec_le(s) == s[0] + 256 * rest);
        assert((s[0] + 256 * rest) % 256 == s[0]) by (nonlinear_arith)
            requires
                0 <= s[0] < 256,
                rest >= 0,
        ;
        assert((s[0] + 256 * rest) / 256 == rest) by (nonlinear_arith)
            requires
                0 <= s[0] < 256,
                rest >= 0,
        ;
        lemma_le_of_dec(s.skip(1));
        assert(le_bytes(dec_le(s), s.len() as nat) == seq![s[0]] + s.skip(1));
        assert(seq![s[0]] + s.skip(1) =~= s);
    }
}

/// Appends eight little-endian bytes of `v`.
fn write_u64(out: &mut Vec<u8>, v: u64)
    ensures
        final(out)@ == old(out)@ + le_bytes(v as int, 8),
{
    let mut x: u64 = v;
    let mut k: usize = 0;
    while k < 8
        invariant
            k <= 8,
            old(out)@ + le_bytes(v as int, 8) == out@ + le_bytes(x as int, (8 - k) as nat),
        decreases 8 - k,
    {
        let b: u8 = (x % 256) as u8;
        let ghost pre = out@;
        out.push(b);
        proof {
            assert(le_bytes(x as int, (8 - k) as nat) == seq![b] + le_bytes(
                x as int / 256,
                (8 - k - 1) as nat,
            ));
            assert(out@ + le_bytes(x as int / 256, (8 - k - 1) as nat) =~= pre + le_bytes(
                x as int,
                (8 - k) as nat,
            ));
        }
        x = x / 256;
        k = k + 1;
    }
    proof {
        assert(le_bytes(x as int, 0) =~= Seq::<u8>::empty());
        assert(out@ + Seq::<u8>::empty() =~= out@);
    }
}

/// Reads eight little-endian bytes at `pos`.
fn read_u64(s: &Vec<u8>, pos: usize) -> (r: Option<(u64, usize)>)
    ensures
        match r {
            Some(vp) => vp.1 == pos + 8 && vp.1 <= s@.len() && s@.subrange(
                pos as int,
                pos + 8,
            ) == le_bytes(vp.0 as int, 8),
            None => pos + 8 > s@.len(),
        },
{
    if s.len() < 8 || pos > s.len() - 8 {
        return None;
    }
    let ghost sub = s@.subrange(pos as int, pos + 8);
    let mut x: u64 = 0;
    let mut k: usize = 8;
    proof {
        assert(sub.skip(8) =~= Seq::<u8>::empty());
        lemma_dec_le_bound(sub.skip(8));
    }
    while k > 0
        invariant
            k <= 8,
            pos + 8 <= s@.len(),
            s@.len() <= usize::MAX,
            sub == s@.subrange(pos as int, pos + 8),
            x as int == dec_le(sub.skip(k as int)),
        decreases k,
    {
        proof {
            lemma_dec_le_bound(sub.skip(k - 1));
            lemma_p256_8();
            lemma_p256_mono(sub.skip(k - 1).len() as nat, 8);
            assert(p256(sub.skip(k - 1).len() as nat) <= p256(8));
            assert(dec_le(sub.skip(k - 1)) == sub.skip(k - 1)[0] + 256 * dec_le(
                sub.skip(k - 1).skip(1),
            ));
            assert(sub.skip(k - 1).skip(1) =~= sub.skip(k as int));
            assert(sub.skip(k - 1)[0] == sub[k - 1]);
        }
        let b: u8 = s[pos + k - 1];
        proof {
            assert(sub[k - 1] == s@[pos + k - 1]);
            lemma_dec_le_bound(sub.skip(k as int));
            assert(sub.skip(k as int).len() == 8 - k);
            assert(p256((9 - k) as nat) == 256 * p256((8 - k) as nat));
            assert(x as int * 256 + b < p256((9 - k) as nat)) by (nonlinear_arith)
                requires
                    (x as int) >= 0,
                    (x as int) < p256((8 - k) as nat),
                    p256((9 - k) as nat) == 256 * p256((8 - k) as nat),
                    b < 256,
            ;
            lemma_p256_mono((9 - k) as nat, 8);
            lemma_p256_8();
        }
        x = x * 256 + (b as u64);
        k = k - 1;
    }
    proof {
        assert(sub.skip(0) =~= sub);
        lemma_le_of_dec(sub);
    }
    Some((x, pos + 8))
}

// ---------------------------------------------------------------------------
// The artifact format.
// ---------------------------------------------------------------------------

pub open spec fn enc_bytes(s: Seq<u8>) -> Seq<u8> {
    le_bytes(s.len() as int, 8) + s
}

pub open spec fn enc_postings(ps: Seq<Posting>) -> Seq<u8>
    decreases ps.len(),
{
    if ps.len() == 0 {
        Seq::empty()
    } else {
        enc_bytes(ps[0].doc@) + le_bytes(ps[0].freq as int, 8) + enc_postings(ps.skip(1))
    }
}

pub open spec fn enc_rows(rs: Seq<TermRow>) -> Seq<u8>
    decreases rs.len(),
{
    if rs.len() == 0 {
        Seq::empty()
    } else {
        enc_bytes(rs[0].term@) + le_bytes(rs[0].postings@.len() as int, 8) + enc_postings(
            rs[0].postings@,
        ) + enc_rows(rs.skip(1))
    }
}

pub open spec fn enc_lens(ls: Seq<DocLen>) -> Seq<u8>
    decreases ls.len(),
{
    if ls.len() == 0 {
        Seq::empty()
    } else {
        enc_bytes(ls[0].doc@) + le_bytes(ls[0].len as int, 8) + enc_lens(ls.skip(1))
    }
}

pub open spec fn enc_entries(es: Seq<ScoreEntry>) -> Seq<u8>
    decreases es.len(),
{
    if es.len() == 0 {
        Seq::empty()
    } else {
        enc_bytes(es[0].doc@) + le_bytes(es[0].score as int, 8) + enc_entries(es.skip(1))
    }
}

pub open spec fn enc_srows(fs: Seq<ScoreRow>) -> Seq<u8>
    decreases fs.len(),
{
    if fs.len() == 0 {
        Seq::empty()
    } else {
        enc_bytes(fs[0].term@) + le_bytes(fs[0].entries@.len() as int, 8) + enc_entries(
            fs[0].entries@,
        ) + enc_srows(fs.skip(1))
    }
}

/// The whole index as one byte artifact.
pub open spec fn spec_encode(x: BM25) -> Seq<u8> {
    le_bytes(x.k1_milli as int, 8) + (le_bytes(x.b_milli as int, 8) + (le_bytes(
        x.avg_len_num as int,
        8,
    ) + (le_bytes(x.avg_len_den as int, 8) + (le_bytes(x.index_map@.len() as int, 8) + (enc_rows(
        x.index_map@,
    ) + (le_bytes(x.doc_len_map@.len() as int, 8) + (enc_lens(x.doc_len_map@) + (le_bytes(
        x.freeze_map@.len() as int,
        8,
    ) + enc_srows(x.freeze_map@)))))))))
}

pub proof fn lemma_enc_postings_push(ps: Seq<Posting>, p: Posting)
    ensures
        enc_postings(ps.push(p)) == enc_postings(ps) + enc_bytes(p.doc@) + le_bytes(
            p.freq as int,
            8,
        ),
    decreases ps.len(),
{
    if ps.len() == 0 {
        assert(ps.push(p)[0] == p);
        assert(ps.push(p).skip(1) =~= Seq::<Posting>::empty());
        assert(enc_postings(Seq::<Posting>::empty()) == Seq::<u8>::empty());
        assert(enc_postings(ps.push(p)) =~= enc_postings(ps) + enc_bytes(p.doc@) + le_bytes(
            p.freq as int,
            8,
        ));
    } else {
        assert(ps.push(p)[0] == ps[0]);
        assert(ps.push(p).skip(1) =~= ps.skip(1).push(p));
        lemma_enc_postings_push(ps.skip(1), p);
        assert(enc_postings(ps.push(p)) =~= enc_postings(ps) + enc_bytes(p.doc@) + le_bytes(
            p.freq as int,
            8,
        ));
    }
}

pub proof fn lemma_enc_rows_push(rs: Seq<TermRow>, r: TermRow)
    ensures
        enc_rows(rs.push(r)) == enc_rows(rs) + enc_bytes(r.term@) + le_bytes(
            r.postings@.len() as int,
            8,
        ) + enc_postings(r.postings@),
    decreases rs.len(),
{
    if rs.len() == 0 {
        assert(rs.push(r)[0] == r);
        assert(rs.push(r).skip(1) =~= Seq::<TermRow>::empty());
        assert(enc_rows(Seq::<TermRow>::empty()) == Seq::<u8>::empty());
        assert(enc_rows(rs.push(r)) =~= enc_rows(rs) + enc_bytes(r.term@) + le_bytes(
            r.postings@.len() as int,
            8,
        ) + enc_postings(r.postings@));
    } else {
        assert(rs.push(r)[0] == rs[0]);
        assert(rs.push(r).skip(1) =~= rs.skip(1).push(r));
        lemma_enc_rows_push(rs.skip(1), r);
        assert(enc_rows(rs.push(r)) =~= enc_rows(rs) + enc_bytes(r.term@) + le_bytes(
            r.postings@.len() as int,
            8,
        ) + enc_postings(r.postings@));
    }
}

pub proof fn lemma_enc_lens_push(ls: Seq<DocLen>, l: DocLen)
    ensures
        enc_lens(ls.push(l)) == enc_lens(ls) + enc_bytes(l.doc@) + le_bytes(l.len as int, 8),
    decreases ls.len(),
{
    if ls.len() == 0 {
        assert(ls.push(l)[0] == l);
        assert(ls.push(l).skip(1) =~= Seq::<DocLen>::empty());
        assert(enc_lens(Seq::<DocLen>::empty()) == Seq::<u8>::empty());
        assert(enc_lens(ls.push(l)) =~= enc_lens(ls) + enc_bytes(l.doc@) + le_bytes(
            l.len as int,
            8,
        ));
    } else {
        assert(ls.push(l)[0] == ls[0]);
        assert(ls.push(l).skip(1) =~= ls.skip(1).push(l));
        lemma_enc_lens_push(ls.skip(1), l);
        assert(enc_lens(ls.push(l)) =~= enc_lens(ls) + enc_bytes(l.doc@) + le_bytes(
            l.len as int,
            8,
        ));
    }
}

pub proof fn lemma_enc_entries_push(es: Seq<ScoreEntry>, e: ScoreEntry)
    ensures
        enc_entries(es.push(e)) == enc_entries(es) + enc_bytes(e.doc@) + le_bytes(
            e.score as int,
            8,
        ),
    decreases es.len(),
{
    if es.len() == 0 {
        assert(es.push(e)[0] == e);
        assert(es.push(e).skip(1) =~= Seq::<ScoreEntry>::empty());
        assert(enc_entries(Seq::<ScoreEntry>::empty()) == Seq::<u8>::empty());
        assert(enc_entries(es.push(e)) =~= enc_entries(es) + enc_bytes(e.doc@) + le_bytes(
            e.score as int,
            8,
        ));
    } else {
        assert(es.push(e)[0] == es[0]);
        assert(es.push(e).skip(1) =~= es.skip(1).push(e));
        lemma_enc_entries_push(es.skip(1), e);
        assert(enc_entries(es.push(e)) =~= enc_entries(es) + enc_bytes(e.doc@) + le_bytes(
            e.score as int,
            8,
        ));
    }
}

pub proof fn lemma_enc_srows_push(fs: Seq<ScoreRow>, r: ScoreRow)
    ensures
        enc_srows(fs.push(r)) == enc_srows(fs) + enc_bytes(r.term@) + le_bytes(
            r.entries@.len() as int,
            8,
        ) + enc_entries(r.entries@),
    decreases fs.len(),
{
    if fs.len() == 0 {
        assert(fs.push(r)[0] == r);
        assert(fs.push(r).skip(1) =~= Seq::<ScoreRow>::empty());
        assert(enc_srows(Seq::<ScoreRow>::empty()) == Seq::<u8>::empty());
        assert(enc_srows(fs.push(r)) =~= enc_srows(fs) + enc_bytes(r.term@) + le_bytes(
            r.entries@.len() as int,
            8,
        ) + enc_entries(r.entries@));
    } else {
        assert(fs.push(r)[0] == fs[0]);
        assert(fs.push(r).skip(1) =~= fs.skip(1).push(r));
        lemma_enc_srows_push(fs.skip(1), r);
        assert(enc_srows(fs.push(r)) =~= enc_srows(fs) + enc_bytes(r.term@) + le_bytes(
            r.entries@.len() as int,
            8,
        ) + enc_entries(r.entries@));
    }
}

/// Appends a length-prefixed byte string.
fn write_bytes(out: &mut Vec<u8>, s: &Vec<u8>)
    ensures
        final(out)@ == old(out)@ + enc_bytes(s@),
{
    write_u64(out, s.len() as u64);
    let ghost mid = out@;
    let mut i: usize = 0;
    proof {
        assert(out@ =~= mid + s@.take(0));
    }
    while i < s.len()
        invariant
            i <= s@.len(),
            mid == old(out)@ + le_bytes(s@.len() as int, 8),
            out@ == mid + s@.take(i as int),
        decreases s@.len() - i,
    {
        let ghost pre = out@;
        out.push(s[i]);
        proof {
            assert(out@ =~= mid + s@.take(i + 1));
        }
        i = i + 1;
    }
    proof {
        assert(s@.take(s@.len() as int) =~= s@);
        assert(mid + s@ =~= old(out)@ + enc_bytes(s@));
    }
}

impl BM25 {
    /// Serialises the whole index to its byte artifact. The encoding is a
    /// function of the index's contents alone, so equal indexes always
    /// produce identical artifacts.
    #[verifier::rlimit(100)]
    pub fn save(&self) -> (r: Vec<u8>)
        ensures
            r@ == spec_encode(*self),
    {
        let mut out: Vec<u8> = Vec::new();
        write_u64(&mut out, self.k1_milli);
        write_u64(&mut out, self.b_milli);
        write_u64(&mut out, self.avg_len_num);
        write_u64(&mut out, self.avg_len_den);
        write_u64(&mut out, self.index_map.len() as u64);
        let ghost h1 = out@;
        let mut i: usize = 0;
        proof {
            assert(self.index_map@.take(0) =~= Seq::<TermRow>::empty());
            assert(out@ =~= h1 + enc_rows(self.index_map@.take(0)));
        }
        while i < self.index_map.len()
            invariant
                i <= self.index_map@.len(),
                out@ == h1 + enc_rows(self.index_map@.take(i as int)),
            decreases self.index_map@.len() - i,
        {
            write_bytes(&mut out, &self.index_map[i].term);
            write_u64(&mut out, self.index_map[i].postings.len() as u64);
            let ghost h2 = out@;
            let mut k: usize = 0;
            proof {
                assert(self.index_map@[i as int].postings@.take(0) =~= Seq::<Posting>::empty());
                assert(out@ =~= h2 + enc_postings(self.index_map@[i as int].postings@.take(0)));
            }
            while k < self.index_map[i].postings.len()
                invariant
                    i < self.index_map@.len(),
                    k <= self.index_map@[i as int].postings@.len(),
                    out@ == h2 + enc_postings(self.index_map@[i as int].postings@.take(k as int)),
                decreases self.index_map@[i as int].postings@.len() - k,
            {
                write_bytes(&mut out, &self.index_map[i].postings[k].doc);
                write_u64(&mut out, self.index_map[i].postings[k].freq as u64);
                proof {
                    let ps = self.index_map@[i as int].postings@;
                    assert(ps.take(k + 1) =~= ps.take(k as int).push(ps[k as int]));
                    lemma_enc_postings_push(ps.take(k as int), ps[k as int]);
                    assert(out@ =~= h2 + enc_postings(ps.take(k + 1)));
                }
                k = k + 1;
            }
            proof {
                let rs = self.index_map@;
                let ps = rs[i as int].postings@;
                assert(ps.take(ps.len() as int) =~= ps);
                assert(rs.take(i + 1) =~= rs.take(i as int).push(rs[i as int]));
                lemma_enc_rows_push(rs.take(i as int), rs[i as int]);
                assert(out@ =~= h1 + enc_rows(rs.take(i + 1)));
            }
            i = i + 1;
        }
        proof {
            assert(self.index_map@.take(self.index_map@.len() as int) =~= self.index_map@);
        }
        write_u64(&mut out, self.doc_len_map.len() as u64);
        let ghost h3 = out@;
        let mut j: usize = 0;
        proof {
            assert(self.doc_len_map@.take(0) =~= Seq::<DocLen>::empty());
            assert(out@ =~= h3 + enc_lens(self.doc_len_map@.take(0)));
        }
        while j < self.doc_len_map.len()
            invariant
                j <= self.doc_len_map@.len(),
                out@ == h3 + enc_lens(self.doc_len_map@.take(j as int)),
            decreases self.doc_len_map@.len() - j,
        {
            write_bytes(&mut out, &self.doc_len_map[j].doc);
            write_u64(&mut out, self.doc_len_map[j].len as u64);
            proof {
                let ls = self.doc_len_map@;
                assert(ls.take(j + 1) =~= ls.take(j as int).push(ls[j as int]));
                lemma_enc_lens_push(ls.take(j as int), ls[j as int]);
                assert(out@ =~= h3 + enc_lens(ls.take(j + 1)));
            }
            j = j + 1;
        }
        proof {
            assert(self.doc_len_map@.take(self.doc_len_map@.len() as int) =~= self.doc_len_map@);
        }
        write_u64(&mut out, self.freeze_map.len() as u64);
        let ghost h4 = out@;
        let mut f: usize = 0;
        proof {
            assert(self.freeze_map@.take(0) =~= Seq::<ScoreRow>::empty());
            assert(out@ =~= h4 + enc_srows(self.freeze_map@.take(0)));
        }
        while f < self.freeze_map.len()
            invariant
                f <= self.freeze_map@.len(),
                out@ == h4 + enc_srows(self.freeze_map@.take(f as int)),
            decreases self.freeze_map@.len() - f,
        {
            write_bytes(&mut out, &self.freeze_map[f].term);
            write_u64(&mut out, self.freeze_map[f].entries.len() as u64);
            let ghost h5 = out@;
            let mut k: usize = 0;
            proof {
                assert(self.freeze_map@[f as int].entries@.take(0) =~= Seq::<ScoreEntry>::empty());
                assert(out@ =~= h5 + enc_entries(self.freeze_map@[f as int].entries@.take(0)));
            }
            while k < self.freeze_map[f].entries.len()
                invariant
                    f < self.freeze_map@.len(),
                    k <= self.freeze_map@[f as int].entries@.len(),
                    out@ == h5 + enc_entries(self.freeze_map@[f as int].entries@.take(k as int)),
                decreases self.freeze_map@[f as int].entries@.len() - k,
            {
                write_bytes(&mut out, &self.freeze_map[f].entries[k].doc);
                write_u64(&mut out, self.freeze_map[f].entries[k].score);
                proof {
                    let es = self.freeze_map@[f as int].entries@;
                    assert(es.take(k + 1) =~= es.take(k as int).push(es[k as int]));
                    lemma_enc_entries_push(es.take(k as int), es[k as int]);
                    assert(out@ =~= h5 + enc_entries(es.take(k + 1)));
                }
                k = k + 1;
            }
            proof {
                let fs = self.freeze_map@;
                let es = fs[f as int].entries@;
                assert(es.take(es.len() as int) =~= es);
                assert(fs.take(f + 1) =~= fs.take(f as int).push(fs[f as int]));
                lemma_enc_srows_push(fs.take(f as int), fs[f as int]);
                assert(out@ =~= h4 + enc_srows(fs.take(f + 1)));
            }
            f = f + 1;
        }
        proof {
            assert(self.freeze_map@.take(self.freeze_map@.len() as int) =~= self.freeze_map@);
            assert(out@ =~= spec_encode(*self));
        }
        out
    }
}

/// Reads a length-prefixed byte string at `pos`.
fn read_bytes(s: &Vec<u8>, pos: usize) -> (r: Option<(Vec<u8>, usize)>)
    ensures
        match r {
            Some(bp) => pos <= bp.1 <= s@.len() && s@.subrange(pos as int, bp.1 as int)
                == enc_bytes(bp.0@) && bp.1 == pos + 8 + bp.0@.len(),
            None => pos + 8 > s@.len() || pos + 8 + dec_le(s@.subrange(pos as int, pos + 8))
                > s@.len(),
        },
{
    match read_u64(s, pos) {
        None => None,
        Some((n, p1)) => {
            let rem: usize = s.len() - p1;
            if n > rem as u64 {
                proof {
                    lemma_p256_8();
                    lemma_dec_of_le(n as int, 8);
                }
                return None;
            }
            let len: usize = n as usize;
            let mut out: Vec<u8> = Vec::new();
            let mut i: usize = 0;
            proof {
                assert(out@ =~= s@.subrange(p1 as int, p1 as int));
            }
            while i < len
                invariant
                    i <= len,
                    p1 + len <= s@.len(),
                    s@.len() <= usize::MAX,
                    out@ == s@.subrange(p1 as int, p1 + i),
                decreases len - i,
            {
                out.push(s[p1 + i]);
                proof {
                    assert(out@ =~= s@.subrange(p1 as int, p1 + i + 1));
                }
                i = i + 1;
            }
            proof {
                assert(out@.len() == n);
                assert(s@.subrange(pos as int, p1 + len) =~= s@.subrange(pos as int, p1 as int)
                    + s@.subrange(p1 as int, p1 + len));
                assert(enc_bytes(out@) =~= le_bytes(n as int, 8) + out@);
            }
            Some((out, p1 + len))
        },
    }
}

// ---------------------------------------------------------------------------
// The encoding is injective: one artifact describes one index.
// ---------------------------------------------------------------------------

pub proof fn lemma_le_len(v: int, n: nat)
    ensures
        le_bytes(v, n).len() == n,
    decreases n,
{
    if n > 0 {
        lemma_le_len(v / 256, (n - 1) as nat);
    }
}

/// Decoding an encoded value gives the value back.
pub proof fn lemma_dec_of_le(v: int, n: nat)
    requires
        0 <= v < p256(n),
    ensures
        dec_le(le_bytes(v, n)) == v,
    decreases n,
{
    if n > 0 {
        assert(v / 256 < p256((n - 1) as nat)) by (nonlinear_arith)
            requires
                0 <= v < p256(n),
                p256(n) == 256 * p256((n - 1) as nat),
        ;
        lemma_dec_of_le(v / 256, (n - 1) as nat);
        let e = le_bytes(v, n);
        assert(e[0] == (v % 256) as u8);
        assert(e.skip(1) =~= le_bytes(v / 256, (n - 1) as nat));
        assert(v % 256 + 256 * (v / 256) == v) by (nonlinear_arith)
            requires
                v >= 0,
        ;
    }
}

/// Two encoded numbers with equal byte streams carry the same value and the
/// same remainder.
pub proof fn lemma_le_prefix(a: int, b: int, r1: Seq<u8>, r2: Seq<u8>)
    requires
        0 <= a < p256(8),
        0 <= b < p256(8),
        le_bytes(a, 8) + r1 == le_bytes(b, 8) + r2,
    ensures
        a == b,
        r1 == r2,
{
    lemma_le_len(a, 8);
    lemma_le_len(b, 8);
    let s = le_bytes(a, 8) + r1;
    assert(s.subrange(0, 8) =~= le_bytes(a, 8));
    assert(s.subrange(0, 8) =~= le_bytes(b, 8));
    lemma_dec_of_le(a, 8);
    lemma_dec_of_le(b, 8);
    assert(r1 =~= s.subrange(8, s.len() as int));
    assert(r2 =~= s.subrange(8, s.len() as int));
}

/// Two length-prefixed byte strings with equal byte streams are the same
/// string with the same remainder.
pub proof fn lemma_enc_bytes_prefix(x: Seq<u8>, y: Seq<u8>, r1: Seq<u8>, r2: Seq<u8>)
    requires
        x.len() < p256(8),
        y.len() < p256(8),
        enc_bytes(x) + r1 == enc_bytes(y) + r2,
    ensures
        x == y,
        r1 == r2,
{
    assert(enc_bytes(x) + r1 =~= le_bytes(x.len() as int, 8) + (x + r1));
    assert(enc_bytes(y) + r2 =~= le_bytes(y.len() as int, 8) + (y + r2));
    lemma_le_prefix(x.len() as int, y.len() as int, x + r1, y + r2);
    assert(x =~= (x + r1).subrange(0, x.len() as int));
    assert(y =~= (x + r1).subrange(0, x.len() as int));
    assert(r1 =~= (x + r1).subrange(x.len() as int, (x + r1).len() as int));
    assert(r2 =~= (x + r1).subrange(x.len() as int, (x + r1).len() as int));
}

pub open spec fn docs_bounded_p(ps: Seq<Posting>) -> bool {
    forall|k: int| 0 <= k < ps.len() ==> (#[trigger] ps[k]).doc@.len() < p256(8)
}

/// Equal posting streams of equal entry counts carry the same frequencies.
pub proof fn lemma_enc_postings_prefix(p1: Seq<Posting>, p2: Seq<Posting>, r1: Seq<u8>, r2: Seq<
    u8,
>)
    requires
        p1.len() == p2.len(),
        docs_bounded_p(p1),
        docs_bounded_p(p2),
        enc_postings(p1) + r1 == enc_postings(p2) + r2,
    ensures
        postings_view(p1) == postings_view(p2),
        r1 == r2,
    decreases p1.len(),
{
    if p1.len() == 0 {
        assert(enc_postings(p1) + r1 =~= r1);
        assert(enc_postings(p2) + r2 =~= r2);
        assert(postings_view(p1) =~= postings_view(p2));
    } else {
        lemma_p256_8();
        let t1 = le_bytes(p1[0].freq as int, 8) + (enc_postings(p1.skip(1)) + r1);
        let t2 = le_bytes(p2[0].freq as int, 8) + (enc_postings(p2.skip(1)) + r2);
        assert(enc_postings(p1) + r1 =~= enc_bytes(p1[0].doc@) + t1);
        assert(enc_postings(p2) + r2 =~= enc_bytes(p2[0].doc@) + t2);
        lemma_enc_bytes_prefix(p1[0].doc@, p2[0].doc@, t1, t2);
        lemma_le_prefix(
            p1[0].freq as int,
            p2[0].freq as int,
            enc_postings(p1.skip(1)) + r1,
            enc_postings(p2.skip(1)) + r2,
        );
        assert(docs_bounded_p(p1.skip(1))) by {
            assert(forall|a: int| 0 <= a < p1.skip(1).len() ==> p1.skip(1)[a] == p1[a + 1]);
        }
        assert(docs_bounded_p(p2.skip(1))) by {
            assert(forall|a: int| 0 <= a < p2.skip(1).len() ==> p2.skip(1)[a] == p2[a + 1]);
        }
        lemma_enc_postings_prefix(p1.skip(1), p2.skip(1), r1, r2);
        assert forall|k: int| 0 <= k < p1.len() implies postings_view(p1)[k] == postings_view(
            p2,
        )[k] by {
            if k > 0 {
                assert(postings_view(p1.skip(1))[k - 1] == postings_view(p2.skip(1))[k - 1]);
                assert(p1.skip(1)[k - 1] == p1[k]);
                assert(p2.skip(1)[k - 1] == p2[k]);
            }
        }
        assert(postings_view(p1) =~= postings_view(p2));
    }
}

pub open spec fn docs_bounded_e(es: Seq<ScoreEntry>) -> bool {
    forall|k: int| 0 <= k < es.len() ==> (#[trigger] es[k]).doc@.len() < p256(8)
}

/// Equal score-entry streams of equal entry counts carry the same scores.
pub proof fn lemma_enc_entries_prefix(e1: Seq<ScoreEntry>, e2: Seq<ScoreEntry>, r1: Seq<u8>, r2: Seq<
    u8,
>)
    requires
        e1.len() == e2.len(),
        docs_bounded_e(e1),
        docs_bounded_e(e2),
        enc_entries(e1) + r1 == enc_entries(e2) + r2,
    ensures
        entries_view(e1) == entries_view(e2),
        r1 == r2,
    decreases e1.len(),
{
    if e1.len() == 0 {
        assert(enc_entries(e1) + r1 =~= r1);
        assert(enc_entries(e2) + r2 =~= r2);
        assert(entries_view(e1) =~= entries_view(e2));
    } else {
        lemma_p256_8();
        let t1 = le_bytes(e1[0].score as int, 8) + (enc_entries(e1.skip(1)) + r1);
        let t2 = le_bytes(e2[0].score as int, 8) + (enc_entries(e2.skip(1)) + r2);
        assert(enc_entries(e1) + r1 =~= enc_bytes(e1[0].doc@) + t1);
        assert(enc_entries(e2) + r2 =~= enc_bytes(e2[0].doc@) + t2);
        lemma_enc_bytes_prefix(e1[0].doc@, e2[0].doc@, t1, t2);
        lemma_le_prefix(
            e1[0].score as int,
            e2[0].score as int,
            enc_entries(e1.skip(1)) + r1,
            enc_entries(e2.skip(1)) + r2,
        );
        assert(docs_bounded_e(e1.skip(1))) by {
            assert(forall|a: int| 0 <= a < e1.skip(1).len() ==> e1.skip(1)[a] == e1[a + 1]);
        }
        assert(docs_bounded_e(e2.skip(1))) by {
            assert(forall|a: int| 0 <= a < e2.skip(1).len() ==> e2.skip(1)[a] == e2[a + 1]);
        }
        lemma_enc_entries_prefix(e1.skip(1), e2.skip(1), r1, r2);
        assert forall|k: int| 0 <= k < e1.len() implies entries_view(e1)[k] == entries_view(
            e2,
        )[k] by {
            if k > 0 {
                assert(entries_view(e1.skip(1))[k - 1] == entries_view(e2.skip(1))[k - 1]);
                assert(e1.skip(1)[k - 1] == e1[k]);
                assert(e2.skip(1)[k - 1] == e2[k]);
            }
        }
        assert(entries_view(e1) =~= entries_view(e2));
    }
}

pub open spec fn rows_bounded(rs: Seq<TermRow>) -> bool {
    forall|k: int|
        0 <= k < rs.len() ==> (#[trigger] rs[k]).term@.len() < p256(8) && rs[k].postings@.len()
            < p256(8) && docs_bounded_p(rs[k].postings@)
}

/// Equal term-row streams of equal row counts carry the same rows.
pub proof fn lemma_enc_rows_prefix(s1: Seq<TermRow>, s2: Seq<TermRow>, r1: Seq<u8>, r2: Seq<u8>)
    requires
        s1.len() == s2.len(),
        rows_bounded(s1),
        rows_bounded(s2),
        enc_rows(s1) + r1 == enc_rows(s2) + r2,
    ensures
        index_view(s1) == index_view(s2),
        r1 == r2,
    decreases s1.len(),
{
    if s1.len() == 0 {
        assert(enc_rows(s1) + r1 =~= r1);
        assert(enc_rows(s2) + r2 =~= r2);
        assert(index_view(s1) =~= index_view(s2));
    } else {
        let t1 = le_bytes(s1[0].postings@.len() as int, 8) + (enc_postings(s1[0].postings@) + (
        enc_rows(s1.skip(1)) + r1));
        let t2 = le_bytes(s2[0].postings@.len() as int, 8) + (enc_postings(s2[0].postings@) + (
        enc_rows(s2.skip(1)) + r2));
        assert(enc_rows(s1) + r1 =~= enc_bytes(s1[0].term@) + t1);
        assert(enc_rows(s2) + r2 =~= enc_bytes(s2[0].term@) + t2);
        lemma_enc_bytes_prefix(s1[0].term@, s2[0].term@, t1, t2);
        lemma_le_prefix(
            s1[0].postings@.len() as int,
            s2[0].postings@.len() as int,
            enc_postings(s1[0].postings@) + (enc_rows(s1.skip(1)) + r1),
            enc_postings(s2[0].postings@) + (enc_rows(s2.skip(1)) + r2),
        );
        lemma_enc_postings_prefix(
            s1[0].postings@,
            s2[0].postings@,
            enc_rows(s1.skip(1)) + r1,
            enc_rows(s2.skip(1)) + r2,
        );
        assert(rows_bounded(s1.skip(1))) by {
            assert(forall|a: int| 0 <= a < s1.skip(1).len() ==> s1.skip(1)[a] == s1[a + 1]);
        }
        assert(rows_bounded(s2.skip(1))) by {
            assert(forall|a: int| 0 <= a < s2.skip(1).len() ==> s2.skip(1)[a] == s2[a + 1]);
        }
        lemma_enc_rows_prefix(s1.skip(1), s2.skip(1), r1, r2);
        assert forall|k: int| 0 <= k < s1.len() implies index_view(s1)[k] == index_view(
            s2,
        )[k] by {
            if k > 0 {
                assert(index_view(s1.skip(1))[k - 1] == index_view(s2.skip(1))[k - 1]);
                assert(s1.skip(1)[k - 1] == s1[k]);
                assert(s2.skip(1)[k - 1] == s2[k]);
            }
        }
        assert(index_view(s1) =~= index_view(s2));
    }
}

pub open spec fn srows_bounded(fs: Seq<ScoreRow>) -> bool {
    forall|k: int|
        0 <= k < fs.len() ==> (#[trigger] fs[k]).term@.len() < p256(8) && fs[k].entries@.len()
            < p256(8) && docs_bounded_e(fs[k].entries@)
}

/// Equal score-row streams of equal row counts carry the same rows.
pub proof fn lemma_enc_srows_prefix(s1: Seq<ScoreRow>, s2: Seq<ScoreRow>, r1: Seq<u8>, r2: Seq<
    u8,
>)
    requires
        s1.len() == s2.len(),
        srows_bounded(s1),
        srows_bounded(s2),
        enc_srows(s1) + r1 == enc_srows(s2) + r2,
    ensures
        frozen_view(s1) == frozen_view(s2),
        r1 == r2,
    decreases s1.len(),
{
    if s1.len() == 0 {
        assert(enc_srows(s1) + r1 =~= r1);
        assert(enc_srows(s2) + r2 =~= r2);
        assert(frozen_view(s1) =~= frozen_view(s2));
    } else {
        let t1 = le_bytes(s1[0].entries@.len() as int, 8) + (enc_entries(s1[0].entries@) + (
        enc_srows(s1.skip(1)) + r1));
        let t2 = le_bytes(s2[0].entries@.len() as int, 8) + (enc_entries(s2[0].entries@) + (
        enc_srows(s2.skip(1)) + r2));
        assert(enc_srows(s1) + r1 =~= enc_bytes(s1[0].term@) + t1);
        assert(enc_srows(s2) + r2 =~= enc_bytes(s2[0].term@) + t2);
        lemma_enc_bytes_prefix(s1[0].term@, s2[0].term@, t1, t2);
        lemma_le_prefix(
            s1[0].entries@.len() as int,
            s2[0].entries@.len() as int,
            enc_entries(s1[0].entries@) + (enc_srows(s1.skip(1)) + r1),
            enc_entries(s2[0].entries@) + (enc_srows(s2.skip(1)) + r2),
        );
        lemma_enc_entries_prefix(
            s1[0].entries@,
            s2[0].entries@,
            enc_srows(s1.skip(1)) + r1,
            enc_srows(s2.skip(1)) + r2,
        );
        assert(srows_bounded(s1.skip(1))) by {
            assert(forall|a: int| 0 <= a < s1.skip(1).len() ==> s1.skip(1)[a] == s1[a + 1]);
        }
        assert(srows_bounded(s2.skip(1))) by {
            assert(forall|a: int| 0 <= a < s2.skip(1).len() ==> s2.skip(1)[a] == s2[a + 1]);
        }
        lemma_enc_srows_prefix(s1.skip(1), s2.skip(1), r1, r2);
        assert forall|k: int| 0 <= k < s1.len() implies frozen_view(s1)[k] == frozen_view(
            s2,
        )[k] by {
            if k > 0 {
                assert(frozen_view(s1.skip(1))[k - 1] == frozen_view(s2.skip(1))[k - 1]);
                assert(s1.skip(1)[k - 1] == s1[k]);
                assert(s2.skip(1)[k - 1] == s2[k]);
            }
        }
        assert(frozen_view(s1) =~= frozen_view(s2));
    }
}

/// Every field of an index holds vectors, so every encoded length fits eight
/// bytes.
pub proof fn lemma_encodable(x: BM25)
    ensures
        rows_bounded(x.index_map@),
        srows_bounded(x.freeze_map@),
        x.index_map@.len() < p256(8),
        x.doc_len_map@.len() < p256(8),
        x.freeze_map@.len() < p256(8),
        forall|k: int| 0 <= k < x.doc_len_map@.len() ==> (#[trigger] x.doc_len_map@[k]).doc@.len()
            < p256(8),
{
    broadcast use vstd::std_specs::vec::axiom_spec_len;

    lemma_p256_8();
    assert forall|k: int| 0 <= k < x.index_map@.len() implies (#[trigger] x.index_map@[k]).term@.len()
        < p256(8) && x.index_map@[k].postings@.len() < p256(8) && docs_bounded_p(
        x.index_map@[k].postings@,
    ) by {
        assert(x.index_map@[k].term.len() == x.index_map@[k].term@.len());
        assert(x.index_map@[k].postings.len() == x.index_map@[k].postings@.len());
        assert forall|m: int| 0 <= m < x.index_map@[k].postings@.len() implies (
        #[trigger] x.index_map@[k].postings@[m]).doc@.len() < p256(8) by {
            assert(x.index_map@[k].postings@[m].doc.len() == x.index_map@[k].postings@[m].doc@.len());
        }
    }
    assert forall|k: int| 0 <= k < x.freeze_map@.len() implies (#[trigger] x.freeze_map@[k]).term@.len()
        < p256(8) && x.freeze_map@[k].entries@.len() < p256(8) && docs_bounded_e(
        x.freeze_map@[k].entries@,
    ) by {
        assert(x.freeze_map@[k].term.len() == x.freeze_map@[k].term@.len());
        assert(x.freeze_map@[k].entries.len() == x.freeze_map@[k].entries@.len());
        assert forall|m: int| 0 <= m < x.freeze_map@[k].entries@.len() implies (
        #[trigger] x.freeze_map@[k].entries@[m]).doc@.len() < p256(8) by {
            assert(x.freeze_map@[k].entries@[m].doc.len() == x.freeze_map@[k].entries@[m].doc@.len());
        }
    }
    assert forall|k: int| 0 <= k < x.doc_len_map@.len() implies (
    #[trigger] x.doc_len_map@[k]).doc@.len() < p256(8) by {
        assert(x.doc_len_map@[k].doc.len() == x.doc_len_map@[k].doc@.len());
    }
    assert(x.index_map.len() == x.index_map@.len());
    assert(x.doc_len_map.len() == x.doc_len_map@.len());
    assert(x.freeze_map.len() == x.freeze_map@.len());
}

pub open spec fn lens_bounded(ls: Seq<DocLen>) -> bool {
    forall|k: int| 0 <= k < ls.len() ==> (#[trigger] ls[k]).doc@.len() < p256(8)
}

/// Equal length-table streams of equal entry counts carry the same lengths.
pub proof fn lemma_enc_lens_prefix(l1: Seq<DocLen>, l2: Seq<DocLen>, r1: Seq<u8>, r2: Seq<u8>)
    requires
        l1.len() == l2.len(),
        lens_bounded(l1),
        lens_bounded(l2),
        enc_lens(l1) + r1 == enc_lens(l2) + r2,
    ensures
        lens_view(l1) == lens_view(l2),
        r1 == r2,
    decreases l1.len(),
{
    if l1.len() == 0 {
        assert(enc_lens(l1) + r1 =~= r1);
        assert(enc_lens(l2) + r2 =~= r2);
        assert(lens_view(l1) =~= lens_view(l2));
    } else {
        lemma_p256_8();
        let t1 = le_bytes(l1[0].len as int, 8) + (enc_lens(l1.skip(1)) + r1);
        let t2 = le_bytes(l2[0].len as int, 8) + (enc_lens(l2.skip(1)) + r2);
        assert(enc_lens(l1) + r1 =~= enc_bytes(l1[0].doc@) + t1);
        assert(enc_lens(l2) + r2 =~= enc_bytes(l2[0].doc@) + t2);
        lemma_enc_bytes_prefix(l1[0].doc@, l2[0].doc@, t1, t2);
        lemma_le_prefix(
            l1[0].len as int,
            l2[0].len as int,
            enc_lens(l1.skip(1)) + r1,
            enc_lens(l2.skip(1)) + r2,
        );
        assert(lens_bounded(l1.skip(1))) by {
            assert(forall|a: int| 0 <= a < l1.skip(1).len() ==> l1.skip(1)[a] == l1[a + 1]);
        }
        assert(lens_bounded(l2.skip(1))) by {
            assert(forall|a: int| 0 <= a < l2.skip(1).len() ==> l2.skip(1)[a] == l2[a + 1]);
        }
        lemma_enc_lens_prefix(l1.skip(1), l2.skip(1), r1, r2);
        assert forall|k: int| 0 <= k < l1.len() implies lens_view(l1)[k] == lens_view(l2)[k] by {
            if k > 0 {
                assert(lens_view(l1.skip(1))[k - 1] == lens_view(l2.skip(1))[k - 1]);
                assert(l1.skip(1)[k - 1] == l1[k]);
                assert(l2.skip(1)[k - 1] == l2[k]);
            }
        }
        assert(lens_view(l1) =~= lens_view(l2));
    }
}

/// One artifact describes one index: two indexes with the same encoding hold
/// the same tables, constants and average-length fraction. With `save`'s and
/// `load`'s contracts this pins the round trip: loading what `save` wrote can
/// only return an index with exactly the saved contents.
#[verifier::rlimit(100)]
pub proof fn lemma_encode_injective(x: BM25, y: BM25)
    requires
        spec_encode(x) == spec_encode(y),
    ensures
        x.k1_milli == y.k1_milli,
        x.b_milli == y.b_milli,
        x.avg_len_num == y.avg_len_num,
        x.avg_len_den == y.avg_len_den,
        index_view(x.index_map@) == index_view(y.index_map@),
        lens_view(x.doc_len_map@) == lens_view(y.doc_len_map@),
        frozen_view(x.freeze_map@) == frozen_view(y.freeze_map@),
{
    lemma_encodable(x);
    lemma_encodable(y);
    lemma_p256_8();
    lemma_le_prefix(
        x.k1_milli as int,
        y.k1_milli as int,
        le_bytes(x.b_milli as int, 8) + (le_bytes(x.avg_len_num as int, 8) + (le_bytes(
            x.avg_len_den as int,
            8,
        ) + (le_bytes(x.index_map@.len() as int, 8) + (enc_rows(x.index_map@) + (le_bytes(
            x.doc_len_map@.len() as int,
            8,
        ) + (enc_lens(x.doc_len_map@) + (le_bytes(x.freeze_map@.len() as int, 8) + enc_srows(
            x.freeze_map@,
        )))))))),
        le_bytes(y.b_milli as int, 8) + (le_bytes(y.avg_len_num as int, 8) + (le_bytes(
            y.avg_len_den as int,
            8,
        ) + (le_bytes(y.index_map@.len() as int, 8) + (enc_rows(y.index_map@) + (le_bytes(
            y.doc_len_map@.len() as int,
            8,
        ) + (enc_lens(y.doc_len_map@) + (le_bytes(y.freeze_map@.len() as int, 8) + enc_srows(
            y.freeze_map@,
        )))))))),
    );
    lemma_le_prefix(
        x.b_milli as int,
        y.b_milli as int,
        le_bytes(x.avg_len_num as int, 8) + (le_bytes(x.avg_len_den as int, 8) + (le_bytes(
            x.index_map@.len() as int,
            8,
        ) + (enc_rows(x.index_map@) + (le_bytes(x.doc_len_map@.len() as int, 8) + (enc_lens(
            x.doc_len_map@,
        ) + (le_bytes(x.freeze_map@.len() as int, 8) + enc_srows(x.freeze_map@))))))),
        le_bytes(y.avg_len_num as int, 8) + (le_bytes(y.avg_len_den as int, 8) + (le_bytes(
            y.index_map@.len() as int,
            8,
        ) + (enc_rows(y.index_map@) + (le_bytes(y.doc_len_map@.len() as int, 8) + (enc_lens(
            y.doc_len_map@,
        ) + (le_bytes(y.freeze_map@.len() as int, 8) + enc_srows(y.freeze_map@))))))),
    );
    lemma_le_prefix(
        x.avg_len_num as int,
        y.avg_len_num as int,
        le_bytes(x.avg_len_den as int, 8) + (le_bytes(x.index_map@.len() as int, 8) + (enc_rows(
            x.index_map@,
        ) + (le_bytes(x.doc_len_map@.len() as int, 8) + (enc_lens(x.doc_len_map@) + (le_bytes(
            x.freeze_map@.len() as int,
            8,
        ) + enc_srows(x.freeze_map@)))))),
        le_bytes(y.avg_len_den as int, 8) + (le_bytes(y.index_map@.len() as int, 8) + (enc_rows(
            y.index_map@,
        ) + (le_bytes(y.doc_len_map@.len() as int, 8) + (enc_lens(y.doc_len_map@) + (le_bytes(
            y.freeze_map@.len() as int,
            8,
        ) + enc_srows(y.freeze_map@)))))),
    );
    lemma_le_prefix(
        x.avg_len_den as int,
        y.avg_len_den as int,
        le_bytes(x.index_map@.len() as int, 8) + (enc_rows(x.index_map@) + (le_bytes(
            x.doc_len_map@.len() as int,
            8,
        ) + (enc_lens(x.doc_len_map@) + (le_bytes(x.freeze_map@.len() as int, 8) + enc_srows(
            x.freeze_map@,
        ))))),
        le_bytes(y.index_map@.len() as int, 8) + (enc_rows(y.index_map@) + (le_bytes(
            y.doc_len_map@.len() as int,
            8,
        ) + (enc_lens(y.doc_len_map@) + (le_bytes(y.freeze_map@.len() as int, 8) + enc_srows(
            y.freeze_map@,
        ))))),
    );
    lemma_le_prefix(
        x.index_map@.len() as int,
        y.index_map@.len() as int,
        enc_rows(x.index_map@) + (le_bytes(x.doc_len_map@.len() as int, 8) + (enc_lens(
            x.doc_len_map@,
        ) + (le_bytes(x.freeze_map@.len() as int, 8) + enc_srows(x.freeze_map@)))),
        enc_rows(y.index_map@) + (le_bytes(y.doc_len_map@.len() as int, 8) + (enc_lens(
            y.doc_len_map@,
        ) + (le_bytes(y.freeze_map@.len() as int, 8) + enc_srows(y.freeze_map@)))),
    );
    lemma_enc_rows_prefix(
        x.index_map@,
        y.index_map@,
        le_bytes(x.doc_len_map@.len() as int, 8) + (enc_lens(x.doc_len_map@) + (le_bytes(
            x.freeze_map@.len() as int,
            8,
        ) + enc_srows(x.freeze_map@))),
        le_bytes(y.doc_len_map@.len() as int, 8) + (enc_lens(y.doc_len_map@) + (le_bytes(
            y.freeze_map@.len() as int,
            8,
        ) + enc_srows(y.freeze_map@))),
    );
    lemma_le_prefix(
        x.doc_len_map@.len() as int,
        y.doc_len_map@.len() as int,
        enc_lens(x.doc_len_map@) + (le_bytes(x.freeze_map@.len() as int, 8) + enc_srows(
            x.freeze_map@,
        )),
        enc_lens(y.doc_len_map@) + (le_bytes(y.freeze_map@.len() as int, 8) + enc_srows(
            y.freeze_map@,
        )),
    );
    lemma_enc_lens_prefix(
        x.doc_len_map@,
        y.doc_len_map@,
        le_bytes(x.freeze_map@.len() as int, 8) + enc_srows(x.freeze_map@),
        le_bytes(y.freeze_map@.len() as int, 8) + enc_srows(y.freeze_map@),
    );
    lemma_le_prefix(
        x.freeze_map@.len() as int,
        y.freeze_map@.len() as int,
        enc_srows(x.freeze_map@),
        enc_srows(y.freeze_map@),
    );
    lemma_enc_srows_prefix(x.freeze_map@, y.freeze_map@, Seq::empty(), Seq::empty());
}

/// Peels one encoded number off the front of a stream known to start with
/// one.
proof fn lemma_peel_u64(s: Seq<u8>, pos: int, v: u64, vx: int, rest: Seq<u8>)
    requires
        0 <= pos,
        pos + 8 <= s.len(),
        s.subrange(pos, pos + 8) == le_bytes(v as int, 8),
        s.skip(pos) == le_bytes(vx, 8) + rest,
        0 <= vx < p256(8),
    ensures
        v as int == vx,
        s.skip(pos + 8) == rest,
{
    lemma_p256_8();
    lemma_le_len(v as int, 8);
    lemma_le_len(vx, 8);
    assert(s.skip(pos) =~= s.subrange(pos, pos + 8) + s.skip(pos + 8));
    lemma_le_prefix(v as int, vx, s.skip(pos + 8), rest);
}

/// A stream that starts with an encoded number has eight bytes to read.
proof fn lemma_u64_available(s: Seq<u8>, pos: int, vx: int, rest: Seq<u8>)
    requires
        0 <= pos <= s.len(),
        s.skip(pos) == le_bytes(vx, 8) + rest,
    ensures
        pos + 8 <= s.len(),
{
    lemma_le_len(vx, 8);
    assert(s.skip(pos).len() == s.len() - pos);
}

/// Peels one length-prefixed byte string off the front of a stream known to
/// start with one.
proof fn lemma_peel_bytes(s: Seq<u8>, pos: int, p2: int, b: Seq<u8>, tx: Seq<u8>, rest: Seq<u8>)
    requires
        0 <= pos <= p2 <= s.len(),
        s.subrange(pos, p2) == enc_bytes(b),
        s.skip(pos) == enc_bytes(tx) + rest,
        b.len() < p256(8),
        tx.len() < p256(8),
    ensures
        b == tx,
        s.skip(p2) == rest,
{
    assert(s.skip(pos) =~= s.subrange(pos, p2) + s.skip(p2));
    lemma_enc_bytes_prefix(b, tx, s.skip(p2), rest);
}

/// A stream that starts with a length-prefixed byte string has the whole
/// string to read.
proof fn lemma_bytes_available(s: Seq<u8>, pos: int, tx: Seq<u8>, rest: Seq<u8>)
    requires
        0 <= pos <= s.len(),
        s.skip(pos) == enc_bytes(tx) + rest,
        tx.len() < p256(8),
    ensures
        pos + 8 <= s.len(),
        pos + 8 + dec_le(s.subrange(pos, pos + 8)) <= s.len(),
{
    lemma_le_len(tx.len() as int, 8);
    assert(s.skip(pos).len() == s.len() - pos);
    assert(s.subrange(pos, pos + 8) =~= s.skip(pos).subrange(0, 8));
    assert(s.skip(pos).subrange(0, 8) =~= le_bytes(tx.len() as int, 8));
    lemma_dec_of_le(tx.len() as int, 8);
}

/// Checks the invariant of a parsed term index against a parsed length
/// table: distinct terms; non-empty rows of distinct documents with positive
/// frequencies, every document known to the length table.
/// Makes one bad row a counterexample to the table-wide soundness claim.
proof fn lemma_rows_invalid_witness(rs: Seq<TermRow>, ls: Seq<DocLen>, i: int)
    requires
        0 <= i < rs.len(),
        !prow_ok(index_view(rs)[i].1, lens_view(ls)),
    ensures
        !(forall|ii: int|
            0 <= ii < rs.len() ==> prow_ok(#[trigger] index_view(rs)[ii].1, lens_view(ls))),
{
    if forall|ii: int|
        0 <= ii < rs.len() ==> prow_ok(#[trigger] index_view(rs)[ii].1, lens_view(ls)) {
        assert(prow_ok(index_view(rs)[i].1, lens_view(ls)));
    }
}

fn rows_valid(rows: &Vec<TermRow>, lens: &Vec<DocLen>) -> (r: bool)
    ensures
        r == (row_keys_distinct(index_view(rows@)) && (forall|i: int|
            0 <= i < rows@.len() ==> prow_ok(
                #[trigger] index_view(rows@)[i].1,
                lens_view(lens@),
            ))),
{
    let mut i: usize = 0;
    while i < rows.len()
        invariant
            i <= rows@.len(),
            forall|a: int, b: int|
                0 <= a < b < i ==> (#[trigger] rows@[a]).term@ != (#[trigger] rows@[b]).term@,
            forall|a: int|
                0 <= a < i ==> prow_ok(#[trigger] index_view(rows@)[a].1, lens_view(lens@)),
        decreases rows@.len() - i,
    {
        let mut j: usize = 0;
        while j < i
            invariant
                j <= i < rows@.len(),
                forall|a: int| 0 <= a < j ==> (#[trigger] rows@[a]).term@ != rows@[i as int].term@,
            decreases i - j,
        {
            if bytes_eq(&rows[j].term, &rows[i].term) {
                proof {
                    let iv = index_view(rows@);
                    assert(iv[j as int].0 == rows@[j as int].term@);
                    assert(iv[i as int].0 == rows@[i as int].term@);
                    assert(!row_keys_distinct(iv)) by {
                        if row_keys_distinct(iv) {
                            assert(iv[j as int].0 != iv[i as int].0);
                        }
                    }
                }
                return false;
            }
            j = j + 1;
        }
        if rows[i].postings.len() == 0 {
            proof {
                lemma_rows_invalid_witness(rows@, lens@, i as int);
            }
            return false;
        }
        let mut k: usize = 0;
        while k < rows[i].postings.len()
            invariant
                i < rows@.len(),
                k <= rows@[i as int].postings@.len(),
                forall|a: int|
                    0 <= a < k ==> 1 <= (#[trigger] rows@[i as int].postings@[a]).freq && has_key(
                        lens_view(lens@),
                        rows@[i as int].postings@[a].doc@,
                    ),
                forall|a: int, b: int|
                    0 <= a < b < k ==> (#[trigger] rows@[i as int].postings@[a]).doc@ != (
                    #[trigger] rows@[i as int].postings@[b]).doc@,
            decreases rows@[i as int].postings@.len() - k,
        {
            if rows[i].postings[k].freq == 0 {
                proof {
                    assert(index_view(rows@)[i as int].1[k as int].1 == 0);
                    lemma_rows_invalid_witness(rows@, lens@, i as int);
                }
                return false;
            }
            match find_doc_len(lens, &rows[i].postings[k].doc) {
                None => {
                    proof {
                        let d = rows@[i as int].postings@[k as int].doc@;
                        assert(!has_key(lens_view(lens@), d)) by {
                            if has_key(lens_view(lens@), d) {
                                let a = choose|a: int|
                                    0 <= a < lens_view(lens@).len() && lens_view(lens@)[a].0 == d;
                                assert(lens@[a].doc@ == d);
                            }
                        }
                        assert(index_view(rows@)[i as int].1[k as int].0 == d);
                        lemma_rows_invalid_witness(rows@, lens@, i as int);
                    }
                    return false;
                },
                Some(li) => {
                    proof {
                        assert(lens_view(lens@)[li as int].0 == rows@[i as int].postings@[k as int].doc@);
                        assert(has_key(lens_view(lens@), rows@[i as int].postings@[k as int].doc@));
                    }
                },
            }
            let mut m: usize = 0;
            while m < k
                invariant
                    i < rows@.len(),
                    m <= k < rows@[i as int].postings@.len(),
                    forall|a: int|
                        0 <= a < m ==> (#[trigger] rows@[i as int].postings@[a]).doc@
                            != rows@[i as int].postings@[k as int].doc@,
                decreases k - m,
            {
                if bytes_eq(&rows[i].postings[m].doc, &rows[i].postings[k].doc) {
                    proof {
                        let rw = index_view(rows@)[i as int].1;
                        assert(rw[m as int].0 == rows@[i as int].postings@[m as int].doc@);
                        assert(rw[k as int].0 == rows@[i as int].postings@[k as int].doc@);
                        assert(!keys_distinct(rw)) by {
                            if keys_distinct(rw) {
                                assert(rw[m as int].0 != rw[k as int].0);
                            }
                        }
                        lemma_rows_invalid_witness(rows@, lens@, i as int);
                    }
                    return false;
                }
                m = m + 1;
            }
            k = k + 1;
        }
        proof {
            let rw = index_view(rows@)[i as int].1;
            assert(rw == postings_view(rows@[i as int].postings@));
            assert(rw.len() >= 1);
            assert forall|a: int, b: int| 0 <= a < b < rw.len() implies rw[a].0 != rw[b].0 by {
                assert(rw[a].0 == rows@[i as int].postings@[a].doc@);
                assert(rw[b].0 == rows@[i as int].postings@[b].doc@);
            }
            assert forall|a: int| 0 <= a < rw.len() implies 1 <= (#[trigger] rw[a]).1 <= u32::MAX
                && has_key(lens_view(lens@), rw[a].0) by {
                assert(rw[a] == (
                    rows@[i as int].postings@[a].doc@,
                    rows@[i as int].postings@[a].freq as u64,
                ));
            }
            assert(prow_ok(rw, lens_view(lens@)));
        }
        i = i + 1;
    }
    proof {
        assert forall|a: int, b: int|
            0 <= a < b < index_view(rows@).len() implies index_view(rows@)[a].0 != index_view(
            rows@,
        )[b].0 by {
            assert(index_view(rows@)[a].0 == rows@[a].term@);
            assert(index_view(rows@)[b].0 == rows@[b].term@);
        }
    }
    true
}

/// Checks a parsed length table: distinct documents.
fn lens_valid(lens: &Vec<DocLen>) -> (r: bool)
    ensures
        r == keys_distinct(lens_view(lens@)),
{
    let mut i: usize = 0;
    while i < lens.len()
        invariant
            i <= lens@.len(),
            forall|a: int, b: int|
                0 <= a < b < i ==> (#[trigger] lens@[a]).doc@ != (#[trigger] lens@[b]).doc@,
        decreases lens@.len() - i,
    {
        let mut j: usize = 0;
        while j < i
            invariant
                j <= i < lens@.len(),
                forall|a: int| 0 <= a < j ==> (#[trigger] lens@[a]).doc@ != lens@[i as int].doc@,
            decreases i - j,
        {
            if bytes_eq(&lens[j].doc, &lens[i].doc) {
                proof {
                    let lv = lens_view(lens@);
                    assert(lv[j as int].0 == lens@[j as int].doc@);
                    assert(lv[i as int].0 == lens@[i as int].doc@);
                    assert(!keys_distinct(lv)) by {
                        if keys_distinct(lv) {
                            assert(lv[j as int].0 != lv[i as int].0);
                        }
                    }
                }
                return false;
            }
            j = j + 1;
        }
        i = i + 1;
    }
    proof {
        assert forall|a: int, b: int|
            0 <= a < b < lens_view(lens@).len() implies lens_view(lens@)[a].0 != lens_view(
            lens@,
        )[b].0 by {
            assert(lens_view(lens@)[a].0 == lens@[a].doc@);
            assert(lens_view(lens@)[b].0 == lens@[b].doc@);
        }
    }
    true
}

/// Checks a parsed frozen table: distinct terms; non-empty rows of distinct
/// documents.
/// Makes one bad score row a counterexample to the table-wide claim.
proof fn lemma_srows_invalid_witness(fs: Seq<ScoreRow>, i: int)
    requires
        0 <= i < fs.len(),
        !srow_ok(frozen_view(fs)[i].1),
    ensures
        !(forall|ii: int| 0 <= ii < fs.len() ==> srow_ok(#[trigger] frozen_view(fs)[ii].1)),
{
    if forall|ii: int| 0 <= ii < fs.len() ==> srow_ok(#[trigger] frozen_view(fs)[ii].1) {
        assert(srow_ok(frozen_view(fs)[i].1));
    }
}

fn srows_valid(fs: &Vec<ScoreRow>) -> (r: bool)
    ensures
        r == (row_keys_distinct(frozen_view(fs@)) && (forall|i: int|
            0 <= i < fs@.len() ==> srow_ok(#[trigger] frozen_view(fs@)[i].1))),
{
    let mut i: usize = 0;
    while i < fs.len()
        invariant
            i <= fs@.len(),
            forall|a: int, b: int|
                0 <= a < b < i ==> (#[trigger] fs@[a]).term@ != (#[trigger] fs@[b]).term@,
            forall|a: int| 0 <= a < i ==> srow_ok(#[trigger] frozen_view(fs@)[a].1),
        decreases fs@.len() - i,
    {
        let mut j: usize = 0;
        while j < i
            invariant
                j <= i < fs@.len(),
                forall|a: int| 0 <= a < j ==> (#[trigger] fs@[a]).term@ != fs@[i as int].term@,
            decreases i - j,
        {
            if bytes_eq(&fs[j].term, &fs[i].term) {
                proof {
                    let fv = frozen_view(fs@);
                    assert(fv[j as int].0 == fs@[j as int].term@);
                    assert(fv[i as int].0 == fs@[i as int].term@);
                    assert(!row_keys_distinct(fv)) by {
                        if row_keys_distinct(fv) {
                            assert(fv[j as int].0 != fv[i as int].0);
                        }
                    }
                }
                return false;
            }
            j = j + 1;
        }
        if fs[i].entries.len() == 0 {
            proof {
                lemma_srows_invalid_witness(fs@, i as int);
            }
            return false;
        }
        let mut k: usize = 0;
        while k < fs[i].entries.len()
            invariant
                i < fs@.len(),
                k <= fs@[i as int].entries@.len(),
                forall|a: int, b: int|
                    0 <= a < b < k ==> (#[trigger] fs@[i as int].entries@[a]).doc@ != (
                    #[trigger] fs@[i as int].entries@[b]).doc@,
            decreases fs@[i as int].entries@.len() - k,
        {
            let mut m: usize = 0;
            while m < k
                invariant
                    i < fs@.len(),
                    m <= k < fs@[i as int].entries@.len(),
                    forall|a: int|
                        0 <= a < m ==> (#[trigger] fs@[i as int].entries@[a]).doc@
                            != fs@[i as int].entries@[k as int].doc@,
                decreases k - m,
            {
                if bytes_eq(&fs[i].entries[m].doc, &fs[i].entries[k].doc) {
                    proof {
                        let rw = frozen_view(fs@)[i as int].1;
                        assert(rw[m as int].0 == fs@[i as int].entries@[m as int].doc@);
                        assert(rw[k as int].0 == fs@[i as int].entries@[k as int].doc@);
                        assert(!keys_distinct(rw)) by {
                            if keys_distinct(rw) {
                                assert(rw[m as int].0 != rw[k as int].0);
                            }
                        }
                        lemma_srows_invalid_witness(fs@, i as int);
                    }
                    return false;
                }
                m = m + 1;
            }
            k = k + 1;
        }
        proof {
            let rw = frozen_view(fs@)[i as int].1;
            assert(rw == entries_view(fs@[i as int].entries@));
            assert(rw.len() >= 1);
            assert forall|a: int, b: int| 0 <= a < b < rw.len() implies rw[a].0 != rw[b].0 by {
                assert(rw[a].0 == fs@[i as int].entries@[a].doc@);
                assert(rw[b].0 == fs@[i as int].entries@[b].doc@);
            }
            assert(srow_ok(rw));
        }
        i = i + 1;
    }
    proof {
        assert forall|a: int, b: int|
            0 <= a < b < frozen_view(fs@).len() implies frozen_view(fs@)[a].0 != frozen_view(
            fs@,
        )[b].0 by {
            assert(frozen_view(fs@)[a].0 == fs@[a].term@);
            assert(frozen_view(fs@)[b].0 == fs@[b].term@);
        }
    }
    true
}

/// Loading a missing or truncated or otherwise corrupt artifact fails
/// loudly; it is never mistaken for an empty index.
#[derive(Debug, PartialEq, Eq, Structural)]
pub enum LoadError {
    Corrupt,
}

/// Whether the bytes are the encoding of some well-formed index.
pub open spec fn decodable(bytes: Seq<u8>) -> bool {
    exists|x: BM25| x.wf() && spec_encode(x) == bytes
}

/// The well-formed index a decodable artifact encodes.
pub open spec fn artifact_witness(bytes: Seq<u8>) -> BM25 {
    choose|x: BM25| x.wf() && spec_encode(x) == bytes
}

/// The artifact's bytes past the term index: the length table and the
/// frozen table of the encoded witness.
pub open spec fn wit_tail_lens(bytes: Seq<u8>) -> Seq<u8> {
    let w = artifact_witness(bytes);
    le_bytes(w.doc_len_map@.len() as int, 8) + (enc_lens(w.doc_len_map@) + (le_bytes(
        w.freeze_map@.len() as int,
        8,
    ) + enc_srows(w.freeze_map@)))
}

/// The artifact's bytes past the length table: the frozen table of the
/// encoded witness.
pub open spec fn wit_tail_srows(bytes: Seq<u8>) -> Seq<u8> {
    let w = artifact_witness(bytes);
    le_bytes(w.freeze_map@.len() as int, 8) + enc_srows(w.freeze_map@)
}

/// Parses `rcnt` term rows at `pos0`; on the encoding of a well-formed
/// index this cannot fail.
#[verifier::rlimit(100)]
fn parse_rows(bytes: &Vec<u8>, pos0: usize, rcnt: u64) -> (r: Option<(Vec<TermRow>, usize)>)
    requires
        pos0 <= bytes@.len(),
        decodable(bytes@) ==> rcnt as int == artifact_witness(bytes@).index_map@.len() && bytes@.skip(
            pos0 as int,
        ) == enc_rows(artifact_witness(bytes@).index_map@) + wit_tail_lens(bytes@),
    ensures
        match r {
            Some(rp) => pos0 <= rp.1 <= bytes@.len() && rp.0@.len() == rcnt && bytes@.subrange(
                pos0 as int,
                rp.1 as int,
            ) == enc_rows(rp.0@) && (decodable(bytes@) ==> bytes@.skip(rp.1 as int)
                == wit_tail_lens(bytes@)),
            None => !decodable(bytes@),
        },
{
    let ghost can = decodable(bytes@);
    let ghost gx: BM25 = artifact_witness(bytes@);
    let ghost xiv = gx.index_map@;
    proof {
        if can {
            assert(gx.wf() && spec_encode(gx) == bytes@);
            lemma_encodable(gx);
            assert(xiv.skip(0) =~= xiv);
        }
    }
    let mut rows: Vec<TermRow> = Vec::new();
    let mut got: u64 = 0;
    let mut pos: usize = pos0;
    proof {
        assert(enc_rows(rows@) == Seq::<u8>::empty());
        assert(bytes@.subrange(pos0 as int, pos as int) =~= enc_rows(rows@));
    }
    while got < rcnt
        invariant
            got <= rcnt,
            pos0 <= pos <= bytes@.len(),
            rows@.len() == got,
            bytes@.subrange(pos0 as int, pos as int) == enc_rows(rows@),
            can == decodable(bytes@),
            gx == artifact_witness(bytes@),
            xiv == gx.index_map@,
            can ==> gx.wf() && rcnt as int == xiv.len() && rows_bounded(xiv),
            can ==> bytes@.skip(pos as int) == enc_rows(xiv.skip(got as int)) + wit_tail_lens(
                bytes@,
            ),
        decreases rcnt - got,
    {
        proof {
            if can {
                let sk = xiv.skip(got as int);
                assert(sk[0] == xiv[got as int]);
                assert(sk.skip(1) =~= xiv.skip(got + 1));
                assert(enc_rows(sk) == enc_bytes(sk[0].term@) + le_bytes(
                    sk[0].postings@.len() as int,
                    8,
                ) + enc_postings(sk[0].postings@) + enc_rows(sk.skip(1)));
                assert(bytes@.skip(pos as int) =~= enc_bytes(xiv[got as int].term@) + (le_bytes(
                    xiv[got as int].postings@.len() as int,
                    8,
                ) + (enc_postings(xiv[got as int].postings@) + (enc_rows(xiv.skip(got + 1))
                    + wit_tail_lens(bytes@)))));
            }
        }
        let (term, q1) = match read_bytes(bytes, pos) {
            Some(x) => x,
            None => {
                proof {
                    if can {
                        lemma_bytes_available(
                            bytes@,
                            pos as int,
                            xiv[got as int].term@,
                            le_bytes(xiv[got as int].postings@.len() as int, 8) + (enc_postings(
                                xiv[got as int].postings@,
                            ) + (enc_rows(xiv.skip(got + 1)) + wit_tail_lens(bytes@))),
                        );
                        assert(false);
                    }
                }
                return None;
            },
        };
        proof {
            if can {
                broadcast use vstd::std_specs::vec::axiom_spec_len;

                lemma_p256_8();
                assert(term.len() == term@.len());
                lemma_peel_bytes(
                    bytes@,
                    pos as int,
                    q1 as int,
                    term@,
                    xiv[got as int].term@,
                    le_bytes(xiv[got as int].postings@.len() as int, 8) + (enc_postings(
                        xiv[got as int].postings@,
                    ) + (enc_rows(xiv.skip(got + 1)) + wit_tail_lens(bytes@))),
                );
            }
        }
        let (pcnt, q2) = match read_u64(bytes, q1) {
            Some(x) => x,
            None => {
                proof {
                    if can {
                        lemma_u64_available(
                            bytes@,
                            q1 as int,
                            xiv[got as int].postings@.len() as int,
                            enc_postings(xiv[got as int].postings@) + (enc_rows(xiv.skip(got + 1))
                                + wit_tail_lens(bytes@)),
                        );
                        assert(false);
                    }
                }
                return None;
            },
        };
        proof {
            if can {
                lemma_peel_u64(
                    bytes@,
                    q1 as int,
                    pcnt,
                    xiv[got as int].postings@.len() as int,
                    enc_postings(xiv[got as int].postings@) + (enc_rows(xiv.skip(got + 1))
                        + wit_tail_lens(bytes@)),
                );
            }
        }
        let ghost rhead = bytes@.subrange(pos0 as int, pos as int) + enc_bytes(term@) + le_bytes(
            pcnt as int,
            8,
        );
        proof {
            assert(bytes@.subrange(pos0 as int, q2 as int) =~= bytes@.subrange(
                pos0 as int,
                pos as int,
            ) + bytes@.subrange(pos as int, q1 as int) + bytes@.subrange(q1 as int, q2 as int));
        }
        let mut ps: Vec<Posting> = Vec::new();
        let mut pg: u64 = 0;
        let mut ipos: usize = q2;
        proof {
            assert(enc_postings(ps@) == Seq::<u8>::empty());
            assert(bytes@.subrange(pos0 as int, ipos as int) =~= rhead + enc_postings(ps@));
            if can {
                assert(xiv[got as int].postings@.skip(0) =~= xiv[got as int].postings@);
            }
        }
        while pg < pcnt
            invariant
                pg <= pcnt,
                pos0 <= ipos <= bytes@.len(),
                ps@.len() == pg,
                bytes@.subrange(pos0 as int, ipos as int) == rhead + enc_postings(ps@),
                can == decodable(bytes@),
                gx == artifact_witness(bytes@),
                xiv == gx.index_map@,
                got < rcnt,
                can ==> gx.wf() && rcnt as int == xiv.len() && rows_bounded(xiv),
                can ==> pcnt as int == xiv[got as int].postings@.len(),
                can ==> bytes@.skip(ipos as int) == enc_postings(
                    xiv[got as int].postings@.skip(pg as int),
                ) + (enc_rows(xiv.skip(got + 1)) + wit_tail_lens(bytes@)),
            decreases pcnt - pg,
        {
            proof {
                if can {
                    let psk = xiv[got as int].postings@.skip(pg as int);
                    assert(psk[0] == xiv[got as int].postings@[pg as int]);
                    assert(psk.skip(1) =~= xiv[got as int].postings@.skip(pg + 1));
                    assert(enc_postings(psk) == enc_bytes(psk[0].doc@) + le_bytes(
                        psk[0].freq as int,
                        8,
                    ) + enc_postings(psk.skip(1)));
                    assert(bytes@.skip(ipos as int) =~= enc_bytes(
                        xiv[got as int].postings@[pg as int].doc@,
                    ) + (le_bytes(xiv[got as int].postings@[pg as int].freq as int, 8) + (
                    enc_postings(xiv[got as int].postings@.skip(pg + 1)) + (enc_rows(
                        xiv.skip(got + 1),
                    ) + wit_tail_lens(bytes@)))));
                }
            }
            let (doc, w1) = match read_bytes(bytes, ipos) {
                Some(x) => x,
                None => {
                    proof {
                        if can {
                            lemma_bytes_available(
                                bytes@,
                                ipos as int,
                                xiv[got as int].postings@[pg as int].doc@,
                                le_bytes(xiv[got as int].postings@[pg as int].freq as int, 8) + (
                                enc_postings(xiv[got as int].postings@.skip(pg + 1)) + (enc_rows(
                                    xiv.skip(got + 1),
                                ) + wit_tail_lens(bytes@))),
                            );
                            assert(false);
                        }
                    }
                    return None;
                },
            };
            proof {
                if can {
                    broadcast use vstd::std_specs::vec::axiom_spec_len;

                    lemma_p256_8();
                    assert(doc.len() == doc@.len());
                    lemma_peel_bytes(
                        bytes@,
                        ipos as int,
                        w1 as int,
                        doc@,
                        xiv[got as int].postings@[pg as int].doc@,
                        le_bytes(xiv[got as int].postings@[pg as int].freq as int, 8) + (
                        enc_postings(xiv[got as int].postings@.skip(pg + 1)) + (enc_rows(
                            xiv.skip(got + 1),
                        ) + wit_tail_lens(bytes@))),
                    );
                }
            }
            let (fq, w2) = match read_u64(bytes, w1) {
                Some(x) => x,
                None => {
                    proof {
                        if can {
                            lemma_u64_available(
                                bytes@,
                                w1 as int,
                                xiv[got as int].postings@[pg as int].freq as int,
                                enc_postings(xiv[got as int].postings@.skip(pg + 1)) + (enc_rows(
                                    xiv.skip(got + 1),
                                ) + wit_tail_lens(bytes@)),
                            );
                            assert(false);
                        }
                    }
                    return None;
                },
            };
            proof {
                if can {
                    lemma_peel_u64(
                        bytes@,
                        w1 as int,
                        fq,
                        xiv[got as int].postings@[pg as int].freq as int,
                        enc_postings(xiv[got as int].postings@.skip(pg + 1)) + (enc_rows(
                            xiv.skip(got + 1),
                        ) + wit_tail_lens(bytes@)),
                    );
                }
            }
            if fq == 0 || fq > 0xFFFF_FFFFu64 {
                proof {
                    if can {
                        let rw = index_view(xiv)[got as int].1;
                        assert(prow_ok(rw, lens_view(gx.doc_len_map@)));
                        assert(rw[pg as int] == (
                            xiv[got as int].postings@[pg as int].doc@,
                            xiv[got as int].postings@[pg as int].freq as u64,
                        ));
                        assert(1 <= rw[pg as int].1 <= u32::MAX);
                        assert(false);
                    }
                }
                return None;
            }
            let ghost pre_ps = ps@;
            ps.push(Posting { doc, freq: fq as u32 });
            proof {
                assert(bytes@.subrange(pos0 as int, w2 as int) =~= bytes@.subrange(
                    pos0 as int,
                    ipos as int,
                ) + bytes@.subrange(ipos as int, w1 as int) + bytes@.subrange(
                    w1 as int,
                    w2 as int,
                ));
                lemma_enc_postings_push(pre_ps, ps@[pg as int]);
                assert(bytes@.subrange(pos0 as int, w2 as int) =~= rhead + enc_postings(ps@));
            }
            pg = pg + 1;
            ipos = w2;
        }
        let ghost pre_rows = rows@;
        rows.push(TermRow { term, postings: ps });
        proof {
            let nr = rows@[got as int];
            assert(nr.postings@.len() == pcnt);
            lemma_enc_rows_push(pre_rows, nr);
            assert(bytes@.subrange(pos0 as int, ipos as int) =~= enc_rows(rows@));
            if can {
                assert(xiv[got as int].postings@.skip(pcnt as int) =~= Seq::<Posting>::empty());
                assert(enc_postings(Seq::<Posting>::empty()) == Seq::<u8>::empty());
                assert(bytes@.skip(ipos as int) =~= enc_rows(xiv.skip(got + 1)) + wit_tail_lens(
                    bytes@,
                ));
            }
        }
        pos = ipos;
        got = got + 1;
    }
    proof {
        if can {
            assert(xiv.skip(rcnt as int) =~= Seq::<TermRow>::empty());
            assert(enc_rows(Seq::<TermRow>::empty()) == Seq::<u8>::empty());
            assert(bytes@.skip(pos as int) =~= wit_tail_lens(bytes@));
        }
    }
    Some((rows, pos))
}

/// Parses `lcnt` length entries at `pos0`; on the encoding of a well-formed
/// index this cannot fail.
#[verifier::rlimit(100)]
fn parse_lens(bytes: &Vec<u8>, pos0: usize, lcnt: u64) -> (r: Option<(Vec<DocLen>, usize)>)
    requires
        pos0 <= bytes@.len(),
        decodable(bytes@) ==> lcnt as int == artifact_witness(bytes@).doc_len_map@.len()
            && bytes@.skip(pos0 as int) == enc_lens(artifact_witness(bytes@).doc_len_map@)
            + wit_tail_srows(bytes@),
    ensures
        match r {
            Some(rp) => pos0 <= rp.1 <= bytes@.len() && rp.0@.len() == lcnt && bytes@.subrange(
                pos0 as int,
                rp.1 as int,
            ) == enc_lens(rp.0@) && (decodable(bytes@) ==> bytes@.skip(rp.1 as int)
                == wit_tail_srows(bytes@)),
            None => !decodable(bytes@),
        },
{
    let ghost can = decodable(bytes@);
    let ghost gx: BM25 = artifact_witness(bytes@);
    let ghost xlv = gx.doc_len_map@;
    proof {
        if can {
            assert(gx.wf() && spec_encode(gx) == bytes@);
            lemma_encodable(gx);
            assert(xlv.skip(0) =~= xlv);
        }
    }
    let mut lens: Vec<DocLen> = Vec::new();
    let mut lgot: u64 = 0;
    let mut lpos: usize = pos0;
    proof {
        assert(enc_lens(lens@) == Seq::<u8>::empty());
        assert(bytes@.subrange(pos0 as int, lpos as int) =~= enc_lens(lens@));
    }
    while lgot < lcnt
        invariant
            lgot <= lcnt,
            pos0 <= lpos <= bytes@.len(),
            lens@.len() == lgot,
            bytes@.subrange(pos0 as int, lpos as int) == enc_lens(lens@),
            can == decodable(bytes@),
            gx == artifact_witness(bytes@),
            xlv == gx.doc_len_map@,
            can ==> gx.wf() && lcnt as int == xlv.len() && (forall|k: int|
                0 <= k < xlv.len() ==> (#[trigger] xlv[k]).doc@.len() < p256(8)),
            can ==> bytes@.skip(lpos as int) == enc_lens(xlv.skip(lgot as int)) + wit_tail_srows(
                bytes@,
            ),
        decreases lcnt - lgot,
    {
        proof {
            if can {
                let sk = xlv.skip(lgot as int);
                assert(sk[0] == xlv[lgot as int]);
                assert(sk.skip(1) =~= xlv.skip(lgot + 1));
                assert(enc_lens(sk) == enc_bytes(sk[0].doc@) + le_bytes(sk[0].len as int, 8)
                    + enc_lens(sk.skip(1)));
                assert(bytes@.skip(lpos as int) =~= enc_bytes(xlv[lgot as int].doc@) + (le_bytes(
                    xlv[lgot as int].len as int,
                    8,
                ) + (enc_lens(xlv.skip(lgot + 1)) + wit_tail_srows(bytes@))));
            }
        }
        let (doc, w1) = match read_bytes(bytes, lpos) {
            Some(x) => x,
            None => {
                proof {
                    if can {
                        lemma_bytes_available(
                            bytes@,
                            lpos as int,
                            xlv[lgot as int].doc@,
                            le_bytes(xlv[lgot as int].len as int, 8) + (enc_lens(
                                xlv.skip(lgot + 1),
                            ) + wit_tail_srows(bytes@)),
                        );
                        assert(false);
                    }
                }
                return None;
            },
        };
        proof {
            if can {
                broadcast use vstd::std_specs::vec::axiom_spec_len;

                lemma_p256_8();
                assert(doc.len() == doc@.len());
                lemma_peel_bytes(
                    bytes@,
                    lpos as int,
                    w1 as int,
                    doc@,
                    xlv[lgot as int].doc@,
                    le_bytes(xlv[lgot as int].len as int, 8) + (enc_lens(xlv.skip(lgot + 1))
                        + wit_tail_srows(bytes@)),
                );
            }
        }
        let (dl, w2) = match read_u64(bytes, w1) {
            Some(x) => x,
            None => {
                proof {
                    if can {
                        lemma_u64_available(
                            bytes@,
                            w1 as int,
                            xlv[lgot as int].len as int,
                            enc_lens(xlv.skip(lgot + 1)) + wit_tail_srows(bytes@),
                        );
                        assert(false);
                    }
                }
                return None;
            },
        };
        proof {
            if can {
                lemma_peel_u64(
                    bytes@,
                    w1 as int,
                    dl,
                    xlv[lgot as int].len as int,
                    enc_lens(xlv.skip(lgot + 1)) + wit_tail_srows(bytes@),
                );
            }
        }
        if dl > 0xFFFF_FFFFu64 {
            proof {
                if can {
                    assert(false);
                }
            }
            return None;
        }
        let ghost pre_ls = lens@;
        lens.push(DocLen { doc, len: dl as u32 });
        proof {
            assert(bytes@.subrange(pos0 as int, w2 as int) =~= bytes@.subrange(
                pos0 as int,
                lpos as int,
            ) + bytes@.subrange(lpos as int, w1 as int) + bytes@.subrange(w1 as int, w2 as int));
            lemma_enc_lens_push(pre_ls, lens@[lgot as int]);
            assert(bytes@.subrange(pos0 as int, w2 as int) =~= enc_lens(lens@));
        }
        lgot = lgot + 1;
        lpos = w2;
    }
    proof {
        if can {
            assert(xlv.skip(lcnt as int) =~= Seq::<DocLen>::empty());
            assert(enc_lens(Seq::<DocLen>::empty()) == Seq::<u8>::empty());
            assert(bytes@.skip(lpos as int) =~= wit_tail_srows(bytes@));
        }
    }
    Some((lens, lpos))
}

/// Parses `fcnt` score rows at `pos0`, expecting them to end the artifact;
/// on the encoding of a well-formed index this cannot fail.
#[verifier::rlimit(100)]
fn parse_srows(bytes: &Vec<u8>, pos0: usize, fcnt: u64) -> (r: Option<(Vec<ScoreRow>, usize)>)
    requires
        pos0 <= bytes@.len(),
        decodable(bytes@) ==> fcnt as int == artifact_witness(bytes@).freeze_map@.len()
            && bytes@.skip(pos0 as int) == enc_srows(artifact_witness(bytes@).freeze_map@),
    ensures
        match r {
            Some(rp) => pos0 <= rp.1 <= bytes@.len() && rp.0@.len() == fcnt && bytes@.subrange(
                pos0 as int,
                rp.1 as int,
            ) == enc_srows(rp.0@) && (decodable(bytes@) ==> rp.1 == bytes@.len()),
            None => !decodable(bytes@),
        },
{
    let ghost can = decodable(bytes@);
    let ghost gx: BM25 = artifact_witness(bytes@);
    let ghost xfv = gx.freeze_map@;
    proof {
        if can {
            assert(gx.wf() && spec_encode(gx) == bytes@);
            lemma_encodable(gx);
            assert(xfv.skip(0) =~= xfv);
        }
    }
    let mut fs: Vec<ScoreRow> = Vec::new();
    let mut fgot: u64 = 0;
    let mut fpos: usize = pos0;
    proof {
        assert(enc_srows(fs@) == Seq::<u8>::empty());
        assert(bytes@.subrange(pos0 as int, fpos as int) =~= enc_srows(fs@));
    }
    while fgot < fcnt
        invariant
            fgot <= fcnt,
            pos0 <= fpos <= bytes@.len(),
            fs@.len() == fgot,
            bytes@.subrange(pos0 as int, fpos as int) == enc_srows(fs@),
            can == decodable(bytes@),
            gx == artifact_witness(bytes@),
            xfv == gx.freeze_map@,
            can ==> gx.wf() && fcnt as int == xfv.len() && srows_bounded(xfv),
            can ==> bytes@.skip(fpos as int) == enc_srows(xfv.skip(fgot as int)),
        decreases fcnt - fgot,
    {
        proof {
            if can {
                let sk = xfv.skip(fgot as int);
                assert(sk[0] == xfv[fgot as int]);
                assert(sk.skip(1) =~= xfv.skip(fgot + 1));
                assert(enc_srows(sk) == enc_bytes(sk[0].term@) + le_bytes(
                    sk[0].entries@.len() as int,
                    8,
                ) + enc_entries(sk[0].entries@) + enc_srows(sk.skip(1)));
                assert(bytes@.skip(fpos as int) =~= enc_bytes(xfv[fgot as int].term@) + (le_bytes(
                    xfv[fgot as int].entries@.len() as int,
                    8,
                ) + (enc_entries(xfv[fgot as int].entries@) + enc_srows(xfv.skip(fgot + 1)))));
            }
        }
        let (term, q1) = match read_bytes(bytes, fpos) {
            Some(x) => x,
            None => {
                proof {
                    if can {
                        lemma_bytes_available(
                            bytes@,
                            fpos as int,
                            xfv[fgot as int].term@,
                            le_bytes(xfv[fgot as int].entries@.len() as int, 8) + (enc_entries(
                                xfv[fgot as int].entries@,
                            ) + enc_srows(xfv.skip(fgot + 1))),
                        );
                        assert(false);
                    }
                }
                return None;
            },
        };
        proof {
            if can {
                broadcast use vstd::std_specs::vec::axiom_spec_len;

                lemma_p256_8();
                assert(term.len() == term@.len());
                lemma_peel_bytes(
                    bytes@,
                    fpos as int,
                    q1 as int,
                    term@,
                    xfv[fgot as int].term@,
                    le_bytes(xfv[fgot as int].entries@.len() as int, 8) + (enc_entries(
                        xfv[fgot as int].entries@,
                    ) + enc_srows(xfv.skip(fgot + 1))),
                );
            }
        }
        let (ecnt, q2) = match read_u64(bytes, q1) {
            Some(x) => x,
            None => {
                proof {
                    if can {
                        lemma_u64_available(
                            bytes@,
                            q1 as int,
                            xfv[fgot as int].entries@.len() as int,
                            enc_entries(xfv[fgot as int].entries@) + enc_srows(xfv.skip(fgot + 1)),
                        );
                        assert(false);
                    }
                }
                return None;
            },
        };
        proof {
            if can {
                lemma_peel_u64(
                    bytes@,
                    q1 as int,
                    ecnt,
                    xfv[fgot as int].entries@.len() as int,
                    enc_entries(xfv[fgot as int].entries@) + enc_srows(xfv.skip(fgot + 1)),
                );
            }
        }
        let ghost shead = bytes@.subrange(pos0 as int, fpos as int) + enc_bytes(term@) + le_bytes(
            ecnt as int,
            8,
        );
        proof {
            assert(bytes@.subrange(pos0 as int, q2 as int) =~= bytes@.subrange(
                pos0 as int,
                fpos as int,
            ) + bytes@.subrange(fpos as int, q1 as int) + bytes@.subrange(q1 as int, q2 as int));
        }
        let mut es: Vec<ScoreEntry> = Vec::new();
        let mut eg: u64 = 0;
        let mut epos: usize = q2;
        proof {
            assert(enc_entries(es@) == Seq::<u8>::empty());
            assert(bytes@.subrange(pos0 as int, epos as int) =~= shead + enc_entries(es@));
            if can {
                assert(xfv[fgot as int].entries@.skip(0) =~= xfv[fgot as int].entries@);
            }
        }
        while eg < ecnt
            invariant
                eg <= ecnt,
                pos0 <= epos <= bytes@.len(),
                es@.len() == eg,
                bytes@.subrange(pos0 as int, epos as int) == shead + enc_entries(es@),
                can == decodable(bytes@),
                gx == artifact_witness(bytes@),
                xfv == gx.freeze_map@,
                fgot < fcnt,
                can ==> fcnt as int == xfv.len() && srows_bounded(xfv),
                can ==> ecnt as int == xfv[fgot as int].entries@.len(),
                can ==> bytes@.skip(epos as int) == enc_entries(
                    xfv[fgot as int].entries@.skip(eg as int),
                ) + enc_srows(xfv.skip(fgot + 1)),
            decreases ecnt - eg,
        {
            proof {
                if can {
                    let esk = xfv[fgot as int].entries@.skip(eg as int);
                    assert(esk[0] == xfv[fgot as int].entries@[eg as int]);
                    assert(esk.skip(1) =~= xfv[fgot as int].entries@.skip(eg + 1));
                    assert(enc_entries(esk) == enc_bytes(esk[0].doc@) + le_bytes(
                        esk[0].score as int,
                        8,
                    ) + enc_entries(esk.skip(1)));
                    assert(bytes@.skip(epos as int) =~= enc_bytes(
                        xfv[fgot as int].entries@[eg as int].doc@,
                    ) + (le_bytes(xfv[fgot as int].entries@[eg as int].score as int, 8) + (
                    enc_entries(xfv[fgot as int].entries@.skip(eg + 1)) + enc_srows(
                        xfv.skip(fgot + 1),
                    ))));
                }
            }
            let (doc, w1) = match read_bytes(bytes, epos) {
                Some(x) => x,
                None => {
                    proof {
                        if can {
                            lemma_bytes_available(
                                bytes@,
                                epos as int,
                                xfv[fgot as int].entries@[eg as int].doc@,
                                le_bytes(xfv[fgot as int].entries@[eg as int].score as int, 8) + (
                                enc_entries(xfv[fgot as int].entries@.skip(eg + 1)) + enc_srows(
                                    xfv.skip(fgot + 1),
                                )),
                            );
                            assert(false);
                        }
                    }
                    return None;
                },
            };
            proof {
                if can {
                    broadcast use vstd::std_specs::vec::axiom_spec_len;

                    lemma_p256_8();
                    assert(doc.len() == doc@.len());
                    lemma_peel_bytes(
                        bytes@,
                        epos as int,
                        w1 as int,
                        doc@,
                        xfv[fgot as int].entries@[eg as int].doc@,
                        le_bytes(xfv[fgot as int].entries@[eg as int].score as int, 8) + (
                        enc_entries(xfv[fgot as int].entries@.skip(eg + 1)) + enc_srows(
                            xfv.skip(fgot + 1),
                        )),
                    );
                }
            }
            let (sc, w2) = match read_u64(bytes, w1) {
                Some(x) => x,
                None => {
                    proof {
                        if can {
                            lemma_u64_available(
                                bytes@,
                                w1 as int,
                                xfv[fgot as int].entries@[eg as int].score as int,
                                enc_entries(xfv[fgot as int].entries@.skip(eg + 1)) + enc_srows(
                                    xfv.skip(fgot + 1),
                                ),
                            );
                            assert(false);
                        }
                    }
                    return None;
                },
            };
            proof {
                if can {
                    lemma_peel_u64(
                        bytes@,
                        w1 as int,
                        sc,
                        xfv[fgot as int].entries@[eg as int].score as int,
                        enc_entries(xfv[fgot as int].entries@.skip(eg + 1)) + enc_srows(
                            xfv.skip(fgot + 1),
                        ),
                    );
                }
            }
            let ghost pre_es = es@;
            es.push(ScoreEntry { doc, score: sc });
            proof {
                assert(bytes@.subrange(pos0 as int, w2 as int) =~= bytes@.subrange(
                    pos0 as int,
                    epos as int,
                ) + bytes@.subrange(epos as int, w1 as int) + bytes@.subrange(
                    w1 as int,
                    w2 as int,
                ));
                lemma_enc_entries_push(pre_es, es@[eg as int]);
                assert(bytes@.subrange(pos0 as int, w2 as int) =~= shead + enc_entries(es@));
            }
            eg = eg + 1;
            epos = w2;
        }
        let ghost pre_fs = fs@;
        fs.push(ScoreRow { term, entries: es });
        proof {
            let nr = fs@[fgot as int];
            assert(nr.entries@.len() == ecnt);
            lemma_enc_srows_push(pre_fs, nr);
            assert(bytes@.subrange(pos0 as int, epos as int) =~= enc_srows(fs@));
            if can {
                assert(xfv[fgot as int].entries@.skip(ecnt as int) =~= Seq::<ScoreEntry>::empty());
                assert(enc_entries(Seq::<ScoreEntry>::empty()) == Seq::<u8>::empty());
                assert(bytes@.skip(epos as int) =~= enc_srows(xfv.skip(fgot + 1)));
            }
        }
        fpos = epos;
        fgot = fgot + 1;
    }
    proof {
        if can {
            assert(xfv.skip(fcnt as int) =~= Seq::<ScoreRow>::empty());
            assert(enc_srows(Seq::<ScoreRow>::empty()) == Seq::<u8>::empty());
            assert(bytes@.skip(fpos as int).len() == 0);
        }
    }
    Some((fs, fpos))
}

/// Parses the artifact's raw structure, without checking the index
/// invariant: whatever parses re-encodes to the input, and the encoding of
/// any well-formed index parses.
#[verifier::rlimit(100)]
fn parse_artifact(bytes: &Vec<u8>) -> (r: Option<BM25>)
    ensures
        match r {
            Some(c) => spec_encode(c) == bytes@ && c.k1_milli <= 1000000 && c.b_milli <= 1000
                && c.doc_len_map@.len() < 0xFFFF_FFFF,
            None => !decodable(bytes@),
        },
{
    let ghost can = decodable(bytes@);
    let ghost gx: BM25 = artifact_witness(bytes@);
    let ghost xiv = gx.index_map@;
    let ghost xlv = gx.doc_len_map@;
    let ghost xfv = gx.freeze_map@;
    let ghost tail_l = wit_tail_lens(bytes@);
    let ghost rest4 = le_bytes(xiv.len() as int, 8) + (enc_rows(xiv) + tail_l);
    let ghost rest3 = le_bytes(gx.avg_len_den as int, 8) + rest4;
    let ghost rest2 = le_bytes(gx.avg_len_num as int, 8) + rest3;
    let ghost rest1 = le_bytes(gx.b_milli as int, 8) + rest2;
    proof {
        lemma_p256_8();
        if can {
            assert(gx.wf() && spec_encode(gx) == bytes@);
            lemma_encodable(gx);
            assert(bytes@.skip(0) =~= bytes@);
            assert(bytes@.skip(0) == le_bytes(gx.k1_milli as int, 8) + rest1);
        }
    }
    let (k1_milli, p1) = match read_u64(bytes, 0) {
        Some(x) => x,
        None => {
            proof {
                if can {
                    lemma_u64_available(bytes@, 0, gx.k1_milli as int, rest1);
                    assert(false);
                }
            }
            return None;
        },
    };
    proof {
        if can {
            lemma_peel_u64(bytes@, 0, k1_milli, gx.k1_milli as int, rest1);
        }
    }
    let (b_milli, p2) = match read_u64(bytes, p1) {
        Some(x) => x,
        None => {
            proof {
                if can {
                    lemma_u64_available(bytes@, p1 as int, gx.b_milli as int, rest2);
                    assert(false);
                }
            }
            return None;
        },
    };
    proof {
        if can {
            lemma_peel_u64(bytes@, p1 as int, b_milli, gx.b_milli as int, rest2);
        }
    }
    let (avg_len_num, p3) = match read_u64(bytes, p2) {
        Some(x) => x,
        None => {
            proof {
                if can {
                    lemma_u64_available(bytes@, p2 as int, gx.avg_len_num as int, rest3);
                    assert(false);
                }
            }
            return None;
        },
    };
    proof {
        if can {
            lemma_peel_u64(bytes@, p2 as int, avg_len_num, gx.avg_len_num as int, rest3);
        }
    }
    let (avg_len_den, p4) = match read_u64(bytes, p3) {
        Some(x) => x,
        None => {
            proof {
                if can {
                    lemma_u64_available(bytes@, p3 as int, gx.avg_len_den as int, rest4);
                    assert(false);
                }
            }
            return None;
        },
    };
    proof {
        if can {
            lemma_peel_u64(bytes@, p3 as int, avg_len_den, gx.avg_len_den as int, rest4);
        }
    }
    if k1_milli > 1000000 || b_milli > 1000 {
        proof {
            if can {
                assert(false);
            }
        }
        return None;
    }
    let (rcnt, p5) = match read_u64(bytes, p4) {
        Some(x) => x,
        None => {
            proof {
                if can {
                    lemma_u64_available(bytes@, p4 as int, xiv.len() as int, enc_rows(xiv) + tail_l);
                    assert(false);
                }
            }
            return None;
        },
    };
    proof {
        if can {
            lemma_peel_u64(bytes@, p4 as int, rcnt, xiv.len() as int, enc_rows(xiv) + tail_l);
            assert(bytes@.skip(p5 as int) =~= enc_rows(xiv) + wit_tail_lens(bytes@));
        }
    }
    let (rows, p6) = match parse_rows(bytes, p5, rcnt) {
        Some(x) => x,
        None => {
            return None;
        },
    };
    let (lcnt, p7) = match read_u64(bytes, p6) {
        Some(x) => x,
        None => {
            proof {
                if can {
                    lemma_u64_available(
                        bytes@,
                        p6 as int,
                        xlv.len() as int,
                        enc_lens(xlv) + wit_tail_srows(bytes@),
                    );
                    assert(false);
                }
            }
            return None;
        },
    };
    proof {
        if can {
            lemma_encodable(gx);
            assert(wit_tail_lens(bytes@) == le_bytes(xlv.len() as int, 8) + (enc_lens(xlv) + (
            le_bytes(xfv.len() as int, 8) + enc_srows(xfv))));
            lemma_peel_u64(
                bytes@,
                p6 as int,
                lcnt,
                xlv.len() as int,
                enc_lens(xlv) + (le_bytes(xfv.len() as int, 8) + enc_srows(xfv)),
            );
            assert(bytes@.skip(p7 as int) =~= enc_lens(xlv) + wit_tail_srows(bytes@));
        }
    }
    if lcnt >= 0xFFFF_FFFFu64 {
        proof {
            if can {
                assert(false);
            }
        }
        return None;
    }
    let (lens, p8) = match parse_lens(bytes, p7, lcnt) {
        Some(x) => x,
        None => {
            return None;
        },
    };
    let (fcnt, p9) = match read_u64(bytes, p8) {
        Some(x) => x,
        None => {
            proof {
                if can {
                    lemma_u64_available(bytes@, p8 as int, xfv.len() as int, enc_srows(xfv));
                    assert(false);
                }
            }
            return None;
        },
    };
    proof {
        if can {
            lemma_encodable(gx);
            lemma_peel_u64(bytes@, p8 as int, fcnt, xfv.len() as int, enc_srows(xfv));
        }
    }
    let (fs, p10) = match parse_srows(bytes, p9, fcnt) {
        Some(x) => x,
        None => {
            return None;
        },
    };
    if p10 != bytes.len() {
        proof {
            if can {
                assert(false);
            }
        }
        return None;
    }
    let c = BM25 {
        index_map: rows,
        doc_len_map: lens,
        freeze_map: fs,
        k1_milli,
        b_milli,
        avg_len_num,
        avg_len_den,
    };
    proof {
        assert(bytes@.subrange(p8 as int, p10 as int) =~= bytes@.subrange(p8 as int, p9 as int)
            + bytes@.subrange(p9 as int, p10 as int));
        assert(bytes@.subrange(p7 as int, p10 as int) =~= bytes@.subrange(p7 as int, p8 as int)
            + bytes@.subrange(p8 as int, p10 as int));
        assert(bytes@.subrange(p6 as int, p10 as int) =~= bytes@.subrange(p6 as int, p7 as int)
            + bytes@.subrange(p7 as int, p10 as int));
        assert(bytes@.subrange(p5 as int, p10 as int) =~= bytes@.subrange(p5 as int, p6 as int)
            + bytes@.subrange(p6 as int, p10 as int));
        assert(bytes@.subrange(p4 as int, p10 as int) =~= bytes@.subrange(p4 as int, p5 as int)
            + bytes@.subrange(p5 as int, p10 as int));
        assert(bytes@.subrange(p3 as int, p10 as int) =~= bytes@.subrange(p3 as int, p4 as int)
            + bytes@.subrange(p4 as int, p10 as int));
        assert(bytes@.subrange(p2 as int, p10 as int) =~= bytes@.subrange(p2 as int, p3 as int)
            + bytes@.subrange(p3 as int, p10 as int));
        assert(bytes@.subrange(p1 as int, p10 as int) =~= bytes@.subrange(p1 as int, p2 as int)
            + bytes@.subrange(p2 as int, p10 as int));
        assert(bytes@.subrange(0, p10 as int) =~= bytes@.subrange(0, p1 as int) + bytes@.subrange(
            p1 as int,
            p10 as int,
        ));
        assert(bytes@.subrange(0, bytes@.len() as int) =~= bytes@);
        assert(spec_encode(c) == bytes@);
    }
    Some(c)
}

impl BM25 {
    /// Deserialises an artifact. Whatever loads successfully satisfies the
    /// index invariant and saves back to exactly the bytes it was loaded
    /// from; anything that is not the encoding of a well-formed index is
    /// rejected as corrupt — and every such encoding is accepted.
    pub fn load(bytes: &Vec<u8>) -> (r: Result<BM25, LoadError>)
        ensures
            match r {
                Ok(y) => y.wf() && spec_encode(y) == bytes@,
                Err(e) => e == LoadError::Corrupt,
            },
            (exists|x: BM25| x.wf() && spec_encode(x) == bytes@) ==> r is Ok,
    {
        let ghost can = decodable(bytes@);
        let ghost gx: BM25 = artifact_witness(bytes@);
        let c = match parse_artifact(bytes) {
            Some(c) => c,
            None => {
                return Err(LoadError::Corrupt);
            },
        };
        proof {
            if can {
                assert(gx.wf() && spec_encode(gx) == bytes@);
                lemma_encode_injective(c, gx);
            }
        }
        if !rows_valid(&c.index_map, &c.doc_len_map) {
            proof {
                if can {
                    assert(index_view(c.index_map@) == index_view(gx.index_map@));
                    assert(lens_view(c.doc_len_map@) == lens_view(gx.doc_len_map@));
                    assert forall|i: int| 0 <= i < c.index_map@.len() implies prow_ok(
                        #[trigger] index_view(c.index_map@)[i].1,
                        lens_view(c.doc_len_map@),
                    ) by {
                        assert(prow_ok(index_view(gx.index_map@)[i].1, lens_view(gx.doc_len_map@)));
                    }
                    assert(false);
                }
            }
            return Err(LoadError::Corrupt);
        }
        if !lens_valid(&c.doc_len_map) {
            proof {
                if can {
                    assert(lens_view(c.doc_len_map@) == lens_view(gx.doc_len_map@));
                    assert(false);
                }
            }
            return Err(LoadError::Corrupt);
        }
        if !srows_valid(&c.freeze_map) {
            proof {
                if can {
                    assert(frozen_view(c.freeze_map@) == frozen_view(gx.freeze_map@));
                    assert(frozen_view(c.freeze_map@).len() == c.freeze_map@.len());
                    assert(frozen_view(gx.freeze_map@).len() == gx.freeze_map@.len());
                    assert forall|i: int| 0 <= i < c.freeze_map@.len() implies srow_ok(
                        #[trigger] frozen_view(c.freeze_map@)[i].1,
                    ) by {
                        assert(srow_ok(frozen_view(gx.freeze_map@)[i].1));
                    }
                    assert(false);
                }
            }
            return Err(LoadError::Corrupt);
        }
        proof {
            assert(c.wf());
        }
        Ok(c)
    }
}

pub proof fn lemma_p256_mono(a: nat, b: nat)
    requires
        a <= b,
    ensures
        p256(a) <= p256(b),
    decreases b,
{
    if a < b {
        lemma_p256_mono(a, (b - 1) as nat);
        lemma_p256_pos((b - 1) as nat);
        assert(p256(b) == 256 * p256((b - 1) as nat));
        assert(256 * p256((b - 1) as nat) >= p256((b - 1) as nat)) by (nonlinear_arith)
            requires
                p256((b - 1) as nat) >= 1,
        ;
    }
}

pub proof fn lemma_p256_pos(n: nat)
    ensures
        p256(n) >= 1,
    decreases n,
{
    if n > 0 {
        lemma_p256_pos((n - 1) as nat);
        assert(256 * p256((n - 1) as nat) >= p256((n - 1) as nat)) by (nonlinear_arith)
            requires
                p256((n - 1) as nat) >= 1,
        ;
    }
}

} // verus!
