//! Walking a block's payload: each entry stores how many key bytes it
//! shares with its predecessor, the remaining key suffix, and its value;
//! the iterator rebuilds every full key in an accumulator.

use vstd::prelude::*;
use crate::Error;
use crate::block::Block;
use crate::varint::{decode_var_u32, lemma_varint_term_some, spec_decode_u32, varint_term};

verus! {

/// One logical key/value pair, with the shared-prefix length the block
/// stored for it. The key is fully reconstructed.
#[derive(Debug)]
pub struct Entry {
    pub shared: usize,
    pub key: Vec<u8>,
    pub value: Vec<u8>,
}

/// The mathematical shape of one decoded entry.
pub struct EntryModel {
    pub shared: nat,
    pub key: Seq<u8>,
    pub value: Seq<u8>,
}

/// The model an `Entry` value stands for.
pub open spec fn entry_model(e: Entry) -> EntryModel {
    EntryModel { shared: e.shared as nat, key: e.key@, value: e.value@ }
}

/// What decoding one entry at `pos` yields, `prev` being the previous full
/// key: three 32-bit varints (shared, unshared, value lengths), then the
/// key suffix and the value; the new key is `prev`'s first `shared` bytes
/// followed by the suffix. A shared length beyond `prev` is `CorruptBlock`;
/// lengths running past the payload are `TruncatedEntry`.
pub open spec fn spec_entry(s: Seq<u8>, pos: int, prev: Seq<u8>) -> Result<
    (EntryModel, int),
    Error,
> {
    match spec_decode_u32(s, pos) {
        Err(e) => Err(e),
        Ok((shared, p1)) => match spec_decode_u32(s, p1) {
            Err(e) => Err(e),
            Ok((unshared, p2)) => match spec_decode_u32(s, p2) {
                Err(e) => Err(e),
                Ok((vlen, p3)) => if shared > prev.len() {
                    Err(Error::CorruptBlock)
                } else if p3 + unshared + vlen > s.len() {
                    Err(Error::TruncatedEntry)
                } else {
                    let key = prev.subrange(0, shared as int) + s.subrange(p3, p3 + unshared);
                    Ok(
                        (
                            EntryModel {
                                shared,
                                key,
                                value: s.subrange(p3 + unshared, p3 + unshared + vlen),
                            },
                            p3 + unshared + vlen,
                        ),
                    )
                },
            },
        },
    }
}

/// A successful varint decode lands strictly past where it started and
/// within the sequence.
pub proof fn lemma_decode_advances(s: Seq<u8>, pos: int, max_len: int, bound: nat)
    requires
        crate::varint::spec_decode_varint(s, pos, max_len, bound) is Ok,
    ensures
        (match crate::varint::spec_decode_varint(s, pos, max_len, bound) {
            Ok((v, np)) => pos < np <= s.len(),
            Err(_) => true,
        }),
{
    match varint_term(s, pos) {
        Some(e) => {
            lemma_varint_term_some(s, pos, e);
        },
        None => {},
    }
}

/// A successfully decoded entry ends strictly past where it started and
/// within the payload.
pub proof fn lemma_spec_entry_advances(s: Seq<u8>, pos: int, prev: Seq<u8>)
    requires
        spec_entry(s, pos, prev) is Ok,
    ensures
        (match spec_entry(s, pos, prev) {
            Ok((m, np)) => pos < np <= s.len(),
            Err(_) => true,
        }),
{
    lemma_decode_advances(s, pos, 5, 0x1_0000_0000);
    match spec_decode_u32(s, pos) {
        Ok((_, p1)) => {
            lemma_decode_advances(s, p1, 5, 0x1_0000_0000);
            match spec_decode_u32(s, p1) {
                Ok((_, p2)) => {
                    lemma_decode_advances(s, p2, 5, 0x1_0000_0000);
                },
                Err(_) => {},
            }
        },
        Err(_) => {},
    }
}

/// All entries of the payload from `pos` on, `prev` being the key
/// accumulated so far: empty at the end of the payload, else one decoded
/// entry followed by the rest, decoded against that entry's key.
pub open spec fn spec_entries(s: Seq<u8>, pos: int, prev: Seq<u8>) -> Result<Seq<EntryModel>, Error>
    decreases s.len() - pos,
    via spec_entries_decreases
{
    if pos == s.len() {
        Ok(Seq::empty())
    } else {
        match spec_entry(s, pos, prev) {
            Err(e) => Err(e),
            Ok((m, np)) => match spec_entries(s, np, m.key) {
                Err(e) => Err(e),
                Ok(rest) => Ok(seq![m] + rest),
            },
        }
    }
}

/// Recursion in `spec_entries` is well founded: a decoded entry always
/// ends strictly past where it started and within the payload.
#[via_fn]
proof fn spec_entries_decreases(s: Seq<u8>, pos: int, prev: Seq<u8>) {
    if pos != s.len() && spec_entry(s, pos, prev) is Ok {
        lemma_spec_entry_advances(s, pos, prev);
    }
}

/// Iterating a block is deterministic: the decoded entry sequence is a
/// function of the payload bytes alone, so two blocks holding the same
/// bytes — in particular, one block iterated twice by fresh iterators —
/// yield identical sequences of entries.
pub proof fn lemma_iteration_deterministic(b1: &Block, b2: &Block)
    requires
        b1.data@ == b2.data@,
    ensures
        spec_entries(b1.data@, 0, Seq::empty()) == spec_entries(b2.data@, 0, Seq::empty()),
{
}

/// Shared-prefix correctness: each decoded entry after the first declares
/// a shared length within its predecessor's key, and its key is exactly
/// the predecessor's first `shared` bytes followed by its own suffix.
pub proof fn lemma_shared_prefix(s: Seq<u8>, pos: int, prev: Seq<u8>, es: Seq<EntryModel>, i: int)
    requires
        spec_entries(s, pos, prev) == Ok::<Seq<EntryModel>, Error>(es),
        1 <= i < es.len(),
    ensures
        es[i].shared <= es[i - 1].key.len(),
        es[i].key == es[i - 1].key.subrange(0, es[i].shared as int) + es[i].key.subrange(
            es[i].shared as int,
            es[i].key.len() as int,
        ),
    decreases i,
{
    let (m0, np) = spec_entry(s, pos, prev)->Ok_0;
    let rest = spec_entries(s, np, m0.key)->Ok_0;
    assert(es == seq![m0] + rest);
    assert(es[0] == m0);
    assert(forall|j: int| 1 <= j < es.len() ==> es[j] == rest[j - 1]);
    if i == 1 {
        let (m1, np2) = spec_entry(s, np, m0.key)->Ok_0;
        let rest2 = spec_entries(s, np2, m1.key)->Ok_0;
        assert(rest == seq![m1] + rest2);
        assert(rest[0] == m1);
        let sh = m1.shared as int;
        assert(m1.key.subrange(0, sh) =~= m0.key.subrange(0, sh));
        assert(m1.key =~= m0.key.subrange(0, sh) + m1.key.subrange(sh, m1.key.len() as int));
    } else {
        lemma_shared_prefix(s, np, m0.key, rest, i - 1);
    }
}

/// A block's restart array is well formed when every stored offset lies
/// within the payload and, short of its end, lands on an entry whose
/// shared length decodes to zero — a key stored in full.
pub open spec fn restarts_well_formed(data: Seq<u8>, restarts: Seq<u32>) -> bool {
    forall|i: int|
        0 <= i < restarts.len() ==> (restarts[i] as int) <= data.len() && ((restarts[i] as int)
            < data.len() ==> spec_decode_u32(data, restarts[i] as int) is Ok && spec_decode_u32(
            data,
            restarts[i] as int,
        )->Ok_0.0 == 0)
}

/// The payload offset at which each decoded entry starts, mirroring
/// `spec_entries`; empty where decoding fails.
pub open spec fn spec_entry_starts(s: Seq<u8>, pos: int, prev: Seq<u8>) -> Seq<int>
    decreases s.len() - pos,
    via spec_entry_starts_decreases
{
    if pos == s.len() {
        Seq::empty()
    } else {
        match spec_entry(s, pos, prev) {
            Err(_) => Seq::empty(),
            Ok((m, np)) => seq![pos] + spec_entry_starts(s, np, m.key),
        }
    }
}

/// Recursion in `spec_entry_starts` is well founded for the same reason
/// as in `spec_entries`.
#[via_fn]
proof fn spec_entry_starts_decreases(s: Seq<u8>, pos: int, prev: Seq<u8>) {
    if pos != s.len() && spec_entry(s, pos, prev) is Ok {
        lemma_spec_entry_advances(s, pos, prev);
    }
}

/// Each decoded entry starts within the payload, at the offset
/// `spec_entry_starts` records, and its shared length is exactly the first
/// varint decoded there — whatever key was accumulated on the way.
pub proof fn lemma_entry_starts(s: Seq<u8>, pos: int, prev: Seq<u8>, es: Seq<EntryModel>, i: int)
    requires
        spec_entries(s, pos, prev) == Ok::<Seq<EntryModel>, Error>(es),
        0 <= i < es.len(),
    ensures
        spec_entry_starts(s, pos, prev).len() == es.len(),
        pos <= spec_entry_starts(s, pos, prev)[i] < s.len(),
        spec_decode_u32(s, spec_entry_starts(s, pos, prev)[i]) is Ok,
        es[i].shared == spec_decode_u32(s, spec_entry_starts(s, pos, prev)[i])->Ok_0.0,
    decreases i,
{
    let (m0, np) = spec_entry(s, pos, prev)->Ok_0;
    let rest = spec_entries(s, np, m0.key)->Ok_0;
    lemma_spec_entry_advances(s, pos, prev);
    assert(es == seq![m0] + rest);
    let starts = spec_entry_starts(s, pos, prev);
    let rest_starts = spec_entry_starts(s, np, m0.key);
    assert(starts == seq![pos] + rest_starts);
    lemma_entry_starts_len(s, np, m0.key, rest);
    if i == 0 {
        assert(es[0] == m0);
        assert(starts[0] == pos);
    } else {
        lemma_entry_starts(s, np, m0.key, rest, i - 1);
        assert(es[i] == rest[i - 1]);
        assert(starts[i] == rest_starts[i - 1]);
    }
}

/// Where decoding succeeds, there are as many recorded start offsets as
/// entries.
pub proof fn lemma_entry_starts_len(s: Seq<u8>, pos: int, prev: Seq<u8>, es: Seq<EntryModel>)
    requires
        spec_entries(s, pos, prev) == Ok::<Seq<EntryModel>, Error>(es),
    ensures
        spec_entry_starts(s, pos, prev).len() == es.len(),
    decreases s.len() - pos,
{
    if 0 <= pos < s.len() {
        let (m0, np) = spec_entry(s, pos, prev)->Ok_0;
        lemma_spec_entry_advances(s, pos, prev);
        let rest = spec_entries(s, np, m0.key)->Ok_0;
        lemma_entry_starts_len(s, np, m0.key, rest);
    }
}

/// Decoding restarted at entry `k`'s start offset, with the key its
/// predecessor accumulated, yields exactly the entries from `k` on.
pub proof fn lemma_entries_suffix(s: Seq<u8>, pos: int, prev: Seq<u8>, es: Seq<EntryModel>, k: int)
    requires
        spec_entries(s, pos, prev) == Ok::<Seq<EntryModel>, Error>(es),
        0 <= k < es.len(),
    ensures
        spec_entries(
            s,
            spec_entry_starts(s, pos, prev)[k],
            if k == 0 {
                prev
            } else {
                es[k - 1].key
            },
        ) == Ok::<Seq<EntryModel>, Error>(es.subrange(k, es.len() as int)),
    decreases k,
{
    lemma_entry_starts_len(s, pos, prev, es);
    let (m0, np) = spec_entry(s, pos, prev)->Ok_0;
    let rest = spec_entries(s, np, m0.key)->Ok_0;
    lemma_spec_entry_advances(s, pos, prev);
    assert(es == seq![m0] + rest);
    let starts = spec_entry_starts(s, pos, prev);
    let rest_starts = spec_entry_starts(s, np, m0.key);
    assert(starts == seq![pos] + rest_starts);
    if k == 0 {
        assert(starts[0] == pos);
        assert(es.subrange(0, es.len() as int) =~= es);
    } else {
        lemma_entries_suffix(s, np, m0.key, rest, k - 1);
        lemma_entry_starts_len(s, np, m0.key, rest);
        assert(starts[k] == rest_starts[k - 1]);
        assert(es[0] == m0);
        assert(forall|j: int| 1 <= j < es.len() ==> es[j] == rest[j - 1]);
        if k == 1 {
            assert(es[0].key == m0.key);
        }
        assert(rest.subrange(k - 1, rest.len() as int) =~= es.subrange(k, es.len() as int));
    }
}

/// Restartability: where entry `k` of the full iteration starts at one of
/// a well-formed restart array's offsets, a fresh iteration begun at that
/// offset with an empty key accumulator yields exactly the entries from
/// `k` on — what makes restart offsets valid seek targets.
pub proof fn lemma_restartability(
    s: Seq<u8>,
    es: Seq<EntryModel>,
    restarts: Seq<u32>,
    k: int,
    j: int,
)
    requires
        restarts_well_formed(s, restarts),
        spec_entries(s, 0, Seq::empty()) == Ok::<Seq<EntryModel>, Error>(es),
        0 <= k < es.len(),
        0 <= j < restarts.len(),
        spec_entry_starts(s, 0, Seq::empty())[k] == restarts[j] as int,
    ensures
        spec_entries(s, restarts[j] as int, Seq::<u8>::empty()) == Ok::<Seq<EntryModel>, Error>(
            es.subrange(k, es.len() as int),
        ),
{
    lemma_entries_suffix(s, 0, Seq::empty(), es, k);
    lemma_entry_starts(s, 0, Seq::empty(), es, k);
    let prev_k: Seq<u8> = if k == 0 {
        Seq::empty()
    } else {
        es[k - 1].key
    };
    lemma_restart_equivalence(s, restarts[j] as int, prev_k);
}

/// Restart invariant: in a block whose restart array is well formed, every
/// decoded entry that starts at one of the restart offsets declares a
/// shared length of zero — it stores its key in full.
pub proof fn lemma_restart_invariant(
    s: Seq<u8>,
    es: Seq<EntryModel>,
    restarts: Seq<u32>,
    i: int,
    j: int,
)
    requires
        restarts_well_formed(s, restarts),
        spec_entries(s, 0, Seq::empty()) == Ok::<Seq<EntryModel>, Error>(es),
        0 <= i < es.len(),
        0 <= j < restarts.len(),
        spec_entry_starts(s, 0, Seq::empty())[i] == restarts[j] as int,
    ensures
        es[i].shared == 0,
{
    lemma_entry_starts(s, 0, Seq::empty(), es, i);
}

/// The accumulator does not matter at an entry that stores its key in
/// full: iteration from such a position yields the same result whatever
/// key had been accumulated on the way there.
pub proof fn lemma_restart_equivalence(s: Seq<u8>, pos: int, prev: Seq<u8>)
    requires
        spec_decode_u32(s, pos) is Ok,
        spec_decode_u32(s, pos)->Ok_0.0 == 0,
    ensures
        spec_entries(s, pos, prev) == spec_entries(s, pos, Seq::<u8>::empty()),
{
    lemma_decode_advances(s, pos, 5, 0x1_0000_0000);
    let (_, p1) = spec_decode_u32(s, pos)->Ok_0;
    match spec_decode_u32(s, p1) {
        Err(_) => {},
        Ok((unshared, p2)) => match spec_decode_u32(s, p2) {
            Err(_) => {},
            Ok((vlen, p3)) => {
                if p3 + unshared + vlen <= s.len() {
                    assert(prev.subrange(0, 0) + s.subrange(p3, p3 + unshared) =~= Seq::<
                        u8,
                    >::empty().subrange(0, 0) + s.subrange(p3, p3 + unshared));
                }
            },
        },
    }
}

/// Restart invariant: in a block whose restart array is well formed,
/// iteration started at any restart offset with an empty accumulator
/// agrees with iteration that reaches that offset carrying any key.
pub proof fn lemma_restart_points_sound(data: Seq<u8>, restarts: Seq<u32>, i: int, prev: Seq<u8>)
    requires
        restarts_well_formed(data, restarts),
        0 <= i < restarts.len(),
    ensures
        spec_entries(data, restarts[i] as int, prev) == spec_entries(
            data,
            restarts[i] as int,
            Seq::<u8>::empty(),
        ),
{
    let p = restarts[i] as int;
    if p < data.len() {
        lemma_restart_equivalence(data, p, prev);
    }
}

/// Walks a block payload, rebuilding each entry's full key in place.
pub struct BlockIterator<'a> {
    pub data: &'a [u8],
    pub pos: usize,
    pub key: Vec<u8>,
}

impl<'a> BlockIterator<'a> {
    /// The cursor never points past the payload.
    pub open spec fn wf(&self) -> bool {
        self.pos <= self.data@.len()
    }

    /// Decodes the entry at the cursor, or reports the end of the payload,
    /// or fails and parks the cursor at the end so that iteration stops.
    pub fn next(&mut self) -> (r: Result<Option<Entry>, Error>)
        requires
            old(self).wf(),
        ensures
            final(self).wf(),
            final(self).data@ == old(self).data@,
            (match r {
                Ok(None) => old(self).pos == old(self).data@.len() && final(self).pos == old(self).pos
                    && final(self).key@ == old(self).key@,
                Ok(Some(e)) => old(self).pos < old(self).data@.len() && spec_entry(
                    old(self).data@,
                    old(self).pos as int,
                    old(self).key@,
                ) == Ok::<(EntryModel, int), Error>((entry_model(e), final(self).pos as int))
                    && final(self).key@ == e.key@,
                Err(err) => old(self).pos < old(self).data@.len() && spec_entry(
                    old(self).data@,
                    old(self).pos as int,
                    old(self).key@,
                ) == Err::<(EntryModel, int), Error>(err)
                    && final(self).pos == final(self).data@.len(),
            }),
    {
        let ghost d = self.data@;
        let ghost prevk = self.key@;
        let d_len = self.data.len();
        if self.pos >= d_len {
            return Ok(None);
        }
        let (shared, p1) = match decode_var_u32(self.data, self.pos) {
            Ok(v) => v,
            Err(e) => {
                self.pos = d_len;
                return Err(e);
            },
        };
        let (unshared, p2) = match decode_var_u32(self.data, p1) {
            Ok(v) => v,
            Err(e) => {
                self.pos = d_len;
                return Err(e);
            },
        };
        let (vlen, p3) = match decode_var_u32(self.data, p2) {
            Ok(v) => v,
            Err(e) => {
                self.pos = d_len;
                return Err(e);
            },
        };
        if (shared as u64) > (self.key.len() as u64) {
            self.pos = d_len;
            return Err(Error::CorruptBlock);
        }
        if (unshared as u64) > ((d_len - p3) as u64) || (vlen as u64) > ((d_len - p3) as u64)
            - (unshared as u64) {
            self.pos = d_len;
            return Err(Error::TruncatedEntry);
        }
        let us = unshared as usize;
        let vl = vlen as usize;
        self.key.truncate(shared as usize);
        proof {
            assert(d.subrange(p3 as int, p3 as int) =~= Seq::<u8>::empty());
            assert(self.key@ =~= prevk.subrange(0, shared as int) + d.subrange(
                p3 as int,
                p3 as int,
            ));
        }
        let mut i: usize = 0;
        while i < us
            invariant
                i <= us,
                p3 + us + vl <= d_len,
                d_len == d.len(),
                self.data@ == d,
                self.pos == old(self).pos,
                self.key@ == prevk.subrange(0, shared as int) + d.subrange(
                    p3 as int,
                    p3 + i as int,
                ),
                shared <= prevk.len(),
            decreases us - i,
        {
            self.key.push(self.data[p3 + i]);
            i = i + 1;
            proof {
                assert(self.key@ =~= prevk.subrange(0, shared as int) + d.subrange(
                    p3 as int,
                    p3 + i as int,
                ));
            }
        }
        let mut value: Vec<u8> = Vec::new();
        proof {
            assert(value@ =~= d.subrange(p3 + us as int, p3 + us as int));
        }
        let mut j: usize = 0;
        while j < vl
            invariant
                j <= vl,
                p3 + us + vl <= d_len,
                d_len == d.len(),
                self.data@ == d,
                self.pos == old(self).pos,
                self.key@ == prevk.subrange(0, shared as int) + d.subrange(
                    p3 as int,
                    p3 + us as int,
                ),
                value@ == d.subrange(p3 + us as int, p3 + us + j as int),
            decreases vl - j,
        {
            value.push(self.data[p3 + us + j]);
            j = j + 1;
            proof {
                assert(value@ =~= d.subrange(p3 + us as int, p3 + us + j as int));
            }
        }
        self.pos = p3 + us + vl;
        let mut entry_key: Vec<u8> = Vec::new();
        proof {
            assert(entry_key@ =~= self.key@.subrange(0, 0));
        }
        let mut k: usize = 0;
        let key_len = self.key.len();
        while k < key_len
            invariant
                k <= key_len,
                key_len == self.key@.len(),
                self.data@ == d,
                self.pos == p3 + us + vl,
                self.key@ == prevk.subrange(0, shared as int) + d.subrange(
                    p3 as int,
                    p3 + us as int,
                ),
                entry_key@ == self.key@.subrange(0, k as int),
            decreases key_len - k,
        {
            entry_key.push(self.key[k]);
            k = k + 1;
            proof {
                assert(entry_key@ =~= self.key@.subrange(0, k as int));
            }
        }
        proof {
            assert(entry_key@ =~= self.key@);
        }
        Ok(Some(Entry { shared: shared as usize, key: entry_key, value }))
    }
}

/// The models of a sequence of yielded entries.
pub open spec fn entry_models(v: Seq<Entry>) -> Seq<EntryModel> {
    v.map_values(|e: Entry| entry_model(e))
}

impl Block {
    /// A fresh iterator over this block, starting at the front with an
    /// empty key accumulator.
    pub fn into_iter(&self) -> (r: BlockIterator<'_>)
        ensures
            r.data@ == self.data@,
            r.pos == 0,
            r.key@ == Seq::<u8>::empty(),
            r.wf(),
    {
        BlockIterator { data: self.data.as_slice(), pos: 0, key: Vec::new() }
    }

    /// A fresh iterator positioned at restart point `restart`, with an
    /// empty key accumulator; `CorruptBlock` where the stored offset runs
    /// past the payload.
    pub fn into_iter_at(&self, restart: usize) -> (r: Result<BlockIterator<'_>, Error>)
        requires
            restart < self.restarts@.len(),
        ensures
            (match r {
                Ok(it) => it.data@ == self.data@ && it.pos == self.restarts@[restart as int]
                    && it.key@ == Seq::<u8>::empty() && it.wf(),
                Err(e) => e == Error::CorruptBlock && self.restarts@[restart as int]
                    > self.data@.len(),
            }),
    {
        let off = self.restarts[restart];
        if (off as u64) > (self.data.len() as u64) {
            return Err(Error::CorruptBlock);
        }
        Ok(BlockIterator { data: self.data.as_slice(), pos: off as usize, key: Vec::new() })
    }

    /// Decodes every entry of this block, in stored order, or reports the
    /// first failure.
    pub fn entries(&self) -> (r: Result<Vec<Entry>, Error>)
        ensures
            (match r {
                Ok(v) => spec_entries(self.data@, 0, Seq::empty()) == Ok::<
                    Seq<EntryModel>,
                    Error,
                >(entry_models(v@)),
                Err(e) => spec_entries(self.data@, 0, Seq::empty()) == Err::<
                    Seq<EntryModel>,
                    Error,
                >(e),
            }),
    {
        let ghost d = self.data@;
        let mut it = self.into_iter();
        let mut out: Vec<Entry> = Vec::new();
        proof {
            match spec_entries(d, 0, Seq::<u8>::empty()) {
                Ok(rest) => {
                    assert(entry_models(out@) + rest =~= rest);
                },
                Err(_) => {},
            }
        }
        loop
            invariant
                it.wf(),
                it.data@ == d,
                d == self.data@,
                (match spec_entries(d, it.pos as int, it.key@) {
                    Ok(rest) => spec_entries(d, 0, Seq::empty()) == Ok::<Seq<EntryModel>, Error>(
                        entry_models(out@) + rest,
                    ),
                    Err(e) => spec_entries(d, 0, Seq::empty()) == Err::<Seq<EntryModel>, Error>(e),
                }),
            decreases d.len() - it.pos,
        {
            let ghost pos0 = it.pos as int;
            let ghost key0 = it.key@;
            match it.next() {
                Err(e) => {
                    proof {
                        assert(pos0 < d.len());
                    }
                    return Err(e);
                },
                Ok(None) => {
                    proof {
                        assert(spec_entries(d, pos0, key0) == Ok::<Seq<EntryModel>, Error>(
                            Seq::empty(),
                        ));
                        assert(entry_models(out@) + Seq::<EntryModel>::empty() =~= entry_models(
                            out@,
                        ));
                    }
                    return Ok(out);
                },
                Ok(Some(e)) => {
                    proof {
                        lemma_spec_entry_advances(d, pos0, key0);
                    }
                    let ghost out0 = out@;
                    let ghost m = entry_model(e);
                    out.push(e);
                    proof {
                        assert(entry_models(out@) =~= entry_models(out0).push(m));
                        match spec_entries(d, it.pos as int, it.key@) {
                            Ok(rest) => {
                                assert(entry_models(out0) + (seq![m] + rest) =~= entry_models(
                                    out@,
                                ) + rest);
                            },
                            Err(_) => {},
                        }
                    }
                },
            }
        }
    }
}

} // verus!
