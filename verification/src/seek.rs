//! Seeking within a block by key: a verified lexicographic comparison on
//! byte keys and a search for the first entry at or past a target key.

use vstd::prelude::*;
use crate::Error;
use crate::block::Block;
use crate::iter::{entry_model, entry_models, spec_entries, EntryModel};

verus! {

/// Lexicographic byte order: `a` comes no later than `b`.
pub open spec fn lex_le(a: Seq<u8>, b: Seq<u8>) -> bool
    decreases a.len(),
{
    if a.len() == 0 {
        true
    } else if b.len() == 0 {
        false
    } else if a[0] < b[0] {
        true
    } else if a[0] > b[0] {
        false
    } else {
        lex_le(a.subrange(1, a.len() as int), b.subrange(1, b.len() as int))
    }
}

/// Compares two byte keys lexicographically.
pub fn key_le(a: &[u8], b: &[u8]) -> (r: bool)
    ensures
        r == lex_le(a@, b@),
{
    let a_len = a.len();
    let b_len = b.len();
    let mut i: usize = 0;
    proof {
        assert(a@.subrange(0, a_len as int) =~= a@);
        assert(b@.subrange(0, b_len as int) =~= b@);
    }
    while i < a_len && i < b_len
        invariant
            i <= a_len,
            i <= b_len,
            a_len == a@.len(),
            b_len == b@.len(),
            lex_le(a@, b@) == lex_le(
                a@.subrange(i as int, a_len as int),
                b@.subrange(i as int, b_len as int),
            ),
        decreases a_len - i,
    {
        let x = a[i];
        let y = b[i];
        if x < y {
            proof {
                assert(a@.subrange(i as int, a_len as int)[0] == x);
                assert(b@.subrange(i as int, b_len as int)[0] == y);
            }
            return true;
        }
        if x > y {
            proof {
                assert(a@.subrange(i as int, a_len as int)[0] == x);
                assert(b@.subrange(i as int, b_len as int)[0] == y);
            }
            return false;
        }
        proof {
            let sa = a@.subrange(i as int, a_len as int);
            let sb = b@.subrange(i as int, b_len as int);
            assert(sa[0] == x && sb[0] == y);
            assert(sa.subrange(1, sa.len() as int) =~= a@.subrange(i + 1, a_len as int));
            assert(sb.subrange(1, sb.len() as int) =~= b@.subrange(i + 1, b_len as int));
        }
        i = i + 1;
    }
    proof {
        if i >= a_len {
            assert(a@.subrange(i as int, a_len as int).len() == 0);
        } else {
            assert(b@.subrange(i as int, b_len as int).len() == 0);
            assert(a@.subrange(i as int, a_len as int).len() > 0);
        }
    }
    i >= a_len
}

impl Block {
    /// The position of the first entry, in stored order, whose key is at
    /// or past `target`: the index to pair with `entries`. `None` where
    /// every key of the block falls before `target`. Decodes the whole
    /// block, so a corrupt block fails rather than seeking into garbage.
    pub fn seek(&self, target: &[u8]) -> (r: Result<Option<usize>, Error>)
        ensures
            (match r {
                Ok(found) => spec_entries(self.data@, 0, Seq::empty()) is Ok && {
                    let es = spec_entries(self.data@, 0, Seq::empty())->Ok_0;
                    match found {
                        Some(idx) => idx < es.len() && lex_le(target@, es[idx as int].key)
                            && (forall|j: int| 0 <= j < idx ==> !lex_le(target@, es[j].key)),
                        None => forall|j: int| 0 <= j < es.len() ==> !lex_le(target@, es[j].key),
                    }
                },
                Err(e) => spec_entries(self.data@, 0, Seq::empty()) == Err::<
                    Seq<EntryModel>,
                    Error,
                >(e),
            }),
    {
        let entries = match self.entries() {
            Ok(v) => v,
            Err(e) => {
                return Err(e);
            },
        };
        let ghost es = spec_entries(self.data@, 0, Seq::<u8>::empty())->Ok_0;
        proof {
            assert(es == entry_models(entries@));
        }
        let n = entries.len();
        let mut i: usize = 0;
        while i < n
            invariant
                i <= n,
                n == entries@.len(),
                es == entry_models(entries@),
                spec_entries(self.data@, 0, Seq::<u8>::empty()) == Ok::<Seq<EntryModel>, Error>(
                    es,
                ),
                forall|j: int| 0 <= j < i ==> !lex_le(target@, es[j].key),
            decreases n - i,
        {
            proof {
                assert(es.len() == entries@.len());
                assert(es[i as int] == entry_model(entries@[i as int]));
                assert(es[i as int].key == entries@[i as int].key@);
            }
            if key_le(target, entries[i].key.as_slice()) {
                return Ok(Some(i));
            }
            i = i + 1;
        }
        Ok(None)
    }
}

} // verus!
