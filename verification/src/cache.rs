//! Persistent memoization of perceptual hashes.
//!
//! The cache maps a file path to the hash recorded for it together with the
//! file's modification time at the moment the hash was computed. A lookup
//! hits only when the stored modification time matches exactly; any mismatch
//! is a miss, never a stale hit. An insert overwrites any prior entry for the
//! same path unconditionally.

use crate::codec::accepted_log;
use crate::codec::decode_log;
use crate::codec::encode_entry;
use crate::codec::encode_log;
use crate::codec::entry_lengths_ok;
use crate::codec::glue;
use vstd::bytes::u64_from_le_bytes;
use vstd::bytes::u64_to_le_bytes;
use vstd::prelude::*;
use vstd::slice::slice_subrange;
use vstd::slice::slice_to_vec;
use vstd::string::StrSliceExecFns;
use vstd::string::StringSliceAdditionalSpecFns;

verus! {

/// Relies on `String::from_utf8`: it succeeds exactly on valid UTF-8 input
/// and yields the characters that input encodes.
#[verifier::external_body]
fn string_from_utf8(v: Vec<u8>) -> (r: Option<String>)
    ensures
        r is Some <==> vstd::utf8::valid_utf8(v@),
        r matches Some(s) ==> s@ == vstd::utf8::decode_utf8(v@),
{
    String::from_utf8(v).ok()
}

/// Abstract content of one cache entry.
pub struct EntryModel {
    pub path: Seq<char>,
    pub mtime: u64,
    pub hash: Seq<u8>,
}

/// One entry: the hash recorded for a path at a given modification time.
pub struct HashEntry {
    pub path: String,
    pub mtime: u64,
    pub hash: Vec<u8>,
}

impl View for HashEntry {
    type V = EntryModel;

    open spec fn view(&self) -> EntryModel {
        EntryModel { path: self.path@, mtime: self.mtime, hash: self.hash@ }
    }
}

/// Whether no path occurs twice in a sequence of entries.
pub open spec fn distinct_paths(log: Seq<EntryModel>) -> bool {
    forall|i: int, j: int| 0 <= i < j < log.len() ==> log[i].path != log[j].path
}

/// The key-to-value table described by a sequence of entries, later entries
/// shadowing earlier ones.
pub open spec fn table_of(log: Seq<EntryModel>) -> Map<Seq<char>, (u64, Seq<u8>)>
    decreases log.len(),
{
    if log.len() == 0 {
        Map::empty()
    } else {
        table_of(log.drop_last()).insert(log.last().path, (log.last().mtime, log.last().hash))
    }
}

/// What a lookup of `(path, mtime)` yields in table `m`: the stored hash when
/// the stored modification time matches exactly, a miss otherwise.
pub open spec fn cached_hash(m: Map<Seq<char>, (u64, Seq<u8>)>, path: Seq<char>, mtime: u64) -> Option<
    Seq<u8>,
> {
    if m.contains_key(path) && m[path].0 == mtime {
        Some(m[path].1)
    } else {
        None
    }
}

/// The in-memory hash cache: a table from path to `(mtime, hash)`.
pub struct HashCache {
    entries: Vec<HashEntry>,
}

impl View for HashCache {
    type V = Map<Seq<char>, (u64, Seq<u8>)>;

    open spec fn view(&self) -> Map<Seq<char>, (u64, Seq<u8>)> {
        table_of(self.log())
    }
}

impl HashCache {
    /// The entries in storage order.
    pub closed spec fn log(self) -> Seq<EntryModel> {
        self.entries@.map_values(|e: HashEntry| e@)
    }

    /// Well-formedness: one entry per path. Kept open so that, with what
    /// `serialize` ensures, a caller can apply the persistence round trip
    /// to any well-formed cache.
    pub open spec fn wf(self) -> bool {
        distinct_paths(self.log())
    }

    /// An empty cache.
    pub fn new() -> (c: HashCache)
        ensures
            c.wf(),
            c@ == Map::<Seq<char>, (u64, Seq<u8>)>::empty(),
            c.log() == Seq::<EntryModel>::empty(),
    {
        let c = HashCache { entries: Vec::new() };
        proof {
            assert(c.log() =~= Seq::<EntryModel>::empty());
        }
        c
    }

    /// Returns the cached hash for `path`, but only if the stored
    /// modification time is exactly `mtime`; any mismatch is a miss.
    pub fn lookup(&self, path: &String, mtime: u64) -> (r: Option<Vec<u8>>)
        requires
            self.wf(),
        ensures
            r matches Some(h) ==> cached_hash(self@, path@, mtime) == Some(h@),
            r is None ==> cached_hash(self@, path@, mtime) is None,
    {
        let n: usize = self.entries.len();
        let mut i: usize = 0;
        while i < n
            invariant
                self.wf(),
                n == self.entries@.len(),
                0 <= i <= n,
                forall|j: int| 0 <= j < i ==> self.log()[j].path != path@,
            decreases n - i,
        {
            if self.entries[i].path == *path {
                proof {
                    lemma_table_entry(self.log(), i as int);
                }
                if self.entries[i].mtime == mtime {
                    return Some(vstd::slice::slice_to_vec(self.entries[i].hash.as_slice()));
                } else {
                    return None;
                }
            }
            i = i + 1;
        }
        proof {
            lemma_table_absent(self.log(), path@);
        }
        None
    }

    /// Records `hash` for `path` at modification time `mtime`, overwriting
    /// any prior entry for `path` unconditionally.
    pub fn insert(&mut self, path: String, mtime: u64, hash: Vec<u8>)
        requires
            old(self).wf(),
        ensures
            final(self).wf(),
            final(self)@ == old(self)@.insert(path@, (mtime, hash@)),
    {
        let ghost old_log = self.log();
        let n: usize = self.entries.len();
        let mut i: usize = 0;
        while i < n
            invariant
                self.wf(),
                self.log() == old_log,
                old(self).log() == old_log,
                n == self.entries@.len(),
                0 <= i <= n,
                forall|j: int| 0 <= j < i ==> self.log()[j].path != path@,
            decreases n - i,
        {
            if self.entries[i].path == path {
                let entry = HashEntry { path, mtime, hash };
                let ghost ev = entry@;
                self.entries[i] = entry;
                proof {
                    assert(self.log() =~= old_log.update(i as int, ev));
                    lemma_table_update(old_log, i as int, ev);
                    assert forall|a: int, b: int|
                        0 <= a < b < self.log().len() implies self.log()[a].path
                        != self.log()[b].path by {
                        assert(old_log[a].path == self.log()[a].path || a == i);
                        assert(old_log[b].path == self.log()[b].path || b == i);
                    }
                }
                return ;
            }
            i = i + 1;
        }
        let entry = HashEntry { path, mtime, hash };
        let ghost ev = entry@;
        self.entries.push(entry);
        proof {
            assert(self.log() =~= old_log.push(ev));
            assert(self.log().drop_last() =~= old_log);
            assert(self@ == table_of(old_log.push(ev)));
            assert(forall|j: int| 0 <= j < old_log.len() ==> old_log[j].path != ev.path);
        }
    }

    /// Serializes the table to its persisted byte form.
    pub fn serialize(&self) -> (out: Vec<u8>)
        ensures
            out@ == encode_log(self.log()),
            forall|i: int| 0 <= i < self.log().len() ==> entry_lengths_ok(#[trigger] self.log()[i]),
    {
        let n: usize = self.entries.len();
        let mut out: Vec<u8> = Vec::new();
        let mut i: usize = 0;
        proof {
            assert(self.log().skip(0) =~= self.log());
            assert(out@ + encode_log(self.log()) =~= encode_log(self.log()));
        }
        while i < n
            invariant
                0 <= i <= n,
                n == self.entries@.len(),
                out@ + encode_log(self.log().skip(i as int)) == encode_log(self.log()),
                forall|j: int| 0 <= j < i ==> entry_lengths_ok(#[trigger] self.log()[j]),
            decreases n - i,
        {
            let ghost pre = out@;
            let ghost suffix = self.log().skip(i as int);
            let ghost e = self.log()[i as int];
            let mut pb = self.entries[i].path.as_str().as_bytes_vec();
            proof {
                assert(pb@ == vstd::utf8::encode_utf8(e.path));
                assert(usize::MAX <= u64::MAX);
            }
            let mut lenb = u64_to_le_bytes(pb.len() as u64);
            out.append(&mut lenb);
            out.append(&mut pb);
            let mut mtb = u64_to_le_bytes(self.entries[i].mtime);
            out.append(&mut mtb);
            let mut hlb = u64_to_le_bytes(self.entries[i].hash.len() as u64);
            out.append(&mut hlb);
            let mut hb = slice_to_vec(self.entries[i].hash.as_slice());
            out.append(&mut hb);
            proof {
                assert(out@ =~= pre + encode_entry(e));
                assert(suffix.first() == e);
                assert(suffix.drop_first() =~= self.log().skip(i + 1));
                assert(encode_log(suffix) == encode_entry(e) + encode_log(self.log().skip(i + 1)));
                assert((pre + encode_entry(e)) + encode_log(self.log().skip(i + 1)) =~= pre + (
                encode_entry(e) + encode_log(self.log().skip(i + 1))));
            }
            i = i + 1;
        }
        proof {
            assert(self.log().skip(n as int) =~= Seq::<EntryModel>::empty());
            assert(out@ + encode_log(Seq::<EntryModel>::empty()) =~= out@);
        }
        out
    }

    /// Reads a table back from its persisted byte form. Any malformation —
    /// truncated data, an invalid path, a repeated path — yields the empty
    /// table: corruption is a cold cache, not an error.
    pub fn parse(bytes: &Vec<u8>) -> (c: HashCache)
        ensures
            c.wf(),
            c.log() == accepted_log(bytes@),
    {
        let n: usize = bytes.len();
        let mut entries: Vec<HashEntry> = Vec::new();
        let mut off: usize = 0;
        proof {
            assert(bytes@.skip(0) =~= bytes@);
            match decode_log(bytes@) {
                Some(es) => {
                    assert(entries@.map_values(|en: HashEntry| en@) + es =~= es);
                },
                None => {},
            }
        }
        while off < n
            invariant
                0 <= off <= n,
                n == bytes@.len(),
                decode_log(bytes@) == glue(
                    entries@.map_values(|en: HashEntry| en@),
                    decode_log(bytes@.skip(off as int)),
                ),
            decreases n - off,
        {
            let ghost logpre = entries@.map_values(|en: HashEntry| en@);
            let ghost bs = bytes@.skip(off as int);
            let avail: usize = n - off;
            if avail < 8 {
                proof {
                    assert(decode_log(bs) is None);
                }
                return HashCache::new();
            }
            let plen64: u64 = u64_from_le_bytes(slice_subrange(bytes.as_slice(), off, off + 8));
            proof {
                assert(bytes@.subrange(off as int, off as int + 8) =~= bs.subrange(0, 8));
            }
            if (plen64 as u128) + 24 > (avail as u128) {
                proof {
                    assert(decode_log(bs) is None);
                }
                return HashCache::new();
            }
            let plen: usize = plen64 as usize;
            let pvec: Vec<u8> = slice_to_vec(
                slice_subrange(bytes.as_slice(), off + 8, off + 8 + plen),
            );
            proof {
                assert(bytes@.subrange(off + 8, off + 8 + plen as int) =~= bs.subrange(
                    8,
                    8 + plen as int,
                ));
            }
            let ghost pb = pvec@;
            let sopt = string_from_utf8(pvec);
            let s: String = match sopt {
                Some(s) => s,
                None => {
                    proof {
                        assert(decode_log(bs) is None);
                    }
                    return HashCache::new();
                },
            };
            let mtime: u64 = u64_from_le_bytes(
                slice_subrange(bytes.as_slice(), off + 8 + plen, off + 16 + plen),
            );
            let hlen64: u64 = u64_from_le_bytes(
                slice_subrange(bytes.as_slice(), off + 16 + plen, off + 24 + plen),
            );
            proof {
                assert(bytes@.subrange(off + 8 + plen as int, off + 16 + plen as int)
                    =~= bs.subrange(8 + plen as int, 16 + plen as int));
                assert(bytes@.subrange(off + 16 + plen as int, off + 24 + plen as int)
                    =~= bs.subrange(16 + plen as int, 24 + plen as int));
            }
            if (hlen64 as u128) + 24 + (plen as u128) > (avail as u128) {
                proof {
                    assert(decode_log(bs) is None);
                }
                return HashCache::new();
            }
            let hlen: usize = hlen64 as usize;
            let hash: Vec<u8> = slice_to_vec(
                slice_subrange(bytes.as_slice(), off + 24 + plen, off + 24 + plen + hlen),
            );
            proof {
                assert(bytes@.subrange(off + 24 + plen as int, off + 24 + plen as int + hlen as int)
                    =~= bs.subrange(24 + plen as int, 24 + plen as int + hlen as int));
            }
            let entry = HashEntry { path: s, mtime, hash };
            let ghost ev = entry@;
            entries.push(entry);
            let newoff: usize = off + 24 + plen + hlen;
            proof {
                assert(bs.subrange(24 + plen as int + hlen as int, bs.len() as int)
                    =~= bytes@.skip(newoff as int));
                assert(decode_log(bs) == glue(seq![ev], decode_log(bytes@.skip(newoff as int))));
                assert(entries@.map_values(|en: HashEntry| en@) =~= logpre.push(ev));
                match decode_log(bytes@.skip(newoff as int)) {
                    Some(es) => {
                        assert(logpre + (seq![ev] + es) =~= logpre.push(ev) + es);
                    },
                    None => {},
                }
            }
            off = newoff;
        }
        proof {
            assert(bytes@.skip(n as int) =~= Seq::<u8>::empty());
            assert(decode_log(bytes@.skip(n as int)) == Some(Seq::<EntryModel>::empty()));
            assert(entries@.map_values(|en: HashEntry| en@) + Seq::<EntryModel>::empty()
                =~= entries@.map_values(|en: HashEntry| en@));
        }
        let ghost fulllog = entries@.map_values(|en: HashEntry| en@);
        let m: usize = entries.len();
        let mut i: usize = 0;
        while i < m
            invariant
                0 <= i <= m,
                m == entries@.len(),
                fulllog == entries@.map_values(|en: HashEntry| en@),
                decode_log(bytes@) == Some(fulllog),
                forall|a: int, b: int|
                    0 <= a < b < m && a < i ==> fulllog[a].path != fulllog[b].path,
            decreases m - i,
        {
            let mut j: usize = i + 1;
            while j < m
                invariant
                    0 <= i < j <= m,
                    m == entries@.len(),
                    fulllog == entries@.map_values(|en: HashEntry| en@),
                    decode_log(bytes@) == Some(fulllog),
                    forall|a: int, b: int|
                        0 <= a < b < m && a < i ==> fulllog[a].path != fulllog[b].path,
                    forall|b: int| i < b < j ==> fulllog[i as int].path != fulllog[b].path,
                decreases m - j,
            {
                if entries[i].path == entries[j].path {
                    proof {
                        assert(fulllog[i as int].path == fulllog[j as int].path);
                        assert(!distinct_paths(fulllog));
                    }
                    return HashCache::new();
                }
                j = j + 1;
            }
            i = i + 1;
        }
        let c = HashCache { entries };
        proof {
            assert(distinct_paths(c.log()));
            assert(c.log() == fulllog);
        }
        c
    }

    /// The number of entries held.
    pub fn len(&self) -> (n: usize)
        requires
            self.wf(),
        ensures
            n == self.log().len(),
    {
        self.entries.len()
    }
}

/// In a duplicate-free log, every entry is visible in the table.
proof fn lemma_table_entry(log: Seq<EntryModel>, i: int)
    requires
        distinct_paths(log),
        0 <= i < log.len(),
    ensures
        table_of(log).contains_key(log[i].path),
        table_of(log)[log[i].path] == (log[i].mtime, log[i].hash),
    decreases log.len(),
{
    if i == log.len() - 1 {
    } else {
        assert(distinct_paths(log.drop_last()));
        lemma_table_entry(log.drop_last(), i);
        assert(log[i].path != log.last().path);
    }
}

/// A path that no entry carries is absent from the table.
proof fn lemma_table_absent(log: Seq<EntryModel>, p: Seq<char>)
    requires
        forall|j: int| 0 <= j < log.len() ==> log[j].path != p,
    ensures
        !table_of(log).contains_key(p),
    decreases log.len(),
{
    if log.len() > 0 {
        lemma_table_absent(log.drop_last(), p);
    }
}

/// Replacing the entry of a path in place updates exactly that key.
proof fn lemma_table_update(log: Seq<EntryModel>, i: int, e: EntryModel)
    requires
        distinct_paths(log),
        0 <= i < log.len(),
        log[i].path == e.path,
    ensures
        table_of(log.update(i, e)) == table_of(log).insert(e.path, (e.mtime, e.hash)),
    decreases log.len(),
{
    let upd = log.update(i, e);
    if i == log.len() - 1 {
        assert(upd.drop_last() =~= log.drop_last());
        assert(table_of(upd) == table_of(log.drop_last()).insert(e.path, (e.mtime, e.hash)));
        assert(table_of(log).insert(e.path, (e.mtime, e.hash)) =~= table_of(
            log.drop_last(),
        ).insert(e.path, (e.mtime, e.hash)));
    } else {
        assert(distinct_paths(log.drop_last()));
        lemma_table_update(log.drop_last(), i, e);
        assert(upd.drop_last() =~= log.drop_last().update(i, e));
        assert(upd.last() == log.last());
        assert(log.last().path != e.path);
        assert(table_of(upd) == table_of(log.drop_last()).insert(e.path, (e.mtime, e.hash)).insert(
            log.last().path,
            (log.last().mtime, log.last().hash),
        ));
        assert(table_of(upd) =~= table_of(log).insert(e.path, (e.mtime, e.hash)));
    }
}

/// Cache correctness: after recording a hash for `p` at time `t`, a lookup of
/// `p` at `t` yields that hash; a lookup of `p` at any other time misses,
/// that entry alone having been invalidated; and a lookup of any other path
/// is unaffected by the insert.
pub proof fn lemma_cache_correctness(
    m: Map<Seq<char>, (u64, Seq<u8>)>,
    p: Seq<char>,
    t: u64,
    h: Seq<u8>,
    t2: u64,
    q: Seq<char>,
    tq: u64,
)
    requires
        t2 != t,
        q != p,
    ensures
        cached_hash(m.insert(p, (t, h)), p, t) == Some(h),
        cached_hash(m.insert(p, (t, h)), p, t2) is None,
        cached_hash(m.insert(p, (t, h)), q, tq) == cached_hash(m, q, tq),
{
}

} // verus!
