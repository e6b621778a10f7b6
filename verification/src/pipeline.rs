//! The cache-aside hashing pipeline.
//!
//! Each input path resolves to a hashed record or an error. Filesystem
//! metadata and decoded hashes are handed in as plain values, so the per-path
//! contract is: no metadata — count an error and drop the path; metadata plus
//! a cache hit on `(path, mtime)` — recall the hash without any decode; a
//! miss — consult the decoded hash, record it in the cache on success, count
//! an error on failure. The cache is the only state a run carries over.

use crate::cache::cached_hash;
use crate::cache::HashCache;
use crate::folder::ImageInfo;
use crate::folder::ImageWithHash;
use crate::folder::RecordModel;
use vstd::prelude::*;

verus! {

/// Filesystem facts about one input path, as the caller observed them.
pub struct StatInfo {
    pub mtime: u64,
    pub size: u64,
    pub filename: String,
}

/// One input to a detection run: the path, the metadata read for it
/// (`None`: file missing or unreadable), and the hash its content decodes
/// to (`None`: decode failure), consulted only on a cache miss.
pub struct PathInput {
    pub path: String,
    pub stat: Option<StatInfo>,
    pub decoded: Option<Vec<u8>>,
}

/// What a pipeline run yields: the hashed records in input order, the error
/// count, the number of paths whose decode was consulted, and the cache
/// state left behind.
pub struct PipeOutcome {
    pub records: Seq<RecordModel>,
    pub errors: int,
    pub decodes: int,
    pub cache: Map<Seq<char>, (u64, Seq<u8>)>,
}

/// The pipeline, one path at a time, front to back.
pub open spec fn pipeline_model(
    c: Map<Seq<char>, (u64, Seq<u8>)>,
    inputs: Seq<PathInput>,
) -> PipeOutcome
    decreases inputs.len(),
{
    if inputs.len() == 0 {
        PipeOutcome { records: Seq::empty(), errors: 0, decodes: 0, cache: c }
    } else {
        let inp = inputs[0];
        match inp.stat {
            None => {
                let rest = pipeline_model(c, inputs.drop_first());
                PipeOutcome {
                    records: rest.records,
                    errors: rest.errors + 1,
                    decodes: rest.decodes,
                    cache: rest.cache,
                }
            },
            Some(st) => {
                match cached_hash(c, inp.path@, st.mtime) {
                    Some(h) => {
                        let rec = RecordModel {
                            path: inp.path@,
                            filename: st.filename@,
                            size_bytes: st.size,
                            hash: h,
                        };
                        let rest = pipeline_model(c, inputs.drop_first());
                        PipeOutcome {
                            records: seq![rec] + rest.records,
                            errors: rest.errors,
                            decodes: rest.decodes,
                            cache: rest.cache,
                        }
                    },
                    None => {
                        match inp.decoded {
                            None => {
                                let rest = pipeline_model(c, inputs.drop_first());
                                PipeOutcome {
                                    records: rest.records,
                                    errors: rest.errors + 1,
                                    decodes: rest.decodes + 1,
                                    cache: rest.cache,
                                }
                            },
                            Some(hv) => {
                                let rec = RecordModel {
                                    path: inp.path@,
                                    filename: st.filename@,
                                    size_bytes: st.size,
                                    hash: hv@,
                                };
                                let rest = pipeline_model(
                                    c.insert(inp.path@, (st.mtime, hv@)),
                                    inputs.drop_first(),
                                );
                                PipeOutcome {
                                    records: seq![rec] + rest.records,
                                    errors: rest.errors,
                                    decodes: rest.decodes + 1,
                                    cache: rest.cache,
                                }
                            },
                        }
                    },
                }
            },
        }
    }
}

/// Every path resolves one way or the other: records and errors together
/// account for all inputs.
pub proof fn lemma_pipeline_counts(c: Map<Seq<char>, (u64, Seq<u8>)>, inputs: Seq<PathInput>)
    ensures
        pipeline_model(c, inputs).records.len() + pipeline_model(c, inputs).errors
            == inputs.len(),
        pipeline_model(c, inputs).errors >= 0,
        pipeline_model(c, inputs).decodes >= 0,
    decreases inputs.len(),
{
    if inputs.len() > 0 {
        let inp = inputs[0];
        match inp.stat {
            None => lemma_pipeline_counts(c, inputs.drop_first()),
            Some(st) => {
                match cached_hash(c, inp.path@, st.mtime) {
                    Some(_) => lemma_pipeline_counts(c, inputs.drop_first()),
                    None => {
                        match inp.decoded {
                            None => lemma_pipeline_counts(c, inputs.drop_first()),
                            Some(hv) => lemma_pipeline_counts(
                                c.insert(inp.path@, (st.mtime, hv@)),
                                inputs.drop_first(),
                            ),
                        }
                    },
                }
            },
        }
    }
}

/// The number of inputs whose metadata read failed: missing or unreadable
/// paths.
pub open spec fn missing_count(inputs: Seq<PathInput>) -> int
    decreases inputs.len(),
{
    if inputs.len() == 0 {
        0
    } else {
        (if inputs[0].stat is None {
            1int
        } else {
            0int
        }) + missing_count(inputs.drop_first())
    }
}

/// Error accounting: when every readable input decodes, a run's errors are
/// exactly its missing or unreadable paths, and it processes all the rest.
pub proof fn lemma_error_accounting(c: Map<Seq<char>, (u64, Seq<u8>)>, inputs: Seq<PathInput>)
    requires
        forall|i: int|
            0 <= i < inputs.len() && (#[trigger] inputs[i]).stat is Some ==> inputs[i].decoded
                is Some,
    ensures
        pipeline_model(c, inputs).errors == missing_count(inputs),
        pipeline_model(c, inputs).records.len() == inputs.len() - missing_count(inputs),
    decreases inputs.len(),
{
    lemma_pipeline_counts(c, inputs);
    if inputs.len() > 0 {
        let inp = inputs[0];
        let rest = inputs.drop_first();
        assert(forall|i: int| 0 <= i < rest.len() ==> #[trigger] rest[i] == inputs[i + 1]);
        match inp.stat {
            None => lemma_error_accounting(c, rest),
            Some(st) => {
                match cached_hash(c, inp.path@, st.mtime) {
                    Some(_) => lemma_error_accounting(c, rest),
                    None => {
                        let hv = inp.decoded->0;
                        lemma_error_accounting(c.insert(inp.path@, (st.mtime, hv@)), rest);
                    },
                }
            },
        }
    }
}

/// The number of inputs that fail outright: the metadata read failed, or
/// the content did not decode.
pub open spec fn failed_count(inputs: Seq<PathInput>) -> int
    decreases inputs.len(),
{
    if inputs.len() == 0 {
        0
    } else {
        (if inputs[0].stat is None || inputs[0].decoded is None {
            1int
        } else {
            0int
        }) + failed_count(inputs.drop_first())
    }
}

/// Error accounting on a cold cache: when no input path is cached yet and
/// no path is named twice, every readable path misses, so a run's errors
/// are exactly the inputs whose metadata read or decode failed, and it
/// processes all the rest.
pub proof fn lemma_error_accounting_cold(c: Map<Seq<char>, (u64, Seq<u8>)>, inputs: Seq<PathInput>)
    requires
        forall|i: int| 0 <= i < inputs.len() ==> !c.contains_key((#[trigger] inputs[i]).path@),
        forall|i: int, j: int|
            0 <= i < j < inputs.len() ==> (#[trigger] inputs[i]).path@ != (#[trigger] inputs[j]).path@,
    ensures
        pipeline_model(c, inputs).errors == failed_count(inputs),
        pipeline_model(c, inputs).records.len() == inputs.len() - failed_count(inputs),
    decreases inputs.len(),
{
    lemma_pipeline_counts(c, inputs);
    if inputs.len() > 0 {
        let inp = inputs[0];
        let rest = inputs.drop_first();
        assert(forall|i: int| 0 <= i < rest.len() ==> #[trigger] rest[i] == inputs[i + 1]);
        match inp.stat {
            None => lemma_error_accounting_cold(c, rest),
            Some(st) => {
                assert(cached_hash(c, inp.path@, st.mtime) is None);
                match inp.decoded {
                    None => lemma_error_accounting_cold(c, rest),
                    Some(hv) => {
                        let c2 = c.insert(inp.path@, (st.mtime, hv@));
                        assert(forall|i: int|
                            0 <= i < rest.len() ==> !c2.contains_key(
                                (#[trigger] rest[i]).path@,
                            ));
                        lemma_error_accounting_cold(c2, rest);
                    },
                }
            },
        }
    }
}

/// After a run, the cache entry of a path that no input names is exactly
/// what it was before the run.
proof fn lemma_pipeline_preserves_other_paths(
    c: Map<Seq<char>, (u64, Seq<u8>)>,
    inputs: Seq<PathInput>,
    p: Seq<char>,
)
    requires
        forall|i: int| 0 <= i < inputs.len() ==> (#[trigger] inputs[i]).path@ != p,
    ensures
        pipeline_model(c, inputs).cache.contains_key(p) == c.contains_key(p),
        c.contains_key(p) ==> pipeline_model(c, inputs).cache[p] == c[p],
    decreases inputs.len(),
{
    if inputs.len() > 0 {
        let inp = inputs[0];
        let rest = inputs.drop_first();
        assert(forall|i: int| 0 <= i < rest.len() ==> #[trigger] rest[i] == inputs[i + 1]);
        match inp.stat {
            None => lemma_pipeline_preserves_other_paths(c, rest, p),
            Some(st) => {
                match cached_hash(c, inp.path@, st.mtime) {
                    Some(_) => lemma_pipeline_preserves_other_paths(c, rest, p),
                    None => {
                        match inp.decoded {
                            None => lemma_pipeline_preserves_other_paths(c, rest, p),
                            Some(hv) => {
                                lemma_pipeline_preserves_other_paths(
                                    c.insert(inp.path@, (st.mtime, hv@)),
                                    rest,
                                    p,
                                );
                            },
                        }
                    },
                }
            },
        }
    }
}

/// Idempotence: a second run over an unchanged input list, against the
/// cache the first run left behind, yields the same records, the same
/// errors and the same cache, and consults the decoder for no path at all —
/// every lookup is a cache hit. Identical records make identical groups at
/// any threshold, the grouping being a function of the records alone.
/// The hypotheses are the data model's own: a path is a unique key within
/// a run, and a path whose decode failed is retried — only inputs that
/// decode are cached, so only they can be recalled.
pub proof fn lemma_detection_idempotent(c: Map<Seq<char>, (u64, Seq<u8>)>, inputs: Seq<PathInput>)
    requires
        forall|i: int, j: int|
            0 <= i < j < inputs.len() ==> (#[trigger] inputs[i]).path@ != (#[trigger] inputs[j]).path@,
        forall|i: int|
            0 <= i < inputs.len() && (#[trigger] inputs[i]).stat is Some ==> inputs[i].decoded
                is Some,
    ensures
        ({
            let m1 = pipeline_model(c, inputs);
            let m2 = pipeline_model(m1.cache, inputs);
            &&& m2.records == m1.records
            &&& m2.errors == m1.errors
            &&& m2.cache == m1.cache
            &&& m2.decodes == 0
        }),
    decreases inputs.len(),
{
    if inputs.len() > 0 {
        let inp = inputs[0];
        let rest = inputs.drop_first();
        assert(forall|i: int| 0 <= i < rest.len() ==> #[trigger] rest[i] == inputs[i + 1]);
        let p = inp.path@;
        assert(forall|i: int| 0 <= i < rest.len() ==> (#[trigger] rest[i]).path@ != p);
        match inp.stat {
            None => {
                lemma_detection_idempotent(c, rest);
            },
            Some(st) => {
                match cached_hash(c, p, st.mtime) {
                    Some(h) => {
                        lemma_detection_idempotent(c, rest);
                        lemma_pipeline_preserves_other_paths(c, rest, p);
                        assert(cached_hash(pipeline_model(c, rest).cache, p, st.mtime) == Some(h));
                    },
                    None => {
                        let hv = inp.decoded->0;
                        let c2 = c.insert(p, (st.mtime, hv@));
                        lemma_detection_idempotent(c2, rest);
                        lemma_pipeline_preserves_other_paths(c2, rest, p);
                        assert(cached_hash(pipeline_model(c2, rest).cache, p, st.mtime) == Some(
                            hv@,
                        ));
                    },
                }
            },
        }
    }
}

/// The views of a record list.
pub open spec fn record_views(records: Seq<ImageWithHash>) -> Seq<RecordModel> {
    records.map_values(|r: ImageWithHash| r@)
}

/// Runs the hashing pipeline over the inputs, front to back, against the
/// shared cache: per path, a metadata failure or a decode failure counts
/// one error; a cache hit recalls the stored hash; a computed hash is
/// recorded in the cache. Returns the hashed records in input order and the
/// error count.
#[verifier::loop_isolation(false)]
pub fn run_pipeline(cache: &mut HashCache, inputs: &Vec<PathInput>) -> (out: (
    Vec<ImageWithHash>,
    usize,
))
    requires
        old(cache).wf(),
    ensures
        final(cache).wf(),
        record_views(out.0@) == pipeline_model(old(cache)@, inputs@).records,
        out.1 == pipeline_model(old(cache)@, inputs@).errors,
        final(cache)@ == pipeline_model(old(cache)@, inputs@).cache,
{
    let ghost full = pipeline_model(old(cache)@, inputs@);
    let n: usize = inputs.len();
    let mut records: Vec<ImageWithHash> = Vec::new();
    let mut errors: usize = 0;
    let mut i: usize = 0;
    proof {
        assert(inputs@.skip(0) =~= inputs@);
        assert(record_views(records@) + full.records =~= full.records);
    }
    while i < n
        invariant
            0 <= i <= n,
            cache.wf(),
            errors <= i,
            ({
                let rest = pipeline_model(cache@, inputs@.skip(i as int));
                &&& full.records == record_views(records@) + rest.records
                &&& full.errors == errors + rest.errors
                &&& full.cache == rest.cache
            }),
        decreases n - i,
    {
        let ghost rest = pipeline_model(cache@, inputs@.skip(i as int));
        let ghost pre_records = records@;
        proof {
            assert(inputs@.skip(i as int)[0] == inputs@[i as int]);
            assert(inputs@.skip(i as int).drop_first() =~= inputs@.skip(i as int + 1));
        }
        match &inputs[i].stat {
            None => {
                errors = errors + 1;
            },
            Some(st) => {
                match cache.lookup(&inputs[i].path, st.mtime) {
                    Some(h) => {
                        let rec = ImageWithHash {
                            info: ImageInfo {
                                path: inputs[i].path.clone(),
                                filename: st.filename.clone(),
                                size_bytes: st.size,
                            },
                            hash: h,
                        };
                        let ghost rv = rec@;
                        records.push(rec);
                        proof {
                            let tail = pipeline_model(cache@, inputs@.skip(i as int + 1));
                            assert(rest.records == seq![rv] + tail.records);
                            assert(record_views(records@) =~= record_views(pre_records).push(rv));
                            assert(record_views(pre_records).push(rv) + tail.records
                                =~= record_views(pre_records) + (seq![rv] + tail.records));
                        }
                    },
                    None => {
                        match &inputs[i].decoded {
                            None => {
                                errors = errors + 1;
                            },
                            Some(hv) => {
                                let hash_for_record = vstd::slice::slice_to_vec(hv.as_slice());
                                let hash_for_cache = vstd::slice::slice_to_vec(hv.as_slice());
                                cache.insert(inputs[i].path.clone(), st.mtime, hash_for_cache);
                                let rec = ImageWithHash {
                                    info: ImageInfo {
                                        path: inputs[i].path.clone(),
                                        filename: st.filename.clone(),
                                        size_bytes: st.size,
                                    },
                                    hash: hash_for_record,
                                };
                                let ghost rv = rec@;
                                records.push(rec);
                                proof {
                                    let tail = pipeline_model(cache@, inputs@.skip(i as int + 1));
                                    assert(rest.records == seq![rv] + tail.records);
                                    assert(record_views(records@) =~= record_views(
                                        pre_records,
                                    ).push(rv));
                                    assert(record_views(pre_records).push(rv) + tail.records
                                        =~= record_views(pre_records) + (seq![rv] + tail.records));
                                }
                            },
                        }
                    },
                }
            },
        }
        i = i + 1;
    }
    proof {
        assert(inputs@.skip(n as int) =~= Seq::<PathInput>::empty());
        assert(record_views(records@) + Seq::<RecordModel>::empty() =~= record_views(records@));
    }
    (records, errors)
}

} // verus!
