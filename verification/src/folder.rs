//! The duplicate-detection entry point and the data a detection or scan run
//! produces: image records, hashed records, duplicate groups and the run
//! totals.

use crate::cache::HashCache;
use crate::grouping::group_duplicates;
use crate::grouping::group_seeds;
use crate::grouping::hashes_of;
use crate::grouping::lemma_member_indices_upto_props;
use crate::grouping::member_indices;
use crate::grouping::surplus_sum;
use crate::grouping::total_duplicates_model;
use crate::pipeline::lemma_pipeline_counts;
use crate::pipeline::pipeline_model;
use crate::pipeline::record_views;
use crate::pipeline::run_pipeline;
use crate::pipeline::PathInput;
use vstd::prelude::*;

verus! {

/// Abstract content of an `ImageInfo`.
pub struct InfoModel {
    pub path: Seq<char>,
    pub filename: Seq<char>,
    pub size_bytes: u64,
}

/// Abstract content of an `ImageWithHash`.
pub struct RecordModel {
    pub path: Seq<char>,
    pub filename: Seq<char>,
    pub size_bytes: u64,
    pub hash: Seq<u8>,
}

/// The record information held in an abstract hashed record.
pub open spec fn info_of(r: RecordModel) -> InfoModel {
    InfoModel { path: r.path, filename: r.filename, size_bytes: r.size_bytes }
}

/// Information about one image file.
pub struct ImageInfo {
    pub path: String,
    pub filename: String,
    pub size_bytes: u64,
}

impl View for ImageInfo {
    type V = InfoModel;

    open spec fn view(&self) -> InfoModel {
        InfoModel { path: self.path@, filename: self.filename@, size_bytes: self.size_bytes }
    }
}

impl Clone for ImageInfo {
    fn clone(&self) -> (res: Self)
        ensures
            res == *self,
    {
        ImageInfo {
            path: self.path.clone(),
            filename: self.filename.clone(),
            size_bytes: self.size_bytes,
        }
    }
}

/// Result of scanning a folder for images.
pub struct ScanResult {
    pub image_count: usize,
    pub total_size_bytes: u64,
    pub images: Vec<ImageInfo>,
}

/// A record together with the perceptual hash computed or recalled for it.
pub struct ImageWithHash {
    pub info: ImageInfo,
    pub hash: Vec<u8>,
}

impl View for ImageWithHash {
    type V = RecordModel;

    open spec fn view(&self) -> RecordModel {
        RecordModel {
            path: self.info.path@,
            filename: self.info.filename@,
            size_bytes: self.info.size_bytes,
            hash: self.hash@,
        }
    }
}

/// A set of records whose hashes lie within the run's threshold of one
/// common seed record.
pub struct DuplicateGroup {
    pub images: Vec<ImageInfo>,
}

/// The outcome of one detection run.
pub struct DuplicateResult {
    pub groups: Vec<DuplicateGroup>,
    pub total_duplicates: usize,
    pub processed: usize,
    pub errors: usize,
}

/// Result of a date-sorting run.
#[derive(Debug)]
pub struct SortResult {
    pub processed: usize,
    pub success: usize,
    pub errors: usize,
    pub error_messages: Vec<String>,
}

/// Options of a date-sorting run.
#[derive(Debug, Clone)]
pub struct SortOptions {
    pub use_day_folder: bool,
    pub use_month_names: bool,
}

/// The total size of a list of images, in bytes.
pub open spec fn total_size_of(images: Seq<ImageInfo>) -> int
    decreases images.len(),
{
    if images.len() == 0 {
        0
    } else {
        total_size_of(images.drop_last()) + images.last().size_bytes
    }
}

/// Summarizes a scan: the images found, how many there are and how many
/// bytes they hold together, the total saturating at the largest
/// representable value.
#[verifier::loop_isolation(false)]
pub fn summarize_scan(images: Vec<ImageInfo>) -> (r: ScanResult)
    ensures
        r.images@ == images@,
        r.image_count == images@.len(),
        r.total_size_bytes as int == if total_size_of(images@) <= u64::MAX {
            total_size_of(images@)
        } else {
            u64::MAX as int
        },
{
    let n: usize = images.len();
    let mut total: u64 = 0;
    let mut i: usize = 0;
    proof {
        assert(images@.take(0) =~= Seq::<ImageInfo>::empty());
    }
    while i < n
        invariant
            0 <= i <= n,
            total as int == if total_size_of(images@.take(i as int)) <= u64::MAX {
                total_size_of(images@.take(i as int))
            } else {
                u64::MAX as int
            },
        decreases n - i,
    {
        proof {
            assert(images@.take(i as int + 1).drop_last() =~= images@.take(i as int));
            assert(images@.take(i as int + 1).last() == images@[i as int]);
        }
        let sz: u64 = images[i].size_bytes;
        if total > u64::MAX - sz {
            total = u64::MAX;
        } else {
            total = total + sz;
        }
        i = i + 1;
    }
    proof {
        assert(images@.take(n as int) =~= images@);
    }
    ScanResult { image_count: n, total_size_bytes: total, images }
}

/// The hash values of a run's abstract records, in record order.
pub open spec fn model_hashes(records: Seq<RecordModel>) -> Seq<Seq<u8>> {
    records.map_values(|r: RecordModel| r.hash)
}

/// Whether an emitted group carries exactly the records owned by seed `s`,
/// in input order — stated over the abstract records of the run.
pub open spec fn group_images_match(
    records: Seq<RecordModel>,
    hs: Seq<Seq<u8>>,
    t: int,
    group: DuplicateGroup,
    s: int,
) -> bool {
    let mids = member_indices(hs, t, s);
    &&& group.images@.len() == mids.len()
    &&& forall|k: int|
        0 <= k < mids.len() ==> (#[trigger] group.images@[k])@ == info_of(records[mids[k]])
}

/// Everything a detection run promises: the cache is advanced exactly as
/// the pipeline prescribes; `processed` counts the hashed records and
/// `errors` the dropped paths, together accounting for every input; the
/// groups are the single-linkage groups of the records' hashes at the given
/// threshold, in seed order, members in input order; and `total_duplicates`
/// counts the surplus copies.
pub open spec fn detection_post(
    c0: Map<Seq<char>, (u64, Seq<u8>)>,
    inputs: Seq<PathInput>,
    t: int,
    r: DuplicateResult,
    c1: Map<Seq<char>, (u64, Seq<u8>)>,
) -> bool {
    let m = pipeline_model(c0, inputs);
    let hs = model_hashes(m.records);
    let gs = group_seeds(hs, t);
    &&& c1 == m.cache
    &&& r.processed == m.records.len()
    &&& r.errors == m.errors
    &&& r.processed + r.errors == inputs.len()
    &&& r.groups@.len() == gs.len()
    &&& forall|g: int|
        0 <= g < gs.len() ==> group_images_match(m.records, hs, t, #[trigger] r.groups@[g], gs[g])
    &&& r.total_duplicates == surplus_sum(r.groups@)
    &&& r.total_duplicates == total_duplicates_model(hs, t)
}

/// Finds near-duplicates among the given inputs: every path resolves to a
/// hashed record through the cache-aside pipeline or is counted as an
/// error, and the hashed records are grouped by Hamming distance within the
/// inclusive threshold.
pub fn find_duplicates(inputs: &Vec<PathInput>, threshold: u32, cache: &mut HashCache) -> (r:
    DuplicateResult)
    requires
        old(cache).wf(),
    ensures
        final(cache).wf(),
        detection_post(old(cache)@, inputs@, threshold as int, r, final(cache)@),
{
    let (records, errors) = run_pipeline(cache, inputs);
    let (groups, total) = group_duplicates(&records, threshold);
    let processed: usize = records.len();
    proof {
        lemma_pipeline_counts(old(cache)@, inputs@);
        let m = pipeline_model(old(cache)@, inputs@);
        let t = threshold as int;
        let hs = model_hashes(m.records);
        assert(record_views(records@) == m.records);
        assert(hashes_of(records@) =~= hs);
        let gs = group_seeds(hs, t);
        assert forall|g: int| 0 <= g < gs.len() implies group_images_match(
            m.records,
            hs,
            t,
            #[trigger] groups@[g],
            gs[g],
        ) by {
            let mids = member_indices(hs, t, gs[g]);
            lemma_member_indices_upto_props(hs, t, gs[g], hs.len() as int);
            assert forall|k: int| 0 <= k < mids.len() implies (#[trigger] groups@[g].images@[k])@
                == info_of(m.records[mids[k]]) by {
                assert(groups@[g].images@[k] == records@[mids[k]].info);
            }
        }
    }
    DuplicateResult { groups, total_duplicates: total, processed, errors }
}

} // verus!
