//! Which log files to delete: first those past their retention period, then,
//! while the rest exceed the size limit, those with the highest priority
//! score (old, large, low-severity files first).
use vstd::prelude::*;
use std::collections::HashMap;
use std::time::{Duration, SystemTime};
use crate::storage::frame::LogLevel;
use crate::text::texts;

verus! {

broadcast use vstd::std_specs::hash::group_hash_axioms;

/// `SystemTime::elapsed`: the time from `t` until now by the system clock,
/// or `None` when `t` lies in the future.
#[verifier::external_body]
fn elapsed_since(t: &SystemTime) -> Option<Duration> {
    t.elapsed().ok()
}

/// `Duration::as_secs`: the whole seconds of `d`.
#[verifier::external_body]
fn whole_secs(d: &Duration) -> u64 {
    d.as_secs()
}

/// The number of whole days in `secs` seconds, truncated to 32 bits.
pub open spec fn days_in_secs(secs: u64) -> u32 {
    (secs / 86400) as u32
}

/// The number of whole days in `secs` seconds, truncated to 32 bits.
pub fn age_days_from_secs(secs: u64) -> (r: u32)
    ensures
        r == days_in_secs(secs),
{
    (secs / 86400) as u32
}

/// A file's age in whole days from the time elapsed since its creation, in
/// whole seconds: zero for a file from the future (`None`), else the whole
/// days in those seconds.
pub open spec fn age_from_elapsed(elapsed_secs: Option<u64>) -> u32 {
    match elapsed_secs {
        None => 0,
        Some(secs) => days_in_secs(secs),
    }
}

/// A file's age in whole days from the time elapsed since its creation.
pub fn age_days_from_elapsed(elapsed_secs: Option<u64>) -> (r: u32)
    ensures
        r == age_from_elapsed(elapsed_secs),
{
    match elapsed_secs {
        None => 0,
        Some(secs) => age_days_from_secs(secs),
    }
}

/// A log file, as cleanup sees it.
pub struct LogFile {
    /// Where the file lies.
    pub path: std::path::PathBuf,
    /// Its size in bytes.
    pub size: usize,
    /// When it was created.
    pub created_at: SystemTime,
    /// The most severe level of an entry in it.
    pub min_level: LogLevel,
}

impl LogFile {
    /// How many whole days ago the file was created; zero for a file from the future.
    pub fn age_days(&self) -> (r: u32)
        ensures
            exists|elapsed_secs: Option<u64>| r == #[trigger] age_from_elapsed(elapsed_secs),
    {
        let elapsed_secs = match elapsed_since(&self.created_at) {
            Some(d) => Some(whole_secs(&d)),
            None => None,
        };
        age_days_from_elapsed(elapsed_secs)
    }
}

/// The weight of a file's level in its priority score: the less severe, the higher.
pub open spec fn level_score(level: LogLevel) -> int {
    match level {
        LogLevel::Debug => 1000,
        LogLevel::Verbose => 900,
        LogLevel::Info => 500,
        LogLevel::Warn => 100,
        LogLevel::Error => 0,
    }
}

/// The priority score of a file: 100 per day of age, 1 per whole KiB, plus
/// the weight of its level. Higher scores are deleted first.
pub open spec fn priority(age_days: u32, size: usize, level: LogLevel) -> int {
    age_days * 100 + size / 1024 + level_score(level)
}

/// Among files of equal age and size, the less severe level scores higher:
/// debug, then verbose, info, warning and error; among files of equal
/// level, an older or a larger one scores at least as high.
pub proof fn lemma_priority_order(age_days: u32, size: usize, older: u32, larger: usize, level: LogLevel)
    requires
        age_days <= older,
        size <= larger,
    ensures
        priority(age_days, size, LogLevel::Debug) > priority(age_days, size, LogLevel::Verbose),
        priority(age_days, size, LogLevel::Verbose) > priority(age_days, size, LogLevel::Info),
        priority(age_days, size, LogLevel::Info) > priority(age_days, size, LogLevel::Warn),
        priority(age_days, size, LogLevel::Warn) > priority(age_days, size, LogLevel::Error),
        priority(age_days, size, level) <= priority(older, larger, level),
        age_days < older ==> priority(age_days, size, level) < priority(older, size, level),
{
    assert(size / 1024 <= larger / 1024) by (nonlinear_arith)
        requires
            size <= larger,
    ;
}

/// The priority score of a file of this age, size and level.
pub fn priority_score_of(age_days: u32, size: usize, level: LogLevel) -> (r: u64)
    ensures
        r == priority(age_days, size, level),
{
    let level_part: u64 = match level {
        LogLevel::Debug => 1000,
        LogLevel::Verbose => 900,
        LogLevel::Info => 500,
        LogLevel::Warn => 100,
        LogLevel::Error => 0,
    };
    let age_part = age_days as u64 * 100;
    let size_part = (size / 1024) as u64;
    age_part + size_part + level_part
}

/// Rules for deleting log files.
pub struct CleanupPolicy {
    /// The most bytes all log files may take together.
    pub max_total_size: usize,
    /// The most bytes one log file may take.
    pub max_file_size: usize,
    /// How many days a file is kept when its level has no rule of its own.
    pub retention_days: u32,
    /// Days to keep a file, by the code of its level (`LogLevel::code`).
    pub level_retention: HashMap<u8, u32>,
}

impl CleanupPolicy {
    /// How many days a file of `level` is kept.
    pub open spec fn retention(&self, level: LogLevel) -> u32 {
        if self.level_retention@.contains_key(level.code()) {
            self.level_retention@[level.code()]
        } else {
            self.retention_days
        }
    }

    /// Whether a file of this age and level has outlived its retention.
    pub open spec fn expired(&self, age_days: u32, level: LogLevel) -> bool {
        age_days > self.retention(level)
    }

    /// How many days a file of `level` is kept.
    pub fn retention_for(&self, level: LogLevel) -> (r: u32)
        ensures
            r == self.retention(level),
    {
        let code = level.to_u8();
        match self.level_retention.get(&code) {
            Some(d) => *d,
            None => self.retention_days,
        }
    }

    /// Whether a file `age_days` old, of `level`, has outlived its retention:
    /// it is kept for exactly the retention period, and deleted after.
    pub fn is_expired(&self, age_days: u32, level: LogLevel) -> (r: bool)
        ensures
            r == self.expired(age_days, level),
    {
        age_days > self.retention_for(level)
    }

    /// Whether `file`, at its age now, has outlived its retention.
    pub fn should_delete_by_time(&self, file: &LogFile) -> (r: bool)
        ensures
            r ==> self.retention(file.min_level) < u32::MAX,
    {
        self.is_expired(file.age_days(), file.min_level)
    }

    /// The priority score of `file` at its age now.
    pub fn priority_score(&self, file: &LogFile) -> (r: u64)
        ensures
            exists|age: u32| r == priority(age, file.size, file.min_level),
    {
        priority_score_of(file.age_days(), file.size, file.min_level)
    }
}

/// The default rules: 50 MiB in all, 10 MiB per file, seven days, and one
/// day for debug, three for info, seven for warnings, thirty for errors.
pub open spec fn default_retention() -> Map<u8, u32> {
    map![1u8 => 1u32, 2u8 => 3u32, 3u8 => 7u32, 4u8 => 30u32]
}

impl Default for CleanupPolicy {
    fn default() -> (r: CleanupPolicy)
        ensures
            r.max_total_size == 50 * 1024 * 1024,
            r.max_file_size == 10 * 1024 * 1024,
            r.retention_days == 7,
            r.level_retention@ == default_retention(),
    {
        let mut level_retention: HashMap<u8, u32> = HashMap::new();
        level_retention.insert(LogLevel::Debug.to_u8(), 1);
        level_retention.insert(LogLevel::Info.to_u8(), 3);
        level_retention.insert(LogLevel::Warn.to_u8(), 7);
        level_retention.insert(LogLevel::Error.to_u8(), 30);
        assert(level_retention@ =~= default_retention());
        CleanupPolicy {
            max_total_size: 50 * 1024 * 1024,
            max_file_size: 10 * 1024 * 1024,
            retention_days: 7,
            level_retention,
        }
    }
}

/// What a cleanup deleted.
pub struct CleanupReport {
    /// How many files were deleted.
    pub files_deleted: usize,
    /// How many bytes they held.
    pub bytes_freed: u64,
    /// Their paths, in the order they were deleted.
    pub deleted_files: Vec<String>,
}

impl CleanupReport {
    /// A report of nothing deleted.
    pub fn new() -> (r: CleanupReport)
        ensures
            r.files_deleted == 0,
            r.bytes_freed == 0,
            r.deleted_files@.len() == 0,
    {
        CleanupReport { files_deleted: 0, bytes_freed: 0, deleted_files: Vec::new() }
    }
}

/// A log file reduced to what the cleanup decisions read: its path as text,
/// its size, its age in days and its level.
#[derive(Debug, Clone)]
pub struct CleanupCandidate {
    pub path: String,
    pub size: usize,
    pub age_days: u32,
    pub min_level: LogLevel,
}

/// The indices `i < k` of the files past their retention, in order.
pub open spec fn expired_upto(policy: CleanupPolicy, files: Seq<CleanupCandidate>, k: int) -> Seq<usize>
    decreases k,
{
    if k <= 0 {
        Seq::empty()
    } else {
        let prev = expired_upto(policy, files, k - 1);
        if policy.expired(files[k - 1].age_days, files[k - 1].min_level) {
            prev.push((k - 1) as usize)
        } else {
            prev
        }
    }
}

/// The indices `i < k` of the files whose path is not among `deleted`, in order.
pub open spec fn remaining_upto(files: Seq<CleanupCandidate>, deleted: Seq<Seq<char>>, k: int) -> Seq<usize>
    decreases k,
{
    if k <= 0 {
        Seq::empty()
    } else {
        let prev = remaining_upto(files, deleted, k - 1);
        if !deleted.contains(files[k - 1].path@) {
            prev.push((k - 1) as usize)
        } else {
            prev
        }
    }
}

/// The total size of the files at the indices `idx`.
pub open spec fn sizes_sum(files: Seq<CleanupCandidate>, idx: Seq<usize>) -> int
    decreases idx.len(),
{
    if idx.len() == 0 {
        0
    } else {
        files[idx[0] as int].size + sizes_sum(files, idx.drop_first())
    }
}

/// The total size of the first `k` files.
pub open spec fn size_upto(files: Seq<CleanupCandidate>, k: int) -> int
    decreases k,
{
    if k <= 0 {
        0
    } else {
        size_upto(files, k - 1) + files[k - 1].size
    }
}

/// The priority score of the file at index `i`.
pub open spec fn priority_at(files: Seq<CleanupCandidate>, i: usize) -> int {
    priority(files[i as int].age_days, files[i as int].size, files[i as int].min_level)
}

/// Whether the file at `a` is deleted before the one at `b` when the size
/// limit is exceeded: higher score first, and the earlier file on a tie.
pub open spec fn precedes(files: Seq<CleanupCandidate>, a: usize, b: usize) -> bool {
    priority_at(files, a) > priority_at(files, b) || (priority_at(files, a) == priority_at(files, b) && a < b)
}

/// `q` holds the indices of `rem`, each once, ordered by `precedes`.
pub open spec fn is_size_order(files: Seq<CleanupCandidate>, rem: Seq<usize>, q: Seq<usize>) -> bool {
    &&& q.len() == rem.len()
    &&& forall|x: usize| q.contains(x) <==> rem.contains(x)
    &&& forall|i: int, j: int| 0 <= i < j < q.len() ==> precedes(files, #[trigger] q[i], #[trigger] q[j])
}

/// The indices in `expired_upto` lie below `k` and ascend strictly.
pub proof fn lemma_expired_upto(policy: CleanupPolicy, files: Seq<CleanupCandidate>, k: int)
    requires
        0 <= k <= files.len() <= usize::MAX,
    ensures
        forall|i: int| 0 <= i < expired_upto(policy, files, k).len() ==> #[trigger] expired_upto(policy, files, k)[i] < k,
        forall|i: int, j: int|
            0 <= i < j < expired_upto(policy, files, k).len() ==> #[trigger] expired_upto(policy, files, k)[i]
                < #[trigger] expired_upto(policy, files, k)[j],
    decreases k,
{
    if k > 0 {
        lemma_expired_upto(policy, files, k - 1);
        let prev = expired_upto(policy, files, k - 1);
        let cur = expired_upto(policy, files, k);
        assert forall|i: int| 0 <= i < cur.len() implies #[trigger] cur[i] < k by {
            if i < prev.len() {
                assert(cur[i] == prev[i]);
            }
        }
        assert forall|i: int, j: int| 0 <= i < j < cur.len() implies #[trigger] cur[i] < #[trigger] cur[j] by {
            assert(cur[i] == prev[i]);
            if j < prev.len() {
                assert(cur[j] == prev[j]);
            }
        }
    }
}

/// The indices in `remaining_upto` lie below `k`, ascend strictly, and are
/// exactly those of the files whose path is not among `deleted`.
pub proof fn lemma_remaining_upto(files: Seq<CleanupCandidate>, deleted: Seq<Seq<char>>, k: int)
    requires
        0 <= k <= files.len() <= usize::MAX,
    ensures
        forall|i: int| 0 <= i < remaining_upto(files, deleted, k).len() ==> #[trigger] remaining_upto(files, deleted, k)[i] < k,
        forall|i: int, j: int|
            0 <= i < j < remaining_upto(files, deleted, k).len() ==> #[trigger] remaining_upto(files, deleted, k)[i]
                < #[trigger] remaining_upto(files, deleted, k)[j],
        forall|x: usize|
            #[trigger] remaining_upto(files, deleted, k).contains(x) <==> (x < k && !deleted.contains(files[x as int].path@)),
    decreases k,
{
    if k > 0 {
        lemma_remaining_upto(files, deleted, k - 1);
        let prev = remaining_upto(files, deleted, k - 1);
        let cur = remaining_upto(files, deleted, k);
        assert forall|i: int| 0 <= i < cur.len() implies #[trigger] cur[i] < k by {
            if i < prev.len() {
                assert(cur[i] == prev[i]);
            }
        }
        assert forall|i: int, j: int| 0 <= i < j < cur.len() implies #[trigger] cur[i] < #[trigger] cur[j] by {
            assert(cur[i] == prev[i]);
            if j < prev.len() {
                assert(cur[j] == prev[j]);
            }
        }
        assert forall|x: usize| #[trigger] cur.contains(x) implies (x < k && !deleted.contains(files[x as int].path@)) by {
            let t = choose|t: int| 0 <= t < cur.len() && cur[t] == x;
            if t < prev.len() {
                assert(cur[t] == prev[t]);
                assert(prev.contains(x));
            }
        }
        assert forall|x: usize| (x < k && !deleted.contains(files[x as int].path@)) implies #[trigger] cur.contains(x) by {
            if x < k - 1 {
                assert(prev.contains(x));
                let t = choose|t: int| 0 <= t < prev.len() && prev[t] == x;
                assert(cur[t] == x);
            } else {
                assert(cur[cur.len() - 1] == x);
            }
        }
    }
}

/// A total splits at any point of the index list.
pub proof fn lemma_sizes_split(files: Seq<CleanupCandidate>, s: Seq<usize>, k: int)
    requires
        0 <= k <= s.len(),
    ensures
        sizes_sum(files, s) == sizes_sum(files, s.subrange(0, k)) + sizes_sum(files, s.subrange(k, s.len() as int)),
    decreases k,
{
    if k == 0 {
        assert(s.subrange(0, 0).len() == 0);
        assert(s.subrange(0, s.len() as int) =~= s);
    } else {
        let d = s.drop_first();
        lemma_sizes_split(files, d, k - 1);
        assert(s.subrange(0, k).drop_first() =~= d.subrange(0, k - 1));
        assert(s.subrange(k, s.len() as int) =~= d.subrange(k - 1, d.len() as int));
    }
}

/// Inserting an index anywhere adds its file's size to the total.
pub proof fn lemma_sizes_insert(files: Seq<CleanupCandidate>, s: Seq<usize>, i: int, x: usize)
    requires
        0 <= i <= s.len(),
    ensures
        sizes_sum(files, s.insert(i, x)) == sizes_sum(files, s) + files[x as int].size,
{
    let t = s.insert(i, x);
    lemma_sizes_split(files, t, i);
    lemma_sizes_split(files, s, i);
    assert(t.subrange(0, i) =~= s.subrange(0, i));
    assert(t.subrange(i, t.len() as int).drop_first() =~= s.subrange(i, s.len() as int));
}

/// Appending an index adds its file's size to the total.
pub proof fn lemma_sizes_push(files: Seq<CleanupCandidate>, s: Seq<usize>, x: usize)
    ensures
        sizes_sum(files, s.push(x)) == sizes_sum(files, s) + files[x as int].size,
{
    lemma_sizes_insert(files, s, s.len() as int, x);
    assert(s.insert(s.len() as int, x) =~= s.push(x));
}

/// The total of a prefix grows by the next file's size.
proof fn lemma_sizes_prefix(files: Seq<CleanupCandidate>, s: Seq<usize>, k: int)
    requires
        0 <= k < s.len(),
    ensures
        sizes_sum(files, s.subrange(0, k + 1)) == sizes_sum(files, s.subrange(0, k)) + files[s[k] as int].size,
{
    lemma_sizes_push(files, s.subrange(0, k), s[k]);
    assert(s.subrange(0, k).push(s[k]) =~= s.subrange(0, k + 1));
}

/// The total of the remaining files is at most the total of all files.
pub proof fn lemma_remaining_size(files: Seq<CleanupCandidate>, deleted: Seq<Seq<char>>, k: int)
    requires
        0 <= k <= files.len() <= usize::MAX,
    ensures
        0 <= sizes_sum(files, remaining_upto(files, deleted, k)) <= size_upto(files, k),
    decreases k,
{
    if k > 0 {
        lemma_remaining_size(files, deleted, k - 1);
        let prev = remaining_upto(files, deleted, k - 1);
        lemma_sizes_insert(files, prev, prev.len() as int, (k - 1) as usize);
        assert(prev.insert(prev.len() as int, (k - 1) as usize) =~= prev.push((k - 1) as usize));
    } else {
        sizes_nonneg(files, remaining_upto(files, deleted, k));
    }
}

proof fn sizes_nonneg(files: Seq<CleanupCandidate>, s: Seq<usize>)
    ensures
        sizes_sum(files, s) >= 0,
    decreases s.len(),
{
    if s.len() > 0 {
        sizes_nonneg(files, s.drop_first());
    }
}

/// How many of the first `k` flags are set.
pub open spec fn flag_count(flags: Seq<bool>, k: int) -> int
    decreases k,
{
    if k <= 0 {
        0
    } else {
        flag_count(flags, k - 1) + if flags[k - 1] { 1int } else { 0int }
    }
}

/// The total size of the first `k` files whose flag is set.
pub open spec fn flagged_size(files: Seq<CleanupCandidate>, flags: Seq<bool>, k: int) -> int
    decreases k,
{
    if k <= 0 {
        0
    } else {
        flagged_size(files, flags, k - 1) + if flags[k - 1] { files[k - 1].size as int } else { 0int }
    }
}

proof fn lemma_flag_set(files: Seq<CleanupCandidate>, flags: Seq<bool>, p: int, k: int)
    requires
        0 <= p < flags.len(),
        !flags[p],
        0 <= k <= flags.len(),
    ensures
        flag_count(flags.update(p, true), k) == flag_count(flags, k) + if p < k { 1int } else { 0int },
        flagged_size(files, flags.update(p, true), k) == flagged_size(files, flags, k) + if p < k {
            files[p].size as int
        } else {
            0int
        },
    decreases k,
{
    if k > 0 {
        lemma_flag_set(files, flags, p, k - 1);
    }
}

proof fn lemma_flag_bounds(files: Seq<CleanupCandidate>, flags: Seq<bool>, k: int)
    requires
        0 <= k,
    ensures
        0 <= flag_count(flags, k) <= k,
        0 <= flagged_size(files, flags, k) <= size_upto(files, k),
    decreases k,
{
    if k > 0 {
        lemma_flag_bounds(files, flags, k - 1);
    }
}

/// The total size of `files`, or `None` when it exceeds `usize::MAX`.
pub fn total_size(files: &Vec<CleanupCandidate>) -> (r: Option<usize>)
    ensures
        match r {
            Some(t) => t == size_upto(files@, files@.len() as int),
            None => size_upto(files@, files@.len() as int) > usize::MAX,
        },
{
    let mut total: usize = 0;
    let mut i: usize = 0;
    while i < files.len()
        invariant
            i <= files@.len(),
            total == size_upto(files@, i as int),
        decreases files@.len() - i,
    {
        let size = files[i].size;
        if size > usize::MAX - total {
            proof {
                lemma_size_upto_mono(files@, i + 1, files@.len() as int);
            }
            return None;
        }
        total = total + size;
        i = i + 1;
    }
    Some(total)
}

proof fn lemma_size_upto_mono(files: Seq<CleanupCandidate>, j: int, k: int)
    requires
        0 <= j <= k <= files.len(),
    ensures
        size_upto(files, j) <= size_upto(files, k),
    decreases k - j,
{
    if j < k {
        lemma_size_upto_mono(files, j, k - 1);
    }
}

/// The indices of the files past their retention, in order.
fn expired_indices(policy: &CleanupPolicy, files: &Vec<CleanupCandidate>) -> (r: Vec<usize>)
    ensures
        r@ == expired_upto(*policy, files@, files@.len() as int),
{
    let mut out: Vec<usize> = Vec::new();
    let mut i: usize = 0;
    while i < files.len()
        invariant
            i <= files@.len(),
            out@ == expired_upto(*policy, files@, i as int),
        decreases files@.len() - i,
    {
        if policy.is_expired(files[i].age_days, files[i].min_level) {
            out.push(i);
        }
        i = i + 1;
    }
    out
}

/// Whether `path` is among `listed`.
fn path_listed(listed: &Vec<String>, path: &String) -> (r: bool)
    ensures
        r == texts(listed@).contains(path@),
{
    let mut i: usize = 0;
    while i < listed.len()
        invariant
            i <= listed@.len(),
            forall|t: int| 0 <= t < i ==> listed@[t]@ != path@,
        decreases listed@.len() - i,
    {
        if listed[i] == *path {
            assert(texts(listed@)[i as int] == path@);
            return true;
        }
        i = i + 1;
    }
    assert forall|t: int| 0 <= t < texts(listed@).len() implies texts(listed@)[t] != path@ by {
        assert(texts(listed@)[t] == listed@[t]@);
    }
    false
}

/// The indices of the files whose path is not among `deleted`, in order.
fn remaining_indices(files: &Vec<CleanupCandidate>, deleted: &Vec<String>) -> (r: Vec<usize>)
    ensures
        r@ == remaining_upto(files@, texts(deleted@), files@.len() as int),
{
    let mut out: Vec<usize> = Vec::new();
    let mut i: usize = 0;
    while i < files.len()
        invariant
            i <= files@.len(),
            out@ == remaining_upto(files@, texts(deleted@), i as int),
        decreases files@.len() - i,
    {
        if !path_listed(deleted, &files[i].path) {
            out.push(i);
        }
        i = i + 1;
    }
    out
}

/// The total size of the files at the indices `idx`.
fn total_size_of(files: &Vec<CleanupCandidate>, idx: &Vec<usize>) -> (r: usize)
    requires
        forall|t: int| 0 <= t < idx@.len() ==> idx@[t] < files@.len(),
        sizes_sum(files@, idx@) <= usize::MAX,
    ensures
        r == sizes_sum(files@, idx@),
{
    let mut total: usize = 0;
    let mut k: usize = 0;
    while k < idx.len()
        invariant
            k <= idx@.len(),
            forall|t: int| 0 <= t < idx@.len() ==> idx@[t] < files@.len(),
            sizes_sum(files@, idx@) <= usize::MAX,
            total == sizes_sum(files@, idx@.subrange(0, k as int)),
        decreases idx@.len() - k,
    {
        proof {
            lemma_sizes_split(files@, idx@, k + 1);
            lemma_sizes_prefix(files@, idx@, k as int);
            sizes_nonneg(files@, idx@.subrange(k + 1, idx@.len() as int));
        }
        total = total + files[idx[k]].size;
        k = k + 1;
    }
    assert(idx@.subrange(0, idx@.len() as int) =~= idx@);
    total
}

/// The indices of `rem` ordered for deletion by size: higher priority score
/// first, the earlier file first on a tie.
fn size_order(files: &Vec<CleanupCandidate>, rem: &Vec<usize>) -> (q: Vec<usize>)
    requires
        forall|t: int| 0 <= t < rem@.len() ==> rem@[t] < files@.len(),
        forall|s: int, t: int| 0 <= s < t < rem@.len() ==> rem@[s] < rem@[t],
    ensures
        is_size_order(files@, rem@, q@),
        sizes_sum(files@, q@) == sizes_sum(files@, rem@),
{
    let mut q: Vec<usize> = Vec::new();
    let mut keys: Vec<u64> = Vec::new();
    let mut k: usize = 0;
    while k < rem.len()
        invariant
            k <= rem@.len(),
            forall|t: int| 0 <= t < rem@.len() ==> rem@[t] < files@.len(),
            forall|s: int, t: int| 0 <= s < t < rem@.len() ==> rem@[s] < rem@[t],
            q@.len() == k,
            keys@.len() == k,
            forall|t: int| 0 <= t < k ==> keys@[t] == priority_at(files@, #[trigger] q@[t]),
            forall|x: usize| q@.contains(x) <==> rem@.subrange(0, k as int).contains(x),
            forall|i: int, j: int| 0 <= i < j < q@.len() ==> precedes(files@, #[trigger] q@[i], #[trigger] q@[j]),
            sizes_sum(files@, q@) == sizes_sum(files@, rem@.subrange(0, k as int)),
        decreases rem@.len() - k,
    {
        let x = rem[k];
        let f = &files[x];
        let key = priority_score_of(f.age_days, f.size, f.min_level);
        let mut p: usize = 0;
        while p < q.len() && keys[p] >= key
            invariant
                p <= q@.len(),
                q@.len() == keys@.len(),
                forall|t: int| 0 <= t < p ==> keys@[t] >= key,
            decreases q@.len() - p,
        {
            p = p + 1;
        }
        let ghost q0 = q@;
        proof {
            assert forall|t: int| 0 <= t < q0.len() implies q0[t] < x by {
                assert(q0.contains(q0[t]));
                assert(rem@.subrange(0, k as int).contains(q0[t]));
                let u = choose|u: int| 0 <= u < k && rem@.subrange(0, k as int)[u] == q0[t];
                assert(rem@[u] == q0[t]);
            }
            assert forall|t: int| 0 <= t < p implies precedes(files@, #[trigger] q0[t], x) by {
                assert(keys@[t] == priority_at(files@, q0[t]));
            }
            assert forall|t: int| p <= t < q0.len() implies precedes(files@, x, #[trigger] q0[t]) by {
                assert(keys@[p as int] < key);
                assert(keys@[p as int] == priority_at(files@, q0[p as int]));
                if t > p {
                    assert(precedes(files@, q0[p as int], q0[t]));
                }
            }
            lemma_sizes_insert(files@, q0, p as int, x);
            lemma_sizes_prefix(files@, rem@, k as int);
        }
        q.insert(p, x);
        keys.insert(p, key);
        proof {
            let q1 = q@;
            assert forall|i: int, j: int| 0 <= i < j < q1.len() implies precedes(files@, #[trigger] q1[i], #[trigger] q1[j]) by {
                if j < p {
                    assert(q1[i] == q0[i] && q1[j] == q0[j]);
                } else if j == p {
                    assert(q1[i] == q0[i]);
                } else if i < p {
                    assert(q1[i] == q0[i] && q1[j] == q0[j - 1]);
                    assert(precedes(files@, q0[i], x));
                    assert(precedes(files@, x, q0[j - 1]));
                } else if i == p {
                    assert(q1[j] == q0[j - 1]);
                } else {
                    assert(q1[i] == q0[i - 1] && q1[j] == q0[j - 1]);
                }
            }
            assert forall|t: int| 0 <= t < k + 1 implies keys@[t] == priority_at(files@, #[trigger] q1[t]) by {
                if t < p {
                    assert(q1[t] == q0[t]);
                } else if t > p {
                    assert(q1[t] == q0[t - 1]);
                }
            }
            assert forall|y: usize| q1.contains(y) <==> rem@.subrange(0, k + 1).contains(y) by {
                let r1 = rem@.subrange(0, k + 1);
                if q1.contains(y) {
                    let t = choose|t: int| 0 <= t < q1.len() && q1[t] == y;
                    if t == p {
                        assert(r1[k as int] == y);
                    } else {
                        let u = if t < p { t } else { t - 1 };
                        assert(q0[u] == y);
                        assert(q0.contains(y));
                        assert(rem@.subrange(0, k as int).contains(y));
                        let v = choose|v: int| 0 <= v < k && rem@.subrange(0, k as int)[v] == y;
                        assert(r1[v] == y);
                    }
                }
                if r1.contains(y) {
                    let v = choose|v: int| 0 <= v < k + 1 && r1[v] == y;
                    if v == k {
                        assert(q1[p as int] == y);
                    } else {
                        assert(rem@.subrange(0, k as int)[v] == y);
                        assert(rem@.subrange(0, k as int).contains(y));
                        assert(q0.contains(y));
                        let t = choose|t: int| 0 <= t < q0.len() && q0[t] == y;
                        if t < p {
                            assert(q1[t] == y);
                        } else {
                            assert(q1[t + 1] == y);
                        }
                    }
                }
            }
        }
        k = k + 1;
    }
    proof {
        assert(rem@.subrange(0, rem@.len() as int) =~= rem@);
    }
    q
}

/// The state of a cleanup run, as its contracts speak of it.
pub struct CleanupRunView {
    /// The files under consideration.
    pub files: Seq<CleanupCandidate>,
    /// The indices of the files to offer for deletion in the current phase, in order.
    pub queue: Seq<usize>,
    /// How many of them have been offered.
    pub pos: nat,
    /// Whether the run is in its second phase, deleting by size.
    pub by_size: bool,
    /// In the second phase, the size of the files not yet deleted.
    pub current_size: nat,
    /// The size the second phase deletes down to.
    pub target_size: nat,
    /// The size above which the second phase deletes anything.
    pub max_total_size: nat,
    /// The file offered last, whose deletion has not been reported yet.
    pub pending: Option<usize>,
    /// How many files were deleted.
    pub files_deleted: nat,
    /// How many bytes they held.
    pub bytes_freed: nat,
    /// Their paths, in the order they were deleted.
    pub deleted: Seq<Seq<char>>,
}

/// The second phase as it begins after the run `v`: the files whose path
/// was not deleted in the first phase; if together they exceed the size
/// limit, all of them in deletion order, else none.
pub open spec fn size_phase_queue(v: CleanupRunView, q: Seq<usize>) -> bool {
    let rem = remaining_upto(v.files, v.deleted, v.files.len() as int);
    if sizes_sum(v.files, rem) > v.max_total_size {
        is_size_order(v.files, rem, q)
    } else {
        q.len() == 0
    }
}

/// One step of the second phase from position `p0` with `c0` bytes left:
/// while more than the target is left, the next file in the queue is offered.
pub open spec fn size_step(w: CleanupRunView, p0: nat, c0: nat, r: Option<usize>) -> bool {
    &&& w.by_size
    &&& w.current_size == c0
    &&& if p0 < w.queue.len() && c0 > w.target_size {
        &&& r == Some(w.queue[p0 as int])
        &&& w.pos == p0 + 1
        &&& w.pending == r
    } else {
        &&& r is None
        &&& w.pos == p0
        &&& w.pending is None
    }
}

/// Whether the run `v` is over: it is in its second phase, nothing is
/// offered, and either every file of its queue was offered or no more than
/// the target size is left.
pub open spec fn run_ended(v: CleanupRunView) -> bool {
    &&& v.by_size
    &&& v.pending is None
    &&& (v.pos >= v.queue.len() || v.current_size <= v.target_size)
}

/// A cleanup in progress. It offers files for deletion one at a time; the
/// caller deletes each and reports whether that worked. First come the files
/// past their retention, in order; then, if the files whose path was not
/// deleted still exceed the size limit, the rest in deletion order while
/// more than the target size is left.
pub struct CleanupRun {
    files: Vec<CleanupCandidate>,
    queue: Vec<usize>,
    pos: usize,
    by_size: bool,
    current_size: usize,
    target_size: usize,
    max_total_size: usize,
    pending: Option<usize>,
    report: CleanupReport,
    deleted_flags: Ghost<Seq<bool>>,
    deleted_order: Ghost<Seq<usize>>,
    expired: Ghost<Seq<usize>>,
    unremoved: Ghost<Seq<bool>>,
}

impl View for CleanupRun {
    type V = CleanupRunView;

    closed spec fn view(&self) -> CleanupRunView {
        CleanupRunView {
            files: self.files@,
            queue: self.queue@,
            pos: self.pos as nat,
            by_size: self.by_size,
            current_size: self.current_size as nat,
            target_size: self.target_size as nat,
            max_total_size: self.max_total_size as nat,
            pending: self.pending,
            files_deleted: self.report.files_deleted as nat,
            bytes_freed: self.report.bytes_freed as nat,
            deleted: texts(self.report.deleted_files@),
        }
    }
}

impl CleanupRun {
    /// The run's internal consistency, which every step keeps.
    pub closed spec fn wf(&self) -> bool {
        let n = self.files@.len();
        let flags = self.deleted_flags@;
        let q = self.queue@;
        &&& n <= usize::MAX
        &&& flags.len() == n
        &&& size_upto(self.files@, n as int) <= usize::MAX
        &&& self.report.files_deleted == flag_count(flags, n as int)
        &&& self.report.bytes_freed == flagged_size(self.files@, flags, n as int)
        &&& self.report.deleted_files@.len() == self.report.files_deleted
        &&& forall|j: int| 0 <= j < n && #[trigger] flags[j] ==> texts(self.report.deleted_files@).contains(
            self.files@[j].path@,
        )
        &&& self.deleted_order@.len() == self.report.deleted_files@.len()
        &&& self.report.bytes_freed == sizes_sum(self.files@, self.deleted_order@)
        &&& forall|t: int| 0 <= t < self.deleted_order@.len() ==> {
            &&& #[trigger] self.deleted_order@[t] < n
            &&& flags[self.deleted_order@[t] as int]
            &&& texts(self.report.deleted_files@)[t] == self.files@[self.deleted_order@[t] as int].path@
        }
        &&& forall|s: int, t: int| 0 <= s < t < self.deleted_order@.len() ==> #[trigger] self.deleted_order@[s]
            != #[trigger] self.deleted_order@[t]
        &&& self.pos <= q.len()
        &&& self.unremoved@.len() == n
        &&& forall|t: int| 0 <= t < self.expired@.len() ==> #[trigger] self.expired@[t] < n
        &&& !self.by_size ==> q == self.expired@
        &&& !self.by_size ==> forall|t: int|
            0 <= t < (if self.pending is Some { self.pos - 1 } else { self.pos as int }) ==> flags[#[trigger] q[t] as int]
                || self.unremoved@[q[t] as int]
        &&& self.by_size ==> forall|t: int|
            0 <= t < self.expired@.len() ==> flags[#[trigger] self.expired@[t] as int] || self.unremoved@[self.expired@[t] as int]
        &&& self.by_size ==> forall|t: int|
            0 <= t < (if self.pending is Some { self.pos - 1 } else { self.pos as int }) ==> flags[#[trigger] q[t] as int]
                || self.unremoved@[q[t] as int]
        &&& forall|t: int| 0 <= t < q.len() ==> #[trigger] q[t] < n
        &&& forall|s: int, t: int| 0 <= s < t < q.len() ==> #[trigger] q[s] != #[trigger] q[t]
        &&& self.pending matches Some(p) ==> self.pos > 0 && q[self.pos - 1] == p && !flags[p as int]
        &&& !self.by_size ==> forall|j: int|
            0 <= j < n && #[trigger] flags[j] ==> exists|t: int|
                0 <= t < (if self.pending is Some { self.pos - 1 } else { self.pos as int }) && q[t] == j
        &&& self.by_size ==> forall|t: int| self.pos <= t < q.len() ==> !flags[#[trigger] q[t] as int]
        &&& self.by_size ==> self.current_size >= sizes_sum(self.files@, q.subrange(self.pos as int, q.len() as int))
            + match self.pending {
            Some(p) => self.files@[p as int].size as int,
            None => 0int,
        }
    }

    /// The files past their retention, in the order the first phase offers them.
    pub closed spec fn expired_files(&self) -> Seq<usize> {
        self.expired@
    }

    /// Whether file `i` was offered and then not deleted: its deletion was
    /// reported as failed, or the offer was dropped by the next one.
    pub closed spec fn unremoved(&self, i: usize) -> bool {
        self.unremoved@[i as int]
    }

    /// A run over `files` under `policy`, deleting down to `target_size`
    /// bytes when the size limit is exceeded. Nothing has been offered yet.
    pub fn new(policy: &CleanupPolicy, files: Vec<CleanupCandidate>, target_size: usize) -> (r: CleanupRun)
        requires
            size_upto(files@, files@.len() as int) <= usize::MAX,
        ensures
            r.wf(),
            r@ == (CleanupRunView {
                files: files@,
                queue: expired_upto(*policy, files@, files@.len() as int),
                pos: 0,
                by_size: false,
                current_size: 0,
                target_size: target_size as nat,
                max_total_size: policy.max_total_size as nat,
                pending: None,
                files_deleted: 0,
                bytes_freed: 0,
                deleted: Seq::empty(),
            }),
            r.expired_files() == expired_upto(*policy, files@, files@.len() as int),
            forall|i: usize| i < files@.len() ==> !r.unremoved(i),
    {
        let n = files.len();
        let queue = expired_indices(policy, &files);
        let ghost expired = queue@;
        proof {
            lemma_expired_upto(*policy, files@, files@.len() as int);
        }
        let ghost flags = Seq::new(files@.len(), |i: int| false);
        let report = CleanupReport::new();
        proof {
            lemma_no_flags(files@, flags, files@.len() as int);
            assert(texts(report.deleted_files@) =~= Seq::<Seq<char>>::empty());
        }
        CleanupRun {
            files,
            queue,
            pos: 0,
            by_size: false,
            current_size: 0,
            target_size,
            max_total_size: policy.max_total_size,
            pending: None,
            report,
            deleted_flags: Ghost(flags),
            deleted_order: Ghost(Seq::empty()),
            expired: Ghost(expired),
            unremoved: Ghost(Seq::new(n as nat, |i: int| false)),
        }
    }
}

proof fn lemma_no_flags(files: Seq<CleanupCandidate>, flags: Seq<bool>, k: int)
    requires
        0 <= k <= flags.len(),
        forall|i: int| 0 <= i < flags.len() ==> !flags[i],
    ensures
        flag_count(flags, k) == 0,
        flagged_size(files, flags, k) == 0,
    decreases k,
{
    if k > 0 {
        lemma_no_flags(files, flags, k - 1);
    }
}

impl CleanupRun {
    /// Offers the next file to delete, or `None` once the run is over.
    /// Offering a file drops an earlier offer whose outcome was not reported.
    pub fn next(&mut self) -> (r: Option<usize>)
        requires
            old(self).wf(),
        ensures
            final(self).wf(),
            final(self)@.files == old(self)@.files,
            final(self)@.target_size == old(self)@.target_size,
            final(self)@.max_total_size == old(self)@.max_total_size,
            final(self)@.files_deleted == old(self)@.files_deleted,
            final(self)@.bytes_freed == old(self)@.bytes_freed,
            final(self)@.deleted == old(self)@.deleted,
            r matches Some(i) ==> i < old(self)@.files.len(),
            r is None ==> run_ended(final(self)@),
            final(self).expired_files() == old(self).expired_files(),
            forall|i: usize| i < old(self)@.files.len() ==> #[trigger] final(self).unremoved(i)
                == (old(self).unremoved(i) || old(self)@.pending == Some(i)),
            if !old(self)@.by_size && old(self)@.pos < old(self)@.queue.len() {
                &&& r == Some(old(self)@.queue[old(self)@.pos as int])
                &&& !final(self)@.by_size
                &&& final(self)@.queue == old(self)@.queue
                &&& final(self)@.pos == old(self)@.pos + 1
                &&& final(self)@.pending == r
                &&& final(self)@.current_size == old(self)@.current_size
            } else if !old(self)@.by_size {
                &&& size_phase_queue(old(self)@, final(self)@.queue)
                &&& size_step(
                    final(self)@,
                    0,
                    sizes_sum(
                        old(self)@.files,
                        remaining_upto(old(self)@.files, old(self)@.deleted, old(self)@.files.len() as int),
                    ) as nat,
                    r,
                )
            } else {
                &&& final(self)@.queue == old(self)@.queue
                &&& size_step(final(self)@, old(self)@.pos, old(self)@.current_size, r)
            },
    {
        let ghost flags = self.deleted_flags@;
        let ghost n = self.files@.len() as int;
        if !self.by_size {
            if self.pos < self.queue.len() {
                let i = self.queue[self.pos];
                proof {
                    let q = self.queue@;
                    if flags[i as int] {
                        let t = choose|t: int|
                            0 <= t < (if self.pending is Some { self.pos - 1 } else { self.pos as int }) && q[t] == i;
                        assert(q[t] != q[self.pos as int]);
                    }
                }
                let ghost un0 = self.unremoved@;
                let ghost un1 = match self.pending {
                    Some(p0) => un0.update(p0 as int, true),
                    None => un0,
                };
                let ghost done0 = if self.pending is Some { self.pos - 1 } else { self.pos as int };
                self.pos = self.pos + 1;
                self.pending = Some(i);
                self.unremoved = Ghost(un1);
                proof {
                    let q = self.queue@;
                    assert forall|t: int| 0 <= t < self.pos - 1 implies flags[#[trigger] q[t] as int]
                        || un1[q[t] as int] by {
                        if t < done0 {
                            assert(flags[q[t] as int] || un0[q[t] as int]);
                        }
                    }
                    assert forall|j: int| 0 <= j < n && #[trigger] flags[j] implies exists|t: int|
                        0 <= t < (if self.pending is Some { self.pos - 1 } else { self.pos as int }) && q[t] == j by {
                        let t = choose|t: int|
                            0 <= t < (if old(self).pending is Some { old(self).pos - 1 } else { old(self).pos as int })
                                && q[t] == j;
                        assert(0 <= t < self.pos - 1);
                    }
                }
                return Some(i);
            }
            self.enter_size_phase();
        }
        self.size_phase_step()
    }

    /// Begins the second phase: the files whose path was not deleted, in
    /// deletion order if together they exceed the size limit.
    fn enter_size_phase(&mut self)
        requires
            old(self).wf(),
            !old(self).by_size,
            old(self).pos == old(self).queue@.len(),
        ensures
            final(self).wf(),
            final(self)@.files == old(self)@.files,
            final(self)@.target_size == old(self)@.target_size,
            final(self)@.max_total_size == old(self)@.max_total_size,
            final(self)@.files_deleted == old(self)@.files_deleted,
            final(self)@.bytes_freed == old(self)@.bytes_freed,
            final(self)@.deleted == old(self)@.deleted,
            final(self)@.by_size,
            final(self)@.pos == 0,
            final(self)@.pending is None,
            size_phase_queue(old(self)@, final(self)@.queue),
            final(self)@.current_size == sizes_sum(
                old(self)@.files,
                remaining_upto(old(self)@.files, old(self)@.deleted, old(self)@.files.len() as int),
            ),
            final(self).expired_files() == old(self).expired_files(),
            forall|i: usize| i < old(self)@.files.len() ==> #[trigger] final(self).unremoved(i)
                == (old(self).unremoved(i) || old(self)@.pending == Some(i)),
    {
        let ghost flags = self.deleted_flags@;
        let ghost files = self.files@;
        let ghost n = files.len() as int;
        let ghost deleted = texts(self.report.deleted_files@);
        let rem = remaining_indices(&self.files, &self.report.deleted_files);
        proof {
            lemma_remaining_upto(files, deleted, n);
            lemma_remaining_size(files, deleted, n);
        }
        let total = total_size_of(&self.files, &rem);
        let queue = if total > self.max_total_size {
            size_order(&self.files, &rem)
        } else {
            Vec::new()
        };
        proof {
            let q = queue@;
            assert forall|t: int| 0 <= t < q.len() implies #[trigger] q[t] < n && !flags[q[t] as int] by {
                if total > self.max_total_size {
                    assert(q.contains(q[t]));
                    assert(rem@.contains(q[t]));
                }
            }
            assert forall|s: int, t: int| 0 <= s < t < q.len() implies #[trigger] q[s] != #[trigger] q[t] by {
                if total > self.max_total_size {
                    assert(precedes(files, q[s], q[t]));
                }
            }
            assert(q.subrange(0, q.len() as int) =~= q);
        }
        let ghost un0 = self.unremoved@;
        let ghost un1 = match self.pending {
            Some(p0) => un0.update(p0 as int, true),
            None => un0,
        };
        let ghost q0 = self.queue@;
        let ghost done0 = if self.pending is Some { self.pos - 1 } else { self.pos as int };
        let ghost expired = self.expired@;
        proof {
            assert forall|t: int| 0 <= t < expired.len() implies flags[#[trigger] expired[t] as int]
                || un1[expired[t] as int] by {
                assert(expired[t] == q0[t]);
                if t < done0 {
                    assert(flags[q0[t] as int] || un0[q0[t] as int]);
                }
            }
        }
        self.queue = queue;
        self.pos = 0;
        self.pending = None;
        self.by_size = true;
        self.current_size = total;
        self.unremoved = Ghost(un1);
    }

    /// One step of the second phase.
    fn size_phase_step(&mut self) -> (r: Option<usize>)
        requires
            old(self).wf(),
            old(self).by_size,
        ensures
            final(self).wf(),
            final(self)@.files == old(self)@.files,
            final(self)@.target_size == old(self)@.target_size,
            final(self)@.max_total_size == old(self)@.max_total_size,
            final(self)@.files_deleted == old(self)@.files_deleted,
            final(self)@.bytes_freed == old(self)@.bytes_freed,
            final(self)@.deleted == old(self)@.deleted,
            final(self)@.queue == old(self)@.queue,
            size_step(final(self)@, old(self)@.pos, old(self)@.current_size, r),
            r matches Some(i) ==> i < old(self)@.files.len(),
            final(self).expired_files() == old(self).expired_files(),
            forall|i: usize| i < old(self)@.files.len() ==> #[trigger] final(self).unremoved(i)
                == (old(self).unremoved(i) || old(self)@.pending == Some(i)),
    {
        let ghost files = self.files@;
        let ghost q = self.queue@;
        let ghost un1 = match self.pending {
            Some(p0) => self.unremoved@.update(p0 as int, true),
            None => self.unremoved@,
        };
        self.unremoved = Ghost(un1);
        proof {
            sizes_nonneg(files, q.subrange(self.pos as int, q.len() as int));
        }
        if self.pos < self.queue.len() && self.current_size > self.target_size {
            let i = self.queue[self.pos];
            proof {
                let p = self.pos as int;
                assert(q.subrange(p, q.len() as int).drop_first() =~= q.subrange(p + 1, q.len() as int));
                sizes_nonneg(files, q.subrange(p + 1, q.len() as int));
            }
            self.pos = self.pos + 1;
            self.pending = Some(i);
            Some(i)
        } else {
            self.pending = None;
            None
        }
    }
}

impl CleanupRun {
    /// Reports whether the file offered last was deleted. A deletion is
    /// counted in the report; in the second phase its size also leaves the
    /// size still to be freed. Without an offer pending nothing changes.
    pub fn record(&mut self, deleted: bool)
        requires
            old(self).wf(),
        ensures
            final(self).wf(),
            match old(self)@.pending {
                None => final(self)@ == old(self)@,
                Some(p) => final(self)@ == (CleanupRunView {
                    pending: None,
                    files_deleted: if deleted {
                        old(self)@.files_deleted + 1
                    } else {
                        old(self)@.files_deleted
                    },
                    bytes_freed: if deleted {
                        (old(self)@.bytes_freed + old(self)@.files[p as int].size) as nat
                    } else {
                        old(self)@.bytes_freed
                    },
                    deleted: if deleted {
                        old(self)@.deleted.push(old(self)@.files[p as int].path@)
                    } else {
                        old(self)@.deleted
                    },
                    current_size: if deleted && old(self)@.by_size {
                        (old(self)@.current_size - old(self)@.files[p as int].size) as nat
                    } else {
                        old(self)@.current_size
                    },
                    ..old(self)@
                }),
            },
            final(self)@.bytes_freed <= size_upto(final(self)@.files, final(self)@.files.len() as int),
            final(self).expired_files() == old(self).expired_files(),
            forall|i: usize| i < old(self)@.files.len() ==> #[trigger] final(self).unremoved(i)
                == (old(self).unremoved(i) || (!deleted && old(self)@.pending == Some(i))),
    {
        let ghost flags = self.deleted_flags@;
        let ghost files = self.files@;
        let ghost n = files.len() as int;
        proof {
            lemma_flag_bounds(files, flags, n);
        }
        match self.pending {
            None => {},
            Some(p) => {
                if deleted {
                    let size = self.files[p].size;
                    let path = self.files[p].path.clone();
                    let ghost q = self.queue@;
                    let ghost pos = self.pos as int;
                    let ghost before = self.report.deleted_files@;
                    let ghost flags1 = flags.update(p as int, true);
                    proof {
                        lemma_flag_set(files, flags, p as int, n);
                        lemma_flag_bounds(files, flags1, n);
                        if self.by_size {
                            sizes_nonneg(files, q.subrange(pos, q.len() as int));
                        }
                    }
                    self.report.files_deleted = self.report.files_deleted + 1;
                    self.report.bytes_freed = self.report.bytes_freed + size as u64;
                    self.report.deleted_files.push(path);
                    if self.by_size {
                        self.current_size = self.current_size - size;
                    }
                    self.deleted_flags = Ghost(flags1);
                    self.pending = None;
                    let ghost order0 = self.deleted_order@;
                    let ghost order1 = order0.push(p);
                    self.deleted_order = Ghost(order1);
                    proof {
                        lemma_sizes_push(files, order0, p);
                    }
                    proof {
                        let after = self.report.deleted_files@;
                        assert(texts(after) =~= texts(before).push(files[p as int].path@));
                        assert forall|j: int| 0 <= j < n && #[trigger] flags1[j] implies texts(after).contains(
                            files[j].path@,
                        ) by {
                            if j == p {
                                assert(texts(after)[texts(before).len() as int] == files[j].path@);
                            } else {
                                let t = choose|t: int| 0 <= t < texts(before).len() && texts(before)[t] == files[j].path@;
                                assert(texts(after)[t] == files[j].path@);
                            }
                        }
                        assert forall|t: int| 0 <= t < order1.len() implies {
                            &&& #[trigger] order1[t] < n
                            &&& flags1[order1[t] as int]
                            &&& texts(after)[t] == files[order1[t] as int].path@
                        } by {
                            if t < order0.len() {
                                assert(order1[t] == order0[t]);
                                assert(texts(after)[t] == texts(before)[t]);
                            } else {
                                assert(order1[t] == p);
                                assert(texts(after)[t] == files[p as int].path@);
                            }
                        }
                        assert forall|a: int, b: int| 0 <= a < b < order1.len() implies #[trigger] order1[a]
                            != #[trigger] order1[b] by {
                            if b == order0.len() {
                                assert(order1[a] == order0[a]);
                                assert(flags[order0[a] as int]);
                            } else {
                                assert(order1[a] == order0[a] && order1[b] == order0[b]);
                            }
                        }
                        if !self.by_size {
                            assert forall|j: int| 0 <= j < n && #[trigger] flags1[j] implies exists|t: int|
                                0 <= t < pos && q[t] == j by {
                                if j == p {
                                    assert(q[pos - 1] == j);
                                } else {
                                    let t = choose|t: int| 0 <= t < pos - 1 && q[t] == j;
                                    assert(q[t] == j);
                                }
                            }
                        } else {
                            assert forall|t: int| pos <= t < q.len() implies !flags1[#[trigger] q[t] as int] by {
                                assert(q[t] != q[pos - 1]);
                            }
                        }
                    }
                } else {
                    let ghost q = self.queue@;
                    let ghost pos = self.pos as int;
                    let ghost un1 = self.unremoved@.update(p as int, true);
                    self.pending = None;
                    self.unremoved = Ghost(un1);
                    proof {
                        if !self.by_size {
                            assert forall|j: int| 0 <= j < n && #[trigger] flags[j] implies exists|t: int|
                                0 <= t < pos && q[t] == j by {
                                let t = choose|t: int| 0 <= t < pos - 1 && q[t] == j;
                                assert(q[t] == j);
                            }
                        }
                    }
                }
            },
        }
    }

    /// Ends the run and hands over its report.
    pub fn finish(self) -> (r: CleanupReport)
        ensures
            r.files_deleted == self@.files_deleted,
            r.bytes_freed == self@.bytes_freed,
            texts(r.deleted_files@) == self@.deleted,
    {
        self.report
    }
}


/// At every point of a run the report is consistent: it lists one path per
/// file counted as deleted, each of them the path of one of the run's files,
/// and no file twice, so that where the files' paths differ no path is listed
/// twice; the bytes freed are the sum of the sizes of exactly those files; it
/// counts no more files than the run holds; and the bytes freed never exceed
/// the size of all the files.
pub proof fn lemma_run_report(run: &CleanupRun)
    requires
        run.wf(),
    ensures
        run@.deleted.len() == run@.files_deleted,
        run@.files_deleted <= run@.files.len(),
        run@.bytes_freed <= size_upto(run@.files, run@.files.len() as int),
        forall|t: int| 0 <= t < run@.deleted.len() ==> exists|j: int|
            0 <= j < run@.files.len() && #[trigger] run@.deleted[t] == run@.files[j].path@,
        (forall|a: int, b: int| 0 <= a < b < run@.files.len() ==> #[trigger] run@.files[a].path@
            != #[trigger] run@.files[b].path@) ==> run@.deleted.no_duplicates(),
        exists|order: Seq<usize>| {
            &&& order.len() == run@.deleted.len()
            &&& forall|t: int| 0 <= t < order.len() ==> #[trigger] order[t] < run@.files.len()
                && run@.deleted[t] == run@.files[order[t] as int].path@
            &&& forall|a: int, b: int| 0 <= a < b < order.len() ==> #[trigger] order[a] != #[trigger] order[b]
            &&& run@.bytes_freed == sizes_sum(run@.files, order)
        },
{
    lemma_flag_bounds(run.files@, run.deleted_flags@, run.files@.len() as int);
    let order = run.deleted_order@;
    let files = run.files@;
    let deleted = run@.deleted;
    assert forall|t: int| 0 <= t < order.len() implies #[trigger] order[t] < files.len()
        && deleted[t] == files[order[t] as int].path@ by {
        assert(order[t] < files.len());
    }
    assert forall|t: int| 0 <= t < deleted.len() implies exists|j: int|
        0 <= j < files.len() && #[trigger] deleted[t] == files[j].path@ by {
        assert(order[t] < files.len());
        assert(deleted[t] == files[order[t] as int].path@);
    }
    if forall|a: int, b: int| 0 <= a < b < files.len() ==> #[trigger] files[a].path@ != #[trigger] files[b].path@ {
        assert forall|a: int, b: int| 0 <= a < deleted.len() && 0 <= b < deleted.len() && a != b implies deleted[a]
            != deleted[b] by {
            let ia = order[a] as int;
            let ib = order[b] as int;
            assert(deleted[a] == files[ia].path@);
            assert(deleted[b] == files[ib].path@);
            if a < b {
                assert(order[a] != order[b]);
            } else {
                assert(order[b] != order[a]);
            }
            if ia < ib {
                assert(files[ia].path@ != files[ib].path@);
            } else {
                assert(files[ib].path@ != files[ia].path@);
            }
        }
    }
}

/// Once the first phase is over, every file past its retention has been
/// dealt with: it was deleted, with its path in the report, or it was offered
/// and not deleted (its deletion failed, or the offer was dropped). So a run
/// whose deletions all succeed, and whose offers are all answered, deletes
/// every expired file before it deletes anything by size.
pub proof fn lemma_expired_files_handled(run: &CleanupRun)
    requires
        run.wf(),
        run@.by_size,
    ensures
        forall|t: int| 0 <= t < run.expired_files().len() ==> {
            ||| run@.deleted.contains(run@.files[#[trigger] run.expired_files()[t] as int].path@)
            ||| run.unremoved(run.expired_files()[t])
        },
{
    let expired = run.expired@;
    let flags = run.deleted_flags@;
    assert forall|t: int| 0 <= t < expired.len() implies {
        ||| run@.deleted.contains(run@.files[#[trigger] expired[t] as int].path@)
        ||| run.unremoved(expired[t])
    } by {
        if flags[expired[t] as int] {
            assert(texts(run.report.deleted_files@).contains(run.files@[expired[t] as int].path@));
        }
    }
}

/// In the second phase the files go in deletion order, and every file
/// offered so far, other than one whose outcome is still to be reported, has
/// been dealt with: deleted, with its path in the report, or offered and not
/// deleted. So where every deletion succeeds, a file is deleted by size only
/// after every file that comes before it in deletion order.
pub proof fn lemma_size_phase_handled(run: &CleanupRun)
    requires
        run.wf(),
        run@.by_size,
    ensures
        forall|t: int| 0 <= t < (if run@.pending is Some { run@.pos - 1 } else { run@.pos as int }) ==> {
            ||| run@.deleted.contains(run@.files[#[trigger] run@.queue[t] as int].path@)
            ||| run.unremoved(run@.queue[t])
        },
{
    let q = run.queue@;
    let flags = run.deleted_flags@;
    assert forall|t: int| 0 <= t < (if run@.pending is Some { run@.pos - 1 } else { run@.pos as int }) implies {
        ||| run@.deleted.contains(run@.files[#[trigger] q[t] as int].path@)
        ||| run.unremoved(q[t])
    } by {
        if flags[q[t] as int] {
            assert(texts(run.report.deleted_files@).contains(run.files@[q[t] as int].path@));
        }
    }
}

/// A whole run, from `new` until `next` has no more to offer, in which
/// every offered file was deleted: every file past its retention was deleted
/// and is listed in the report, every file the second phase offered was
/// deleted and is listed, in deletion order, and the second phase stopped
/// only once it had offered its whole queue or no more than the target size
/// was left.
pub proof fn lemma_finished_run(run: &CleanupRun)
    requires
        run.wf(),
        run_ended(run@),
        forall|i: usize| i < run@.files.len() ==> !#[trigger] run.unremoved(i),
    ensures
        forall|t: int| 0 <= t < run.expired_files().len() ==> run@.deleted.contains(
            run@.files[#[trigger] run.expired_files()[t] as int].path@,
        ),
        forall|t: int| 0 <= t < run@.pos ==> run@.deleted.contains(run@.files[#[trigger] run@.queue[t] as int].path@),
        run@.pos >= run@.queue.len() || run@.current_size <= run@.target_size,
{
    lemma_expired_files_handled(run);
    lemma_size_phase_handled(run);
    let e = run.expired_files();
    let q = run@.queue;
    assert forall|t: int| 0 <= t < e.len() implies run@.deleted.contains(run@.files[#[trigger] e[t] as int].path@) by {
        assert(e[t] < run@.files.len());
        assert(!run.unremoved(e[t]));
    }
    assert forall|t: int| 0 <= t < run@.pos implies run@.deleted.contains(run@.files[#[trigger] q[t] as int].path@) by {
        assert(q[t] < run@.files.len());
        assert(!run.unremoved(q[t]));
    }
}

} // verus!
