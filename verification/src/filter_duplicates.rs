//! Narrowing the files down to those that may be duplicated: by size, by the hash
//! of their first bytes and by the hash of their whole content.
use crate::file_record;
use crate::file_record::{ByHash4096, BySize, FileRecord};
use crate::grouping;
use crate::grouping::{find_duplicates_by, flattened};
use crate::selection::{retain, Test};
use vstd::prelude::*;

verus! {

/// How many of the first bytes of a file the short hash covers.
pub const PREFIX_SIZE: i64 = 4096;

/// How many updates are stored before they are committed, in the first step.
pub const SHORT_COMMIT_LIMIT: i32 = 15_000;

/// How many updates are stored before they are committed, in the second step.
pub const FULL_COMMIT_LIMIT: i32 = 5_000;

/// After how many nanoseconds the stored updates are committed.
pub const COMMIT_NANOS: u128 = 5_000_000_000;

/// The files that are not empty.
pub open spec fn not_empty() -> spec_fn(FileRecord) -> bool {
    |f: FileRecord| f.size > 0
}

/// The files of which the hash of the first bytes is known.
pub open spec fn has_hash_4096() -> spec_fn(FileRecord) -> bool {
    |f: FileRecord| f.hash_4096 is Some
}

/// The files of which the hash of the content is known.
pub open spec fn has_hash() -> spec_fn(FileRecord) -> bool {
    |f: FileRecord| f.hash is Some
}

/// Passes files that are not empty.
pub struct NotEmpty;

/// Passes files of which the hash of the first bytes is known.
pub struct HasHash4096;

/// Passes files of which the hash of the content is known.
pub struct HasHash;

impl Test<FileRecord> for NotEmpty {
    open spec fn passing(&self) -> spec_fn(FileRecord) -> bool {
        not_empty()
    }

    fn passes(&self, item: &FileRecord) -> (passed: bool) {
        item.size > 0
    }
}

impl Test<FileRecord> for HasHash4096 {
    open spec fn passing(&self) -> spec_fn(FileRecord) -> bool {
        has_hash_4096()
    }

    fn passes(&self, item: &FileRecord) -> (passed: bool) {
        item.hash_4096.is_some()
    }
}

impl Test<FileRecord> for HasHash {
    open spec fn passing(&self) -> spec_fn(FileRecord) -> bool {
        has_hash()
    }

    fn passes(&self, item: &FileRecord) -> (passed: bool) {
        item.hash.is_some()
    }
}

impl<'a> Test<&'a FileRecord> for HasHash {
    open spec fn passing(&self) -> spec_fn(&'a FileRecord) -> bool {
        |f: &'a FileRecord| has_hash()(*f)
    }

    fn passes(&self, item: &&'a FileRecord) -> (passed: bool) {
        item.hash.is_some()
    }
}

/// The files that have another file of their size, without the empty ones.
pub open spec fn size_candidates(files: Seq<FileRecord>) -> Seq<FileRecord> {
    grouping::duplicate_groups(file_record::by_size(), files.filter(not_empty())).flatten()
}

/// The files that have another file with the same first bytes, as far as the
/// hashes of these are known.
pub open spec fn prefix_candidates(files: Seq<FileRecord>) -> Seq<FileRecord> {
    grouping::duplicate_groups(
        file_record::by_hash_4096(),
        files.filter(has_hash_4096()),
    ).flatten()
}

/// What of the files is hashed.
#[derive(Debug, Clone, Copy, PartialEq, Eq, Structural)]
pub enum HashStage {
    /// The first bytes.
    Short,
    /// The whole content.
    Full,
}

impl HashStage {
    /// The hash of this stage is not known of `file`.
    pub open spec fn is_missing(self, file: FileRecord) -> bool {
        match self {
            HashStage::Short => file.hash_4096 is None,
            HashStage::Full => file.hash is None,
        }
    }

    /// How many updates are stored before they are committed.
    pub open spec fn limit(self) -> int {
        match self {
            HashStage::Short => SHORT_COMMIT_LIMIT as int,
            HashStage::Full => FULL_COMMIT_LIMIT as int,
        }
    }

    /// `file` with its hash: the hash of the first bytes of a file that has no
    /// others is also that of its content.
    pub open spec fn with_hash(self, file: FileRecord, hash: String) -> FileRecord {
        match self {
            HashStage::Short => FileRecord {
                hash_4096: Some(hash),
                hash: if file.size <= PREFIX_SIZE {
                    Some(hash)
                } else {
                    file.hash
                },
                ..file
            },
            HashStage::Full => FileRecord { hash: Some(hash), ..file },
        }
    }
}

/// The positions below `n` of the files whose hash is not known.
pub open spec fn missing_below(stage: HashStage, files: Seq<FileRecord>, n: int) -> Seq<usize>
    decreases n,
{
    if n <= 0 {
        Seq::empty()
    } else {
        let rest = missing_below(stage, files, n - 1);
        if stage.is_missing(files[n - 1]) {
            rest.push((n - 1) as usize)
        } else {
            rest
        }
    }
}

/// The positions of the files whose hash is not known.
pub open spec fn missing(stage: HashStage, files: Seq<FileRecord>) -> Seq<usize> {
    missing_below(stage, files, files.len() as int)
}

/// The files after one file was hashed: where that succeeded, the file at position
/// `at` has its hash.
pub open spec fn hashed_one(
    stage: HashStage,
    files: Seq<FileRecord>,
    at: int,
    hash: Option<String>,
) -> Seq<FileRecord> {
    match hash {
        Some(hash) => files.update(at, stage.with_hash(files[at], hash)),
        None => files,
    }
}

/// The files after the files at the positions `at` were hashed, one after the other.
pub open spec fn hashed_all(
    stage: HashStage,
    files: Seq<FileRecord>,
    at: Seq<usize>,
    hashes: Seq<Option<String>>,
) -> Seq<FileRecord>
    decreases hashes.len(),
{
    if hashes.len() == 0 {
        files
    } else {
        hashed_one(
            stage,
            hashed_all(stage, files, at, hashes.drop_last()),
            at[hashes.len() - 1] as int,
            hashes.last(),
        )
    }
}

/// A pass over files in which those with an unknown hash are hashed, one after the
/// other, and stored.
pub struct HashPass {
    stage: HashStage,
    files: Vec<FileRecord>,
    pending: Vec<usize>,
    done: usize,
    num_commands: i32,
}

/// What a pass stands for.
#[verifier::ext_equal]
pub struct PassModel {
    /// What is hashed.
    pub stage: HashStage,
    /// The files, as far as they are known now.
    pub files: Seq<FileRecord>,
    /// The positions of the files that the pass hashes.
    pub pending: Seq<usize>,
    /// How many of these were hashed.
    pub done: int,
    /// How many updates were stored since the last commit.
    pub num_commands: int,
}

impl View for HashPass {
    type V = PassModel;

    closed spec fn view(&self) -> PassModel {
        PassModel {
            stage: self.stage,
            files: self.files@,
            pending: self.pending@,
            done: self.done as int,
            num_commands: self.num_commands as int,
        }
    }
}

impl PassModel {
    /// The pass that starts on `files`.
    pub open spec fn start(stage: HashStage, files: Seq<FileRecord>) -> PassModel {
        PassModel { stage, files, pending: missing(stage, files), done: 0, num_commands: 0 }
    }

    /// What holds of every pass.
    pub open spec fn valid(self) -> bool {
        &&& 0 <= self.done <= self.pending.len()
        &&& 0 <= self.num_commands < self.stage.limit()
        &&& self.files.len() <= usize::MAX
        &&& forall|k: int| 0 <= k < self.pending.len() ==> #[trigger] self.pending[k] < self.files.len()
        &&& forall|j: int, k: int|
            0 <= j < k < self.pending.len() ==> #[trigger] self.pending[j] < #[trigger] self.pending[k]
        &&& forall|k: int|
            self.done <= k < self.pending.len() ==> self.stage.is_missing(
                self.files[#[trigger] self.pending[k] as int],
            )
    }

    /// The position of the file that is hashed next.
    pub open spec fn next(self) -> Option<usize> {
        if 0 <= self.done < self.pending.len() {
            Some(self.pending[self.done])
        } else {
            None
        }
    }

    /// The pass after its next file was hashed.
    pub open spec fn hashed(self, hash: Option<String>) -> PassModel {
        match self.next() {
            Some(at) => PassModel {
                files: hashed_one(self.stage, self.files, at as int, hash),
                done: self.done + 1,
                ..self
            },
            None => self,
        }
    }

    /// The updates are committed after one more is stored: they are as many as the
    /// limit, or the last commit is too long ago.
    pub open spec fn commits(self, elapsed_nanos: u128) -> bool {
        self.num_commands + 1 >= self.stage.limit() || elapsed_nanos > COMMIT_NANOS
    }

    /// The pass after an update was stored.
    pub open spec fn stored(self, elapsed_nanos: u128) -> PassModel {
        PassModel {
            num_commands: if self.commits(elapsed_nanos) {
                0
            } else {
                self.num_commands + 1
            },
            ..self
        }
    }
}

/// The size of the files at the positions, together.
pub open spec fn sizes_at(files: Seq<FileRecord>, at: Seq<usize>) -> int
    decreases at.len(),
{
    if at.len() == 0 {
        0
    } else {
        sizes_at(files, at.drop_last()) + files[at.last() as int].size
    }
}

/// What happens in a pass.
pub enum PassEvent {
    /// The next file was hashed; the hash is `None` where it could not be read.
    Hashed(Option<String>),
    /// An update was stored, so many nanoseconds after the last commit.
    Stored(u128),
}

/// The hashes among the events.
pub open spec fn hashes_of(events: Seq<PassEvent>) -> Seq<Option<String>>
    decreases events.len(),
{
    if events.len() == 0 {
        Seq::empty()
    } else {
        let rest = hashes_of(events.drop_last());
        match events.last() {
            PassEvent::Hashed(hash) => rest.push(hash),
            PassEvent::Stored(_) => rest,
        }
    }
}

impl PassModel {
    /// The pass after the events.
    pub open spec fn after(self, events: Seq<PassEvent>) -> PassModel
        decreases events.len(),
    {
        if events.len() == 0 {
            self
        } else {
            let before = self.after(events.drop_last());
            match events.last() {
                PassEvent::Hashed(hash) => before.hashed(hash),
                PassEvent::Stored(elapsed_nanos) => before.stored(elapsed_nanos),
            }
        }
    }
}

proof fn lemma_missing_below(stage: HashStage, files: Seq<FileRecord>, n: int)
    requires
        0 <= n <= files.len(),
        files.len() <= usize::MAX,
    ensures
        forall|k: int|
            0 <= k < missing_below(stage, files, n).len() ==> (#[trigger] missing_below(
                stage,
                files,
                n,
            )[k]) < n && stage.is_missing(files[missing_below(stage, files, n)[k] as int]),
        forall|j: int, k: int|
            0 <= j < k < missing_below(stage, files, n).len() ==> (#[trigger] missing_below(
                stage,
                files,
                n,
            )[j]) < (#[trigger] missing_below(stage, files, n)[k]),
        forall|i: int|
            0 <= i < n && stage.is_missing(#[trigger] files[i]) ==> missing_below(
                stage,
                files,
                n,
            ).contains(i as usize),
    decreases n,
{
    if n > 0 {
        lemma_missing_below(stage, files, n - 1);
        let rest = missing_below(stage, files, n - 1);
        let all = missing_below(stage, files, n);
        assert forall|i: int| 0 <= i < n && stage.is_missing(#[trigger] files[i]) implies all.contains(
            i as usize,
        ) by {
            if i < n - 1 {
                assert(rest.contains(i as usize));
                let k = choose|k: int| 0 <= k < rest.len() && rest[k] == i as usize;
                assert(all[k] == i as usize);
            } else {
                assert(all[rest.len() as int] == i as usize);
            }
        }
    }
}

/// The positions of the files whose hash is not known are those and no others, in
/// ascending order.
pub proof fn missing_are_the_files_without_hash(stage: HashStage, files: Seq<FileRecord>)
    requires
        files.len() <= usize::MAX,
    ensures
        forall|i: usize| #[trigger]
            missing(stage, files).contains(i) <==> i < files.len() && stage.is_missing(
                files[i as int],
            ),
        forall|j: int, k: int|
            0 <= j < k < missing(stage, files).len() ==> (#[trigger] missing(stage, files)[j])
                < (#[trigger] missing(stage, files)[k]),
{
    lemma_missing_below(stage, files, files.len() as int);
    assert forall|i: usize| #[trigger]
        missing(stage, files).contains(i) <==> i < files.len() && stage.is_missing(
            files[i as int],
        ) by {
        if i < files.len() && stage.is_missing(files[i as int]) {
            assert(missing(stage, files).contains(i as int as usize));
        }
    }
}

fn start_pass(stage: HashStage, files: Vec<FileRecord>) -> (pass: HashPass)
    ensures
        pass@ == PassModel::start(stage, files@),
        pass@.valid(),
{
    let mut pending: Vec<usize> = Vec::new();
    let mut i: usize = 0;
    while i < files.len()
        invariant
            i <= files@.len(),
            pending@ == missing_below(stage, files@, i as int),
        decreases files@.len() - i,
    {
        let is_missing = match stage {
            HashStage::Short => files[i].hash_4096.is_none(),
            HashStage::Full => files[i].hash.is_none(),
        };
        if is_missing {
            pending.push(i);
        }
        i = i + 1;
    }
    proof {
        lemma_missing_below(stage, files@, files@.len() as int);
    }
    HashPass { stage, files, pending, done: 0, num_commands: 0 }
}

/// Keeps the files that have another file of their size, and starts to hash the
/// first bytes of those of which that hash is not known.
pub fn step1(files: Vec<FileRecord>) -> (pass: HashPass)
    ensures
        pass@ == PassModel::start(HashStage::Short, size_candidates(files@)),
        pass@.valid(),
{
    let files = retain(&NotEmpty, files);
    let files = flattened(find_duplicates_by(&BySize, files));
    start_pass(HashStage::Short, files)
}

/// Keeps the files that have another file with the same first bytes, and starts to
/// hash the content of those of which that hash is not known.
pub fn step2(files: Vec<FileRecord>) -> (pass: HashPass)
    ensures
        pass@ == PassModel::start(HashStage::Full, prefix_candidates(files@)),
        pass@.valid(),
{
    let files = retain(&HasHash4096, files);
    let files = flattened(find_duplicates_by(&ByHash4096, files));
    start_pass(HashStage::Full, files)
}

impl HashPass {
    /// The files.
    pub fn files(&self) -> (files: &Vec<FileRecord>)
        ensures
            files@ == self@.files,
    {
        &self.files
    }

    /// The positions of the files that the pass hashes.
    pub fn pending(&self) -> (pending: &Vec<usize>)
        ensures
            pending@ == self@.pending,
    {
        &self.pending
    }

    /// The size of the files that the pass hashes, together.
    pub fn pending_size(&self) -> (size: i128)
        requires
            self@.valid(),
        ensures
            size == sizes_at(self@.files, self@.pending),
    {
        let mut size: i128 = 0;
        let mut i: usize = 0;
        while i < self.pending.len()
            invariant
                self@.valid(),
                i <= self.pending@.len(),
                size == sizes_at(self.files@, self.pending@.take(i as int)),
                -(0x8000_0000_0000_0000 * i) <= size <= 0x8000_0000_0000_0000 * i,
            decreases self.pending@.len() - i,
        {
            proof {
                assert(self@.pending[i as int] < self@.files.len());
                assert(self.pending@.take(i + 1).drop_last() =~= self.pending@.take(i as int));
            }
            size = size + self.files[self.pending[i]].size as i128;
            i = i + 1;
        }
        proof {
            assert(self.pending@.take(i as int) =~= self.pending@);
        }
        size
    }

    /// How many updates were stored since the last commit.
    pub fn num_commands(&self) -> (num_commands: i32)
        ensures
            num_commands == self@.num_commands,
    {
        self.num_commands
    }

    /// The position of the file that is hashed next.
    pub fn next(&self) -> (next: Option<usize>)
        ensures
            next == self@.next(),
    {
        if self.done < self.pending.len() {
            Some(self.pending[self.done])
        } else {
            None
        }
    }

    /// Takes the hash of the next file, or `None` where it could not be read.
    /// Returns the position of the file where it is to be stored.
    pub fn hashed(&mut self, hash: Option<String>) -> (store: Option<usize>)
        requires
            old(self)@.valid(),
        ensures
            final(self)@ == old(self)@.hashed(hash),
            final(self)@.valid(),
            store == if hash is Some {
                old(self)@.next()
            } else {
                None
            },
    {
        if self.done >= self.pending.len() {
            return None;
        }
        let ghost before = self@;
        let at = self.pending[self.done];
        self.done = self.done + 1;
        match hash {
            Some(hash) => {
                match self.stage {
                    HashStage::Short => {
                        self.files[at].hash_4096 = Some(hash.clone());
                        if self.files[at].size <= PREFIX_SIZE {
                            self.files[at].hash = Some(hash);
                        }
                    },
                    HashStage::Full => {
                        self.files[at].hash = Some(hash);
                    },
                }
                proof {
                    assert(self@.files =~= before.hashed(Some(hash)).files);
                }
                Some(at)
            },
            None => None,
        }
    }

    /// Counts an update that was stored, `elapsed_nanos` nanoseconds after the last
    /// commit. Returns whether the updates are to be committed now.
    pub fn stored(&mut self, elapsed_nanos: u128) -> (commit: bool)
        requires
            old(self)@.valid(),
        ensures
            commit == old(self)@.commits(elapsed_nanos),
            final(self)@ == old(self)@.stored(elapsed_nanos),
            final(self)@.valid(),
    {
        let limit = match self.stage {
            HashStage::Short => SHORT_COMMIT_LIMIT,
            HashStage::Full => FULL_COMMIT_LIMIT,
        };
        let commit = self.num_commands + 1 >= limit || elapsed_nanos > COMMIT_NANOS;
        self.num_commands = if commit {
            0
        } else {
            self.num_commands + 1
        };
        commit
    }

    /// Ends the pass.
    pub fn into_files(self) -> (files: Vec<FileRecord>)
        ensures
            files@ == self@.files,
    {
        self.files
    }
}

/// Whatever is stored and committed in between, a pass hands each file without a
/// hash out once, in order, and gives it the hash that comes back.
pub proof fn a_pass_hashes_each_missing_file_once(
    stage: HashStage,
    files: Seq<FileRecord>,
    events: Seq<PassEvent>,
)
    requires
        files.len() <= usize::MAX,
        hashes_of(events).len() <= missing(stage, files).len(),
    ensures
        ({
            let pass = PassModel::start(stage, files).after(events);
            let hashes = hashes_of(events);
            let at = missing(stage, files);
            &&& pass.stage == stage
            &&& pass.pending == at
            &&& pass.done == hashes.len()
            &&& pass.files == hashed_all(stage, files, at, hashes)
            &&& pass.next() == if hashes.len() < at.len() {
                Some(at[hashes.len() as int])
            } else {
                None
            }
        }),
    decreases events.len(),
{
    if events.len() > 0 {
        a_pass_hashes_each_missing_file_once(stage, files, events.drop_last());
        if let PassEvent::Hashed(hash) = events.last() {
            assert(hashes_of(events).drop_last() =~= hashes_of(events.drop_last()));
        }
    }
}

} // verus!
